use bamboo::buffer::RawUser;
use bamboo::page::{BufferPage, ItemIdData, RawPage};

#[test]
fn line_pointer_offset_is_upper_half() {
    assert_eq!(ItemIdData(0x1234_5678).lp_off(), 0x1234);
    assert_eq!(ItemIdData(0xffff).lp_off(), 0);
}

#[test]
fn raw_user_bytes_are_writable() {
    let mut u = RawUser { buf: [0; 21] };
    u.as_bytes_mut()[0] = 10;
    u.as_bytes_mut()[10] = 10;
    assert_eq!(u.buf[0], 10);
    assert_eq!(u.buf[10], 10);
}

#[test]
fn pages_start_empty() {
    let p: BufferPage<Vec<u8>> = BufferPage::new();
    assert_eq!(p.idx.len(), 0);
    assert_eq!(p.datum.len(), 0);
    assert_eq!(p.pd_lower, 0);
    let mut raw = [1u8; 8];
    let q: BufferPage<Vec<u8>> = BufferPage::from_buffer(&mut raw);
    assert_eq!(q.datum.len(), 0);
    let m = [9u8; 4];
    assert_eq!(RawPage::from_mmap(&m).0, &m[..]);
}
