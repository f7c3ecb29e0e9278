//! A read position over a borrowed byte buffer, with the scanning helpers
//! shared by frame checking and frame parsing.
use vstd::prelude::*;
use vstd::slice::slice_subrange;
use crate::grammar::{all_digits, decimal_of, digits_value, find_crlf, is_digit, le_u32};

verus! {

/// Why no frame could be read at a position.
#[derive(Debug)]
pub enum Error {
    /// Not enough data is available to read a whole frame.
    Incomplete,
    /// The bytes break the protocol grammar.
    Other(String),
}

impl Error {
    /// The error's message.
    pub fn to_string(&self) -> (r: String)
        ensures
            r@ == match self {
                Error::Incomplete => "stream ended early"@,
                Error::Other(m) => m@,
            },
    {
        match self {
            Error::Incomplete => String::from_str("stream ended early"),
            Error::Other(m) => m.clone(),
        }
    }
}

/// The result is the signal that more bytes are needed.
pub open spec fn incomplete<T>(r: Result<T, Error>) -> bool {
    r matches Err(Error::Incomplete)
}

/// The result is a protocol violation.
pub open spec fn malformed<T>(r: Result<T, Error>) -> bool {
    r matches Err(Error::Other(_))
}

/// A buffer that is read from, and the position of the next unread byte.
pub struct Cursor<'a> {
    pub buf: &'a [u8],
    pub pos: usize,
}

impl<'a> Cursor<'a> {
    pub open spec fn wf(&self) -> bool {
        self.pos <= self.buf@.len() <= usize::MAX
    }

    /// A cursor at the start of `buf`.
    pub fn new(buf: &'a [u8]) -> (r: Cursor<'a>)
        ensures
            r.wf(),
            r.buf@ == buf@,
            r.pos == 0,
    {
        let _ = buf.len();
        Cursor { buf, pos: 0 }
    }

    /// The number of bytes not yet read.
    pub fn remaining(&self) -> (r: usize)
        requires
            self.wf(),
        ensures
            r == self.buf@.len() - self.pos,
    {
        self.buf.len() - self.pos
    }
}

/// The next unread byte, without consuming it.
pub fn peek_u8(src: &mut Cursor) -> (r: Result<u8, Error>)
    requires
        old(src).wf(),
    ensures
        *final(src) == *old(src),
        old(src).pos < old(src).buf@.len() ==> r == Ok::<u8, Error>(old(src).buf@[old(src).pos as int]),
        old(src).pos >= old(src).buf@.len() ==> incomplete(r),
{
    if src.pos >= src.buf.len() {
        return Err(Error::Incomplete);
    }
    Ok(src.buf[src.pos])
}

/// The next unread byte, consumed.
pub fn get_u8(src: &mut Cursor) -> (r: Result<u8, Error>)
    requires
        old(src).wf(),
    ensures
        final(src).wf(),
        final(src).buf == old(src).buf,
        old(src).pos < old(src).buf@.len() ==> r == Ok::<u8, Error>(old(src).buf@[old(src).pos as int])
            && final(src).pos == old(src).pos + 1,
        old(src).pos >= old(src).buf@.len() ==> incomplete(r) && final(src).pos == old(src).pos,
{
    if src.pos >= src.buf.len() {
        return Err(Error::Incomplete);
    }
    let b = src.buf[src.pos];
    src.pos = src.pos + 1;
    Ok(b)
}

/// Advances past `n` bytes; leaves the position where it was when fewer remain.
pub fn skip(src: &mut Cursor, n: usize) -> (r: Result<(), Error>)
    requires
        old(src).wf(),
    ensures
        final(src).wf(),
        final(src).buf == old(src).buf,
        old(src).pos + n <= old(src).buf@.len() ==> r is Ok && final(src).pos == old(src).pos + n,
        old(src).pos + n > old(src).buf@.len() ==> incomplete(r) && final(src).pos == old(src).pos,
{
    if src.buf.len() - src.pos < n {
        return Err(Error::Incomplete);
    }
    src.pos = src.pos + n;
    Ok(())
}

/// The bytes up to the next `\r\n`, after which the position then stands.
pub fn get_line<'a>(src: &mut Cursor<'a>) -> (r: Result<&'a [u8], Error>)
    requires
        old(src).wf(),
    ensures
        final(src).wf(),
        final(src).buf == old(src).buf,
        match find_crlf(old(src).buf@, old(src).pos as int) {
            Some(i) => r is Ok && r->Ok_0@ == old(src).buf@.subrange(old(src).pos as int, i)
                && final(src).pos == i + 2,
            None => incomplete(r) && final(src).pos == old(src).pos,
        },
{
    let buf = src.buf;
    let start = src.pos;
    let mut i = start;
    while buf.len() - i >= 2
        invariant
            *src == *old(src),
            buf == src.buf,
            start == src.pos,
            start <= i <= buf@.len(),
            find_crlf(buf@, start as int) == find_crlf(buf@, i as int),
        decreases buf@.len() - i,
    {
        if buf[i] == 13 && buf[i + 1] == 10 {
            src.pos = i + 2;
            return Ok(slice_subrange(buf, start, i));
        }
        i = i + 1;
    }
    Err(Error::Incomplete)
}

/// Relies on atoi's `FromRadix10Checked::from_radix_10_checked` for `u64`: it
/// reads the leading run of ASCII digits and returns the run's length, with the
/// number that the run denotes unless that number overflows 64 bits.
#[verifier::external_body]
fn leading_decimal(text: &[u8]) -> (r: (Option<u64>, usize))
    ensures
        r.1 <= text@.len(),
        all_digits(text@.take(r.1 as int)),
        r.1 < text@.len() ==> !is_digit(text@[r.1 as int]),
        r.0 == (if digits_value(text@.take(r.1 as int)) <= u64::MAX {
            Some(digits_value(text@.take(r.1 as int)) as u64)
        } else {
            None
        }),
{
    <u64 as atoi::FromRadix10Checked>::from_radix_10_checked(text)
}

/// Reads a line and the unsigned decimal number that it must hold.
pub fn get_decimal(src: &mut Cursor) -> (r: Result<u64, Error>)
    requires
        old(src).wf(),
    ensures
        final(src).wf(),
        final(src).buf == old(src).buf,
        match find_crlf(old(src).buf@, old(src).pos as int) {
            Some(i) => final(src).pos == i + 2 && match decimal_of(
                old(src).buf@.subrange(old(src).pos as int, i),
            ) {
                Some(v) => r == Ok::<u64, Error>(v),
                None => malformed(r),
            },
            None => incomplete(r) && final(src).pos == old(src).pos,
        },
{
    let line = get_line(src)?;
    let (value, used) = leading_decimal(line);
    if used == 0 || used != line.len() {
        proof {
            if used != 0 && used < line@.len() {
                assert(!all_digits(line@));
            }
        }
        return Err(Error::Other(String::from_str("protocol error; invalid frame format")));
    }
    assert(line@.take(used as int) =~= line@);
    match value {
        Some(v) => Ok(v),
        None => Err(Error::Other(String::from_str("protocol error; invalid frame format"))),
    }
}

/// The length field of a length-prefixed frame, the four little-endian bytes
/// at the position, once the whole payload that it announces is buffered.
/// The position does not move.
pub fn get_length_info(src: &mut Cursor) -> (r: Result<u32, Error>)
    requires
        old(src).wf(),
    ensures
        *final(src) == *old(src),
        ({
            let b = old(src).buf@;
            let q = old(src).pos as int;
            if q + 4 > b.len() || q + 4 + le_u32(b, q) > b.len() {
                incomplete(r)
            } else {
                r is Ok && r->Ok_0 == le_u32(b, q)
            }
        }),
{
    let q = src.pos;
    if src.buf.len() - q < 4 {
        return Err(Error::Incomplete);
    }
    let len: u32 = (src.buf[q] as u32) + (src.buf[q + 1] as u32) * 256 + (src.buf[q + 2] as u32)
        * 65536 + (src.buf[q + 3] as u32) * 16777216;
    if src.buf.len() - q - 4 < len as usize {
        return Err(Error::Incomplete);
    }
    Ok(len)
}

/// The payload of a length-prefixed frame, after which the position then stands.
pub fn get_vec_of_length<'a>(src: &mut Cursor<'a>) -> (r: Result<&'a [u8], Error>)
    requires
        old(src).wf(),
    ensures
        final(src).wf(),
        final(src).buf == old(src).buf,
        ({
            let b = old(src).buf@;
            let q = old(src).pos as int;
            if q + 4 > b.len() || q + 4 + le_u32(b, q) > b.len() {
                incomplete(r) && final(src).pos == old(src).pos
            } else {
                r is Ok && r->Ok_0@ == b.subrange(q + 4, q + 4 + le_u32(b, q)) && final(src).pos
                    == q + 4 + le_u32(b, q)
            }
        }),
{
    let len = match get_length_info(src) {
        Ok(len) => len,
        Err(e) => return Err(e),
    };
    let total: usize = src.buf.len();
    assert(src.pos + 4 + len <= total);
    let start = src.pos + 4;
    let end = start + len as usize;
    src.pos = end;
    Ok(slice_subrange(src.buf, start, end))
}

} // verus!
