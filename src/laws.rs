//! Properties of the wire grammar that relate several readings of a buffer.
use vstd::prelude::*;
use vstd::utf8::{encode_utf8, encode_utf8_decode_utf8, encode_utf8_valid_utf8};
use crate::grammar::{
    all_digits, crlf, decimal_digits, digits_value, no_crlf, wire_form,
    check_frame, check_frames, decimal_of, find_crlf, le_u32, lemma_find_crlf_bounds, parse_frame,
    parse_frames, prepend, lemma_prepend_one, FrameModel, Step,
};

verus! {

/// Two outcomes agree: both end a frame at the same position, or both ask
/// for more bytes, or both reject the bytes.
pub open spec fn same_outcome<A, B>(x: Step<A>, y: Step<B>) -> bool {
    match (x, y) {
        (Step::Done(_, e1), Step::Done(_, e2)) => e1 == e2,
        (Step::Incomplete, Step::Incomplete) => true,
        (Step::Malformed, Step::Malformed) => true,
        _ => false,
    }
}

/// Checking and parsing agree on every buffer and position: `check` succeeds
/// exactly when `parse` does, both read up to the same position, and they
/// fail the same way.
pub proof fn lemma_check_parse_agree(b: Seq<u8>, p: int)
    ensures
        same_outcome(check_frame(b, p), parse_frame(b, p)),
    decreases b.len() - p, 0int,
{
    if 0 <= p < b.len() {
        let q = p + 1;
        lemma_find_crlf_bounds(b, q);
        if let Some(i) = find_crlf(b, q) {
            if let Some(n) = crate::grammar::decimal_of(b.subrange(q, i)) {
                if n <= usize::MAX {
                    lemma_check_parse_agree_frames(b, i + 2, n as nat);
                }
            }
        }
    }
}

/// Checking and parsing a run of `n` frames agree, as `lemma_check_parse_agree`.
pub proof fn lemma_check_parse_agree_frames(b: Seq<u8>, p: int, n: nat)
    ensures
        same_outcome(check_frames(b, p, n), parse_frames(b, p, n)),
    decreases b.len() - p, 1int + n,
{
    if n > 0 && 0 <= p < b.len() {
        lemma_check_parse_agree(b, p);
        if let Step::Done(_, e) = check_frame(b, p) {
            if p < e <= b.len() {
                lemma_check_parse_agree_frames(b, e, (n - 1) as nat);
            }
        }
    }
}

/// `b` and `c` hold the same bytes at every index of `[lo, hi)`.
pub open spec fn agree_on(b: Seq<u8>, c: Seq<u8>, lo: int, hi: int) -> bool {
    &&& 0 <= lo
    &&& hi <= b.len()
    &&& hi <= c.len()
    &&& forall|j: int| lo <= j < hi ==> b[j] == c[j]
}

proof fn lemma_find_crlf_agree(b: Seq<u8>, c: Seq<u8>, q: int, i: int)
    requires
        find_crlf(b, q) == Some(i),
        agree_on(b, c, q, i + 2),
    ensures
        find_crlf(c, q) == Some(i),
    decreases i - q,
{
    lemma_find_crlf_bounds(b, q);
    if q < i {
        lemma_find_crlf_agree(b, c, q + 1, i);
    }
}

proof fn lemma_find_crlf_cut(b: Seq<u8>, k: int, j: int, i: int)
    requires
        0 <= j <= i,
        0 <= k < i + 2,
        find_crlf(b, j) == Some(i),
    ensures
        find_crlf(b.take(k), j) is None,
    decreases i - j,
{
    lemma_find_crlf_bounds(b, j);
    if j + 1 < k {
        lemma_find_crlf_cut(b, k, j + 1, i);
    }
}

/// A whole frame, or a whole run of frames, ends after its start and within the buffer.
pub proof fn lemma_parse_bounds(b: Seq<u8>, p: int)
    ensures
        parse_frame(b, p) matches Step::Done(_, e) ==> p < e <= b.len(),
    decreases b.len() - p, 0int,
{
    if 0 <= p < b.len() {
        let q = p + 1;
        lemma_find_crlf_bounds(b, q);
        if let Some(i) = find_crlf(b, q) {
            if let Some(n) = decimal_of(b.subrange(q, i)) {
                if n <= usize::MAX {
                    lemma_parse_bounds_frames(b, i + 2, n as nat);
                }
            }
        }
    }
}

pub proof fn lemma_parse_bounds_frames(b: Seq<u8>, p: int, n: nat)
    ensures
        parse_frames(b, p, n) matches Step::Done(fs, e) ==> p <= e && fs.len() == n && (n > 0 ==> e
            <= b.len()),
    decreases b.len() - p, 1int + n,
{
    if n > 0 && 0 <= p < b.len() {
        lemma_parse_bounds(b, p);
        if let Step::Done(_, e) = parse_frame(b, p) {
            if p < e <= b.len() {
                lemma_parse_bounds_frames(b, e, (n - 1) as nat);
            }
        }
    }
}

/// A whole frame depends only on the bytes it spans: any buffer that holds the
/// same bytes there gives the same frame, ending at the same position.
pub proof fn lemma_parse_local(b: Seq<u8>, c: Seq<u8>, p: int)
    requires
        parse_frame(b, p) is Done,
        agree_on(b, c, p, parse_frame(b, p)->Done_1),
    ensures
        parse_frame(c, p) == parse_frame(b, p),
    decreases b.len() - p, 0int,
{
    let e = parse_frame(b, p)->Done_1;
    lemma_parse_bounds(b, p);
    let q = p + 1;
    lemma_find_crlf_bounds(b, q);
    assert(c[p] == b[p]);
    if let Some(i) = find_crlf(b, q) {
        if i + 2 <= e {
            lemma_find_crlf_agree(b, c, q, i);
            assert(b.subrange(q, i) =~= c.subrange(q, i));
            if let Some(n) = decimal_of(b.subrange(q, i)) {
                if i + 4 + n <= e {
                    assert(b.subrange(i + 2, i + 2 + n) =~= c.subrange(i + 2, i + 2 + n));
                }
            }
        }
    }
    if q + 4 <= e {
        assert(le_u32(b, q) == le_u32(c, q)) by {
            assert(b[q] == c[q] && b[q + 1] == c[q + 1] && b[q + 2] == c[q + 2] && b[q + 3] == c[q
                + 3]);
        }
        if q + 4 + le_u32(b, q) <= e {
            assert(b.subrange(q + 4, q + 4 + le_u32(b, q)) =~= c.subrange(
                q + 4,
                q + 4 + le_u32(b, q),
            ));
        }
    }
    if q < e {
        assert(b[q] == c[q]);
    }
    match crate::grammar::kind_spec(b[p]) {
        Some(crate::grammar::Kind::Array) => {
            let i = find_crlf(b, q)->Some_0;
            let n = decimal_of(b.subrange(q, i))->Some_0;
            lemma_parse_bounds_frames(b, i + 2, n as nat);
            lemma_find_crlf_agree(b, c, q, i);
            assert(b.subrange(q, i) =~= c.subrange(q, i));
            lemma_parse_local_frames(b, c, i + 2, n as nat);
        },
        _ => {},
    }
}

/// A whole run of frames depends only on the bytes it spans, as `lemma_parse_local`.
pub proof fn lemma_parse_local_frames(b: Seq<u8>, c: Seq<u8>, p: int, n: nat)
    requires
        parse_frames(b, p, n) is Done,
        agree_on(b, c, p, parse_frames(b, p, n)->Done_1),
    ensures
        parse_frames(c, p, n) == parse_frames(b, p, n),
    decreases b.len() - p, 1int + n,
{
    if n > 0 {
        let e1 = parse_frame(b, p)->Done_1;
        lemma_parse_bounds(b, p);
        lemma_parse_bounds_frames(b, e1, (n - 1) as nat);
        lemma_parse_local(b, c, p);
        lemma_parse_local_frames(b, c, e1, (n - 1) as nat);
    }
}

/// Any cut of the buffer inside a whole frame leaves a frame that is still incomplete.
pub proof fn lemma_parse_cut(b: Seq<u8>, p: int, k: int)
    requires
        parse_frame(b, p) is Done,
        0 <= p <= k < parse_frame(b, p)->Done_1,
    ensures
        parse_frame(b.take(k), p) is Incomplete,
    decreases b.len() - p, 0int,
{
    let c = b.take(k);
    let e = parse_frame(b, p)->Done_1;
    lemma_parse_bounds(b, p);
    if k > p {
        let q = p + 1;
        lemma_find_crlf_bounds(b, q);
        assert(c[p] == b[p]);
        if q < k {
            assert(c[q] == b[q]);
        }
        if q + 4 <= k {
            assert(le_u32(b, q) == le_u32(c, q));
        }
        if let Some(i) = find_crlf(b, q) {
            if i + 2 <= k {
                lemma_find_crlf_agree(b, c, q, i);
                assert(b.subrange(q, i) =~= c.subrange(q, i));
                if let Some(n) = decimal_of(b.subrange(q, i)) {
                    if n <= usize::MAX && crate::grammar::kind_spec(b[p]) == Some(
                        crate::grammar::Kind::Array,
                    ) {
                        lemma_parse_cut_frames(b, i + 2, n as nat, k);
                    }
                }
            } else {
                lemma_find_crlf_cut(b, k, q, i);
            }
        }
    }
}

/// Any cut of the buffer inside a whole run of frames leaves the run incomplete.
pub proof fn lemma_parse_cut_frames(b: Seq<u8>, p: int, n: nat, k: int)
    requires
        parse_frames(b, p, n) is Done,
        0 <= p <= k < parse_frames(b, p, n)->Done_1,
    ensures
        parse_frames(b.take(k), p, n) is Incomplete,
    decreases b.len() - p, 1int + n,
{
    let c = b.take(k);
    lemma_parse_bounds_frames(b, p, n);
    if k > p {
        let e1 = parse_frame(b, p)->Done_1;
        lemma_parse_bounds(b, p);
        lemma_parse_bounds_frames(b, e1, (n - 1) as nat);
        if k < e1 {
            lemma_parse_cut(b, p, k);
        } else {
            lemma_parse_local(b, c, p);
            lemma_parse_cut_frames(b, e1, (n - 1) as nat, k);
            assert(c.take(k) =~= c);
            assert(b.take(k) == c);
        }
    }
}

/// A frame that is whole in `b` from its start reads the same however the
/// bytes arrive: from every proper prefix both checking and parsing ask for
/// more bytes (never reject), and from every buffer that begins with the
/// frame's bytes both end at the same position and parsing gives the same frame.
pub proof fn lemma_chunking_invariance(b: Seq<u8>, c: Seq<u8>, k: int)
    requires
        parse_frame(b, 0) is Done,
    ensures
        ({
            let e = parse_frame(b, 0)->Done_1;
            &&& 0 <= k < e ==> parse_frame(b.take(k), 0) is Incomplete && check_frame(
                b.take(k),
                0,
            ) is Incomplete
            &&& e <= c.len() && c.take(e) == b.take(e) ==> parse_frame(c, 0) == parse_frame(b, 0)
                && check_frame(c, 0) is Done && check_frame(c, 0)->Done_1 == e
        }),
{
    let e = parse_frame(b, 0)->Done_1;
    lemma_parse_bounds(b, 0);
    if 0 <= k < e {
        lemma_parse_cut(b, 0, k);
        lemma_check_parse_agree(b.take(k), 0);
        assert(check_frame(b.take(k), 0) is Incomplete);
    }
    if e <= c.len() && c.take(e) == b.take(e) {
        assert forall|j: int| 0 <= j < e implies b[j] == c[j] by {
            assert(b.take(e)[j] == c.take(e)[j]);
        }
        lemma_parse_local(b, c, 0);
        lemma_check_parse_agree(c, 0);
        assert(parse_frame(c, 0) == parse_frame(b, 0));
        assert(check_frame(c, 0) is Done);
        assert(check_frame(c, 0)->Done_1 == e);
    }
}

/// A bulk frame read at `o` holds exactly the declared number of bytes that
/// follow its length line, and it depends on no byte outside the frame.
pub proof fn lemma_bulk_payload(b: Seq<u8>, c: Seq<u8>, o: int)
    requires
        parse_frame(b, o) matches Step::Done(FrameModel::Bulk(_), _),
    ensures
        ({
            let i = find_crlf(b, o + 1)->Some_0;
            let l = decimal_of(b.subrange(o + 1, i))->Some_0;
            &&& b[o] == crate::grammar::BULK_MARK
            &&& parse_frame(b, o) == Step::<FrameModel>::Done(
                FrameModel::Bulk(b.subrange(i + 2, i + 2 + l)),
                i + 4 + l,
            )
            &&& agree_on(b, c, o, i + 4 + l) ==> parse_frame(c, o) == parse_frame(b, o)
        }),
{
    lemma_find_crlf_bounds(b, o + 1);
    let i = find_crlf(b, o + 1)->Some_0;
    let l = decimal_of(b.subrange(o + 1, i))->Some_0;
    if agree_on(b, c, o, i + 4 + l) {
        lemma_parse_local(b, c, o);
    }
}

/// Reading `m + j` frames reads the first `m`, then `j` more from where they end.
pub proof fn lemma_parse_frames_split(b: Seq<u8>, p: int, m: nat, j: nat)
    requires
        parse_frames(b, p, m) is Done,
    ensures
        parse_frames(b, p, m + j) == prepend(
            parse_frames(b, p, m)->Done_0,
            parse_frames(b, parse_frames(b, p, m)->Done_1, j),
        ),
    decreases m,
{
    if m == 0 {
        let rest = parse_frames(b, p, j);
        if let Step::Done(fs, e) = rest {
            assert(Seq::<FrameModel>::empty() + fs =~= fs);
        }
    } else {
        let e1 = parse_frame(b, p)->Done_1;
        let f = parse_frame(b, p)->Done_0;
        lemma_parse_frames_split(b, e1, (m - 1) as nat, j);
        let head = parse_frames(b, e1, (m - 1) as nat)->Done_0;
        let end = parse_frames(b, p, m)->Done_1;
        lemma_prepend_one(seq![f], f, Step::Done(head, end));
        assert((m + j - 1) as nat == (m - 1) as nat + j);
        let rest = parse_frames(b, end, j);
        lemma_prepend_one(Seq::empty(), f, prepend(head, rest));
        match rest {
            Step::Done(fs, e) => {
                assert(seq![f].add(head + fs) =~= seq![f].add(head) + fs);
            },
            _ => {},
        }
    }
}

/// An array frame whose count line declares `n` reads as follows. When `n`
/// whole frames follow, it is the array of exactly those `n` frames, the first
/// `m` of them being the first `m` read, in wire order. When the buffer ends
/// after only `m < n` whole frames, it is incomplete. When the frame after the
/// first `m < n` is malformed, the array is malformed.
pub proof fn lemma_array_frames(b: Seq<u8>, p: int, m: nat)
    requires
        0 <= p < b.len(),
        b[p] == crate::grammar::ARRAY_MARK,
        find_crlf(b, p + 1) is Some,
        decimal_of(b.subrange(p + 1, find_crlf(b, p + 1)->Some_0)) is Some,
        decimal_of(b.subrange(p + 1, find_crlf(b, p + 1)->Some_0))->Some_0 <= usize::MAX,
    ensures
        ({
            let first = find_crlf(b, p + 1)->Some_0 + 2;
            let n = decimal_of(b.subrange(p + 1, find_crlf(b, p + 1)->Some_0))->Some_0 as nat;
            &&& parse_frames(b, first, n) matches Step::Done(fs, e) ==> {
                &&& parse_frame(b, p) == Step::Done(FrameModel::Array(fs), e)
                &&& fs.len() == n
                &&& m <= n ==> parse_frames(b, first, m) is Done && parse_frames(
                    b,
                    first,
                    m,
                )->Done_0 == fs.take(m as int)
            }
            &&& (m < n && parse_frames(b, first, m) is Done && parse_frames(b, first, m)->Done_1
                == b.len()) ==> parse_frame(b, p) is Incomplete
            &&& (m < n && parse_frames(b, first, m) is Done && parse_frame(
                b,
                parse_frames(b, first, m)->Done_1,
            ) is Malformed) ==> parse_frame(b, p) is Malformed
        }),
{
    let i = find_crlf(b, p + 1)->Some_0;
    let first = i + 2;
    let n = decimal_of(b.subrange(p + 1, i))->Some_0 as nat;
    lemma_parse_bounds_frames(b, first, n);
    if m <= n && parse_frames(b, first, n) is Done {
        let fs = parse_frames(b, first, n)->Done_0;
        assert(parse_frames(b, first, m) is Done) by {
            lemma_prefix_done(b, first, m, (n - m) as nat);
        }
        lemma_parse_frames_split(b, first, m, (n - m) as nat);
        assert(m + (n - m) as nat == n);
        let rest = parse_frames(b, parse_frames(b, first, m)->Done_1, (n - m) as nat);
        lemma_parse_bounds_frames(b, first, m);
        assert(fs == parse_frames(b, first, m)->Done_0 + rest->Done_0);
        assert(fs.take(m as int) =~= parse_frames(b, first, m)->Done_0);
    }
    if m < n && parse_frames(b, first, m) is Done {
        lemma_parse_frames_split(b, first, m, (n - m) as nat);
        assert(m + (n - m) as nat == n);
    }
}

/// When `m + j` frames read whole, so do the first `m`.
proof fn lemma_prefix_done(b: Seq<u8>, p: int, m: nat, j: nat)
    requires
        parse_frames(b, p, m + j) is Done,
    ensures
        parse_frames(b, p, m) is Done,
    decreases m,
{
    if m > 0 {
        let e1 = parse_frame(b, p)->Done_1;
        assert((m + j - 1) as nat == (m - 1) as nat + j);
        lemma_prefix_done(b, e1, (m - 1) as nat, j);
    }
}

proof fn lemma_find_crlf_line(b: Seq<u8>, body: Seq<u8>, j: int)
    requires
        b.len() == body.len() + 3,
        1 <= j <= body.len() + 1,
        no_crlf(body),
        forall|t: int| 0 <= t < body.len() ==> b[t + 1] == body[t],
        b[body.len() + 1int] == 13,
        b[body.len() + 2int] == 10,
    ensures
        find_crlf(b, j) == Some(body.len() + 1int),
    decreases body.len() + 1 - j,
{
    if j < body.len() + 1 {
        if j < body.len() {
            assert(b[j - 1 + 1] == body[j - 1] && b[j + 1] == body[j]);
            assert(!(body[j - 1] == 13 && body[j - 1 + 1] == 10));
        }
        lemma_find_crlf_line(b, body, j + 1);
    }
}

proof fn lemma_decimal_digits(v: nat)
    ensures
        decimal_digits(v).len() > 0,
        all_digits(decimal_digits(v)),
        digits_value(decimal_digits(v)) == v,
    decreases v,
{
    if v >= 10 {
        lemma_decimal_digits(v / 10);
        let s = decimal_digits(v);
        assert(s.drop_last() =~= decimal_digits(v / 10));
        assert(v == (v / 10) * 10 + v % 10);
        assert(0 <= v % 10 < 10);
        assert(s.last() == (48 + v % 10) as u8);
        assert((s.last() - 48) as nat == v % 10);
        assert(digits_value(s) == digits_value(s.drop_last()) * 10 + (s.last() - 48) as nat);
    } else {
        let s = decimal_digits(v);
        assert(s.drop_last() =~= Seq::<u8>::empty());
        assert(digits_value(s) == digits_value(s.drop_last()) * 10 + (s.last() - 48) as nat);
    }
}

/// Writing a simple, error or integer frame in its wire form and reading it
/// back gives the same frame, ending after the whole wire form; a text payload
/// survives unchanged when its bytes hold no `\r\n`.
pub proof fn lemma_text_round_trip(m: FrameModel)
    requires
        m is Simple || m is Error || m is Integer,
        m matches FrameModel::Simple(s) ==> no_crlf(encode_utf8(s)),
        m matches FrameModel::Error(s) ==> no_crlf(encode_utf8(s)),
    ensures
        wire_form(m) is Some,
        parse_frame(wire_form(m)->Some_0, 0) == Step::Done(m, wire_form(m)->Some_0.len() as int),
{
    let b = wire_form(m)->Some_0;
    let body = match m {
        FrameModel::Simple(s) => encode_utf8(s),
        FrameModel::Error(s) => encode_utf8(s),
        FrameModel::Integer(v) => decimal_digits(v as nat),
        _ => Seq::empty(),
    };
    if let FrameModel::Integer(v) = m {
        lemma_decimal_digits(v as nat);
        assert forall|i: int| 0 <= i < body.len() - 1 implies !(body[i] == 13 && #[trigger] body[i
            + 1] == 10) by {
            assert(is_digit_at(body, i));
        }
    }
    lemma_find_crlf_line(b, body, 1);
    assert(b.subrange(1, body.len() + 1int) =~= body);
    if let FrameModel::Simple(s) = m {
        encode_utf8_valid_utf8(s);
        encode_utf8_decode_utf8(s);
    }
    if let FrameModel::Error(s) = m {
        encode_utf8_valid_utf8(s);
        encode_utf8_decode_utf8(s);
    }
}

spec fn is_digit_at(s: Seq<u8>, i: int) -> bool {
    crate::grammar::is_digit(s[i])
}

} // verus!
