//! The wire grammar as spec functions: where a line ends, what a decimal
//! line denotes, and what outcome checking or parsing a frame at a position
//! of a buffer has.
use vstd::prelude::*;
use vstd::utf8::{valid_utf8, decode_utf8, encode_utf8};

verus! {

/// Marker of a simple string line.
pub const SIMPLE_MARK: u8 = crate::COMMAND_MARK;

/// Marker of an error line.
pub const ERROR_MARK: u8 = crate::SAMPLE_MARK;

/// Marker of an unsigned decimal line.
pub const INTEGER_MARK: u8 = 58;

/// Marker of a bulk string or of the null frame.
pub const BULK_MARK: u8 = 36;

/// Marker of an array.
pub const ARRAY_MARK: u8 = 42;

/// The kind of frame that a marker byte starts.
#[derive(PartialEq, Eq, Structural, Clone, Copy, Debug)]
pub enum Kind {
    VariantLength,
    Simple,
    Error,
    Integer,
    Bulk,
    Array,
}

/// The one table from marker byte to frame kind, read by checking and by parsing.
pub open spec fn kind_spec(m: u8) -> Option<Kind> {
    if m == crate::VARIANT_LENGTH_MARK {
        Some(Kind::VariantLength)
    } else if m == SIMPLE_MARK {
        Some(Kind::Simple)
    } else if m == ERROR_MARK {
        Some(Kind::Error)
    } else if m == INTEGER_MARK {
        Some(Kind::Integer)
    } else if m == BULK_MARK {
        Some(Kind::Bulk)
    } else if m == ARRAY_MARK {
        Some(Kind::Array)
    } else {
        None
    }
}

/// Looks up the kind of frame that `m` starts.
pub fn kind_of(m: u8) -> (r: Option<Kind>)
    ensures
        r == kind_spec(m),
{
    if m == crate::VARIANT_LENGTH_MARK {
        Some(Kind::VariantLength)
    } else if m == SIMPLE_MARK {
        Some(Kind::Simple)
    } else if m == ERROR_MARK {
        Some(Kind::Error)
    } else if m == INTEGER_MARK {
        Some(Kind::Integer)
    } else if m == BULK_MARK {
        Some(Kind::Bulk)
    } else if m == ARRAY_MARK {
        Some(Kind::Array)
    } else {
        None
    }
}

pub open spec fn is_digit(c: u8) -> bool {
    48 <= c <= 57
}

pub open spec fn all_digits(s: Seq<u8>) -> bool {
    forall|i: int| 0 <= i < s.len() ==> is_digit(#[trigger] s[i])
}

/// The number that a run of ASCII digits denotes.
pub open spec fn digits_value(s: Seq<u8>) -> nat
    decreases s.len(),
{
    if s.len() == 0 {
        0
    } else {
        digits_value(s.drop_last()) * 10 + (s.last() - 48) as nat
    }
}

/// The value of a decimal line: one or more ASCII digits whose value fits in 64 bits.
pub open spec fn decimal_of(s: Seq<u8>) -> Option<u64> {
    if s.len() > 0 && all_digits(s) && digits_value(s) <= u64::MAX {
        Some(digits_value(s) as u64)
    } else {
        None
    }
}

/// The index of the first `\r\n` pair that starts at or after `i`.
pub open spec fn find_crlf(b: Seq<u8>, i: int) -> Option<int>
    decreases b.len() - i,
{
    if i < 0 || i + 1 >= b.len() {
        None
    } else if b[i] == 13 && b[i + 1] == 10 {
        Some(i)
    } else {
        find_crlf(b, i + 1)
    }
}

/// The little-endian value of the four bytes at `p`.
pub open spec fn le_u32(b: Seq<u8>, p: int) -> int {
    b[p] + 256 * b[p + 1] + 65536 * b[p + 2] + 16777216 * b[p + 3]
}

/// The line that follows the bulk marker in the null frame.
pub open spec fn null_line() -> Seq<u8> {
    seq![45u8, 49u8]
}

/// The outcome of reading at a position: a value and the position just
/// after what was read, or too few bytes, or bytes that break the grammar.
pub enum Step<T> {
    Done(T, int),
    Incomplete,
    Malformed,
}

/// A frame as a mathematical value.
pub enum FrameModel {
    FixedLength(Seq<u8>),
    VariantLength(Seq<u8>),
    Sample(Seq<u8>),
    Command(Seq<u8>),
    Simple(Seq<char>),
    Error(Seq<char>),
    Integer(u64),
    Bulk(Seq<u8>),
    Null,
    Array(Seq<FrameModel>),
}

pub proof fn lemma_find_crlf_bounds(b: Seq<u8>, i: int)
    ensures
        find_crlf(b, i) matches Some(j) ==> i <= j && j + 2 <= b.len() && b[j] == 13 && b[j + 1]
            == 10,
    decreases b.len() - i,
{
    if !(i < 0 || i + 1 >= b.len()) && !(b[i] == 13 && b[i + 1] == 10) {
        lemma_find_crlf_bounds(b, i + 1);
    }
}

/// Whether one whole frame starts at `p`, and where it ends.
pub open spec fn check_frame(b: Seq<u8>, p: int) -> Step<()>
    decreases b.len() - p, 0int,
{
    if p < 0 || p >= b.len() {
        Step::Incomplete
    } else {
        let q = p + 1;
        proof {
            lemma_find_crlf_bounds(b, q);
        }
        match kind_spec(b[p]) {
            None => Step::Malformed,
            Some(Kind::VariantLength) => {
                if q + 4 > b.len() || q + 4 + le_u32(b, q) > b.len() {
                    Step::Incomplete
                } else {
                    Step::Done((), q + 4 + le_u32(b, q))
                }
            },
            Some(Kind::Simple) | Some(Kind::Error) => match find_crlf(b, q) {
                None => Step::Incomplete,
                Some(i) => if valid_utf8(b.subrange(q, i)) {
                    Step::Done((), i + 2)
                } else {
                    Step::Malformed
                },
            },
            Some(Kind::Integer) => match find_crlf(b, q) {
                None => Step::Incomplete,
                Some(i) => if decimal_of(b.subrange(q, i)) is Some {
                    Step::Done((), i + 2)
                } else {
                    Step::Malformed
                },
            },
            Some(Kind::Bulk) => if q >= b.len() {
                Step::Incomplete
            } else if b[q] == 45 {
                match find_crlf(b, q) {
                    None => Step::Incomplete,
                    Some(i) => if b.subrange(q, i) == null_line() {
                        Step::Done((), i + 2)
                    } else {
                        Step::Malformed
                    },
                }
            } else {
                match find_crlf(b, q) {
                    None => Step::Incomplete,
                    Some(i) => match decimal_of(b.subrange(q, i)) {
                        None => Step::Malformed,
                        Some(n) => if n > usize::MAX {
                            Step::Malformed
                        } else if i + 2 + n + 2 > b.len() {
                            Step::Incomplete
                        } else {
                            Step::Done((), i + 4 + n)
                        },
                    },
                }
            },
            Some(Kind::Array) => match find_crlf(b, q) {
                None => Step::Incomplete,
                Some(i) => match decimal_of(b.subrange(q, i)) {
                    None => Step::Malformed,
                    Some(n) => if n > usize::MAX {
                        Step::Malformed
                    } else {
                        check_frames(b, i + 2, n as nat)
                    },
                },
            },
        }
    }
}

/// Whether `n` whole frames follow one another from `p`, and where the last ends.
pub open spec fn check_frames(b: Seq<u8>, p: int, n: nat) -> Step<()>
    decreases b.len() - p, 1int + n,
{
    if n == 0 {
        Step::Done((), p)
    } else if p < 0 || p >= b.len() {
        Step::Incomplete
    } else {
        // A whole frame always ends after its start and within the buffer;
        // the test only makes that visible to the termination check.
        match check_frame(b, p) {
            Step::Done(_, e) => if p < e <= b.len() {
                check_frames(b, e, (n - 1) as nat)
            } else {
                Step::Malformed
            },
            Step::Incomplete => Step::Incomplete,
            Step::Malformed => Step::Malformed,
        }
    }
}

/// The frame that starts at `p`, and where it ends.
pub open spec fn parse_frame(b: Seq<u8>, p: int) -> Step<FrameModel>
    decreases b.len() - p, 0int,
{
    if p < 0 || p >= b.len() {
        Step::Incomplete
    } else {
        let q = p + 1;
        proof {
            lemma_find_crlf_bounds(b, q);
        }
        match kind_spec(b[p]) {
            None => Step::Malformed,
            Some(Kind::VariantLength) => {
                if q + 4 > b.len() || q + 4 + le_u32(b, q) > b.len() {
                    Step::Incomplete
                } else {
                    Step::Done(
                        FrameModel::VariantLength(b.subrange(q + 4, q + 4 + le_u32(b, q))),
                        q + 4 + le_u32(b, q),
                    )
                }
            },
            Some(Kind::Simple) => match find_crlf(b, q) {
                None => Step::Incomplete,
                Some(i) => if valid_utf8(b.subrange(q, i)) {
                    Step::Done(FrameModel::Simple(decode_utf8(b.subrange(q, i))), i + 2)
                } else {
                    Step::Malformed
                },
            },
            Some(Kind::Error) => match find_crlf(b, q) {
                None => Step::Incomplete,
                Some(i) => if valid_utf8(b.subrange(q, i)) {
                    Step::Done(FrameModel::Error(decode_utf8(b.subrange(q, i))), i + 2)
                } else {
                    Step::Malformed
                },
            },
            Some(Kind::Integer) => match find_crlf(b, q) {
                None => Step::Incomplete,
                Some(i) => match decimal_of(b.subrange(q, i)) {
                    Some(v) => Step::Done(FrameModel::Integer(v), i + 2),
                    None => Step::Malformed,
                },
            },
            Some(Kind::Bulk) => if q >= b.len() {
                Step::Incomplete
            } else if b[q] == 45 {
                match find_crlf(b, q) {
                    None => Step::Incomplete,
                    Some(i) => if b.subrange(q, i) == null_line() {
                        Step::Done(FrameModel::Null, i + 2)
                    } else {
                        Step::Malformed
                    },
                }
            } else {
                match find_crlf(b, q) {
                    None => Step::Incomplete,
                    Some(i) => match decimal_of(b.subrange(q, i)) {
                        None => Step::Malformed,
                        Some(n) => if n > usize::MAX {
                            Step::Malformed
                        } else if i + 2 + n + 2 > b.len() {
                            Step::Incomplete
                        } else {
                            Step::Done(FrameModel::Bulk(b.subrange(i + 2, i + 2 + n)), i + 4 + n)
                        },
                    },
                }
            },
            Some(Kind::Array) => match find_crlf(b, q) {
                None => Step::Incomplete,
                Some(i) => match decimal_of(b.subrange(q, i)) {
                    None => Step::Malformed,
                    Some(n) => if n > usize::MAX {
                        Step::Malformed
                    } else {
                        match parse_frames(b, i + 2, n as nat) {
                            Step::Done(fs, e) => Step::Done(FrameModel::Array(fs), e),
                            Step::Incomplete => Step::Incomplete,
                            Step::Malformed => Step::Malformed,
                        }
                    },
                },
            },
        }
    }
}

/// The `n` frames that follow one another from `p`, in wire order, and where the last ends.
pub open spec fn parse_frames(b: Seq<u8>, p: int, n: nat) -> Step<Seq<FrameModel>>
    decreases b.len() - p, 1int + n,
{
    if n == 0 {
        Step::Done(Seq::empty(), p)
    } else if p < 0 || p >= b.len() {
        Step::Incomplete
    } else {
        // As in `check_frames`, the test on `e` always holds (`lemma_parse_bounds`).
        match parse_frame(b, p) {
            Step::Done(f, e) => if p < e <= b.len() {
                match parse_frames(b, e, (n - 1) as nat) {
                    Step::Done(fs, e2) => Step::Done(seq![f].add(fs), e2),
                    Step::Incomplete => Step::Incomplete,
                    Step::Malformed => Step::Malformed,
                }
            } else {
                Step::Malformed
            },
            Step::Incomplete => Step::Incomplete,
            Step::Malformed => Step::Malformed,
        }
    }
}

/// Frames already read in front of the outcome of reading the rest.
pub open spec fn prepend(ms: Seq<FrameModel>, s: Step<Seq<FrameModel>>) -> Step<Seq<FrameModel>> {
    match s {
        Step::Done(fs, e) => Step::Done(ms + fs, e),
        Step::Incomplete => Step::Incomplete,
        Step::Malformed => Step::Malformed,
    }
}

pub proof fn lemma_prepend_one(ms: Seq<FrameModel>, f: FrameModel, s: Step<Seq<FrameModel>>)
    ensures
        prepend(ms, match s {
            Step::Done(fs, e) => Step::Done(seq![f].add(fs), e),
            Step::Incomplete => Step::Incomplete,
            Step::Malformed => Step::Malformed,
        }) == prepend(ms.push(f), s),
{
    if let Step::Done(fs, e) = s {
        assert(ms + seq![f].add(fs) =~= ms.push(f) + fs);
    }
}

/// The line terminator.
pub open spec fn crlf() -> Seq<u8> {
    seq![13u8, 10u8]
}

/// No `\r\n` pair stands in `s`.
pub open spec fn no_crlf(s: Seq<u8>) -> bool {
    forall|i: int| 0 <= i < s.len() - 1 ==> !(s[i] == 13 && #[trigger] s[i + 1] == 10)
}

/// The shortest decimal form of `v`, most significant digit first.
pub open spec fn decimal_digits(v: nat) -> Seq<u8>
    decreases v,
{
    if v < 10 {
        seq![(48 + v) as u8]
    } else {
        decimal_digits(v / 10).push((48 + v % 10) as u8)
    }
}

/// The four little-endian bytes of `n`.
pub open spec fn le_bytes(n: nat) -> Seq<u8> {
    seq![
        (n % 256) as u8,
        ((n / 256) % 256) as u8,
        ((n / 65536) % 256) as u8,
        ((n / 16777216) % 256) as u8,
    ]
}

/// The wire form of a frame, where it has one.
pub open spec fn wire_form(m: FrameModel) -> Option<Seq<u8>>
    decreases m, 0int,
{
    match m {
        FrameModel::Simple(s) => Some(seq![SIMPLE_MARK] + encode_utf8(s) + crlf()),
        FrameModel::Error(s) => Some(seq![ERROR_MARK] + encode_utf8(s) + crlf()),
        FrameModel::Integer(v) => Some(seq![INTEGER_MARK] + decimal_digits(v as nat) + crlf()),
        FrameModel::Bulk(b) => Some(
            seq![BULK_MARK] + decimal_digits(b.len()) + crlf() + b + crlf(),
        ),
        FrameModel::Null => Some(seq![BULK_MARK] + null_line() + crlf()),
        FrameModel::VariantLength(b) => if b.len() <= u32::MAX {
            Some(seq![crate::VARIANT_LENGTH_MARK] + le_bytes(b.len()) + b)
        } else {
            None
        },
        FrameModel::Array(fs) => match wire_forms(fs, fs.len() as int) {
            Some(body) => Some(seq![ARRAY_MARK] + decimal_digits(fs.len()) + crlf() + body),
            None => None,
        },
        _ => None,
    }
}

/// The wire forms of the first `n` frames of `fs`, one after another, where
/// each has one.
pub open spec fn wire_forms(fs: Seq<FrameModel>, n: int) -> Option<Seq<u8>>
    decreases fs, n,
{
    if n <= 0 || n > fs.len() {
        Some(Seq::empty())
    } else {
        match (wire_forms(fs, n - 1), wire_form(fs[n - 1])) {
            (Some(a), Some(w)) => Some(a + w),
            _ => None,
        }
    }
}

pub proof fn lemma_wire_forms_none(fs: Seq<FrameModel>, k: int, n: int)
    requires
        0 <= k <= n <= fs.len(),
        wire_forms(fs, k) is None,
    ensures
        wire_forms(fs, n) is None,
    decreases n - k,
{
    if k < n {
        lemma_wire_forms_none(fs, k, n - 1);
    }
}

} // verus!
