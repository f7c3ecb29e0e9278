//! The frame type and the two passes over a buffer: `check`, which finds
//! whether a whole frame is buffered without building it, and `parse`, which
//! builds it.
use vstd::prelude::*;
use vstd::slice::{slice_subrange, slice_to_vec};
use vstd::utf8::{decode_utf8, encode_utf8, encode_utf8_decode_utf8, valid_utf8};
use bytes::Bytes;
use crate::cursor::{
    get_decimal, get_length_info, get_line, get_u8, get_vec_of_length, incomplete, malformed,
    peek_u8, skip, Cursor, Error,
};
use crate::grammar::{
    check_frame, check_frames, decimal_digits, kind_of, lemma_prepend_one, null_line, parse_frame,
    parse_frames, prepend, wire_form, wire_forms, lemma_wire_forms_none, FrameModel, Kind, Step,
};

verus! {

#[verifier::external_type_specification]
#[verifier::external_body]
pub struct ExBytes(Bytes);

/// The bytes that a `Bytes` value holds.
pub uninterp spec fn bytes_content(b: Bytes) -> Seq<u8>;

/// Relies on `bytes::Bytes::copy_from_slice`: the new value holds a copy of `data`.
#[verifier::external_body]
fn bytes_copy(data: &[u8]) -> (r: Bytes)
    ensures
        bytes_content(r) == data@,
{
    Bytes::copy_from_slice(data)
}

/// Relies on `AsRef<[u8]>` for `bytes::Bytes`: the slice is the bytes held.
#[verifier::external_body]
fn bytes_as_slice(b: &Bytes) -> (r: &[u8])
    ensures
        r@ == bytes_content(*b),
{
    b.as_ref()
}

/// Relies on `std::str::from_utf8`: it succeeds exactly on valid UTF-8, with
/// the characters that the bytes encode.
#[verifier::external_body]
fn str_from_utf8(s: &[u8]) -> (r: Option<&str>)
    ensures
        r is Some == valid_utf8(s@),
        r matches Some(t) ==> t@ == decode_utf8(s@),
{
    std::str::from_utf8(s).ok()
}

/// The `Debug` form of a `Bytes` value holding `s`.
pub uninterp spec fn bytes_debug_text(s: Seq<u8>) -> Seq<char>;

/// Relies on `Debug` for `bytes::Bytes`: the form depends on the bytes held alone.
#[verifier::external_body]
fn bytes_debug(b: &Bytes) -> (r: String)
    ensures
        r@ == bytes_debug_text(bytes_content(*b)),
{
    format!("{:?}", b)
}

/// The decimal form of `v` as characters.
pub open spec fn decimal_text(v: nat) -> Seq<char> {
    decimal_digits(v).map_values(|d: u8| d as char)
}

/// Relies on `ToString` for `u64`: the shortest decimal form.
#[verifier::external_body]
fn u64_text(v: u64) -> (r: String)
    ensures
        r@ == decimal_text(v as nat),
{
    v.to_string()
}

/// The human-readable form of a frame, for logs and error messages.
pub open spec fn rendered(m: FrameModel) -> Seq<char>
    decreases m, 0int,
{
    match m {
        FrameModel::FixedLength(_) => "fixed length"@,
        FrameModel::VariantLength(_) => "variant length"@,
        FrameModel::Sample(_) => "sample data"@,
        FrameModel::Command(_) => "command"@,
        FrameModel::Simple(s) => s,
        FrameModel::Error(s) => "error: "@ + s,
        FrameModel::Integer(v) => decimal_text(v as nat),
        FrameModel::Bulk(b) => if valid_utf8(b) {
            decode_utf8(b)
        } else {
            bytes_debug_text(b)
        },
        FrameModel::Null => "(nil)"@,
        FrameModel::Array(fs) => rendered_first(fs, fs.len() as int),
    }
}

/// The forms of the first `n` frames of `fs`, joined by single spaces.
pub open spec fn rendered_first(fs: Seq<FrameModel>, n: int) -> Seq<char>
    decreases fs, n,
{
    if n <= 0 || n > fs.len() {
        Seq::empty()
    } else if n == 1 {
        rendered(fs[0])
    } else {
        rendered_first(fs, n - 1) + seq![' '] + rendered(fs[n - 1])
    }
}

/// Relies on `String::from_utf8`: it succeeds exactly on valid UTF-8, with the
/// characters that the bytes encode.
#[verifier::external_body]
fn string_from_utf8(v: Vec<u8>) -> (r: Option<String>)
    ensures
        r is Some == valid_utf8(v@),
        r matches Some(s) ==> s@ == decode_utf8(v@),
{
    String::from_utf8(v).ok()
}

/// Relies on `format!`: the message shows the offending byte as a character.
#[verifier::external_body]
fn invalid_marker(m: u8) -> (r: String)
    ensures
        r@.contains(m as char),
{
    format!("protocol error; invalid frame type byte `{}`", m as char)
}

/// The error for bytes that break the grammar of a frame's body.
fn invalid_format() -> (r: Error)
    ensures
        r is Other,
{
    Error::Other(String::from_str("protocol error; invalid frame format"))
}

/// Whether a line is the body of the null frame.
fn is_null_line(line: &[u8]) -> (r: bool)
    ensures
        r == (line@ == null_line()),
{
    if line.len() == 2 && line[0] == 45 && line[1] == 49 {
        assert(line@ =~= null_line());
        true
    } else {
        assert(line@.len() != 2 || line@[0] != null_line()[0] || line@[1] != null_line()[1]);
        false
    }
}

/// Where the byte at `p` is no marker, the error names it.
pub open spec fn reports_marker<T>(r: Result<T, Error>, b: Seq<u8>, p: int) -> bool {
    0 <= p < b.len() && crate::grammar::kind_spec(b[p]) is None ==> (r matches Err(
        Error::Other(m),
    ) && m@.contains(b[p] as char))
}

/// How a result of `check` at `p` answers the grammar's outcome there.
pub open spec fn check_agrees(r: Result<(), Error>, pos: int, s: Step<()>) -> bool {
    match s {
        Step::Done(_, e) => r is Ok && pos == e,
        Step::Incomplete => incomplete(r),
        Step::Malformed => malformed(r),
    }
}

/// How a result of `parse` at `p` answers the grammar's outcome there.
pub open spec fn parse_agrees(r: Result<Frame, Error>, pos: int, s: Step<FrameModel>) -> bool {
    match s {
        Step::Done(f, e) => r is Ok && r->Ok_0@ == f && pos == e,
        Step::Incomplete => incomplete(r),
        Step::Malformed => malformed(r),
    }
}

/// One protocol message.
#[derive(Debug)]
pub enum Frame {
    FixedLength(Vec<u8>),
    VariantLength(Vec<u8>),
    Sample(Vec<u8>),
    Command(Vec<u8>),
    Simple(String),
    Error(String),
    Integer(u64),
    Bulk(Bytes),
    Null,
    Array(Vec<Frame>),
}

impl View for Frame {
    type V = FrameModel;

    open spec fn view(&self) -> FrameModel
        decreases self,
    {
        match self {
            Frame::FixedLength(v) => FrameModel::FixedLength(v@),
            Frame::VariantLength(v) => FrameModel::VariantLength(v@),
            Frame::Sample(v) => FrameModel::Sample(v@),
            Frame::Command(v) => FrameModel::Command(v@),
            Frame::Simple(s) => FrameModel::Simple(s@),
            Frame::Error(s) => FrameModel::Error(s@),
            Frame::Integer(n) => FrameModel::Integer(*n),
            Frame::Bulk(b) => FrameModel::Bulk(bytes_content(*b)),
            Frame::Null => FrameModel::Null,
            Frame::Array(v) => FrameModel::Array(
                Seq::new(
                    v.len() as nat,
                    |i: int|
                        if 0 <= i < v.len() {
                            proof {
                                vstd::std_specs::vec::axiom_vec_index_decreases(*v, i);
                            }
                            v[i].view()
                        } else {
                            FrameModel::Null
                        },
                ),
            ),
        }
    }
}

impl Frame {
    /// Whether one whole frame is buffered at the cursor, read without copying
    /// anything; on success the cursor stands just after it.
    pub fn check(src: &mut Cursor) -> (r: Result<(), Error>)
        requires
            old(src).wf(),
        ensures
            final(src).wf(),
            final(src).buf == old(src).buf,
            check_agrees(r, final(src).pos as int, check_frame(old(src).buf@, old(src).pos as int)),
            r is Ok ==> final(src).pos > old(src).pos,
            reports_marker(r, old(src).buf@, old(src).pos as int),
        decreases old(src).buf@.len() - old(src).pos,
    {
        let ghost b = src.buf@;
        let ghost p = src.pos as int;
        let m = get_u8(src)?;
        proof {
            crate::grammar::lemma_find_crlf_bounds(b, p + 1);
        }
        match kind_of(m) {
            None => Err(Error::Other(invalid_marker(m))),
            Some(Kind::VariantLength) => {
                let n = get_length_info(src)?;
                skip(src, 4 + n as usize)
            },
            Some(Kind::Simple) | Some(Kind::Error) => {
                let line = get_line(src)?;
                if str_from_utf8(line).is_some() {
                    Ok(())
                } else {
                    Err(invalid_format())
                }
            },
            Some(Kind::Integer) => {
                get_decimal(src)?;
                Ok(())
            },
            Some(Kind::Bulk) => {
                if peek_u8(src)? == 45 {
                    let line = get_line(src)?;
                    if is_null_line(line) {
                        Ok(())
                    } else {
                        Err(invalid_format())
                    }
                } else {
                    let n = get_decimal(src)?;
                    if n > usize::MAX as u64 {
                        return Err(invalid_format());
                    }
                    let n = n as usize;
                    if src.remaining() < n || src.remaining() - n < 2 {
                        return Err(Error::Incomplete);
                    }
                    skip(src, n + 2)
                }
            },
            Some(Kind::Array) => {
                let n = get_decimal(src)?;
                if n > usize::MAX as u64 {
                    return Err(invalid_format());
                }
                let ghost first = src.pos as int;
                assert(check_frame(b, p) == check_frames(b, first, n as nat));
                let mut i: u64 = 0;
                while i < n
                    invariant
                        src.wf(),
                        src.buf == old(src).buf,
                        src.buf@ == b,
                        old(src).buf@ == b,
                        old(src).pos == p,
                        0 <= p < b.len(),
                        crate::grammar::kind_spec(b[p]) == Some(Kind::Array),
                        p < first <= src.pos,
                        i <= n,
                        check_frame(b, p) == check_frames(b, first, n as nat),
                        check_frames(b, first, n as nat) == check_frames(
                            b,
                            src.pos as int,
                            (n - i) as nat,
                        ),
                    decreases n - i,
                {
                    let ghost at = src.pos as int;
                    assert(b.len() - at < b.len() - p);
                    match Frame::check(src) {
                        Ok(()) => {},
                        Err(e) => {
                            assert(check_frames(b, at, (n - i) as nat) == check_frame(b, at));
                            return Err(e);
                        },
                    }
                    i = i + 1;
                }
                Ok(())
            },
        }
    }

    /// The frame at the cursor, after which the cursor then stands. It reads
    /// exactly the bytes that `check` reads, and fails exactly where `check` fails.
    pub fn parse(src: &mut Cursor) -> (r: Result<Frame, Error>)
        requires
            old(src).wf(),
        ensures
            final(src).wf(),
            final(src).buf == old(src).buf,
            parse_agrees(r, final(src).pos as int, parse_frame(old(src).buf@, old(src).pos as int)),
            r is Ok ==> final(src).pos > old(src).pos,
            reports_marker(r, old(src).buf@, old(src).pos as int),
        decreases old(src).buf@.len() - old(src).pos,
    {
        let ghost b = src.buf@;
        let ghost p = src.pos as int;
        let m = get_u8(src)?;
        proof {
            crate::grammar::lemma_find_crlf_bounds(b, p + 1);
        }
        match kind_of(m) {
            None => Err(Error::Other(invalid_marker(m))),
            Some(Kind::VariantLength) => {
                let data = get_vec_of_length(src)?;
                Ok(Frame::VariantLength(slice_to_vec(data)))
            },
            Some(Kind::Simple) => {
                let line = get_line(src)?;
                match string_from_utf8(slice_to_vec(line)) {
                    Some(s) => Ok(Frame::Simple(s)),
                    None => Err(invalid_format()),
                }
            },
            Some(Kind::Error) => {
                let line = get_line(src)?;
                match string_from_utf8(slice_to_vec(line)) {
                    Some(s) => Ok(Frame::Error(s)),
                    None => Err(invalid_format()),
                }
            },
            Some(Kind::Integer) => {
                let v = get_decimal(src)?;
                Ok(Frame::Integer(v))
            },
            Some(Kind::Bulk) => {
                if peek_u8(src)? == 45 {
                    let line = get_line(src)?;
                    if is_null_line(line) {
                        Ok(Frame::Null)
                    } else {
                        Err(invalid_format())
                    }
                } else {
                    let n = get_decimal(src)?;
                    if n > usize::MAX as u64 {
                        return Err(invalid_format());
                    }
                    let n = n as usize;
                    if src.remaining() < n || src.remaining() - n < 2 {
                        return Err(Error::Incomplete);
                    }
                    let data = bytes_copy(slice_subrange(src.buf, src.pos, src.pos + n));
                    skip(src, n + 2)?;
                    Ok(Frame::Bulk(data))
                }
            },
            Some(Kind::Array) => {
                let n = get_decimal(src)?;
                if n > usize::MAX as u64 {
                    return Err(invalid_format());
                }
                let ghost first = src.pos as int;
                let ghost whole = parse_frames(b, first, n as nat);
                assert(prepend(Seq::empty(), whole) == whole) by {
                    if let Step::Done(fs, e) = whole {
                        assert(Seq::<FrameModel>::empty() + fs =~= fs);
                    }
                };
                let mut out: Vec<Frame> = Vec::new();
                let ghost mut ms: Seq<FrameModel> = Seq::empty();
                let mut i: u64 = 0;
                while i < n
                    invariant
                        src.wf(),
                        src.buf == old(src).buf,
                        src.buf@ == b,
                        old(src).buf@ == b,
                        old(src).pos == p,
                        0 <= p < b.len(),
                        crate::grammar::kind_spec(b[p]) == Some(Kind::Array),
                        p < first <= src.pos,
                        i <= n,
                        out@.len() == i,
                        ms.len() == i,
                        forall|j: int| 0 <= j < i ==> (#[trigger] out@[j])@ == ms[j],
                        whole == parse_frames(b, first, n as nat),
                        parse_frame(b, p) == match whole {
                            Step::Done(fs, e) => Step::Done(FrameModel::Array(fs), e),
                            Step::Incomplete => Step::Incomplete,
                            Step::Malformed => Step::Malformed,
                        },
                        whole == prepend(ms, parse_frames(b, src.pos as int, (n - i) as nat)),
                    decreases n - i,
                {
                    let ghost at = src.pos as int;
                    assert(b.len() - at < b.len() - p);
                    match Frame::parse(src) {
                        Ok(f) => {
                            proof {
                                lemma_prepend_one(
                                    ms,
                                    f@,
                                    parse_frames(b, src.pos as int, (n - i - 1) as nat),
                                );
                                ms = ms.push(f@);
                            }
                            out.push(f);
                        },
                        Err(e) => {
                            assert(parse_frames(b, at, (n - i) as nat) is Incomplete
                                == parse_frame(b, at) is Incomplete);
                            return Err(e);
                        },
                    }
                    i = i + 1;
                }
                assert(ms + Seq::<FrameModel>::empty() =~= ms);
                let r = Frame::Array(out);
                assert(r@ == FrameModel::Array(ms)) by {
                    if let FrameModel::Array(vs) = r@ {
                        assert(vs =~= ms);
                    }
                };
                Ok(r)
            },
        }
    }

    /// An empty array frame.
    pub fn array() -> (r: Frame)
        ensures
            r@ == FrameModel::Array(Seq::empty()),
    {
        let r = Frame::Array(Vec::new());
        assert(r@ == FrameModel::Array(Seq::empty())) by {
            if let FrameModel::Array(vs) = r@ {
                assert(vs =~= Seq::<FrameModel>::empty());
            }
        };
        r
    }

    /// Appends a frame to an array frame.
    fn push_frame(&mut self, f: Frame)
        requires
            old(self)@ is Array,
        ensures
            final(self)@ == FrameModel::Array(old(self)@->Array_0.push(f@)),
    {
        let ghost before: Frame = *self;
        let ghost fv = f;
        match self {
            Frame::Array(vec) => {
                vec.push(f);
            },
            _ => {},
        }
        proof {
            let after: Frame = *self;
            let old_vec = before->Array_0@;
            let ms = before@->Array_0;
            reveal_with_fuel(<Frame as View>::view, 2);
            assert(after->Array_0@ == old_vec.push(fv));
            if let FrameModel::Array(vs) = after@ {
                assert forall|k: int| 0 <= k < vs.len() implies vs[k] == ms.push(fv@)[k] by {
                    if k < old_vec.len() {
                        assert(vs[k] == old_vec[k]@);
                    }
                }
                assert(vs =~= ms.push(fv@));
            }
        }
    }

    /// Appends a bulk frame holding `bytes` to an array frame.
    pub fn push_bulk(&mut self, bytes: Bytes)
        requires
            old(self)@ is Array,
        ensures
            final(self)@ == FrameModel::Array(
                old(self)@->Array_0.push(FrameModel::Bulk(bytes_content(bytes))),
            ),
    {
        self.push_frame(Frame::Bulk(bytes));
    }

    /// Appends an integer frame holding `value` to an array frame.
    pub fn push_int(&mut self, value: u64)
        requires
            old(self)@ is Array,
        ensures
            final(self)@ == FrameModel::Array(old(self)@->Array_0.push(FrameModel::Integer(value))),
    {
        self.push_frame(Frame::Integer(value));
    }

    /// The human-readable form of the frame; not its wire form.
    pub fn render(&self) -> (r: String)
        ensures
            r@ == rendered(self@),
        decreases self,
    {
        proof {
            reveal_with_fuel(<Frame as View>::view, 2);
        }
        match self {
            Frame::FixedLength(_) => {
                let r = String::from_str("fixed length");
                assert(r@ == rendered(self@));
                r
            },
            Frame::VariantLength(_) => String::from_str("variant length"),
            Frame::Sample(_) => String::from_str("sample data"),
            Frame::Command(_) => String::from_str("command"),
            Frame::Simple(s) => {
                let r = s.clone();
                assert(r@ == rendered(self@));
                r
            },
            Frame::Error(s) => {
                let mut r = String::from_str("error: ");
                r.append(s.as_str());
                assert(r@ == rendered(self@));
                r
            },
            Frame::Integer(n) => {
                let r = u64_text(*n);
                assert(r@ == rendered(self@));
                r
            },
            Frame::Bulk(b) => {
                let r = match str_from_utf8(bytes_as_slice(b)) {
                    Some(t) => String::from_str(t),
                    None => bytes_debug(b),
                };
                assert(r@ == rendered(self@));
                r
            },
            Frame::Null => String::from_str("(nil)"),
            Frame::Array(parts) => {
                let ghost fs = self@->Array_0;
                assert(fs.len() == parts@.len());
                let mut out = String::new();
                let mut i: usize = 0;
                while i < parts.len()
                    invariant
                        *self == Frame::Array(*parts),
                        fs == self@->Array_0,
                        i <= parts@.len(),
                        fs.len() == parts@.len(),
                        forall|j: int| 0 <= j < parts@.len() ==> #[trigger] fs[j] == parts@[j]@,
                        out@ == rendered_first(fs, i as int),
                    decreases parts@.len() - i,
                {
                    proof {
                        vstd::std_specs::vec::axiom_vec_index_decreases(*parts, i as int);
                    }
                    let piece = parts[i].render();
                    assert(piece@ == rendered(fs[i as int]));
                    let ghost before = out@;
                    if i > 0 {
                        proof {
                            reveal_strlit(" ");
                        }
                        out.append(" ");
                        assert(out@ == before + seq![' ']);
                    } else {
                        assert(out@ =~= Seq::<char>::empty());
                    }
                    out.append(piece.as_str());
                    proof {
                        if i == 0 {
                            assert(out@ =~= piece@);
                        }
                    }
                    i = i + 1;
                }

                out
            },
        }
    }

    /// The error that reports this frame where another was expected.
    pub fn to_error(&self) -> (r: Error)
        ensures
            r matches Error::Other(m) && m@ == "unexpected frame: "@ + rendered(self@),
    {
        let mut m = String::from_str("unexpected frame: ");
        let shown = self.render();
        m.append(shown.as_str());
        Error::Other(m)
    }

    /// Whether the frame is a simple string or a bulk string that holds
    /// exactly the text `other`.
    pub fn eq_str(&self, other: &str) -> (r: bool)
        ensures
            r == match self@ {
                FrameModel::Simple(s) => s == other@,
                FrameModel::Bulk(b) => b == encode_utf8(other@),
                _ => false,
            },
    {
        match self {
            Frame::Simple(s) => {
                let same = bytes_equal(s.as_str().as_bytes(), other.as_bytes());
                proof {
                    encode_utf8_decode_utf8(s@);
                    encode_utf8_decode_utf8(other@);
                }
                same
            },
            Frame::Bulk(b) => bytes_equal(bytes_as_slice(b), other.as_bytes()),
            _ => false,
        }
    }

    /// The frame's wire form, which `parse` reads back; `None` for the kinds
    /// that have no wire form and for a length-prefixed payload too long for
    /// its four-byte length field.
    pub fn encode(&self) -> (r: Option<Vec<u8>>)
        ensures
            match wire_form(self@) {
                Some(w) => r is Some && r->Some_0@ == w,
                None => r is None,
            },
        decreases self,
    {
        proof {
            reveal_with_fuel(<Frame as View>::view, 2);
        }
        let mut out: Vec<u8> = Vec::new();
        match self {
            Frame::Simple(s) => {
                out.push(crate::grammar::SIMPLE_MARK);
                push_bytes(&mut out, s.as_str().as_bytes());
                push_crlf(&mut out);
            },
            Frame::Error(s) => {
                out.push(crate::grammar::ERROR_MARK);
                push_bytes(&mut out, s.as_str().as_bytes());
                push_crlf(&mut out);
            },
            Frame::Integer(n) => {
                out.push(crate::grammar::INTEGER_MARK);
                push_decimal(&mut out, *n);
                push_crlf(&mut out);
            },
            Frame::Bulk(b) => {
                let data = bytes_as_slice(b);
                out.push(crate::grammar::BULK_MARK);
                push_decimal(&mut out, data.len() as u64);
                push_crlf(&mut out);
                push_bytes(&mut out, data);
                push_crlf(&mut out);
            },
            Frame::Null => {
                out.push(crate::grammar::BULK_MARK);
                out.push(45);
                out.push(49);
                push_crlf(&mut out);
                assert(out@ =~= seq![crate::grammar::BULK_MARK] + null_line() + crate::grammar::crlf());
            },
            Frame::VariantLength(v) => {
                if v.len() > 0xffff_ffff {
                    return None;
                }
                let n: usize = v.len();
                out.push(crate::VARIANT_LENGTH_MARK);
                out.push((n % 256) as u8);
                out.push(((n / 256) % 256) as u8);
                out.push(((n / 65536) % 256) as u8);
                out.push(((n / 16777216) % 256) as u8);
                push_bytes(&mut out, v.as_slice());
                assert(out@ =~= seq![crate::VARIANT_LENGTH_MARK] + crate::grammar::le_bytes(
                    n as nat,
                ) + v@);
            },
            Frame::Array(parts) => {
                let ghost fs = self@->Array_0;
                out.push(crate::grammar::ARRAY_MARK);
                push_decimal(&mut out, parts.len() as u64);
                push_crlf(&mut out);
                let ghost head = out@;
                let mut body: Vec<u8> = Vec::new();
                let mut i: usize = 0;
                while i < parts.len()
                    invariant
                        *self == Frame::Array(*parts),
                        fs == self@->Array_0,
                        i <= parts@.len(),
                        fs.len() == parts@.len(),
                        forall|j: int| 0 <= j < parts@.len() ==> #[trigger] fs[j] == parts@[j]@,
                        wire_forms(fs, i as int) == Some(body@),
                    decreases parts@.len() - i,
                {
                    proof {
                        vstd::std_specs::vec::axiom_vec_index_decreases(*parts, i as int);
                    }
                    match parts[i].encode() {
                        Some(w) => {
                            let mut w = w;
                            body.append(&mut w);
                        },
                        None => {
                            proof {
                                lemma_wire_forms_none(fs, i + 1, fs.len() as int);
                            }
                            return None;
                        },
                    }
                    i = i + 1;
                }
                out.append(&mut body);
            },
            _ => {
                return None;
            },
        }
        proof {
            if let Some(w) = wire_form(self@) {
                assert(out@ =~= w);
            }
        }
        Some(out)
    }
}

/// Appends the decimal form of `v`.
fn push_decimal(out: &mut Vec<u8>, v: u64)
    ensures
        final(out)@ == old(out)@ + decimal_digits(v as nat),
    decreases v,
{
    let ghost start = out@;
    if v >= 10 {
        push_decimal(out, v / 10);
    }
    out.push((48 + v % 10) as u8);
    proof {
        if v >= 10 {
            assert(decimal_digits(v as nat) == decimal_digits((v / 10) as nat).push(
                (48 + v % 10) as u8,
            ));
            assert(out@ =~= start + decimal_digits(v as nat));
        } else {
            assert(out@ =~= start + decimal_digits(v as nat));
        }
    }
}

/// Appends the line terminator.
fn push_crlf(out: &mut Vec<u8>)
    ensures
        final(out)@ == old(out)@ + crate::grammar::crlf(),
{
    out.push(13);
    out.push(10);
    assert(out@ =~= old(out)@ + crate::grammar::crlf());
}

/// Appends a copy of `data`.
fn push_bytes(out: &mut Vec<u8>, data: &[u8])
    ensures
        final(out)@ == old(out)@ + data@,
{
    let mut copy = slice_to_vec(data);
    out.append(&mut copy);
}

/// Whether two byte slices hold the same bytes.
fn bytes_equal(a: &[u8], b: &[u8]) -> (r: bool)
    ensures
        r == (a@ == b@),
{
    if a.len() != b.len() {
        return false;
    }
    let mut i: usize = 0;
    while i < a.len()
        invariant
            a@.len() == b@.len(),
            i <= a@.len(),
            forall|j: int| 0 <= j < i ==> a@[j] == b@[j],
        decreases a@.len() - i,
    {
        if a[i] != b[i] {
            return false;
        }
        i = i + 1;
    }
    assert(a@ =~= b@);
    true
}

/// Reads one frame from the start of a receive buffer: first checks that it
/// is whole, then parses it from a fresh cursor. On success gives the frame and
/// the number of bytes it took, which the caller then discards.
pub fn read_frame(buf: &[u8]) -> (r: Result<(Frame, usize), Error>)
    ensures
        match parse_frame(buf@, 0) {
            Step::Done(f, e) => r is Ok && r->Ok_0.0@ == f && r->Ok_0.1 == e,
            Step::Incomplete => incomplete(r),
            Step::Malformed => malformed(r),
        },
{
    let mut probe = Cursor::new(buf);
    let checked = Frame::check(&mut probe);
    proof {
        crate::laws::lemma_check_parse_agree(buf@, 0);
    }
    match checked {
        Ok(()) => {
            let mut src = Cursor::new(buf);
            match Frame::parse(&mut src) {
                Ok(frame) => Ok((frame, src.pos)),
                Err(e) => Err(e),
            }
        },
        Err(e) => Err(e),
    }
}

} // verus!
