//! Reading a structured request or response off accumulated stream bytes:
//! the failure taxonomy, the specification-level parser, and the executable
//! parser proved equal to it.

use vstd::prelude::*;

use crate::find::{find_from, crlf, crlfcrlf, find_crlf, find_crlfcrlf, find_byte, copy_range};
use crate::msg::{
    Header, HeaderView, Request, RequestView, Response, ResponseView, header_views, sp,
    is_supported_version, http11, http10, content_length_name, is_content_length_name,
    MAX_BODY_SIZE, clone_bytes, eq_ignore_case,
};

verus! {

/// Why a start line or header line was structurally unacceptable.
#[derive(Clone, Copy, Debug, PartialEq, Eq, Structural)]
pub enum MalformedKind {
    StartLine,
    UnknownVersion,
    HeaderLine,
    StatusCode,
}

/// The closed set of ways reading one message can fail.
#[derive(Clone, Copy, Debug, PartialEq, Eq, Structural)]
pub enum ParseError {
    /// The stream closed before a complete header block; carries the number
    /// of bytes that had been read. Zero bytes is the graceful end of input.
    Incomplete(usize),
    /// A structurally invalid start line or header line.
    Malformed(MalformedKind),
    /// A `content-length` header that is duplicated or not a decimal number.
    InvalidContentLength,
    /// The stream closed before the declared number of body bytes arrived.
    ContentLengthMismatch,
    /// The declared body length exceeds `MAX_BODY_SIZE`.
    BodyTooLarge,
    /// An I/O failure below the codec, not an orderly close.
    Connection,
}

/// Outcome of one attempt to read a request from the bytes seen so far.
pub enum RequestStep {
    /// No complete header block is in the buffer yet.
    NeedMoreHeader,
    /// The header block is complete but declared body bytes are missing.
    NeedMoreBody,
    Fail(ParseError),
    /// A parsed request and the number of bytes it consumed.
    Done(Request, usize),
}

#[verifier::ext_equal]
pub enum ReqParse {
    NeedMoreHeader,
    NeedMoreBody,
    Fail(ParseError),
    Done(RequestView, int),
}

impl View for RequestStep {
    type V = ReqParse;

    open spec fn view(&self) -> ReqParse {
        match self {
            RequestStep::NeedMoreHeader => ReqParse::NeedMoreHeader,
            RequestStep::NeedMoreBody => ReqParse::NeedMoreBody,
            RequestStep::Fail(e) => ReqParse::Fail(*e),
            RequestStep::Done(r, n) => ReqParse::Done(r@, *n as int),
        }
    }
}

/// Outcome of one attempt to read a response from the bytes seen so far.
pub enum ResponseStep {
    NeedMoreHeader,
    NeedMoreBody,
    Fail(ParseError),
    Done(Response, usize),
}

#[verifier::ext_equal]
pub enum RespParse {
    NeedMoreHeader,
    NeedMoreBody,
    Fail(ParseError),
    Done(ResponseView, int),
}

impl View for ResponseStep {
    type V = RespParse;

    open spec fn view(&self) -> RespParse {
        match self {
            ResponseStep::NeedMoreHeader => RespParse::NeedMoreHeader,
            ResponseStep::NeedMoreBody => RespParse::NeedMoreBody,
            ResponseStep::Fail(e) => RespParse::Fail(*e),
            ResponseStep::Done(r, n) => RespParse::Done(r@, *n as int),
        }
    }
}

// ---------------------------------------------------------------------------
// Decimal values and the declared body length
// ---------------------------------------------------------------------------

pub open spec fn is_digit(b: u8) -> bool {
    48 <= b && b <= 57
}

/// A non-empty, all-digit byte string.
pub open spec fn is_digit_seq(s: Seq<u8>) -> bool {
    s.len() > 0 && forall|i: int| 0 <= i < s.len() ==> is_digit(#[trigger] s[i])
}

/// The value of a digit string read as a decimal number.
pub open spec fn dec_val(s: Seq<u8>) -> int
    decreases s.len(),
{
    if s.len() == 0 {
        0
    } else {
        dec_val(s.drop_last()) * 10 + (s.last() - 48)
    }
}

/// How many `content-length` headers a block carries.
pub open spec fn cl_count(hs: Seq<HeaderView>) -> int
    decreases hs.len(),
{
    if hs.len() == 0 {
        0
    } else {
        (if is_content_length_name(hs[0].name) {
            1int
        } else {
            0int
        }) + cl_count(hs.drop_first())
    }
}

/// The value of the first `content-length` header, if any.
pub open spec fn first_cl_value(hs: Seq<HeaderView>) -> Seq<u8>
    decreases hs.len(),
{
    if hs.len() == 0 {
        Seq::<u8>::empty()
    } else if is_content_length_name(hs[0].name) {
        hs[0].value
    } else {
        first_cl_value(hs.drop_first())
    }
}

/// The body length a header block declares: zero with no `content-length`
/// header, its decimal value with exactly one, and invalid-content-length
/// with a duplicate or a non-numeric value.
pub open spec fn spec_declared_len(hs: Seq<HeaderView>) -> Result<int, ParseError> {
    if cl_count(hs) == 0 {
        Ok(0)
    } else if cl_count(hs) != 1 {
        Err(ParseError::InvalidContentLength)
    } else if is_digit_seq(first_cl_value(hs)) {
        Ok(dec_val(first_cl_value(hs)))
    } else {
        Err(ParseError::InvalidContentLength)
    }
}

// ---------------------------------------------------------------------------
// Lines and start lines
// ---------------------------------------------------------------------------

/// Leading spaces and horizontal tabs removed.
pub open spec fn trim_ows(s: Seq<u8>) -> Seq<u8>
    decreases s.len(),
{
    if s.len() > 0 && (s[0] == 32 || s[0] == 9) {
        trim_ows(s.skip(1))
    } else {
        s
    }
}

/// One header line split at its first colon, the value stripped of leading
/// optional whitespace; a line without a colon is malformed.
pub open spec fn spec_parse_header_line(line: Seq<u8>) -> Result<HeaderView, ParseError> {
    match find_from(line, seq![58u8], 0) {
        None => Err(ParseError::Malformed(MalformedKind::HeaderLine)),
        Some(i) => if !(0 <= i && i < line.len()) {
            Err(ParseError::Malformed(MalformedKind::HeaderLine))
        } else {
            Ok(HeaderView { name: line.subrange(0, i), value: trim_ows(line.skip(i + 1)) })
        },
    }
}

/// A line split at each single space byte.
pub open spec fn split_sp(s: Seq<u8>) -> Seq<Seq<u8>>
    decreases s.len(),
{
    match find_from(s, sp(), 0) {
        None => seq![s],
        Some(i) => if 0 <= i && i < s.len() {
            seq![s.subrange(0, i)] + split_sp(s.skip(i + 1))
        } else {
            seq![s]
        },
    }
}

/// A request start line: exactly the three tokens `METHOD PATH VERSION`,
/// with a version token this proxy knows.
pub open spec fn spec_parse_request_line(line: Seq<u8>) -> Result<
    (Seq<u8>, Seq<u8>, Seq<u8>),
    ParseError,
> {
    let toks = split_sp(line);
    if toks.len() != 3 {
        Err(ParseError::Malformed(MalformedKind::StartLine))
    } else if !is_supported_version(toks[2]) {
        Err(ParseError::Malformed(MalformedKind::UnknownVersion))
    } else {
        Ok((toks[0], toks[1], toks[2]))
    }
}

/// The value of a three-digit status token.
pub open spec fn status_val(st: Seq<u8>) -> int {
    (st[0] - 48) * 100 + (st[1] - 48) * 10 + (st[2] - 48)
}

pub open spec fn is_status_token(st: Seq<u8>) -> bool {
    st.len() == 3 && is_digit(st[0]) && is_digit(st[1]) && is_digit(st[2])
}

/// A response start line: `VERSION STATUS REASON`, the reason being the rest
/// of the line (possibly empty, possibly containing spaces).
pub open spec fn spec_parse_status_line(line: Seq<u8>) -> Result<
    (Seq<u8>, u16, Seq<u8>),
    ParseError,
> {
    match find_from(line, sp(), 0) {
        None => Err(ParseError::Malformed(MalformedKind::StartLine)),
        Some(i) => if !(0 <= i && i < line.len()) {
            Err(ParseError::Malformed(MalformedKind::StartLine))
        } else if !is_supported_version(line.subrange(0, i)) {
            Err(ParseError::Malformed(MalformedKind::UnknownVersion))
        } else {
            match find_from(line, sp(), i + 1) {
                None => Err(ParseError::Malformed(MalformedKind::StartLine)),
                Some(j) => if !(i + 1 <= j && j < line.len()) {
                    Err(ParseError::Malformed(MalformedKind::StartLine))
                } else if is_status_token(line.subrange(i + 1, j)) {
                    Ok(
                        (
                            line.subrange(0, i),
                            status_val(line.subrange(i + 1, j)) as u16,
                            line.skip(j + 1),
                        ),
                    )
                } else {
                    Err(ParseError::Malformed(MalformedKind::StatusCode))
                },
            }
        },
    }
}

/// The header lines from `pos` up to and including the blank line: the
/// parsed fields in order, and the position just past the blank line.
pub open spec fn spec_parse_header_block(s: Seq<u8>, pos: int) -> Result<
    (Seq<HeaderView>, int),
    ParseError,
>
    decreases s.len() - pos,
{
    match find_from(s, crlf(), pos) {
        None => Err(ParseError::Malformed(MalformedKind::HeaderLine)),
        Some(i) => if !(0 <= pos && pos <= i && i + 2 <= s.len()) {
            Err(ParseError::Malformed(MalformedKind::HeaderLine))
        } else if i == pos {
            Ok((Seq::<HeaderView>::empty(), pos + 2))
        } else {
            match spec_parse_header_line(s.subrange(pos, i)) {
                Err(e) => Err(e),
                Ok(h) => match spec_parse_header_block(s, i + 2) {
                    Err(e) => Err(e),
                    Ok(p) => Ok((seq![h] + p.0, p.1)),
                },
            }
        },
    }
}

// ---------------------------------------------------------------------------
// Whole messages
// ---------------------------------------------------------------------------

/// Reading one request off the bytes seen so far: nothing is concluded until
/// a blank line ends the header block; then the start line, the header
/// lines, the declared body length and the body bytes are taken in turn.
pub open spec fn spec_parse_request(s: Seq<u8>) -> ReqParse {
    match find_from(s, crlfcrlf(), 0) {
        None => ReqParse::NeedMoreHeader,
        Some(_) => match find_from(s, crlf(), 0) {
            None => ReqParse::NeedMoreHeader,
            Some(i0) => if !(0 <= i0 && i0 + 2 <= s.len()) {
                ReqParse::NeedMoreHeader
            } else {
                match spec_parse_request_line(s.subrange(0, i0)) {
                    Err(e) => ReqParse::Fail(e),
                    Ok(t) => match spec_parse_header_block(s, i0 + 2) {
                        Err(e) => ReqParse::Fail(e),
                        Ok(hb) => match spec_declared_len(hb.0) {
                            Err(e) => ReqParse::Fail(e),
                            Ok(blen) => if blen > MAX_BODY_SIZE {
                                ReqParse::Fail(ParseError::BodyTooLarge)
                            } else if hb.1 + blen <= s.len() {
                                ReqParse::Done(
                                    RequestView {
                                        method: t.0,
                                        path: t.1,
                                        version: t.2,
                                        headers: hb.0,
                                        body: s.subrange(hb.1, hb.1 + blen),
                                    },
                                    hb.1 + blen,
                                )
                            } else {
                                ReqParse::NeedMoreBody
                            },
                        },
                    },
                }
            },
        },
    }
}

/// Reading one response: as for requests, except that when the originating
/// request's method forbids a response body, the body is not read and is
/// empty whatever `content-length` said.
pub open spec fn spec_parse_response(s: Seq<u8>, suppress_body: bool) -> RespParse {
    match find_from(s, crlfcrlf(), 0) {
        None => RespParse::NeedMoreHeader,
        Some(_) => match find_from(s, crlf(), 0) {
            None => RespParse::NeedMoreHeader,
            Some(i0) => if !(0 <= i0 && i0 + 2 <= s.len()) {
                RespParse::NeedMoreHeader
            } else {
                match spec_parse_status_line(s.subrange(0, i0)) {
                    Err(e) => RespParse::Fail(e),
                    Ok(t) => match spec_parse_header_block(s, i0 + 2) {
                        Err(e) => RespParse::Fail(e),
                        Ok(hb) => match spec_declared_len(hb.0) {
                            Err(e) => RespParse::Fail(e),
                            Ok(blen) => if suppress_body {
                                RespParse::Done(
                                    ResponseView {
                                        version: t.0,
                                        status: t.1,
                                        reason: t.2,
                                        headers: hb.0,
                                        body: Seq::<u8>::empty(),
                                    },
                                    hb.1,
                                )
                            } else if blen > MAX_BODY_SIZE {
                                RespParse::Fail(ParseError::BodyTooLarge)
                            } else if hb.1 + blen <= s.len() {
                                RespParse::Done(
                                    ResponseView {
                                        version: t.0,
                                        status: t.1,
                                        reason: t.2,
                                        headers: hb.0,
                                        body: s.subrange(hb.1, hb.1 + blen),
                                    },
                                    hb.1 + blen,
                                )
                            } else {
                                RespParse::NeedMoreBody
                            },
                        },
                    },
                }
            },
        },
    }
}

// ---------------------------------------------------------------------------
// Executable parser
// ---------------------------------------------------------------------------

fn parse_header_line(line: &Vec<u8>) -> (r: Result<Header, ParseError>)
    ensures
        (match r {
            Ok(h) => spec_parse_header_line(line@) == Ok::<HeaderView, ParseError>(h@),
            Err(e) => spec_parse_header_line(line@) == Err::<HeaderView, ParseError>(e),
        }),
{
    match find_byte(line, 58, 0) {
        None => Err(ParseError::Malformed(MalformedKind::HeaderLine)),
        Some(i) => {
            let name = copy_range(line, 0, i);
            let mut j = i + 1;
            while j < line.len() && (line[j] == 32 || line[j] == 9)
                invariant
                    i + 1 <= j <= line.len(),
                    trim_ows(line@.skip(i + 1)) == trim_ows(line@.skip(j as int)),
                decreases line.len() - j,
            {
                proof {
                    assert(line@.skip(j as int)[0] == line@[j as int]);
                    assert(line@.skip(j as int).skip(1) =~= line@.skip(j + 1));
                }
                j = j + 1;
            }
            let value = copy_range(line, j, line.len());
            proof {
                assert(value@ =~= line@.skip(j as int));
                if j < line.len() {
                    assert(line@.skip(j as int)[0] == line@[j as int]);
                }
                assert(trim_ows(line@.skip(j as int)) == line@.skip(j as int));
            }
            Ok(Header { name, value })
        },
    }
}

/// Maps each byte vector to its view.
pub open spec fn seq_views(vs: Seq<Vec<u8>>) -> Seq<Seq<u8>> {
    vs.map_values(|v: Vec<u8>| v@)
}

fn split_sp_exec(line: &Vec<u8>) -> (r: Vec<Vec<u8>>)
    ensures
        seq_views(r@) == split_sp(line@),
    decreases line.len(),
{
    match find_byte(line, 32, 0) {
        None => {
            let mut r: Vec<Vec<u8>> = Vec::new();
            r.push(clone_bytes(line));
            proof {
                assert(seq_views(r@) =~= seq![line@]);
            }
            r
        },
        Some(i) => {
            let head = copy_range(line, 0, i);
            let tail = copy_range(line, i + 1, line.len());
            proof {
                assert(tail@ =~= line@.skip(i + 1));
            }
            let mut rest = split_sp_exec(&tail);
            rest.insert(0, head);
            proof {
                assert(seq_views(rest@) =~= seq![line@.subrange(0, i as int)] + split_sp(
                    line@.skip(i + 1),
                ));
            }
            rest
        },
    }
}

fn version_ok(tok: &Vec<u8>) -> (r: bool)
    ensures
        r == is_supported_version(tok@),
{
    if tok.len() != 8 {
        proof {
            assert(http11().len() == 8);
            assert(http10().len() == 8);
        }
        return false;
    }
    let pre = tok[0] == 72 && tok[1] == 84 && tok[2] == 84 && tok[3] == 80 && tok[4] == 47
        && tok[5] == 49 && tok[6] == 46;
    if pre && tok[7] == 49 {
        proof {
            assert(tok@ =~= http11());
        }
        true
    } else if pre && tok[7] == 48 {
        proof {
            assert(tok@ =~= http10());
        }
        true
    } else {
        proof {
            if tok@ == http11() {
                assert(tok@[0] == 72 && tok@[1] == 84 && tok@[2] == 84 && tok@[3] == 80 && tok@[4]
                    == 47 && tok@[5] == 49 && tok@[6] == 46 && tok@[7] == 49);
            }
            if tok@ == http10() {
                assert(tok@[0] == 72 && tok@[1] == 84 && tok@[2] == 84 && tok@[3] == 80 && tok@[4]
                    == 47 && tok@[5] == 49 && tok@[6] == 46 && tok@[7] == 48);
            }
        }
        false
    }
}

fn parse_request_line(line: &Vec<u8>) -> (r: Result<(Vec<u8>, Vec<u8>, Vec<u8>), ParseError>)
    ensures
        (match r {
            Ok(t) => spec_parse_request_line(line@) == Ok::<_, ParseError>((t.0@, t.1@, t.2@)),
            Err(e) => spec_parse_request_line(line@) == Err::<(Seq<u8>, Seq<u8>, Seq<u8>), _>(e),
        }),
{
    let toks = split_sp_exec(line);
    if toks.len() != 3 {
        return Err(ParseError::Malformed(MalformedKind::StartLine));
    }
    proof {
        assert(seq_views(toks@)[0] == toks@[0]@);
        assert(seq_views(toks@)[1] == toks@[1]@);
        assert(seq_views(toks@)[2] == toks@[2]@);
    }
    if !version_ok(&toks[2]) {
        return Err(ParseError::Malformed(MalformedKind::UnknownVersion));
    }
    let m = clone_bytes(&toks[0]);
    let p = clone_bytes(&toks[1]);
    let v = clone_bytes(&toks[2]);
    Ok((m, p, v))
}

fn parse_status_line(line: &Vec<u8>) -> (r: Result<(Vec<u8>, u16, Vec<u8>), ParseError>)
    ensures
        (match r {
            Ok(t) => spec_parse_status_line(line@) == Ok::<_, ParseError>((t.0@, t.1, t.2@)),
            Err(e) => spec_parse_status_line(line@) == Err::<(Seq<u8>, u16, Seq<u8>), _>(e),
        }),
{
    match find_byte(line, 32, 0) {
        None => Err(ParseError::Malformed(MalformedKind::StartLine)),
        Some(i) => {
            let version = copy_range(line, 0, i);
            if !version_ok(&version) {
                return Err(ParseError::Malformed(MalformedKind::UnknownVersion));
            }
            match find_byte(line, 32, i + 1) {
                None => Err(ParseError::Malformed(MalformedKind::StartLine)),
                Some(j) => {
                    let st = copy_range(line, i + 1, j);
                    let reason = copy_range(line, j + 1, line.len());
                    proof {
                        assert(reason@ =~= line@.skip(j + 1));
                    }
                    if st.len() == 3 && 48 <= st[0] && st[0] <= 57 && 48 <= st[1] && st[1] <= 57
                        && 48 <= st[2] && st[2] <= 57 {
                        let code: u16 = (st[0] - 48) as u16 * 100 + (st[1] - 48) as u16 * 10 + (
                        st[2] - 48) as u16;
                        proof {
                            assert(is_status_token(line@.subrange(i + 1, j as int)));
                            assert(code as int == status_val(line@.subrange(i + 1, j as int)));
                        }
                        Ok((version, code, reason))
                    } else {
                        proof {
                            assert(st@ == line@.subrange(i + 1, j as int));
                        }
                        Err(ParseError::Malformed(MalformedKind::StatusCode))
                    }
                },
            }
        },
    }
}

fn parse_header_block(buf: &Vec<u8>, start: usize) -> (r: Result<(Vec<Header>, usize), ParseError>)
    requires
        start <= buf.len(),
    ensures
        (match r {
            Ok(p) => spec_parse_header_block(buf@, start as int) == Ok::<_, ParseError>(
                (header_views(p.0@), p.1 as int),
            ) && start <= p.1 <= buf.len(),
            Err(e) => spec_parse_header_block(buf@, start as int) == Err::<
                (Seq<HeaderView>, int),
                _,
            >(e),
        }),
{
    let mut pos = start;
    let mut acc: Vec<Header> = Vec::new();
    loop
        invariant
            start <= pos <= buf.len(),
            (match spec_parse_header_block(buf@, pos as int) {
                Ok(p) => spec_parse_header_block(buf@, start as int) == Ok::<_, ParseError>(
                    (header_views(acc@) + p.0, p.1),
                ),
                Err(e) => spec_parse_header_block(buf@, start as int) == Err::<
                    (Seq<HeaderView>, int),
                    _,
                >(e),
            }),
        decreases buf.len() - pos,
    {
        match find_crlf(buf, pos) {
            None => {
                return Err(ParseError::Malformed(MalformedKind::HeaderLine));
            },
            Some(i) => {
                if i == pos {
                    proof {
                        assert(spec_parse_header_block(buf@, pos as int) == Ok::<_, ParseError>(
                            (Seq::<HeaderView>::empty(), pos + 2),
                        ));
                        assert(header_views(acc@) + Seq::<HeaderView>::empty() =~= header_views(
                            acc@,
                        ));
                    }
                    return Ok((acc, pos + 2));
                }
                let line = copy_range(buf, pos, i);
                match parse_header_line(&line) {
                    Err(e) => {
                        return Err(e);
                    },
                    Ok(h) => {
                        let ghost prev = acc@;
                        acc.push(h);
                        proof {
                            assert(header_views(acc@) =~= header_views(prev) + seq![h@]);
                            match spec_parse_header_block(buf@, i + 2) {
                                Ok(p) => {
                                    assert(spec_parse_header_block(buf@, pos as int) == Ok::<
                                        _,
                                        ParseError,
                                    >((seq![h@] + p.0, p.1)));
                                    assert((header_views(prev) + seq![h@]) + p.0 =~= header_views(
                                        prev,
                                    ) + (seq![h@] + p.0));
                                },
                                Err(_) => {},
                            }
                        }
                        pos = i + 2;
                    },
                }
            },
        }
    }
}

/// Result of reading the declared body length out of a header block.
enum DeclaredLen {
    Invalid,
    TooBig,
    Len(usize),
}

fn parse_dec(v: &Vec<u8>) -> (r: DeclaredLen)
    ensures
        (match r {
            DeclaredLen::Invalid => !is_digit_seq(v@),
            DeclaredLen::TooBig => is_digit_seq(v@) && dec_val(v@) > MAX_BODY_SIZE,
            DeclaredLen::Len(n) => is_digit_seq(v@) && dec_val(v@) == n && n <= MAX_BODY_SIZE,
        }),
{
    if v.len() == 0 {
        return DeclaredLen::Invalid;
    }
    let mut i: usize = 0;
    while i < v.len()
        invariant
            i <= v.len(),
            forall|k: int| 0 <= k < i ==> is_digit(#[trigger] v@[k]),
        decreases v.len() - i,
    {
        if v[i] < 48 || v[i] > 57 {
            return DeclaredLen::Invalid;
        }
        i = i + 1;
    }
    let mut acc: u64 = 0;
    let mut k: usize = 0;
    while k < v.len()
        invariant
            k <= v.len(),
            is_digit_seq(v@),
            acc <= 10000000 ==> acc == dec_val(v@.take(k as int)),
            acc > 10000000 ==> acc == 10000001 && dec_val(v@.take(k as int)) > 10000000,
        decreases v.len() - k,
    {
        let d = (v[k] - 48) as u64;
        proof {
            assert(v@.take(k + 1).drop_last() =~= v@.take(k as int));
            assert(v@.take(k + 1).last() == v@[k as int]);
        }
        if acc <= 10000000 {
            let na = acc * 10 + d;
            if na > 10000000 {
                acc = 10000001;
            } else {
                acc = na;
            }
        }
        k = k + 1;
    }
    proof {
        assert(v@.take(v@.len() as int) =~= v@);
    }
    if acc <= 10000000 {
        DeclaredLen::Len(acc as usize)
    } else {
        DeclaredLen::TooBig
    }
}

pub fn content_length_bytes() -> (r: Vec<u8>)
    ensures
        r@ == content_length_name(),
{
    let mut v: Vec<u8> = Vec::new();
    v.push(99);
    v.push(111);
    v.push(110);
    v.push(116);
    v.push(101);
    v.push(110);
    v.push(116);
    v.push(45);
    v.push(108);
    v.push(101);
    v.push(110);
    v.push(103);
    v.push(116);
    v.push(104);
    proof {
        assert(v@ =~= content_length_name());
    }
    v
}

fn declared_len(headers: &Vec<Header>) -> (r: DeclaredLen)
    ensures
        (match r {
            DeclaredLen::Invalid => spec_declared_len(header_views(headers@)) == Err::<
                int,
                _,
            >(ParseError::InvalidContentLength),
            DeclaredLen::TooBig => (match spec_declared_len(header_views(headers@)) {
                Ok(n) => n > MAX_BODY_SIZE,
                Err(_) => false,
            }),
            DeclaredLen::Len(n) => spec_declared_len(header_views(headers@)) == Ok::<_, ParseError>(
                n as int,
            ) && n <= MAX_BODY_SIZE,
        }),
{
    let ghost hv = header_views(headers@);
    let cl = content_length_bytes();
    let mut count: usize = 0;
    let mut first: usize = 0;
    let mut i: usize = 0;
    proof {
        assert(hv.skip(0) =~= hv);
    }
    while i < headers.len()
        invariant
            i <= headers.len(),
            count <= i,
            hv == header_views(headers@),
            hv.len() == headers@.len(),
            cl@ == content_length_name(),
            cl_count(hv) == count + cl_count(hv.skip(i as int)),
            count == 0 ==> first_cl_value(hv) == first_cl_value(hv.skip(i as int)),
            count > 0 ==> first < i && is_content_length_name(hv[first as int].name)
                && first_cl_value(hv) == hv[first as int].value,
        decreases headers.len() - i,
    {
        proof {
            assert(hv.skip(i as int)[0] == hv[i as int]);
            assert(hv.skip(i as int).drop_first() =~= hv.skip(i + 1));
            assert(hv[i as int] == headers@[i as int]@);
        }
        if eq_ignore_case(&headers[i].name, &cl) {
            if count == 0 {
                first = i;
            }
            count = count + 1;
        }
        i = i + 1;
    }
    proof {
        assert(hv.skip(headers@.len() as int) =~= Seq::<HeaderView>::empty());
    }
    if count == 0 {
        DeclaredLen::Len(0)
    } else if count > 1 {
        DeclaredLen::Invalid
    } else {
        proof {
            assert(hv[first as int] == headers@[first as int]@);
        }
        parse_dec(&headers[first].value)
    }
}

/// Try to read one request from the bytes received so far. The result is
/// exactly what `spec_parse_request` says of those bytes.
pub fn parse_request(buf: &Vec<u8>) -> (r: RequestStep)
    ensures
        r@ == spec_parse_request(buf@),
{
    let cc = find_crlfcrlf(buf, 0);
    if cc.is_none() {
        return RequestStep::NeedMoreHeader;
    }
    let i0 = match find_crlf(buf, 0) {
        None => {
            return RequestStep::NeedMoreHeader;
        },
        Some(i0) => i0,
    };
    let line = copy_range(buf, 0, i0);
    let t = match parse_request_line(&line) {
        Err(e) => {
            return RequestStep::Fail(e);
        },
        Ok(t) => t,
    };
    let hb = match parse_header_block(buf, i0 + 2) {
        Err(e) => {
            return RequestStep::Fail(e);
        },
        Ok(hb) => hb,
    };
    let (headers, bodystart) = hb;
    let blen = match declared_len(&headers) {
        DeclaredLen::Invalid => {
            return RequestStep::Fail(ParseError::InvalidContentLength);
        },
        DeclaredLen::TooBig => {
            return RequestStep::Fail(ParseError::BodyTooLarge);
        },
        DeclaredLen::Len(n) => n,
    };
    if blen <= buf.len() - bodystart {
        let body = copy_range(buf, bodystart, bodystart + blen);
        let req = Request { method: t.0, path: t.1, version: t.2, headers, body };
        let r = RequestStep::Done(req, bodystart + blen);
        proof {
            assert(r@ =~= spec_parse_request(buf@));
        }
        r
    } else {
        RequestStep::NeedMoreBody
    }
}

/// Try to read one response from the bytes received so far, suppressing the
/// body when the originating request's method requires that. The result is
/// exactly what `spec_parse_response` says.
pub fn parse_response(buf: &Vec<u8>, suppress_body: bool) -> (r: ResponseStep)
    ensures
        r@ == spec_parse_response(buf@, suppress_body),
{
    let cc = find_crlfcrlf(buf, 0);
    if cc.is_none() {
        return ResponseStep::NeedMoreHeader;
    }
    let i0 = match find_crlf(buf, 0) {
        None => {
            return ResponseStep::NeedMoreHeader;
        },
        Some(i0) => i0,
    };
    let line = copy_range(buf, 0, i0);
    let t = match parse_status_line(&line) {
        Err(e) => {
            return ResponseStep::Fail(e);
        },
        Ok(t) => t,
    };
    let hb = match parse_header_block(buf, i0 + 2) {
        Err(e) => {
            return ResponseStep::Fail(e);
        },
        Ok(hb) => hb,
    };
    let (headers, bodystart) = hb;
    let blen = match declared_len(&headers) {
        DeclaredLen::Invalid => {
            return ResponseStep::Fail(ParseError::InvalidContentLength);
        },
        DeclaredLen::TooBig => {
            if suppress_body {
                let resp = Response {
                    version: t.0,
                    status: t.1,
                    reason: t.2,
                    headers,
                    body: Vec::new(),
                };
                let r = ResponseStep::Done(resp, bodystart);
                proof {
                    assert(r@ =~= spec_parse_response(buf@, suppress_body));
                }
                return r;
            }
            return ResponseStep::Fail(ParseError::BodyTooLarge);
        },
        DeclaredLen::Len(n) => n,
    };
    if suppress_body {
        let resp = Response { version: t.0, status: t.1, reason: t.2, headers, body: Vec::new() };
        let r = ResponseStep::Done(resp, bodystart);
        proof {
            assert(r@ =~= spec_parse_response(buf@, suppress_body));
        }
        return r;
    }
    if blen <= buf.len() - bodystart {
        let body = copy_range(buf, bodystart, bodystart + blen);
        let resp = Response { version: t.0, status: t.1, reason: t.2, headers, body };
        let r = ResponseStep::Done(resp, bodystart + blen);
        proof {
            assert(r@ =~= spec_parse_response(buf@, suppress_body));
        }
        r
    } else {
        ResponseStep::NeedMoreBody
    }
}

/// The failure to report when the stream closes while a message is still
/// outstanding: before a complete header block it is an incomplete message
/// carrying the byte count (zero meaning the graceful end of input); after
/// the header block it is a content-length mismatch.
pub fn close_failure(header_complete: bool, bytes_read: usize) -> (e: ParseError)
    ensures
        e == if header_complete {
            ParseError::ContentLengthMismatch
        } else {
            ParseError::Incomplete(bytes_read)
        },
{
    if header_complete {
        ParseError::ContentLengthMismatch
    } else {
        ParseError::Incomplete(bytes_read)
    }
}

} // verus!
