//! Structured HTTP/1.1 messages: requests, responses, their mathematical
//! views, well-formedness, and serialization back to wire bytes.

use vstd::prelude::*;

use crate::find::crlf;

verus! {

/// Largest body the codec will agree to read, in bytes (a policy constant).
pub const MAX_BODY_SIZE: usize = 10000000;

/// One header field as received: name and value, order and spelling preserved.
pub struct Header {
    pub name: Vec<u8>,
    pub value: Vec<u8>,
}

#[verifier::ext_equal]
pub struct HeaderView {
    pub name: Seq<u8>,
    pub value: Seq<u8>,
}

impl View for Header {
    type V = HeaderView;

    open spec fn view(&self) -> HeaderView {
        HeaderView { name: self.name@, value: self.value@ }
    }
}

/// An HTTP request: start line parts, ordered headers, raw body.
pub struct Request {
    pub method: Vec<u8>,
    pub path: Vec<u8>,
    pub version: Vec<u8>,
    pub headers: Vec<Header>,
    pub body: Vec<u8>,
}

#[verifier::ext_equal]
pub struct RequestView {
    pub method: Seq<u8>,
    pub path: Seq<u8>,
    pub version: Seq<u8>,
    pub headers: Seq<HeaderView>,
    pub body: Seq<u8>,
}

impl View for Request {
    type V = RequestView;

    open spec fn view(&self) -> RequestView {
        RequestView {
            method: self.method@,
            path: self.path@,
            version: self.version@,
            headers: header_views(self.headers@),
            body: self.body@,
        }
    }
}

/// An HTTP response: status line parts, ordered headers, raw body.
pub struct Response {
    pub version: Vec<u8>,
    pub status: u16,
    pub reason: Vec<u8>,
    pub headers: Vec<Header>,
    pub body: Vec<u8>,
}

#[verifier::ext_equal]
pub struct ResponseView {
    pub version: Seq<u8>,
    pub status: u16,
    pub reason: Seq<u8>,
    pub headers: Seq<HeaderView>,
    pub body: Seq<u8>,
}

impl View for Response {
    type V = ResponseView;

    open spec fn view(&self) -> ResponseView {
        ResponseView {
            version: self.version@,
            status: self.status,
            reason: self.reason@,
            headers: header_views(self.headers@),
            body: self.body@,
        }
    }
}

pub open spec fn header_views(hs: Seq<Header>) -> Seq<HeaderView> {
    hs.map_values(|h: Header| h@)
}

// ---------------------------------------------------------------------------
// Byte classes and fixed byte strings
// ---------------------------------------------------------------------------

pub open spec fn sp() -> Seq<u8> {
    seq![32u8]
}

pub open spec fn colon_sp() -> Seq<u8> {
    seq![58u8, 32u8]
}

pub open spec fn comma_sp() -> Seq<u8> {
    seq![44u8, 32u8]
}

/// The bytes of `HTTP/1.1`.
pub open spec fn http11() -> Seq<u8> {
    seq![72u8, 84u8, 84u8, 80u8, 47u8, 49u8, 46u8, 49u8]
}

/// The bytes of `HTTP/1.0`.
pub open spec fn http10() -> Seq<u8> {
    seq![72u8, 84u8, 84u8, 80u8, 47u8, 49u8, 46u8, 48u8]
}

pub open spec fn is_supported_version(v: Seq<u8>) -> bool {
    v == http11() || v == http10()
}

/// The bytes of `content-length`.
pub open spec fn content_length_name() -> Seq<u8> {
    seq![99u8, 111u8, 110u8, 116u8, 101u8, 110u8, 116u8, 45u8, 108u8, 101u8, 110u8, 103u8, 116u8, 104u8]
}

/// The bytes of `x-forwarded-for`.
pub open spec fn x_forwarded_for_name() -> Seq<u8> {
    seq![120u8, 45u8, 102u8, 111u8, 114u8, 119u8, 97u8, 114u8, 100u8, 101u8, 100u8, 45u8, 102u8, 111u8, 114u8]
}

pub open spec fn lower_byte(b: u8) -> u8 {
    if 65 <= b && b <= 90 {
        (b + 32) as u8
    } else {
        b
    }
}

/// ASCII-case-insensitive equality of two byte strings.
pub open spec fn eq_ci(a: Seq<u8>, b: Seq<u8>) -> bool {
    a.len() == b.len() && forall|i: int| 0 <= i < a.len() ==> lower_byte(a[i]) == lower_byte(b[i])
}

pub open spec fn is_content_length_name(n: Seq<u8>) -> bool {
    eq_ci(n, content_length_name())
}

// ---------------------------------------------------------------------------
// Well-formedness
// ---------------------------------------------------------------------------

/// A start-line token: non-empty, and free of CR, LF and space.
pub open spec fn token_ok(t: Seq<u8>) -> bool {
    t.len() > 0 && forall|i: int|
        0 <= i < t.len() ==> t[i] != 13 && t[i] != 10 && t[i] != 32
}

/// A header name: non-empty, free of CR, LF and the colon separator.
pub open spec fn header_name_ok(n: Seq<u8>) -> bool {
    n.len() > 0 && forall|i: int|
        0 <= i < n.len() ==> n[i] != 13 && n[i] != 10 && n[i] != 58
}

/// A header value: free of CR and LF, and not starting with optional
/// whitespace (which serialization inserts and parsing strips).
pub open spec fn header_value_ok(v: Seq<u8>) -> bool {
    (forall|i: int| 0 <= i < v.len() ==> v[i] != 13 && v[i] != 10) && (v.len() > 0 ==> v[0] != 32
        && v[0] != 9)
}

pub open spec fn headers_ok(hs: Seq<HeaderView>) -> bool {
    forall|i: int|
        0 <= i < hs.len() ==> header_name_ok(#[trigger] hs[i].name) && header_value_ok(hs[i].value)
}

// ---------------------------------------------------------------------------
// Serialization
// ---------------------------------------------------------------------------

/// Wire form of one header field: `name: value` followed by CRLF.
pub open spec fn ser_header(h: HeaderView) -> Seq<u8> {
    h.name + colon_sp() + h.value + crlf()
}

pub open spec fn ser_headers(hs: Seq<HeaderView>) -> Seq<u8>
    decreases hs.len(),
{
    if hs.len() == 0 {
        Seq::<u8>::empty()
    } else {
        ser_header(hs[0]) + ser_headers(hs.drop_first())
    }
}

/// Wire form of a request: start line, header fields, blank line, body.
pub open spec fn ser_request(r: RequestView) -> Seq<u8> {
    r.method + sp() + r.path + sp() + r.version + crlf() + ser_headers(r.headers) + crlf() + r.body
}

/// The three ASCII digits of a status code below 1000.
pub open spec fn status_digits(code: u16) -> Seq<u8> {
    seq![(48 + code / 100) as u8, (48 + (code / 10) % 10) as u8, (48 + code % 10) as u8]
}

/// Wire form of a response: status line, header fields, blank line, body.
pub open spec fn ser_response(r: ResponseView) -> Seq<u8> {
    r.version + sp() + status_digits(r.status) + sp() + r.reason + crlf() + ser_headers(r.headers)
        + crlf() + r.body
}

/// Serialization appended header by header.
pub proof fn lemma_ser_headers_push(hs: Seq<HeaderView>, h: HeaderView)
    ensures
        ser_headers(hs.push(h)) == ser_headers(hs) + ser_header(h),
    decreases hs.len(),
{
    if hs.len() == 0 {
        assert(hs.push(h).drop_first() =~= Seq::<HeaderView>::empty());
        assert(hs.push(h)[0] == h);
        assert(ser_headers(hs.push(h)) == ser_header(h) + ser_headers(
            Seq::<HeaderView>::empty(),
        ));
        assert(ser_header(h) + ser_headers(Seq::<HeaderView>::empty()) =~= ser_header(h));
        assert(ser_headers(hs) + ser_header(h) =~= ser_header(h));
    } else {
        assert(hs.push(h).drop_first() =~= hs.drop_first().push(h));
        lemma_ser_headers_push(hs.drop_first(), h);
        assert(ser_headers(hs.push(h)) == ser_header(hs[0]) + (ser_headers(hs.drop_first())
            + ser_header(h)));
        assert(ser_header(hs[0]) + (ser_headers(hs.drop_first()) + ser_header(h)) =~= (ser_header(
            hs[0],
        ) + ser_headers(hs.drop_first())) + ser_header(h));
    }
}

// ---------------------------------------------------------------------------
// Executable helpers and serializers
// ---------------------------------------------------------------------------

/// Append all of `data` to `out`.
pub fn push_all(out: &mut Vec<u8>, data: &Vec<u8>)
    ensures
        final(out)@ == old(out)@ + data@,
{
    let mut i: usize = 0;
    while i < data.len()
        invariant
            i <= data.len(),
            out@ == old(out)@ + data@.subrange(0, i as int),
        decreases data.len() - i,
    {
        out.push(data[i]);
        proof {
            assert(out@ =~= old(out)@ + data@.subrange(0, i + 1));
        }
        i = i + 1;
    }
    proof {
        assert(out@ =~= old(out)@ + data@);
    }
}

/// Copy a byte string.
pub fn clone_bytes(v: &Vec<u8>) -> (r: Vec<u8>)
    ensures
        r@ == v@,
{
    let r = crate::find::copy_range(v, 0, v.len());
    proof {
        assert(v@.subrange(0, v@.len() as int) =~= v@);
    }
    r
}

/// Copy one header field.
pub fn clone_header(h: &Header) -> (r: Header)
    ensures
        r@ == h@,
{
    Header { name: clone_bytes(&h.name), value: clone_bytes(&h.value) }
}

fn push_crlf(out: &mut Vec<u8>)
    ensures
        final(out)@ == old(out)@ + crlf(),
{
    out.push(13);
    out.push(10);
    proof {
        assert(out@ =~= old(out)@ + crlf());
    }
}

/// Serialize the shared tail of both message kinds: each header as
/// `name: value` CRLF, then the blank line, then the body bytes.
fn ser_tail(out: &mut Vec<u8>, headers: &Vec<Header>, body: &Vec<u8>)
    ensures
        final(out)@ == old(out)@ + ser_headers(header_views(headers@)) + crlf() + body@,
{
    let ghost base = out@;
    let mut i: usize = 0;
    while i < headers.len()
        invariant
            i <= headers.len(),
            out@ == base + ser_headers(header_views(headers@).take(i as int)),
        decreases headers.len() - i,
    {
        let ghost before = out@;
        push_all(out, &headers[i].name);
        out.push(58);
        out.push(32);
        push_all(out, &headers[i].value);
        push_crlf(out);
        proof {
            assert(out@ =~= before + ser_header(headers@[i as int]@));
            assert(header_views(headers@).take(i + 1) =~= header_views(headers@).take(
                i as int,
            ).push(headers@[i as int]@));
            lemma_ser_headers_push(header_views(headers@).take(i as int), headers@[i as int]@);
            assert(out@ =~= base + ser_headers(header_views(headers@).take(i + 1)));
        }
        i = i + 1;
    }
    proof {
        assert(header_views(headers@).take(headers@.len() as int) =~= header_views(headers@));
    }
    push_crlf(out);
    push_all(out, body);
}

/// Serialize a request to the exact byte sequence `ser_request` describes.
pub fn serialize_request(r: &Request) -> (out: Vec<u8>)
    ensures
        out@ == ser_request(r@),
{
    let mut out: Vec<u8> = Vec::new();
    push_all(&mut out, &r.method);
    out.push(32);
    push_all(&mut out, &r.path);
    out.push(32);
    push_all(&mut out, &r.version);
    push_crlf(&mut out);
    proof {
        assert(out@ =~= r@.method + sp() + r@.path + sp() + r@.version + crlf());
    }
    ser_tail(&mut out, &r.headers, &r.body);
    proof {
        assert(out@ =~= ser_request(r@));
    }
    out
}

/// The three ASCII digits of a status code.
fn status_digits_exec(code: u16) -> (out: [u8; 3])
    requires
        code <= 999,
    ensures
        out@ == status_digits(code),
{
    let d0: u8 = 48 + (code / 100) as u8;
    let d1: u8 = 48 + ((code / 10) % 10) as u8;
    let d2: u8 = 48 + (code % 10) as u8;
    let out = [d0, d1, d2];
    proof {
        assert(out@ =~= status_digits(code));
    }
    out
}

/// Serialize a response to the exact byte sequence `ser_response` describes.
pub fn serialize_response(r: &Response) -> (out: Vec<u8>)
    requires
        r.status <= 999,
    ensures
        out@ == ser_response(r@),
{
    let mut out: Vec<u8> = Vec::new();
    push_all(&mut out, &r.version);
    out.push(32);
    let ds = status_digits_exec(r.status);
    out.push(ds[0]);
    out.push(ds[1]);
    out.push(ds[2]);
    out.push(32);
    push_all(&mut out, &r.reason);
    push_crlf(&mut out);
    proof {
        assert(out@ =~= r@.version + sp() + status_digits(r@.status) + sp() + r@.reason + crlf());
    }
    ser_tail(&mut out, &r.headers, &r.body);
    proof {
        assert(out@ =~= ser_response(r@));
    }
    out
}

// ---------------------------------------------------------------------------
// Case-insensitive comparison and header extension
// ---------------------------------------------------------------------------

fn lower_byte_exec(b: u8) -> (r: u8)
    ensures
        r == lower_byte(b),
{
    if 65 <= b && b <= 90 {
        b + 32
    } else {
        b
    }
}

/// Decide ASCII-case-insensitive equality of two byte strings.
pub fn eq_ignore_case(a: &Vec<u8>, b: &Vec<u8>) -> (r: bool)
    ensures
        r == eq_ci(a@, b@),
{
    if a.len() != b.len() {
        return false;
    }
    let mut i: usize = 0;
    while i < a.len()
        invariant
            i <= a.len(),
            a.len() == b.len(),
            forall|j: int| 0 <= j < i ==> lower_byte(a@[j]) == lower_byte(b@[j]),
        decreases a.len() - i,
    {
        if lower_byte_exec(a[i]) != lower_byte_exec(b[i]) {
            return false;
        }
        i = i + 1;
    }
    true
}

/// Position of the first header whose name equals `name` up to ASCII case.
pub open spec fn find_header_from(hs: Seq<HeaderView>, name: Seq<u8>, i: int) -> Option<int>
    decreases hs.len() - i,
{
    if i < 0 || i >= hs.len() {
        None
    } else if eq_ci(hs[i].name, name) {
        Some(i)
    } else {
        find_header_from(hs, name, i + 1)
    }
}

/// The message after appending `extend` to the header `name`: the first
/// matching header keeps its place and spelling and gains `, extend` at the
/// end of its value; with no match, a new `name: extend` header is appended.
pub open spec fn with_header_extended(r: RequestView, name: Seq<u8>, extend: Seq<u8>) -> RequestView {
    match find_header_from(r.headers, name, 0) {
        None => RequestView {
            headers: r.headers.push(HeaderView { name: name, value: extend }),
            ..r
        },
        Some(i) => RequestView {
            headers: r.headers.update(
                i,
                HeaderView { name: r.headers[i].name, value: r.headers[i].value + comma_sp() + extend },
            ),
            ..r
        },
    }
}

/// What a successful header search guarantees about the index it returns.
pub proof fn lemma_find_header_props(hs: Seq<HeaderView>, name: Seq<u8>, from: int)
    requires
        0 <= from,
    ensures
        match find_header_from(hs, name, from) {
            Some(i) => from <= i < hs.len() && eq_ci(hs[i].name, name),
            None => true,
        },
    decreases hs.len() - from,
{
    if from < hs.len() && !eq_ci(hs[from].name, name) {
        lemma_find_header_props(hs, name, from + 1);
    }
}

/// Appending to a header the message already carries preserves the chain:
/// the header keeps its place and spelling, its new value is the old value
/// followed by a comma, a space and the appended text, and every other
/// header is untouched.
pub proof fn lemma_header_extended_appends(r: RequestView, name: Seq<u8>, extend: Seq<u8>, i: int)
    requires
        find_header_from(r.headers, name, 0) == Some(i),
    ensures
        0 <= i < r.headers.len(),
        with_header_extended(r, name, extend).headers.len() == r.headers.len(),
        with_header_extended(r, name, extend).headers[i].name == r.headers[i].name,
        with_header_extended(r, name, extend).headers[i].value == r.headers[i].value + comma_sp()
            + extend,
        forall|j: int|
            0 <= j < r.headers.len() && j != i ==> with_header_extended(r, name, extend).headers[j]
                == r.headers[j],
{
    lemma_find_header_props(r.headers, name, 0);
}

/// Append `extend` to the request header `name`, preserving any value the
/// header already carries, as `with_header_extended` describes.
pub fn extend_header_value(r: &mut Request, name: &Vec<u8>, extend: &Vec<u8>)
    ensures
        final(r)@ == with_header_extended(old(r)@, name@, extend@),
{
    let mut idx: usize = 0;
    let n = r.headers.len();
    let mut found: Option<usize> = None;
    while idx < n
        invariant
            idx <= n,
            n == r.headers.len(),
            found is None ==> find_header_from(r@.headers, name@, 0) == find_header_from(
                r@.headers,
                name@,
                idx as int,
            ),
            (match found {
                Some(f) => f < idx && find_header_from(r@.headers, name@, 0) == Some(f as int),
                None => true,
            }),
        decreases n - idx + (if found is Some { 0int } else { 1int }),
    {
        if found.is_none() && eq_ignore_case(&r.headers[idx].name, name) {
            found = Some(idx);
        } else {
            proof {
                if found is None {
                    assert(find_header_from(r@.headers, name@, idx as int) == find_header_from(
                        r@.headers,
                        name@,
                        idx + 1,
                    ));
                }
            }
        }
        idx = idx + 1;
    }
    match found {
        None => {
            let h = Header { name: clone_bytes(name), value: clone_bytes(extend) };
            r.headers.push(h);
            proof {
                assert(find_header_from(old(r)@.headers, name@, n as int) is None);
                assert(r@.headers =~= old(r)@.headers.push(
                    HeaderView { name: name@, value: extend@ },
                ));
                assert(r@ =~= with_header_extended(old(r)@, name@, extend@));
            }
        },
        Some(f) => {
            let mut new_value = clone_bytes(&r.headers[f].value);
            new_value.push(44);
            new_value.push(32);
            push_all(&mut new_value, extend);
            let new_header = Header { name: clone_bytes(&r.headers[f].name), value: new_value };
            let mut rebuilt: Vec<Header> = Vec::new();
            let mut j: usize = 0;
            let ghost target = old(r)@.headers.update(
                f as int,
                HeaderView {
                    name: old(r)@.headers[f as int].name,
                    value: old(r)@.headers[f as int].value + comma_sp() + extend@,
                },
            );
            proof {
                assert(old(r)@.headers[f as int] == old(r).headers@[f as int]@);
                assert(new_header@.value =~= old(r)@.headers[f as int].value + comma_sp()
                    + extend@);
                assert(new_header@ =~= (HeaderView {
                    name: old(r)@.headers[f as int].name,
                    value: old(r)@.headers[f as int].value + comma_sp() + extend@,
                }));
                assert(header_views(rebuilt@) =~= target.take(0));
            }
            while j < n
                invariant
                    j <= n,
                    f < n,
                    n == r.headers.len(),
                    r@ == old(r)@,
                    new_header@ == (HeaderView {
                        name: old(r)@.headers[f as int].name,
                        value: old(r)@.headers[f as int].value + comma_sp() + extend@,
                    }),
                    target == old(r)@.headers.update(f as int, new_header@),
                    header_views(rebuilt@) == target.take(j as int),
                decreases n - j,
            {
                let ghost prev = rebuilt@;
                if j == f {
                    rebuilt.push(clone_header(&new_header));
                } else {
                    rebuilt.push(clone_header(&r.headers[j]));
                }
                proof {
                    assert(header_views(prev).len() == prev.len());
                    assert(prev.len() == j);
                    assert(rebuilt@ == prev.push(rebuilt@.last()));
                    assert forall|k: int| 0 <= k <= j implies header_views(rebuilt@)[k]
                        == target.take(j + 1)[k] by {
                        assert(header_views(rebuilt@)[k] == rebuilt@[k]@);
                        if k < j {
                            assert(rebuilt@[k] == prev[k]);
                            assert(header_views(prev)[k] == prev[k]@);
                            assert(header_views(prev)[k] == target.take(j as int)[k]);
                        } else {
                            if j == f {
                                assert(rebuilt@[k]@ == new_header@);
                                assert(target[k] == new_header@);
                            } else {
                                assert(rebuilt@[k]@ == r.headers@[j as int]@);
                                assert(r@.headers[j as int] == r.headers@[j as int]@);
                                assert(target[k] == old(r)@.headers[j as int]);
                            }
                        }
                    }
                    assert(header_views(rebuilt@) =~= target.take(j + 1));
                }
                j = j + 1;
            }
            r.headers = rebuilt;
            proof {
                assert(target.take(n as int) =~= target);
                assert(r@ =~= with_header_extended(old(r)@, name@, extend@));
            }
        },
    }
}

} // verus!
