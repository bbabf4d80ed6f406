//! The codec round trip: serializing a well-formed request and parsing the
//! bytes back yields the same request, consuming every byte — so parse then
//! serialize reproduces a byte-equivalent message.

use vstd::prelude::*;

use crate::find::{find_from, is_match_at, crlf, crlfcrlf, lemma_find_first, lemma_find_skip, lemma_match_index};
use crate::msg::{
    HeaderView, RequestView, ResponseView, headers_ok, header_name_ok, header_value_ok, token_ok,
    is_supported_version, http11, http10, ser_header, ser_headers, ser_request, ser_response,
    status_digits, sp, colon_sp, MAX_BODY_SIZE,
};
use crate::parse::{
    ParseError, ReqParse, RespParse, spec_parse_request, spec_parse_response,
    spec_parse_request_line, spec_parse_status_line, spec_parse_header_block,
    spec_parse_header_line, spec_declared_len, split_sp, trim_ows, status_val, is_status_token,
    is_digit, is_digit_seq, dec_val, first_cl_value,
};

verus! {

/// A request value fit for the wire: clean tokens, a known version, clean
/// headers, and `content-length` declaring exactly the body's length (its
/// absence meaning an empty body), within the size cap.
pub open spec fn wf_request(r: RequestView) -> bool {
    token_ok(r.method) && token_ok(r.path) && is_supported_version(r.version) && headers_ok(
        r.headers,
    ) && spec_declared_len(r.headers) == Ok::<int, ParseError>(r.body.len() as int) && r.body.len()
        <= MAX_BODY_SIZE
}

// ---------------------------------------------------------------------------
// Lines of a message head
// ---------------------------------------------------------------------------

/// Each line followed by CRLF, in order.
spec fn ser_lines(ls: Seq<Seq<u8>>) -> Seq<u8>
    decreases ls.len(),
{
    if ls.len() == 0 {
        Seq::<u8>::empty()
    } else {
        ls[0] + crlf() + ser_lines(ls.drop_first())
    }
}

/// A head line: non-empty and free of CR.
spec fn line_ok(l: Seq<u8>) -> bool {
    l.len() > 0 && forall|i: int| 0 <= i < l.len() ==> l[i] != 13
}

spec fn lines_ok(ls: Seq<Seq<u8>>) -> bool {
    forall|k: int| 0 <= k < ls.len() ==> line_ok(#[trigger] ls[k])
}

/// The wire line of one header, without its CRLF.
spec fn header_line(h: HeaderView) -> Seq<u8> {
    h.name + colon_sp() + h.value
}

spec fn header_lines(hs: Seq<HeaderView>) -> Seq<Seq<u8>> {
    Seq::new(hs.len(), |i: int| header_line(hs[i]))
}

proof fn lemma_ser_headers_as_lines(hs: Seq<HeaderView>)
    ensures
        ser_headers(hs) == ser_lines(header_lines(hs)),
    decreases hs.len(),
{
    if hs.len() == 0 {
        assert(header_lines(hs) =~= Seq::<Seq<u8>>::empty());
        assert(ser_headers(hs) =~= ser_lines(header_lines(hs)));
    } else {
        lemma_ser_headers_as_lines(hs.drop_first());
        assert(header_lines(hs).drop_first() =~= header_lines(hs.drop_first()));
        assert(header_lines(hs)[0] == header_line(hs[0]));
        assert(ser_header(hs[0]) =~= header_line(hs[0]) + crlf());
        assert(ser_lines(header_lines(hs)) == header_line(hs[0]) + crlf() + ser_lines(
            header_lines(hs.drop_first()),
        ));
        assert(ser_header(hs[0]) + ser_headers(hs.drop_first()) =~= header_line(hs[0]) + crlf()
            + ser_headers(hs.drop_first()));
    }
}

/// A clean header makes a clean line.
proof fn lemma_header_line_ok(h: HeaderView)
    requires
        header_name_ok(h.name),
        header_value_ok(h.value),
    ensures
        line_ok(header_line(h)),
        forall|i: int| 0 <= i < header_line(h).len() ==> header_line(h)[i] != 13,
{
    let hl = header_line(h);
    assert forall|i: int| 0 <= i < hl.len() implies hl[i] != 13 by {
        if i < h.name.len() {
            assert(hl[i] == h.name[i]);
        } else if i == h.name.len() {
            assert(hl[i] == 58);
        } else if i == h.name.len() + 1 {
            assert(hl[i] == 32);
        } else {
            assert(hl[i] == h.value[i - h.name.len() - 2]);
        }
    }
}

/// A supported version token's bytes, spelled out.
proof fn lemma_version_bytes(v: Seq<u8>)
    requires
        is_supported_version(v),
    ensures
        v.len() == 8,
        forall|i: int| 0 <= i < v.len() ==> v[i] != 13 && v[i] != 10 && v[i] != 32,
{
    assert forall|i: int| 0 <= i < v.len() implies v[i] != 13 && v[i] != 10 && v[i] != 32 by {
        if i == 0 {
            assert(http11()[0] == 72 && http10()[0] == 72);
        } else if i == 1 {
            assert(http11()[1] == 84 && http10()[1] == 84);
        } else if i == 2 {
            assert(http11()[2] == 84 && http10()[2] == 84);
        } else if i == 3 {
            assert(http11()[3] == 80 && http10()[3] == 80);
        } else if i == 4 {
            assert(http11()[4] == 47 && http10()[4] == 47);
        } else if i == 5 {
            assert(http11()[5] == 49 && http10()[5] == 49);
        } else if i == 6 {
            assert(http11()[6] == 46 && http10()[6] == 46);
        } else {
            assert(http11()[7] == 49 && http10()[7] == 48);
        }
    }
}

// ---------------------------------------------------------------------------
// Where the blank line lies
// ---------------------------------------------------------------------------

/// In a head of clean lines followed by the blank line and anything at all,
/// the first CRLFCRLF starts exactly two bytes before the head's end.
#[verifier::rlimit(50)]
proof fn lemma_lines_first_crlfcrlf(s: Seq<u8>, pos: int, ls: Seq<Seq<u8>>, tail: Seq<u8>)
    requires
        0 <= pos <= s.len(),
        s.skip(pos) == ser_lines(ls) + crlf() + tail,
        ls.len() >= 1,
        lines_ok(ls),
    ensures
        find_from(s, crlfcrlf(), pos) == Some(pos + ser_lines(ls).len() - 2),
    decreases ls.len(),
{
    let l0 = ls[0];
    let rest = ls.drop_first();
    assert(line_ok(l0));
    assert(s.skip(pos) == (l0 + crlf() + ser_lines(rest)) + crlf() + tail);
    assert forall|j: int| pos <= j < pos + l0.len() implies !is_match_at(s, crlfcrlf(), j) by {
        if is_match_at(s, crlfcrlf(), j) {
            lemma_match_index(s, crlfcrlf(), j, 0);
            assert(s[j] == 13);
            assert(s[j] == s.skip(pos)[j - pos]);
            assert(s.skip(pos)[j - pos] == l0[j - pos]);
        }
    }
    if rest.len() == 0 {
        assert(ser_lines(ls) =~= l0 + crlf());
        assert(s.skip(pos) =~= l0 + crlf() + crlf() + tail);
        let k = pos + l0.len();
        assert(s[k] == s.skip(pos)[l0.len() as int] == 13);
        assert(s[k + 1] == s.skip(pos)[l0.len() as int + 1] == 10);
        assert(s[k + 2] == s.skip(pos)[l0.len() as int + 2] == 13);
        assert(s[k + 3] == s.skip(pos)[l0.len() as int + 3] == 10);
        assert(s.subrange(k, k + 4) =~= crlfcrlf());
        lemma_find_first(s, crlfcrlf(), pos, k);
        assert(find_from(s, crlfcrlf(), pos) == Some(pos + ser_lines(ls).len() - 2));
    } else {
        let k = pos + l0.len();
        assert(ser_lines(rest)[0] == rest[0][0]);
        assert(line_ok(rest[0]));
        assert(rest[0][0] != 13);
        assert(s[k] == s.skip(pos)[l0.len() as int] == 13);
        assert(s[k + 1] == s.skip(pos)[l0.len() as int + 1] == 10);
        assert(s[k + 2] == s.skip(pos)[l0.len() as int + 2] == ser_lines(rest)[0]);
        if is_match_at(s, crlfcrlf(), k) {
            lemma_match_index(s, crlfcrlf(), k, 2);
        }
        if is_match_at(s, crlfcrlf(), k + 1) {
            lemma_match_index(s, crlfcrlf(), k + 1, 0);
        }
        let pos2 = pos + l0.len() + 2;
        assert forall|j: int| 0 <= j < s.len() - pos2 implies s.skip(pos2)[j] == (ser_lines(rest)
            + crlf() + tail)[j] by {
            assert(s.skip(pos2)[j] == s[pos2 + j]);
            assert(s[pos2 + j] == s.skip(pos)[l0.len() as int + 2 + j]);
        }
        assert(s.skip(pos2) =~= ser_lines(rest) + crlf() + tail);
        lemma_lines_first_crlfcrlf(s, pos2, rest, tail);
        assert forall|j: int| pos <= j < pos2 implies !is_match_at(s, crlfcrlf(), j) by {
            if is_match_at(s, crlfcrlf(), j) {
                if j < k {
                } else if j == k {
                    lemma_match_index(s, crlfcrlf(), j, 2);
                } else {
                    lemma_match_index(s, crlfcrlf(), j, 0);
                }
            }
        }
        lemma_find_skip(s, crlfcrlf(), pos, pos2);
        assert(ser_lines(ls).len() == l0.len() + 2 + ser_lines(rest).len());
    }
}

// ---------------------------------------------------------------------------
// Parsing back a serialized header block
// ---------------------------------------------------------------------------

/// Stripping the inserted `": "` and the optional-whitespace trim cancel.
proof fn lemma_trim_inserted_space(v: Seq<u8>)
    requires
        header_value_ok(v),
    ensures
        trim_ows(seq![32u8] + v) == v,
{
    assert((seq![32u8] + v)[0] == 32);
    assert((seq![32u8] + v).skip(1) =~= v);
    assert(trim_ows(seq![32u8] + v) == trim_ows((seq![32u8] + v).skip(1)));
    if v.len() > 0 {
        assert(v[0] != 32 && v[0] != 9);
    }
    assert(trim_ows(v) == v);
}

/// Parsing a serialized header block recovers the headers and stops right
/// after the blank line.
#[verifier::rlimit(50)]
proof fn lemma_parse_hblock_ser(s: Seq<u8>, pos: int, hs: Seq<HeaderView>, tail: Seq<u8>)
    requires
        0 <= pos <= s.len(),
        s.skip(pos) == ser_headers(hs) + crlf() + tail,
        headers_ok(hs),
    ensures
        spec_parse_header_block(s, pos) == Ok::<(Seq<HeaderView>, int), ParseError>(
            (hs, pos + ser_headers(hs).len() + 2),
        ),
    decreases hs.len(),
{
    if hs.len() == 0 {
        assert(s.skip(pos) =~= crlf() + tail);
        assert(s[pos] == s.skip(pos)[0] == 13);
        assert(s[pos + 1] == s.skip(pos)[1] == 10);
        assert(s.subrange(pos, pos + 2) =~= crlf());
        lemma_find_first(s, crlf(), pos, pos);
        assert(hs =~= Seq::<HeaderView>::empty());
        assert(ser_headers(hs).len() == 0);
    } else {
        let h = hs[0];
        let rest = hs.drop_first();
        assert(header_name_ok(h.name) && header_value_ok(h.value));
        let hl = header_line(h);
        lemma_header_line_ok(h);
        assert(ser_headers(hs) == ser_header(h) + ser_headers(rest));
        assert(s.skip(pos) =~= (hl + crlf()) + (ser_headers(rest) + crlf() + tail));
        let k = pos + hl.len();
        assert forall|j: int| pos <= j < k implies !is_match_at(s, crlf(), j) by {
            if is_match_at(s, crlf(), j) {
                lemma_match_index(s, crlf(), j, 0);
                assert(s[j] == s.skip(pos)[j - pos]);
                assert(s.skip(pos)[j - pos] == hl[j - pos]);
            }
        }
        assert(s[k] == s.skip(pos)[hl.len() as int] == 13);
        assert(s[k + 1] == s.skip(pos)[hl.len() as int + 1] == 10);
        assert(s.subrange(k, k + 2) =~= crlf());
        lemma_find_first(s, crlf(), pos, k);
        assert(hl.len() > 0);
        // The line the parser sees is exactly the serialized header line.
        assert forall|j: int| 0 <= j < hl.len() implies s.subrange(pos, k)[j] == hl[j] by {
            assert(s.subrange(pos, k)[j] == s[pos + j]);
            assert(s[pos + j] == s.skip(pos)[j]);
        }
        assert(s.subrange(pos, k) =~= hl);
        // That line parses back to the header itself.
        assert forall|j: int| 0 <= j < h.name.len() implies !is_match_at(hl, seq![58u8], j) by {
            if is_match_at(hl, seq![58u8], j) {
                lemma_match_index(hl, seq![58u8], j, 0);
                assert(hl[j] == h.name[j]);
            }
        }
        assert(hl[h.name.len() as int] == 58);
        assert(hl.subrange(h.name.len() as int, h.name.len() as int + 1) =~= seq![58u8]);
        lemma_find_first(hl, seq![58u8], 0, h.name.len() as int);
        assert(hl.subrange(0, h.name.len() as int) =~= h.name);
        assert(hl.skip(h.name.len() as int + 1) =~= seq![32u8] + h.value);
        lemma_trim_inserted_space(h.value);
        assert(spec_parse_header_line(hl) == Ok::<HeaderView, ParseError>(
            HeaderView { name: hl.subrange(0, h.name.len() as int), value: trim_ows(hl.skip(h.name.len() as int + 1)) },
        ));
        assert(HeaderView {
            name: hl.subrange(0, h.name.len() as int),
            value: trim_ows(hl.skip(h.name.len() as int + 1)),
        } =~= h);
        // The rest of the block parses by induction.
        let pos2 = k + 2;
        assert forall|j: int| 0 <= j < s.len() - pos2 implies s.skip(pos2)[j] == (ser_headers(rest)
            + crlf() + tail)[j] by {
            assert(s.skip(pos2)[j] == s[pos2 + j]);
            assert(s[pos2 + j] == s.skip(pos)[hl.len() as int + 2 + j]);
        }
        assert(s.skip(pos2) =~= ser_headers(rest) + crlf() + tail);
        assert(headers_ok(rest));
        lemma_parse_hblock_ser(s, pos2, rest, tail);
        assert(seq![h] + rest =~= hs);
        assert(ser_headers(hs).len() == hl.len() + 2 + ser_headers(rest).len());
    }
}

// ---------------------------------------------------------------------------
// The start line
// ---------------------------------------------------------------------------

spec fn sp_free(t: Seq<u8>) -> bool {
    forall|i: int| 0 <= i < t.len() ==> t[i] != 32
}

/// Splitting `m SP p SP v` on spaces gives back the three tokens.
#[verifier::rlimit(50)]
proof fn lemma_split_sp_three(m: Seq<u8>, p: Seq<u8>, v: Seq<u8>)
    requires
        sp_free(m),
        sp_free(p),
        sp_free(v),
    ensures
        split_sp(m + sp() + p + sp() + v) == seq![m, p, v],
{
    let line = m + sp() + p + sp() + v;
    assert forall|j: int| 0 <= j < m.len() implies !is_match_at(line, seq![32u8], j) by {
        if is_match_at(line, seq![32u8], j) {
            lemma_match_index(line, seq![32u8], j, 0);
            assert(line[j] == m[j]);
        }
    }
    assert(line[m.len() as int] == 32);
    assert(line.subrange(m.len() as int, m.len() as int + 1) =~= seq![32u8]);
    lemma_find_first(line, seq![32u8], 0, m.len() as int);
    assert(line.subrange(0, m.len() as int) =~= m);
    let line2 = line.skip(m.len() as int + 1);
    assert(line2 =~= p + sp() + v);
    assert forall|j: int| 0 <= j < p.len() implies !is_match_at(line2, seq![32u8], j) by {
        if is_match_at(line2, seq![32u8], j) {
            lemma_match_index(line2, seq![32u8], j, 0);
            assert(line2[j] == p[j]);
        }
    }
    assert(line2[p.len() as int] == 32);
    assert(line2.subrange(p.len() as int, p.len() as int + 1) =~= seq![32u8]);
    lemma_find_first(line2, seq![32u8], 0, p.len() as int);
    assert(line2.subrange(0, p.len() as int) =~= p);
    let line3 = line2.skip(p.len() as int + 1);
    assert(line3 =~= v);
    assert forall|j: int| 0 <= j < v.len() implies !is_match_at(v, seq![32u8], j) by {
        if is_match_at(v, seq![32u8], j) {
            lemma_match_index(v, seq![32u8], j, 0);
        }
    }
    lemma_find_skip(v, seq![32u8], 0, v.len() as int);
    assert(find_from(v, seq![32u8], 0) is None);
    assert(split_sp(v) == seq![v]);
    assert(split_sp(line2) == seq![p] + seq![v]);
    assert(split_sp(line) == seq![m] + (seq![p] + seq![v]));
    assert(seq![m] + (seq![p] + seq![v]) =~= seq![m, p, v]);
}

// ---------------------------------------------------------------------------
// The round trip
// ---------------------------------------------------------------------------

/// Serializing a well-formed request and parsing the bytes back yields the
/// same request value and consumes the whole message.
#[verifier::rlimit(80)]
pub proof fn lemma_request_round_trip(r: RequestView)
    requires
        wf_request(r),
    ensures
        spec_parse_request(ser_request(r)) == ReqParse::Done(r, ser_request(r).len() as int),
{
    let s = ser_request(r);
    let sl = r.method + sp() + r.path + sp() + r.version;
    lemma_version_bytes(r.version);
    assert(s =~= sl + crlf() + ser_headers(r.headers) + crlf() + r.body);

    // The head as lines: the start line, then one line per header.
    let lines = seq![sl] + header_lines(r.headers);
    lemma_ser_headers_as_lines(r.headers);
    assert(lines.drop_first() =~= header_lines(r.headers));
    assert(ser_lines(lines) == sl + crlf() + ser_lines(header_lines(r.headers)));
    assert(s.skip(0) =~= ser_lines(lines) + crlf() + r.body);

    // Every line is non-empty and CR-free.
    assert forall|i: int| 0 <= i < sl.len() implies sl[i] != 13 by {
        if i < r.method.len() {
            assert(sl[i] == r.method[i]);
        } else if i == r.method.len() {
            assert(sl[i] == 32);
        } else if i < r.method.len() + 1 + r.path.len() {
            assert(sl[i] == r.path[i - r.method.len() - 1]);
        } else if i == r.method.len() + 1 + r.path.len() {
            assert(sl[i] == 32);
        } else {
            assert(sl[i] == r.version[i - r.method.len() - r.path.len() - 2]);
        }
    }
    assert(line_ok(sl));
    assert forall|k: int| 0 <= k < lines.len() implies line_ok(#[trigger] lines[k]) by {
        if k > 0 {
            assert(lines[k] == header_lines(r.headers)[k - 1]);
            lemma_header_line_ok(r.headers[k - 1]);
        }
    }

    // The blank line is found exactly at the head's end.
    lemma_lines_first_crlfcrlf(s, 0, lines, r.body);

    // The first CRLF ends the start line.
    assert forall|j: int| 0 <= j < sl.len() implies !is_match_at(s, crlf(), j) by {
        if is_match_at(s, crlf(), j) {
            lemma_match_index(s, crlf(), j, 0);
            assert(s[j] == sl[j]);
        }
    }
    assert(s[sl.len() as int] == 13);
    assert(s[sl.len() as int + 1] == 10);
    assert(s.subrange(sl.len() as int, sl.len() as int + 2) =~= crlf());
    lemma_find_first(s, crlf(), 0, sl.len() as int);
    assert(s.subrange(0, sl.len() as int) =~= sl);

    // The start line parses back to the three tokens.
    lemma_split_sp_three(r.method, r.path, r.version);
    assert(spec_parse_request_line(sl) == Ok::<(Seq<u8>, Seq<u8>, Seq<u8>), ParseError>(
        (r.method, r.path, r.version),
    ));

    // The header block parses back to the headers.
    let pos = sl.len() as int + 2;
    assert forall|j: int| 0 <= j < s.len() - pos implies s.skip(pos)[j] == (ser_headers(r.headers)
        + crlf() + r.body)[j] by {
        assert(s.skip(pos)[j] == s[pos + j]);
    }
    assert(s.skip(pos) =~= ser_headers(r.headers) + crlf() + r.body);
    lemma_parse_hblock_ser(s, pos, r.headers, r.body);
    let bodystart = pos + ser_headers(r.headers).len() + 2;

    // The declared length is the body's length, and the body closes the message.
    assert(s.len() == bodystart + r.body.len());
    assert(s.subrange(bodystart, bodystart + r.body.len() as int) =~= r.body);
    assert(RequestView {
        method: r.method,
        path: r.path,
        version: r.version,
        headers: r.headers,
        body: s.subrange(bodystart, bodystart + r.body.len() as int),
    } =~= r);
}

/// For any well-formed request on the wire — bytes that serialize a
/// well-formed request value — parsing succeeds and serializing what was
/// parsed reproduces the exact bytes, header order and body included.
pub proof fn lemma_parse_then_serialize(bytes: Seq<u8>, r: RequestView)
    requires
        wf_request(r),
        bytes == ser_request(r),
    ensures
        spec_parse_request(bytes) is Done,
        spec_parse_request(bytes) matches ReqParse::Done(q, n) ==> ser_request(q) == bytes && n
            == bytes.len(),
{
    lemma_request_round_trip(r);
}

// ---------------------------------------------------------------------------
// The data model's invariants hold of everything the codec hands out
// ---------------------------------------------------------------------------

proof fn lemma_dec_val_nonneg(s: Seq<u8>)
    requires
        forall|i: int| 0 <= i < s.len() ==> is_digit(#[trigger] s[i]),
    ensures
        dec_val(s) >= 0,
    decreases s.len(),
{
    if s.len() > 0 {
        assert forall|i: int| 0 <= i < s.drop_last().len() implies is_digit(
            #[trigger] s.drop_last()[i],
        ) by {
            assert(s.drop_last()[i] == s[i]);
        }
        lemma_dec_val_nonneg(s.drop_last());
        assert(s.last() >= 48);
    }
}

proof fn lemma_hblock_bounds(s: Seq<u8>, pos: int)
    requires
        0 <= pos,
    ensures
        match spec_parse_header_block(s, pos) {
            Ok(p) => pos + 2 <= p.1 <= s.len(),
            Err(_) => true,
        },
    decreases s.len() - pos,
{
    match find_from(s, crlf(), pos) {
        None => {},
        Some(i) => {
            if 0 <= pos && pos <= i && i + 2 <= s.len() {
                if i != pos {
                    match spec_parse_header_line(s.subrange(pos, i)) {
                        Err(_) => {},
                        Ok(_) => {
                            lemma_hblock_bounds(s, i + 2);
                        },
                    }
                }
            }
        },
    }
}

/// Every request the codec hands out respects the data model's invariant:
/// its body is exactly as long as its headers declare (empty with no
/// `content-length` header), within the size cap, and the consumed count
/// never exceeds what the buffer holds.
pub proof fn lemma_parsed_request_consistent(s: Seq<u8>)
    ensures
        spec_parse_request(s) matches ReqParse::Done(r, n) ==> spec_declared_len(r.headers)
            == Ok::<int, ParseError>(r.body.len() as int) && r.body.len() <= MAX_BODY_SIZE && 0 <= n
            <= s.len(),
{
    match find_from(s, crlfcrlf(), 0) {
        None => {},
        Some(_) => match find_from(s, crlf(), 0) {
            None => {},
            Some(i0) => {
                if 0 <= i0 && i0 + 2 <= s.len() {
                    match spec_parse_request_line(s.subrange(0, i0)) {
                        Err(_) => {},
                        Ok(_) => match spec_parse_header_block(s, i0 + 2) {
                            Err(_) => {},
                            Ok(hb) => {
                                lemma_hblock_bounds(s, i0 + 2);
                                match spec_declared_len(hb.0) {
                                    Err(_) => {},
                                    Ok(_) => {
                                        if is_digit_seq(first_cl_value(hb.0)) {
                                            lemma_dec_val_nonneg(first_cl_value(hb.0));
                                        }
                                    },
                                }
                            },
                        },
                    }
                }
            },
        },
    }
}

/// A response read for a request whose method forbids a body always comes
/// back with an empty body, whatever `content-length` said on the wire.
pub proof fn lemma_suppressed_response_has_no_body(s: Seq<u8>)
    ensures
        spec_parse_response(s, true) matches RespParse::Done(r, n) ==> r.body.len() == 0,
{
}

// ---------------------------------------------------------------------------
// The response round trip
// ---------------------------------------------------------------------------

/// A response value fit for the wire: a known version, a status of at most
/// three digits, a reason free of CR and LF, clean headers, and
/// `content-length` declaring exactly the body's length.
pub open spec fn wf_response(r: ResponseView) -> bool {
    is_supported_version(r.version) && r.status <= 999 && (forall|i: int|
        0 <= i < r.reason.len() ==> r.reason[i] != 13 && r.reason[i] != 10) && headers_ok(r.headers)
        && spec_declared_len(r.headers) == Ok::<int, ParseError>(r.body.len() as int)
        && r.body.len() <= MAX_BODY_SIZE
}

/// A status code's three digits are digits, read back to the code, and hold
/// no CR, LF or space.
proof fn lemma_status_digits(code: u16)
    requires
        code <= 999,
    ensures
        status_digits(code).len() == 3,
        is_status_token(status_digits(code)),
        status_val(status_digits(code)) == code,
        forall|i: int|
            0 <= i < status_digits(code).len() ==> status_digits(code)[i] != 13 && status_digits(
                code,
            )[i] != 10 && status_digits(code)[i] != 32,
{
    let c = code as int;
    assert(0 <= c / 100 <= 9 && 0 <= (c / 10) % 10 <= 9 && 0 <= c % 10 <= 9) by (nonlinear_arith)
        requires
            0 <= c <= 999,
    ;
    assert((c / 100) * 100 + ((c / 10) % 10) * 10 + c % 10 == c) by (nonlinear_arith)
        requires
            0 <= c <= 999,
    ;
    let d = status_digits(code);
    assert(d[0] == (48 + code / 100) as u8);
    assert(d[1] == (48 + (code / 10) % 10) as u8);
    assert(d[2] == (48 + code % 10) as u8);
    assert(code / 100 == c / 100 && (code / 10) % 10 == (c / 10) % 10 && code % 10 == c % 10);
    assert(d[0] == 48 + c / 100 && d[1] == 48 + (c / 10) % 10 && d[2] == 48 + c % 10);
}

/// Serializing a well-formed response and parsing the bytes back, with no
/// body suppression in force, yields the same response value and consumes
/// the whole message.
#[verifier::rlimit(80)]
pub proof fn lemma_response_round_trip(r: ResponseView)
    requires
        wf_response(r),
    ensures
        spec_parse_response(ser_response(r), false) == RespParse::Done(
            r,
            ser_response(r).len() as int,
        ),
{
    let s = ser_response(r);
    let d = status_digits(r.status);
    lemma_status_digits(r.status);
    let sl = r.version + sp() + d + sp() + r.reason;
    lemma_version_bytes(r.version);
    assert(s =~= sl + crlf() + ser_headers(r.headers) + crlf() + r.body);

    // The head as lines: the status line, then one line per header.
    let lines = seq![sl] + header_lines(r.headers);
    lemma_ser_headers_as_lines(r.headers);
    assert(lines.drop_first() =~= header_lines(r.headers));
    assert(ser_lines(lines) == sl + crlf() + ser_lines(header_lines(r.headers)));
    assert(s.skip(0) =~= ser_lines(lines) + crlf() + r.body);

    // Every line is non-empty and CR-free.
    let vlen = r.version.len() as int;
    assert forall|i: int| 0 <= i < sl.len() implies sl[i] != 13 by {
        if i < vlen {
            assert(sl[i] == r.version[i]);
        } else if i == vlen {
            assert(sl[i] == 32);
        } else if i < vlen + 4 {
            assert(sl[i] == d[i - vlen - 1]);
        } else if i == vlen + 4 {
            assert(sl[i] == 32);
        } else {
            assert(sl[i] == r.reason[i - vlen - 5]);
        }
    }
    assert(line_ok(sl));
    assert forall|k: int| 0 <= k < lines.len() implies line_ok(#[trigger] lines[k]) by {
        if k > 0 {
            assert(lines[k] == header_lines(r.headers)[k - 1]);
            lemma_header_line_ok(r.headers[k - 1]);
        }
    }

    // The blank line is found exactly at the head's end.
    lemma_lines_first_crlfcrlf(s, 0, lines, r.body);

    // The first CRLF ends the status line.
    assert forall|j: int| 0 <= j < sl.len() implies !is_match_at(s, crlf(), j) by {
        if is_match_at(s, crlf(), j) {
            lemma_match_index(s, crlf(), j, 0);
            assert(s[j] == sl[j]);
        }
    }
    assert(s[sl.len() as int] == 13);
    assert(s[sl.len() as int + 1] == 10);
    assert(s.subrange(sl.len() as int, sl.len() as int + 2) =~= crlf());
    lemma_find_first(s, crlf(), 0, sl.len() as int);
    assert(s.subrange(0, sl.len() as int) =~= sl);

    // The status line parses back to the version, the code and the reason.
    assert forall|j: int| 0 <= j < vlen implies !is_match_at(sl, seq![32u8], j) by {
        if is_match_at(sl, seq![32u8], j) {
            lemma_match_index(sl, seq![32u8], j, 0);
            assert(sl[j] == r.version[j]);
        }
    }
    assert(sl[vlen] == 32);
    assert(sl.subrange(vlen, vlen + 1) =~= seq![32u8]);
    lemma_find_first(sl, seq![32u8], 0, vlen);
    assert(sl.subrange(0, vlen) =~= r.version);
    assert forall|j: int| vlen + 1 <= j < vlen + 4 implies !is_match_at(sl, seq![32u8], j) by {
        if is_match_at(sl, seq![32u8], j) {
            lemma_match_index(sl, seq![32u8], j, 0);
            assert(sl[j] == d[j - vlen - 1]);
        }
    }
    assert(sl[vlen + 4] == 32);
    assert(sl.subrange(vlen + 4, vlen + 5) =~= seq![32u8]);
    lemma_find_first(sl, seq![32u8], vlen + 1, vlen + 4);
    assert(sl.subrange(vlen + 1, vlen + 4) =~= d);
    assert(sl.skip(vlen + 5) =~= r.reason);
    assert(spec_parse_status_line(sl) == Ok::<(Seq<u8>, u16, Seq<u8>), ParseError>(
        (r.version, r.status, r.reason),
    ));

    // The header block parses back to the headers.
    let pos = sl.len() as int + 2;
    assert forall|j: int| 0 <= j < s.len() - pos implies s.skip(pos)[j] == (ser_headers(r.headers)
        + crlf() + r.body)[j] by {
        assert(s.skip(pos)[j] == s[pos + j]);
    }
    assert(s.skip(pos) =~= ser_headers(r.headers) + crlf() + r.body);
    lemma_parse_hblock_ser(s, pos, r.headers, r.body);
    let bodystart = pos + ser_headers(r.headers).len() + 2;

    // The declared length is the body's length, and the body closes the message.
    assert(s.len() == bodystart + r.body.len());
    assert(s.subrange(bodystart, bodystart + r.body.len() as int) =~= r.body);
    assert(ResponseView {
        version: r.version,
        status: r.status,
        reason: r.reason,
        headers: r.headers,
        body: s.subrange(bodystart, bodystart + r.body.len() as int),
    } =~= r);
}

} // verus!
