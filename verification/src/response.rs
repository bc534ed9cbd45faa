//! The response model: a status line, a header mapping and an optional body,
//! and its serialization to wire form.

use vstd::prelude::*;
use crate::headers::{pair_views, map_of, unique_keys};
use crate::text::{lines_of, lemma_first_match_is};
use vstd::string::StringExecFns;
use vstd::utf8::encode_utf8;

verus! {

/// A structured HTTP response, consumed once by serialization.
#[derive(Debug)]
pub struct HttpResponse {
    /// The status line without the protocol token, e.g. `200 OK`.
    pub status_line: String,
    /// Key-value pairs with pairwise distinct keys.
    pub headers: Vec<(String, String)>,
    pub body: Option<String>,
}

/// The protocol token that opens every serialized response.
pub open spec fn http_prefix() -> Seq<char> {
    seq!['H', 'T', 'T', 'P', '/', '1', '.', '1', ' ']
}

/// The line separator of the wire format.
pub open spec fn crlf() -> Seq<char> {
    seq!['\r', '\n']
}

/// The wire form of the header pairs: one `key: value` line each, in order.
pub open spec fn header_block_of(pairs: Seq<(Seq<char>, Seq<char>)>) -> Seq<char>
    decreases pairs.len(),
{
    if pairs.len() == 0 {
        Seq::empty()
    } else {
        header_block_of(pairs.drop_last()) + pairs.last().0 + seq![':', ' '] + pairs.last().1
            + crlf()
    }
}

/// The head of a serialized response: protocol token, status line and header
/// lines, each line closed by `\r\n`.
pub open spec fn head_of(status: Seq<char>, pairs: Seq<(Seq<char>, Seq<char>)>) -> Seq<char> {
    http_prefix() + status + crlf() + header_block_of(pairs)
}

/// The full wire form: the head, a blank line, and the body bytes when one is
/// present.
pub open spec fn serial_of(
    status: Seq<char>,
    pairs: Seq<(Seq<char>, Seq<char>)>,
    body: Option<Seq<char>>,
) -> Seq<char> {
    head_of(status, pairs) + crlf() + (match body {
        Some(b) => b,
        None => Seq::empty(),
    })
}

/// The decimal digit for `d`.
pub open spec fn digit_of(d: nat) -> char {
    if d % 10 == 0 {
        '0'
    } else if d % 10 == 1 {
        '1'
    } else if d % 10 == 2 {
        '2'
    } else if d % 10 == 3 {
        '3'
    } else if d % 10 == 4 {
        '4'
    } else if d % 10 == 5 {
        '5'
    } else if d % 10 == 6 {
        '6'
    } else if d % 10 == 7 {
        '7'
    } else if d % 10 == 8 {
        '8'
    } else {
        '9'
    }
}

/// The decimal numeral of `n`, most significant digit first.
pub open spec fn dec_of(n: nat) -> Seq<char>
    decreases n,
{
    if n < 10 {
        seq![digit_of(n)]
    } else {
        dec_of(n / 10).push(digit_of(n % 10))
    }
}

/// Relies on `usize`'s `Display` through `ToString::to_string`: the decimal
/// numeral of the value, most significant digit first, no sign and no padding.
#[verifier::external_body]
fn usize_to_string(n: usize) -> (r: String)
    ensures
        r@ == dec_of(n as nat),
{
    n.to_string()
}

/// Relies on `String::len`: the length of the string in bytes, which a string
/// held in memory always fits in `usize`.
#[verifier::external_body]
fn byte_len(s: &String) -> (n: usize)
    ensures
        n as nat == encode_utf8(s@).len(),
{
    s.len()
}

/// The headers of a response that serves HTML content of `len` bytes.
pub open spec fn html_headers(len: nat) -> Seq<(Seq<char>, Seq<char>)> {
    seq![
        ("Content-Type"@, "text/html; charset=UTF-8"@),
        ("Connection"@, "close"@),
        ("Content-Length"@, dec_of(len)),
    ]
}

/// A success response carrying `content`: status `200 OK`, HTML content
/// headers with the content's byte length, the content as body.
pub open spec fn is_ok_response(r: HttpResponse, content: Seq<char>) -> bool {
    &&& r.status_line@ == "200 OK"@
    &&& pair_views(r.headers@) == html_headers(encode_utf8(content).len() as nat)
    &&& r.body matches Some(b) && b@ == content
    &&& r.wf()
}

/// A not-found response carrying the fallback `content`: status
/// `404 NOT FOUND`, HTML content headers with the content's byte length, the
/// content as body.
pub open spec fn is_not_found_response(r: HttpResponse, content: Seq<char>) -> bool {
    &&& r.status_line@ == "404 NOT FOUND"@
    &&& pair_views(r.headers@) == html_headers(encode_utf8(content).len() as nat)
    &&& r.body matches Some(b) && b@ == content
    &&& r.wf()
}

/// The server-error response: status `500 Internal Server Error`, plain-text
/// headers, a fixed diagnostic body.
pub open spec fn is_error_response(r: HttpResponse) -> bool {
    &&& r.status_line@ == "500 Internal Server Error"@
    &&& pair_views(r.headers@) == seq![
        ("Content-Type"@, "text/plain"@),
        ("Connection"@, "close"@),
    ]
    &&& r.body matches Some(b) && b@ == "Something went wrong."@
    &&& r.wf()
}

proof fn lemma_html_headers_unique(len: nat)
    ensures
        unique_keys(html_headers(len)),
{
    reveal_strlit("Content-Type");
    reveal_strlit("Connection");
    reveal_strlit("Content-Length");
    assert(("Content-Type"@).len() == 12);
    assert(("Connection"@).len() == 10);
    assert(("Content-Length"@).len() == 14);
}

fn html_header_vec(content: &String) -> (h: Vec<(String, String)>)
    ensures
        pair_views(h@) =~= html_headers(encode_utf8(content@).len() as nat),
        unique_keys(pair_views(h@)),
{
    let mut h: Vec<(String, String)> = Vec::new();
    h.push((
        String::from_str("Content-Type"),
        String::from_str("text/html; charset=UTF-8"),
    ));
    h.push((String::from_str("Connection"), String::from_str("close")));
    h.push((String::from_str("Content-Length"), usize_to_string(byte_len(content))));
    proof {
        lemma_html_headers_unique(encode_utf8(content@).len() as nat);
    }
    h
}

/// Builds the success response for `content`, as `is_ok_response` describes.
pub fn response_ok(content: String) -> (r: HttpResponse)
    ensures
        is_ok_response(r, content@),
{
    let headers = html_header_vec(&content);
    HttpResponse { status_line: String::from_str("200 OK"), headers, body: Some(content) }
}

/// Builds the not-found response for the fallback `content`, as
/// `is_not_found_response` describes.
pub fn response_not_found(content: String) -> (r: HttpResponse)
    ensures
        is_not_found_response(r, content@),
{
    let headers = html_header_vec(&content);
    HttpResponse { status_line: String::from_str("404 NOT FOUND"), headers, body: Some(content) }
}

/// Builds the server-error response, as `is_error_response` describes.
pub(crate) fn build_error_response() -> (r: HttpResponse)
    ensures
        is_error_response(r),
{
    let mut headers: Vec<(String, String)> = Vec::new();
    headers.push((String::from_str("Content-Type"), String::from_str("text/plain")));
    headers.push((String::from_str("Connection"), String::from_str("close")));
    proof {
        reveal_strlit("Content-Type");
        reveal_strlit("Connection");
        assert(("Content-Type"@).len() == 12);
        assert(("Connection"@).len() == 10);
        assert(pair_views(headers@) =~= seq![
            ("Content-Type"@, "text/plain"@),
            ("Connection"@, "close"@),
        ]);
    }
    let status_line = String::from_str("500 Internal Server Error");
    let content = String::from_str("Something went wrong.");
    HttpResponse { status_line, headers, body: Some(content) }
}

/// Builds the server-error response, as `is_error_response` describes. It
/// never fails; the `Result` keeps the shape its callers expect.
pub fn response_sv_error() -> (r: Result<HttpResponse, &'static str>)
    ensures
        r matches Ok(resp) && is_error_response(resp),
{
    Ok(build_error_response())
}

/// No carriage return or line feed: the text fits on one line of the wire
/// format.
pub open spec fn line_clean(s: Seq<char>) -> bool {
    forall|i: int| 0 <= i < s.len() ==> (#[trigger] s[i]) != '\r' && s[i] != '\n'
}

/// Every carriage return heads a `\r\n` that no further `\r` follows at
/// once, and the text ends with `\r\n`.
spec fn head_shape(h: Seq<char>) -> bool {
    &&& h.len() >= 2
    &&& h[h.len() - 1] == '\n'
    &&& h[h.len() - 2] == '\r'
    &&& forall|i: int|
        0 <= i < h.len() && (#[trigger] h[i]) == '\r' ==> i + 1 < h.len() && h[i + 1] == '\n'
            && (i + 2 >= h.len() || h[i + 2] != '\r')
}

proof fn lemma_head_shape_line(h: Seq<char>, line: Seq<char>)
    requires
        head_shape(h),
        line.len() > 0,
        line_clean(line),
    ensures
        head_shape(h + line + crlf()),
{
    let g = h + line + crlf();
    assert(g[g.len() - 1] == '\n');
    assert(g[g.len() - 2] == '\r');
    assert forall|i: int|
        0 <= i < g.len() && (#[trigger] g[i]) == '\r' implies i + 1 < g.len() && g[i + 1]
        == '\n' && (i + 2 >= g.len() || g[i + 2] != '\r') by {
        if i < h.len() {
            assert(h[i] == '\r');
            assert(i + 1 < h.len());
            assert(g[i + 1] == h[i + 1]);
            if i + 2 < h.len() {
                assert(g[i + 2] == h[i + 2]);
            } else if i + 2 == h.len() {
                assert(g[i + 2] == line[0]);
            }
        } else if i < h.len() + line.len() {
            assert(line[i - h.len()] == '\r');
            assert(false);
        } else {
            assert(i == g.len() - 2);
        }
    }
}

proof fn lemma_head_shape(status: Seq<char>, pairs: Seq<(Seq<char>, Seq<char>)>)
    requires
        line_clean(status),
        forall|i: int|
            0 <= i < pairs.len() ==> line_clean((#[trigger] pairs[i]).0) && line_clean(
                pairs[i].1,
            ),
    ensures
        head_shape(head_of(status, pairs)),
    decreases pairs.len(),
{
    if pairs.len() == 0 {
        let h = http_prefix() + status + crlf();
        assert(head_of(status, pairs) =~= h);
        assert(h[h.len() - 1] == '\n');
        assert(h[h.len() - 2] == '\r');
        assert forall|i: int|
            0 <= i < h.len() && (#[trigger] h[i]) == '\r' implies i + 1 < h.len() && h[i + 1]
            == '\n' && (i + 2 >= h.len() || h[i + 2] != '\r') by {
            assert(forall|k: int|
                0 <= k < 9 ==> (#[trigger] http_prefix()[k]) != '\r' && http_prefix()[k]
                    != '\n');
            assert(i == h.len() - 2);
        }
    } else {
        lemma_head_shape(status, pairs.drop_last());
        let line = pairs.last().0 + seq![':', ' '] + pairs.last().1;
        assert(line_clean(pairs[pairs.len() - 1].0));
        assert(line_clean(pairs[pairs.len() - 1].1));
        assert forall|i: int|
            0 <= i < line.len() implies (#[trigger] line[i]) != '\r' && line[i] != '\n' by {
            let k = pairs.last().0;
            let v = pairs.last().1;
            if i < k.len() {
                assert(line[i] == k[i]);
            } else if i < k.len() + 2 {
                assert(line[i] == seq![':', ' '][i - k.len()]);
            } else {
                assert(line[i] == v[i - k.len() - 2]);
            }
        }
        assert(line.len() > 0);
        lemma_head_shape_line(head_of(status, pairs.drop_last()), line);
        assert(head_of(status, pairs) =~= head_of(status, pairs.drop_last()) + line + crlf());
    }
}

/// Law: serializing a response and splitting the result at the first blank
/// line (`\r\n\r\n`) recovers the head — the status line and the original
/// header lines — before the boundary, and the body, byte for byte, after it.
/// The boundary occurs nowhere earlier in the serialized form.
pub proof fn lemma_serialize_round_trip(
    status: Seq<char>,
    pairs: Seq<(Seq<char>, Seq<char>)>,
    body: Seq<char>,
)
    requires
        line_clean(status),
        forall|i: int|
            0 <= i < pairs.len() ==> line_clean((#[trigger] pairs[i]).0) && line_clean(
                pairs[i].1,
            ),
    ensures
        ({
            let ser = serial_of(status, pairs, Some(body));
            let head = head_of(status, pairs);
            let boundary = head.len() - 2;
            &&& ser.subrange(boundary, boundary + 4) == crlf() + crlf()
            &&& forall|q: int|
                0 <= q < boundary ==> (#[trigger] ser.subrange(q, q + 4)) != crlf() + crlf()
            &&& ser.take(boundary) + crlf() == head_of(status, pairs)
            &&& ser.skip(boundary + 4) == body
        }),
{
    lemma_head_shape(status, pairs);
    let ser = serial_of(status, pairs, Some(body));
    let head = head_of(status, pairs);
    let boundary = head.len() - 2;
    assert(ser.subrange(boundary, boundary + 4) =~= crlf() + crlf());
    assert forall|q: int| 0 <= q < boundary implies (#[trigger] ser.subrange(q, q + 4)) != crlf()
        + crlf() by {
        if ser.subrange(q, q + 4) == crlf() + crlf() {
            assert(ser.subrange(q, q + 4)[0] == ser[q]);
            assert(ser.subrange(q, q + 4)[2] == ser[q + 2]);
            assert(head[q] == '\r');
            assert(head[q + 2] == '\r');
            assert(false);
        }
    }
    assert(ser.take(boundary) + crlf() =~= head);
    assert(ser.skip(boundary + 4) =~= body);
}

/// The header lines of the wire format, one `key: value` text per pair.
pub open spec fn header_lines_of(pairs: Seq<(Seq<char>, Seq<char>)>) -> Seq<Seq<char>> {
    pairs.map_values(|p: (Seq<char>, Seq<char>)| p.0 + seq![':', ' '] + p.1)
}

proof fn lemma_lines_of_line(line: Seq<char>, rest: Seq<char>)
    requires
        line_clean(line),
    ensures
        lines_of(line + crlf() + rest) == seq![line] + lines_of(rest),
{
    let s = line + crlf() + rest;
    let nl = |c: char| c == '\n';
    assert forall|k: int| 0 <= k < line.len() + 1 implies !nl(s[k]) by {
        if k < line.len() {
            assert(s[k] == line[k]);
        } else {
            assert(s[k] == '\r');
        }
    }
    assert(nl(s[line.len() as int + 1]));
    lemma_first_match_is(s, nl, line.len() as int + 1);
    assert(s.take(line.len() as int + 1) =~= line.push('\r'));
    assert(crate::text::drop_cr(line.push('\r')) =~= line);
    assert(s.skip(line.len() as int + 2) =~= rest);
    assert(lines_of(s) =~~= seq![line] + lines_of(rest));
}

proof fn lemma_header_block_first(pairs: Seq<(Seq<char>, Seq<char>)>)
    requires
        pairs.len() > 0,
    ensures
        header_block_of(pairs) =~= (pairs[0].0 + seq![':', ' '] + pairs[0].1 + crlf())
            + header_block_of(pairs.drop_first()),
    decreases pairs.len(),
{
    if pairs.len() == 1 {
        assert(pairs.drop_last() =~= Seq::<(Seq<char>, Seq<char>)>::empty());
        assert(pairs.drop_first() =~= Seq::<(Seq<char>, Seq<char>)>::empty());
    } else {
        lemma_header_block_first(pairs.drop_last());
        assert(pairs.drop_last()[0] == pairs[0]);
        assert(pairs.drop_last().drop_first() =~= pairs.drop_first().drop_last());
        assert(pairs.drop_first().last() == pairs.last());
        assert(header_block_of(pairs.drop_first()) == header_block_of(
            pairs.drop_first().drop_last(),
        ) + pairs.last().0 + seq![':', ' '] + pairs.last().1 + crlf());
    }
}

proof fn lemma_lines_of_block(pairs: Seq<(Seq<char>, Seq<char>)>, tail: Seq<char>)
    requires
        forall|i: int|
            0 <= i < pairs.len() ==> line_clean((#[trigger] pairs[i]).0) && line_clean(
                pairs[i].1,
            ),
    ensures
        lines_of(header_block_of(pairs) + tail) == header_lines_of(pairs) + lines_of(tail),
    decreases pairs.len(),
{
    if pairs.len() == 0 {
        assert(header_block_of(pairs) + tail =~= tail);
        assert(header_lines_of(pairs) + lines_of(tail) =~~= lines_of(tail));
    } else {
        let line = pairs[0].0 + seq![':', ' '] + pairs[0].1;
        assert forall|i: int| 0 <= i < line.len() implies (#[trigger] line[i]) != '\r'
            && line[i] != '\n' by {
            let k = pairs[0].0;
            let v = pairs[0].1;
            if i < k.len() {
                assert(line[i] == k[i]);
            } else if i < k.len() + 2 {
                assert(line[i] == seq![':', ' '][i - k.len()]);
            } else {
                assert(line[i] == v[i - k.len() - 2]);
            }
        }
        lemma_header_block_first(pairs);
        assert(header_block_of(pairs) + tail =~= line + crlf() + (header_block_of(
            pairs.drop_first(),
        ) + tail));
        lemma_lines_of_line(line, header_block_of(pairs.drop_first()) + tail);
        assert forall|i: int| 0 <= i < pairs.drop_first().len() implies line_clean(
            (#[trigger] pairs.drop_first()[i]).0,
        ) && line_clean(pairs.drop_first()[i].1) by {
            assert(pairs.drop_first()[i] == pairs[i + 1]);
        }
        lemma_lines_of_block(pairs.drop_first(), tail);
        assert(header_lines_of(pairs) =~~= seq![line] + header_lines_of(pairs.drop_first()));
        assert(lines_of(header_block_of(pairs) + tail) =~~= header_lines_of(pairs) + lines_of(
            tail,
        ));
    }
}

proof fn lemma_dec_of_clean(n: nat)
    ensures
        line_clean(dec_of(n)),
    decreases n,
{
    if n >= 10 {
        lemma_dec_of_clean(n / 10);
        assert forall|i: int| 0 <= i < dec_of(n).len() implies (#[trigger] dec_of(n)[i])
            != '\r' && dec_of(n)[i] != '\n' by {
            if i < dec_of(n / 10).len() {
                assert(dec_of(n)[i] == dec_of(n / 10)[i]);
            }
        }
    }
}

/// Law: a response built by one of the three producers is line-clean — its
/// status line, header keys and header values hold no carriage return or line
/// feed — so the serialization round trip applies to it.
pub proof fn lemma_produced_response_clean(r: HttpResponse, content: Seq<char>)
    requires
        is_ok_response(r, content) || is_not_found_response(r, content) || is_error_response(r),
    ensures
        line_clean(r.status_line@),
        forall|i: int|
            0 <= i < pair_views(r.headers@).len() ==> line_clean(
                (#[trigger] pair_views(r.headers@)[i]).0,
            ) && line_clean(pair_views(r.headers@)[i].1),
{
    reveal_strlit("200 OK");
    reveal_strlit("404 NOT FOUND");
    reveal_strlit("500 Internal Server Error");
    reveal_strlit("Content-Type");
    reveal_strlit("text/html; charset=UTF-8");
    reveal_strlit("text/plain");
    reveal_strlit("Connection");
    reveal_strlit("close");
    reveal_strlit("Content-Length");
    lemma_dec_of_clean(encode_utf8(content).len() as nat);
}

/// Law: every response the producers build announces `Connection: close`,
/// and one that serves content announces that content's byte length in
/// `Content-Length`.
pub proof fn lemma_response_header_invariant(r: HttpResponse, content: Seq<char>)
    requires
        is_ok_response(r, content) || is_not_found_response(r, content) || is_error_response(r),
    ensures
        r.header_map().contains_key("Connection"@),
        r.header_map()["Connection"@] == "close"@,
        !is_error_response(r) ==> r.header_map().contains_key("Content-Length"@)
            && r.header_map()["Content-Length"@] == dec_of(encode_utf8(content).len() as nat),
{
    reveal_strlit("Content-Type");
    reveal_strlit("Connection");
    reveal_strlit("Content-Length");
    assert(("Content-Type"@).len() == 12);
    assert(("Connection"@).len() == 10);
    assert(("Content-Length"@).len() == 14);
    let pv = pair_views(r.headers@);
    if is_error_response(r) {
        assert(pv.drop_last() =~= seq![("Content-Type"@, "text/plain"@)]);
        assert(pv.last() == ("Connection"@, "close"@));
        assert(r.header_map() == map_of(pv.drop_last()).insert("Connection"@, "close"@));
    } else {
        let len = encode_utf8(content).len() as nat;
        assert(pv.drop_last() =~= seq![
            ("Content-Type"@, "text/html; charset=UTF-8"@),
            ("Connection"@, "close"@),
        ]);
        assert(pv.last() == ("Content-Length"@, dec_of(len)));
        assert(r.header_map() == map_of(pv.drop_last()).insert("Content-Length"@, dec_of(len)));
        assert(pv.drop_last().last() == ("Connection"@, "close"@));
        assert(map_of(pv.drop_last()) == map_of(pv.drop_last().drop_last()).insert(
            "Connection"@,
            "close"@,
        ));
        assert(r.header_map().contains_key("Connection"@));
        assert(r.header_map()["Connection"@] == "close"@);
    }
}

/// Law: the serialized response splits back into the parser's line model: the
/// status line, the original header lines in order, one blank line, then the
/// body line.
pub proof fn lemma_serialize_parses_back(
    status: Seq<char>,
    pairs: Seq<(Seq<char>, Seq<char>)>,
    body: Seq<char>,
)
    requires
        line_clean(status),
        forall|i: int|
            0 <= i < pairs.len() ==> line_clean((#[trigger] pairs[i]).0) && line_clean(
                pairs[i].1,
            ),
        line_clean(body),
        body.len() > 0,
    ensures
        lines_of(serial_of(status, pairs, Some(body))) == seq![http_prefix() + status]
            + header_lines_of(pairs) + seq![Seq::<char>::empty(), body],
{
    let ser = serial_of(status, pairs, Some(body));
    let status_line = http_prefix() + status;
    assert forall|i: int| 0 <= i < status_line.len() implies (#[trigger] status_line[i]) != '\r'
        && status_line[i] != '\n' by {
        assert(forall|k: int|
            0 <= k < 9 ==> (#[trigger] http_prefix()[k]) != '\r' && http_prefix()[k] != '\n');
        if i >= 9 {
            assert(status_line[i] == status[i - 9]);
        }
    }
    assert(ser =~= status_line + crlf() + (header_block_of(pairs) + (crlf() + body)));
    lemma_lines_of_line(status_line, header_block_of(pairs) + (crlf() + body));
    lemma_lines_of_block(pairs, crlf() + body);
    assert(crlf() + body =~= Seq::<char>::empty() + crlf() + body);
    lemma_lines_of_line(Seq::<char>::empty(), body);
    let nl = |c: char| c == '\n';
    assert forall|k: int| 0 <= k < body.len() implies !nl(body[k]) by {}
    lemma_first_match_is(body, nl, body.len() as int);
    assert(crate::text::drop_cr(body) =~= body);
    assert(lines_of(body) =~~= seq![body]);
    assert(lines_of(ser) =~~= seq![status_line] + header_lines_of(pairs) + seq![
        Seq::<char>::empty(),
        body,
    ]);
}

impl HttpResponse {
    /// Header keys are pairwise distinct.
    pub open spec fn wf(&self) -> bool {
        unique_keys(pair_views(self.headers@))
    }

    /// The header mapping this response carries.
    pub open spec fn header_map(&self) -> Map<Seq<char>, Seq<char>> {
        map_of(pair_views(self.headers@))
    }

    /// Serializes the response, as `serial_of` describes: status line, header
    /// lines, a blank line, then the body, in one pass.
    pub fn serialize(self) -> (r: String)
        ensures
            r@ == serial_of(self.status_line@, pair_views(self.headers@), match self.body {
                Some(b) => Some(b@),
                None => None,
            }),
    {
        let mut out = String::new();
        out.append("HTTP/1.1 ");
        out.append(self.status_line.as_str());
        out.append("\r\n");
        proof {
            reveal_strlit("HTTP/1.1 ");
            reveal_strlit("\r\n");
            assert(out@ =~= http_prefix() + self.status_line@ + crlf());
            assert(pair_views(self.headers@).take(0) =~= Seq::<(Seq<char>, Seq<char>)>::empty());
            assert(out@ =~= http_prefix() + self.status_line@ + crlf() + header_block_of(
                pair_views(self.headers@).take(0),
            ));
        }
        let mut i: usize = 0;
        while i < self.headers.len()
            invariant
                i <= self.headers@.len(),
                out@ == http_prefix() + self.status_line@ + crlf() + header_block_of(
                    pair_views(self.headers@).take(i as int),
                ),
            decreases self.headers@.len() - i,
        {
            out.append(self.headers[i].0.as_str());
            out.append(": ");
            out.append(self.headers[i].1.as_str());
            out.append("\r\n");
            proof {
                reveal_strlit(": ");
                reveal_strlit("\r\n");
                let pv = pair_views(self.headers@);
                assert(pv.take(i + 1).drop_last() =~= pv.take(i as int));
                assert(pv.take(i + 1).last() == pv[i as int]);
                assert(": "@ =~= seq![':', ' ']);
                assert("\r\n"@ =~= crlf());
                assert(out@ =~= http_prefix() + self.status_line@ + crlf() + header_block_of(
                    pv.take(i + 1),
                ));
            }
            i += 1;
        }
        out.append("\r\n");
        proof {
            reveal_strlit("\r\n");
            let pv = pair_views(self.headers@);
            assert(pv.take(pv.len() as int) =~= pv);
            assert(out@ =~= head_of(self.status_line@, pv) + crlf());
        }
        match self.body {
            Some(b) => {
                out.append(b.as_str());
                proof {
                    assert(out@ =~= serial_of(
                        self.status_line@,
                        pair_views(self.headers@),
                        Some(b@),
                    ));
                }
                out
            },
            None => {
                proof {
                    assert(out@ + Seq::<char>::empty() =~= out@);
                }
                out
            },
        }
    }
}

} // verus!
