//! The request parser: a decoded text buffer becomes a structured HTTP
//! request, or a parse error.

use vstd::prelude::*;
use crate::text::{
    is_ws, first_match, lines_of, tokens_of, trim_of, views_of, split_lines, split_tokens,
    trim_ws, lemma_first_match_is, lemma_trim_no_ws,
};
use crate::headers::{pair_views, map_of, unique_keys, insert_header};

verus! {

/// Why a request buffer failed to parse.
#[derive(Clone, Copy, Debug, PartialEq, Eq, Structural)]
pub enum ParseError {
    /// The buffer holds no line at all.
    MissingRequestLine,
    /// The first line does not hold exactly three whitespace-separated tokens.
    InvalidRequestLine,
    /// A header line holds no colon.
    InvalidHeaderFormat,
}

/// A parsed HTTP request.
#[derive(Debug)]
pub struct HttpRequest {
    pub method: String,
    pub path: String,
    pub version: String,
    /// Key-value pairs with pairwise distinct keys; a duplicated key in the
    /// buffer keeps only its last value.
    pub headers: Vec<(String, String)>,
    /// The single line after the first blank line, when one follows it.
    pub body: Option<String>,
}

/// The abstract value of a parsed request.
pub ghost struct RequestModel {
    pub method: Seq<char>,
    pub path: Seq<char>,
    pub version: Seq<char>,
    pub headers: Map<Seq<char>, Seq<char>>,
    pub body: Option<Seq<char>>,
}

impl HttpRequest {
    /// The abstract value of this request.
    pub open spec fn model(&self) -> RequestModel {
        RequestModel {
            method: self.method@,
            path: self.path@,
            version: self.version@,
            headers: map_of(pair_views(self.headers@)),
            body: match self.body {
                Some(b) => Some(b@),
                None => None,
            },
        }
    }

    /// Header keys are pairwise distinct.
    pub open spec fn wf(&self) -> bool {
        unique_keys(pair_views(self.headers@))
    }
}

/// Index of the first blank line at or after `i`; `lines.len()` when none.
pub open spec fn blank_from(lines: Seq<Seq<char>>, i: int) -> int
    decreases lines.len() - i,
{
    if i < 0 || i >= lines.len() {
        lines.len() as int
    } else if lines[i].len() == 0 {
        i
    } else {
        blank_from(lines, i + 1)
    }
}

/// Index of the first colon in `line`; `line.len()` when there is none.
pub open spec fn colon_in(line: Seq<char>) -> int {
    first_match(line, |c: char| c == ':')
}

/// Whether `line` holds a colon.
pub open spec fn has_colon(line: Seq<char>) -> bool {
    colon_in(line) < line.len()
}

/// The key of a header line: what stands before its first colon, trimmed.
pub open spec fn header_key(line: Seq<char>) -> Seq<char> {
    trim_of(line.take(colon_in(line)))
}

/// The value of a header line: what stands after its first colon, trimmed.
pub open spec fn header_value(line: Seq<char>) -> Seq<char> {
    trim_of(line.skip(colon_in(line) + 1))
}

/// The header mapping that lines `i .. end` lay over `acc`: a later line
/// overrides an earlier one with the same key.
pub open spec fn headers_from(
    lines: Seq<Seq<char>>,
    i: int,
    end: int,
    acc: Map<Seq<char>, Seq<char>>,
) -> Map<Seq<char>, Seq<char>>
    decreases end - i,
{
    if i < 0 || i >= end {
        acc
    } else {
        headers_from(lines, i + 1, end, acc.insert(header_key(lines[i]), header_value(lines[i])))
    }
}

/// The request that `buf` parses to, or the error it raises.
///
/// The first line must split into exactly three tokens: method, path and
/// version. The following lines, up to the first blank line, are headers and
/// must each hold a colon. At most one line after the blank line is the body.
pub open spec fn parse_result(buf: Seq<char>) -> Result<RequestModel, ParseError> {
    let lines = lines_of(buf);
    if lines.len() == 0 {
        Err(ParseError::MissingRequestLine)
    } else {
        let toks = tokens_of(lines[0]);
        if toks.len() != 3 {
            Err(ParseError::InvalidRequestLine)
        } else {
            let hend = blank_from(lines, 1);
            if exists|k: int| 1 <= k < hend && !has_colon(lines[k]) {
                Err(ParseError::InvalidHeaderFormat)
            } else {
                Ok(
                    RequestModel {
                        method: toks[0],
                        path: toks[1],
                        version: toks[2],
                        headers: headers_from(lines, 1, hend, Map::empty()),
                        body: if hend + 1 < lines.len() {
                            Some(lines[hend + 1])
                        } else {
                            None
                        },
                    },
                )
            }
        }
    }
}

proof fn lemma_blank_from_bounds(lines: Seq<Seq<char>>, i: int)
    requires
        0 <= i <= lines.len(),
    ensures
        i <= blank_from(lines, i) <= lines.len(),
    decreases lines.len() - i,
{
    if i < lines.len() && lines[i].len() != 0 {
        lemma_blank_from_bounds(lines, i + 1);
    }
}

proof fn lemma_blank_from_is(lines: Seq<Seq<char>>, a: int, i: int)
    requires
        0 <= a <= i <= lines.len(),
        forall|k: int| a <= k < i ==> lines[k].len() != 0,
        i < lines.len() ==> lines[i].len() == 0,
    ensures
        blank_from(lines, a) == i,
    decreases i - a,
{
    if a < i {
        lemma_blank_from_is(lines, a + 1, i);
    }
}

proof fn lemma_blank_from_past(lines: Seq<Seq<char>>, a: int, j: int)
    requires
        0 <= a <= j < lines.len(),
        forall|k: int| a <= k <= j ==> lines[k].len() != 0,
    ensures
        blank_from(lines, a) > j,
    decreases j - a,
{
    if a < j {
        lemma_blank_from_past(lines, a + 1, j);
    } else {
        lemma_blank_from_bounds(lines, a + 1);
    }
}

proof fn lemma_headers_from_extend(
    lines: Seq<Seq<char>>,
    a: int,
    b: int,
    acc: Map<Seq<char>, Seq<char>>,
)
    requires
        0 <= a <= b,
    ensures
        headers_from(lines, a, b + 1, acc) == headers_from(lines, a, b, acc).insert(
            header_key(lines[b]),
            header_value(lines[b]),
        ),
    decreases b - a,
{
    if a < b {
        lemma_headers_from_extend(lines, a + 1, b, acc.insert(
            header_key(lines[a]),
            header_value(lines[a]),
        ));
    } else {
        let acc2 = acc.insert(header_key(lines[a]), header_value(lines[a]));
        assert(headers_from(lines, a, b + 1, acc) == headers_from(lines, a + 1, b + 1, acc2));
    }
}

/// Law: a buffer whose first line holds exactly three whitespace-separated
/// tokens, and whose header lines each hold a colon, parses successfully, and
/// the three tokens become method, path and version verbatim.
pub proof fn lemma_parse_request_line(buf: Seq<char>)
    requires
        lines_of(buf).len() > 0,
        tokens_of(lines_of(buf)[0]).len() == 3,
        forall|k: int|
            1 <= k < blank_from(lines_of(buf), 1) ==> has_colon(#[trigger] lines_of(buf)[k]),
    ensures
        parse_result(buf) is Ok,
        parse_result(buf)->Ok_0.method == tokens_of(lines_of(buf)[0])[0],
        parse_result(buf)->Ok_0.path == tokens_of(lines_of(buf)[0])[1],
        parse_result(buf)->Ok_0.version == tokens_of(lines_of(buf)[0])[2],
{
}

proof fn lemma_headers_from_untouched(
    lines: Seq<Seq<char>>,
    a: int,
    end: int,
    acc: Map<Seq<char>, Seq<char>>,
    key: Seq<char>,
)
    requires
        forall|k: int| a <= k < end ==> header_key(#[trigger] lines[k]) != key,
    ensures
        headers_from(lines, a, end, acc).contains_key(key) == acc.contains_key(key),
        acc.contains_key(key) ==> headers_from(lines, a, end, acc)[key] == acc[key],
    decreases end - a,
{
    if 0 <= a && a < end {
        lemma_headers_from_untouched(
            lines,
            a + 1,
            end,
            acc.insert(header_key(lines[a]), header_value(lines[a])),
            key,
        );
    }
}

proof fn lemma_headers_from_last_wins(
    lines: Seq<Seq<char>>,
    a: int,
    end: int,
    acc: Map<Seq<char>, Seq<char>>,
    j: int,
)
    requires
        0 <= a <= j < end,
        forall|k: int| j < k < end ==> header_key(#[trigger] lines[k]) != header_key(lines[j]),
    ensures
        headers_from(lines, a, end, acc).contains_key(header_key(lines[j])),
        headers_from(lines, a, end, acc)[header_key(lines[j])] == header_value(lines[j]),
    decreases j - a,
{
    if a == j {
        lemma_headers_from_untouched(
            lines,
            a + 1,
            end,
            acc.insert(header_key(lines[j]), header_value(lines[j])),
            header_key(lines[j]),
        );
    } else {
        lemma_headers_from_last_wins(
            lines,
            a + 1,
            end,
            acc.insert(header_key(lines[a]), header_value(lines[a])),
            j,
        );
    }
}

/// Law: when parsing succeeds, a header line whose key occurs on no later
/// line of the block decides that key's value; key and value are the line's
/// two halves around its first colon, trimmed of surrounding whitespace.
pub proof fn lemma_parse_last_header_wins(buf: Seq<char>, j: int)
    requires
        parse_result(buf) is Ok,
        1 <= j < blank_from(lines_of(buf), 1),
        forall|k: int|
            j < k < blank_from(lines_of(buf), 1) ==> header_key(#[trigger] lines_of(buf)[k])
                != header_key(lines_of(buf)[j]),
    ensures
        parse_result(buf)->Ok_0.headers.contains_key(header_key(lines_of(buf)[j])),
        parse_result(buf)->Ok_0.headers[header_key(lines_of(buf)[j])] == header_value(
            lines_of(buf)[j],
        ),
        header_key(lines_of(buf)[j]).len() > 0 ==> !is_ws(header_key(lines_of(buf)[j])[0])
            && !is_ws(header_key(lines_of(buf)[j]).last()),
        header_value(lines_of(buf)[j]).len() > 0 ==> !is_ws(header_value(lines_of(buf)[j])[0])
            && !is_ws(header_value(lines_of(buf)[j]).last()),
{
    let lines = lines_of(buf);
    lemma_headers_from_last_wins(lines, 1, blank_from(lines, 1), Map::empty(), j);
    lemma_trim_no_ws(lines[j].take(colon_in(lines[j])));
    lemma_trim_no_ws(lines[j].skip(colon_in(lines[j]) + 1));
}

/// Parses a decoded request buffer, as `parse_result` describes.
pub fn parse_http_request(request: &str) -> (r: Result<HttpRequest, ParseError>)
    ensures
        match r {
            Ok(req) => parse_result(request@) == Ok::<RequestModel, ParseError>(req.model())
                && req.wf(),
            Err(e) => parse_result(request@) == Err::<RequestModel, ParseError>(e),
        },
{
    let ghost lv = lines_of(request@);
    let lines = split_lines(request);
    if lines.len() == 0 {
        return Err(ParseError::MissingRequestLine);
    }
    proof {
        assert(views_of(lines@)[0] == lines@[0]@);
    }
    let toks = split_tokens(lines[0].as_str());
    if toks.len() != 3 {
        return Err(ParseError::InvalidRequestLine);
    }
    let mut headers: Vec<(String, String)> = Vec::new();
    let mut i: usize = 1;
    let ghost empty_acc = Map::<Seq<char>, Seq<char>>::empty();
    loop
        invariant
            lv == lines_of(request@),
            views_of(lines@) =~= lv,
            lv.len() == lines@.len(),
            views_of(toks@) =~= tokens_of(lv[0]),
            toks@.len() == 3,
            1 <= i <= lines@.len(),
            forall|k: int| 1 <= k < i ==> lv[k].len() != 0,
            forall|k: int| 1 <= k < i ==> has_colon(lv[k]),
            unique_keys(pair_views(headers@)),
            map_of(pair_views(headers@)) == headers_from(lv, 1, i as int, empty_acc),
            lines_of(request@).len() > 0,
            tokens_of(lines_of(request@)[0]).len() == 3,
        ensures
            lv == lines_of(request@),
            views_of(lines@) =~= lv,
            lv.len() == lines@.len(),
            views_of(toks@) =~= tokens_of(lv[0]),
            toks@.len() == 3,
            1 <= i <= lines@.len(),
            blank_from(lv, 1) == i as int,
            forall|k: int| 1 <= k < i ==> has_colon(lv[k]),
            unique_keys(pair_views(headers@)),
            map_of(pair_views(headers@)) == headers_from(lv, 1, i as int, empty_acc),
        decreases lines@.len() - i,
    {
        if i >= lines.len() {
            // No blank line: every remaining line was a header.
            proof {
                lemma_blank_from_is(lv, 1, lv.len() as int);
            }
            break ;
        }
        let line = lines[i].as_str();
        let n = line.unicode_len();
        if n == 0 {
            proof {
                lemma_blank_from_is(lv, 1, i as int);
            }
            break ;
        }
        let mut j: usize = 0;
        while j < n && line.get_char(j) != ':'
            invariant
                n == line@.len(),
                j <= n,
                forall|k: int| 0 <= k < j ==> line@[k] != ':',
            decreases n - j,
        {
            j += 1;
        }
        proof {
            let cl = |c: char| c == ':';
            assert forall|k: int| 0 <= k < j implies !cl(line@[k]) by {}
            if j < n {
                assert(cl(line@[j as int]));
            }
            lemma_first_match_is(line@, cl, j as int);
            assert(line@ == lv[i as int]);
        }
        if j == n {
            // `line` holds no colon, and no blank line stands before it.
            proof {
                lemma_blank_from_past(lv, 1, i as int);
                assert(!has_colon(lv[i as int]));
                assert(1 <= i < blank_from(lv, 1) && !has_colon(lv[i as int]));
            }
            return Err(ParseError::InvalidHeaderFormat);
        }
        let key = trim_ws(line.substring_char(0, j)).to_owned();
        let value = trim_ws(line.substring_char(j + 1, n)).to_owned();
        proof {
            assert(line@.subrange(0, j as int) =~= line@.take(j as int));
            assert(line@.subrange(j + 1, n as int) =~= line@.skip(j + 1));
            assert(key@ == header_key(lv[i as int]));
            assert(value@ == header_value(lv[i as int]));
            lemma_headers_from_extend(lv, 1, i as int, empty_acc);
        }
        insert_header(&mut headers, key, value);
        i += 1;
    }
    // `i` is the index of the first blank line, or the line count.
    proof {
        assert(!(exists|k: int| 1 <= k < blank_from(lv, 1) && !has_colon(lv[k])));
    }
    let body: Option<String> = if lines.len() - i > 1 {
        Some(lines[i + 1].clone())
    } else {
        None
    };
    let method = toks[0].clone();
    let path = toks[1].clone();
    let version = toks[2].clone();
    let req = HttpRequest { method, path, version, headers, body };
    proof {
        let m = parse_result(request@);
        assert(m is Ok);
        assert(views_of(toks@)[0] == toks@[0]@);
        assert(views_of(toks@)[1] == toks@[1]@);
        assert(views_of(toks@)[2] == toks@[2]@);
        if i + 1 < lines@.len() {
            assert(views_of(lines@)[i + 1] == lines@[i + 1]@);
        }
        assert(m->Ok_0 == req.model());
    }
    Ok(req)
}

} // verus!
