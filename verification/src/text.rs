//! Character-level text helpers: splitting a buffer into lines, splitting a
//! line into whitespace-separated tokens, and trimming surrounding whitespace.

use vstd::prelude::*;

verus! {

/// Whitespace that separates request-line tokens and pads header names and values.
pub open spec fn is_ws(c: char) -> bool {
    c == ' ' || c == '\t'
}

/// Least index of `s` at which `p` holds; `s.len()` when `p` holds nowhere.
pub open spec fn first_match(s: Seq<char>, p: spec_fn(char) -> bool) -> int
    decreases s.len(),
{
    if s.len() == 0 {
        0
    } else if p(s[0]) {
        0
    } else {
        1 + first_match(s.skip(1), p)
    }
}

pub proof fn lemma_first_match_bounds(s: Seq<char>, p: spec_fn(char) -> bool)
    ensures
        0 <= first_match(s, p) <= s.len(),
        forall|k: int| 0 <= k < first_match(s, p) ==> !p(s[k]),
        first_match(s, p) < s.len() ==> p(s[first_match(s, p)]),
    decreases s.len(),
{
    if s.len() == 0 {
    } else if p(s[0]) {
    } else {
        lemma_first_match_bounds(s.skip(1), p);
        let e = first_match(s, p);
        assert forall|k: int| 0 <= k < e implies !p(s[k]) by {
            if k > 0 {
                assert(s.skip(1)[k - 1] == s[k]);
            }
        }
        if e < s.len() {
            assert(s.skip(1)[e - 1] == s[e]);
        }
    }
}

pub proof fn lemma_first_match_is(s: Seq<char>, p: spec_fn(char) -> bool, i: int)
    requires
        0 <= i <= s.len(),
        forall|k: int| 0 <= k < i ==> !p(s[k]),
        i < s.len() ==> p(s[i]),
    ensures
        first_match(s, p) == i,
    decreases s.len(),
{
    if s.len() == 0 {
    } else if p(s[0]) {
    } else {
        assert(i >= 1);
        assert forall|k: int| 0 <= k < i - 1 implies !p(s.skip(1)[k]) by {
            assert(s.skip(1)[k] == s[k + 1]);
        }
        if i - 1 < s.len() - 1 {
            assert(s.skip(1)[i - 1] == s[i]);
        }
        lemma_first_match_is(s.skip(1), p, i - 1);
    }
}

/// One trailing carriage return is stripped from a line.
pub open spec fn drop_cr(line: Seq<char>) -> Seq<char> {
    if line.len() > 0 && line.last() == '\r' {
        line.drop_last()
    } else {
        line
    }
}

/// The lines of `s`: split on `'\n'`, one trailing `'\r'` stripped from each
/// piece, and no empty final line when `s` ends in `'\n'`.
pub open spec fn lines_of(s: Seq<char>) -> Seq<Seq<char>>
    decreases s.len(),
    via lines_of_decreases
{
    if s.len() == 0 {
        seq![]
    } else {
        let e = first_match(s, |c: char| c == '\n');
        if e == s.len() {
            seq![drop_cr(s)]
        } else {
            seq![drop_cr(s.take(e))] + lines_of(s.skip(e + 1))
        }
    }
}

#[via_fn]
proof fn lines_of_decreases(s: Seq<char>) {
    if s.len() != 0 {
        lemma_first_match_bounds(s, |c: char| c == '\n');
    }
}

/// The whitespace-separated tokens of `s`, in order, each non-empty.
pub open spec fn tokens_of(s: Seq<char>) -> Seq<Seq<char>>
    decreases s.len(),
    via tokens_of_decreases
{
    if s.len() == 0 {
        seq![]
    } else if is_ws(s[0]) {
        tokens_of(s.skip(1))
    } else {
        let e = first_match(s, |c: char| is_ws(c));
        seq![s.take(e)] + tokens_of(s.skip(e))
    }
}

#[via_fn]
proof fn tokens_of_decreases(s: Seq<char>) {
    if s.len() != 0 && !is_ws(s[0]) {
        lemma_first_match_bounds(s, |c: char| is_ws(c));
    }
}

/// `s` without leading whitespace.
pub open spec fn trim_start_of(s: Seq<char>) -> Seq<char>
    decreases s.len(),
{
    if s.len() > 0 && is_ws(s[0]) {
        trim_start_of(s.skip(1))
    } else {
        s
    }
}

/// `s` without trailing whitespace.
pub open spec fn trim_end_of(s: Seq<char>) -> Seq<char>
    decreases s.len(),
{
    if s.len() > 0 && is_ws(s.last()) {
        trim_end_of(s.drop_last())
    } else {
        s
    }
}

/// `s` without leading or trailing whitespace.
pub open spec fn trim_of(s: Seq<char>) -> Seq<char> {
    trim_end_of(trim_start_of(s))
}

proof fn lemma_trim_start_no_ws(s: Seq<char>)
    ensures
        trim_start_of(s).len() > 0 ==> !is_ws(trim_start_of(s)[0]),
    decreases s.len(),
{
    if s.len() > 0 && is_ws(s[0]) {
        lemma_trim_start_no_ws(s.skip(1));
    }
}

proof fn lemma_trim_end_props(s: Seq<char>)
    ensures
        trim_end_of(s).len() > 0 ==> !is_ws(trim_end_of(s).last()),
        trim_end_of(s).len() > 0 ==> trim_end_of(s)[0] == s[0],
    decreases s.len(),
{
    if s.len() > 0 && is_ws(s.last()) {
        lemma_trim_end_props(s.drop_last());
    }
}

/// Law: a trimmed text keeps no surrounding whitespace: when it is non-empty,
/// neither its first nor its last character is whitespace.
pub proof fn lemma_trim_no_ws(s: Seq<char>)
    ensures
        trim_of(s).len() > 0 ==> !is_ws(trim_of(s)[0]),
        trim_of(s).len() > 0 ==> !is_ws(trim_of(s).last()),
{
    lemma_trim_start_no_ws(s);
    lemma_trim_end_props(trim_start_of(s));
}

/// The views of a vector of strings, in order.
pub open spec fn views_of(v: Seq<String>) -> Seq<Seq<char>> {
    v.map_values(|l: String| l@)
}

/// Splits `s` into its lines, as `lines_of` describes.
pub fn split_lines(s: &str) -> (r: Vec<String>)
    ensures
        views_of(r@) =~= lines_of(s@),
{
    let n = s.unicode_len();
    let mut r: Vec<String> = Vec::new();
    let mut pos: usize = 0;
    proof {
        assert(s@.skip(0) =~= s@);
    }
    while pos < n
        invariant
            n == s@.len(),
            pos <= n,
            lines_of(s@) =~~= views_of(r@) + lines_of(s@.skip(pos as int)),
        decreases n - pos,
    {
        let mut j = pos;
        while j < n && s.get_char(j) != '\n'
            invariant
                n == s@.len(),
                pos <= j <= n,
                forall|k: int| pos <= k < j ==> s@[k] != '\n',
            decreases n - j,
        {
            j += 1;
        }
        let end = if j > pos && s.get_char(j - 1) == '\r' {
            j - 1
        } else {
            j
        };
        let line = s.substring_char(pos, end).to_owned();
        proof {
            let rest = s@.skip(pos as int);
            let nl = |c: char| c == '\n';
            assert forall|k: int| 0 <= k < j - pos implies !nl(rest[k]) by {
                assert(rest[k] == s@[pos + k]);
            }
            if j < n {
                assert(nl(rest[j - pos]));
            }
            lemma_first_match_is(rest, nl, j - pos);
            assert(rest.take(j - pos) =~= s@.subrange(pos as int, j as int));
            assert(drop_cr(s@.subrange(pos as int, j as int)) =~= s@.subrange(
                pos as int,
                end as int,
            ));
            if j < n {
                assert(rest.skip(j - pos + 1) =~= s@.skip(j + 1));
                assert(lines_of(rest) =~~= seq![s@.subrange(pos as int, end as int)] + lines_of(
                    s@.skip(j + 1),
                ));
            } else {
                assert(rest =~= s@.subrange(pos as int, j as int));
                assert(lines_of(rest) =~~= seq![s@.subrange(pos as int, end as int)]);
            }
        }
        let ghost old_r = r@;
        r.push(line);
        proof {
            assert(views_of(r@) =~~= views_of(old_r).push(s@.subrange(pos as int, end as int)));
        }
        if j < n {
            pos = j + 1;
        } else {
            pos = n;
            proof {
                assert(lines_of(s@.skip(n as int)) =~~= Seq::<Seq<char>>::empty());
            }
        }
    }
    proof {
        assert(lines_of(s@.skip(pos as int)) =~~= Seq::<Seq<char>>::empty());
    }
    r
}

/// Splits `s` into its whitespace-separated tokens, as `tokens_of` describes.
pub fn split_tokens(s: &str) -> (r: Vec<String>)
    ensures
        views_of(r@) =~= tokens_of(s@),
{
    let n = s.unicode_len();
    let mut r: Vec<String> = Vec::new();
    let mut pos: usize = 0;
    proof {
        assert(s@.skip(0) =~= s@);
    }
    while pos < n
        invariant
            n == s@.len(),
            pos <= n,
            tokens_of(s@) =~~= views_of(r@) + tokens_of(s@.skip(pos as int)),
        decreases n - pos,
    {
        if is_ws_char(s.get_char(pos)) {
            proof {
                assert(s@.skip(pos as int).skip(1) =~= s@.skip(pos + 1));
            }
            pos += 1;
        } else {
            let mut j = pos + 1;
            while j < n && !is_ws_char(s.get_char(j))
                invariant
                    n == s@.len(),
                    pos < j <= n,
                    forall|k: int| pos <= k < j ==> !is_ws(s@[k]),
                decreases n - j,
            {
                j += 1;
            }
            let tok = s.substring_char(pos, j).to_owned();
            proof {
                let rest = s@.skip(pos as int);
                let wsp = |c: char| is_ws(c);
                assert forall|k: int| 0 <= k < j - pos implies !wsp(rest[k]) by {
                    assert(rest[k] == s@[pos + k]);
                }
                if j < n {
                    assert(wsp(rest[j - pos]));
                }
                lemma_first_match_is(rest, wsp, j - pos);
                assert(rest.take(j - pos) =~= s@.subrange(pos as int, j as int));
                assert(rest.skip(j - pos) =~= s@.skip(j as int));
                assert(tokens_of(rest) =~~= seq![s@.subrange(pos as int, j as int)] + tokens_of(
                    s@.skip(j as int),
                ));
            }
            let ghost old_r = r@;
            r.push(tok);
            proof {
                assert(views_of(r@) =~~= views_of(old_r).push(s@.subrange(pos as int, j as int)));
            }
            pos = j;
        }
    }
    proof {
        assert(s@.skip(pos as int) =~= Seq::<char>::empty());
    }
    r
}

/// Whether `c` is token-separating whitespace; mirrors `is_ws`.
pub fn is_ws_char(c: char) -> (r: bool)
    ensures
        r == is_ws(c),
{
    c == ' ' || c == '\t'
}

/// `s` with surrounding whitespace removed, as `trim_of` describes.
pub fn trim_ws(s: &str) -> (r: &str)
    ensures
        r@ =~= trim_of(s@),
{
    let n = s.unicode_len();
    let mut b: usize = 0;
    proof {
        assert(s@.skip(0) =~= s@);
    }
    while b < n && is_ws_char(s.get_char(b))
        invariant
            n == s@.len(),
            b <= n,
            trim_start_of(s@) == trim_start_of(s@.skip(b as int)),
        decreases n - b,
    {
        proof {
            assert(s@.skip(b as int).skip(1) =~= s@.skip(b + 1));
        }
        b += 1;
    }
    proof {
        if b < n {
            assert(s@.skip(b as int)[0] == s@[b as int]);
        }
        assert(trim_start_of(s@.skip(b as int)) == s@.skip(b as int));
        assert(s@.subrange(b as int, n as int) =~= s@.skip(b as int));
    }
    let mut e: usize = n;
    while e > b && is_ws_char(s.get_char(e - 1))
        invariant
            n == s@.len(),
            b <= e <= n,
            trim_start_of(s@) == s@.skip(b as int),
            trim_end_of(s@.skip(b as int)) == trim_end_of(s@.subrange(b as int, e as int)),
        decreases e,
    {
        proof {
            assert(s@.subrange(b as int, e as int).drop_last() =~= s@.subrange(b as int, e - 1));
            assert(s@.subrange(b as int, e as int).last() == s@[e - 1]);
        }
        e -= 1;
    }
    proof {
        let piece = s@.subrange(b as int, e as int);
        if piece.len() > 0 {
            assert(piece.last() == s@[e - 1]);
        }
        assert(trim_end_of(piece) == piece);
    }
    s.substring_char(b, e)
}

} // verus!
