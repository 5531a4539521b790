//! Path validation helpers shared by the endpoint-matching side of the
//! pipeline.

use vstd::prelude::*;

verus! {

use crate::text::count_empty;
use crate::text::chars_to_string;
use crate::text::join_rest;
use crate::text::split_chars;
use crate::text::split_vec_chars;
use crate::text::str_to_chars;

/// The normalization `get_valid_path` performs: a well-formed path is
/// rewritten as a single leading slash followed by its non-empty segments
/// joined with single slashes; otherwise the rejection message.
pub open spec fn spec_valid_path(s: Seq<char>) -> Result<Seq<char>, Seq<char>> {
    if s.len() == 0 {
        Err(("No path provided")@)
    } else if s[0] != '/' {
        Err(("Path does not start with a leading slash.")@)
    } else if s.len() == 1 {
        Ok(seq!['/'])
    } else if count_empty(split_chars(s, '/')) > 2 {
        Err(("Too many trailing or leading slashes in path.")@)
    } else {
        Ok(seq!['/'] + join_rest(split_chars(s, '/'), '/', false))
    }
}

/// Validates and normalizes a request path: it must be non-empty, start
/// with a slash, and carry at most two empty segments (a leading one and
/// at most one trailing or doubled slash); the result drops the empty
/// segments.
pub fn get_valid_path(path: &str) -> (r: Result<String, String>)
    ensures
        (match r {
            Ok(p) => spec_valid_path(path@) == Ok::<Seq<char>, Seq<char>>(p@),
            Err(e) => spec_valid_path(path@) == Err::<Seq<char>, Seq<char>>(e@),
        }),
{
    let chars = str_to_chars(path);
    let n = chars.len();
    if n == 0 {
        return Err("No path provided".to_owned());
    }
    if chars[0] != '/' {
        return Err("Path does not start with a leading slash.".to_owned());
    }
    if n == 1 {
        let mut out: Vec<char> = Vec::new();
        out.push('/');
        proof {
            assert(out@ =~= seq!['/']);
        }
        return Ok(chars_to_string(&out));
    }
    let tokens = split_vec_chars(&chars, '/');
    let ghost toks = split_chars(path@, '/');
    let m = tokens.len();
    let mut empty_tokens: usize = 0;
    let mut i: usize = 0;
    proof {
        assert(toks.subrange(0, m as int) =~= toks);
    }
    while i < m
        invariant
            0 <= i <= m,
            m == tokens@.len(),
            toks == tokens@.map_values(|t: Vec<char>| t@),
            toks.len() == m,
            forall|j: int| 0 <= j < m ==> toks[j] == tokens@[j]@,
            empty_tokens <= i,
            empty_tokens + count_empty(toks.subrange(i as int, m as int)) == count_empty(toks),
        decreases m - i,
    {
        let ghost pre = toks.subrange(i as int, m as int);
        proof {
            assert(pre[0] == toks[i as int]);
            assert(pre.subrange(1, pre.len() as int) =~= toks.subrange(i + 1, m as int));
        }
        if tokens[i].len() == 0 {
            empty_tokens = empty_tokens + 1;
        }
        i = i + 1;
    }
    proof {
        assert(toks.subrange(m as int, m as int) =~= Seq::<Seq<char>>::empty());
    }
    if empty_tokens > 2 {
        return Err("Too many trailing or leading slashes in path.".to_owned());
    }
    let mut out: Vec<char> = Vec::new();
    out.push('/');
    let mut started = false;
    let mut k: usize = 0;
    proof {
        assert(out@ =~= seq!['/']);
        assert(toks.subrange(0, m as int) =~= toks);
    }
    while k < m
        invariant
            0 <= k <= m,
            m == tokens@.len(),
            toks == tokens@.map_values(|t: Vec<char>| t@),
            toks.len() == m,
            forall|j: int| 0 <= j < m ==> toks[j] == tokens@[j]@,
            out@ + join_rest(toks.subrange(k as int, m as int), '/', started) == seq!['/']
                + join_rest(toks, '/', false),
        decreases m - k,
    {
        let ghost pre = toks.subrange(k as int, m as int);
        proof {
            assert(pre[0] == toks[k as int]);
            assert(pre.subrange(1, pre.len() as int) =~= toks.subrange(k + 1, m as int));
        }
        let tok = &tokens[k];
        if tok.len() > 0 {
            if started {
                out.push('/');
            }
            let mut j: usize = 0;
            let tn = tok.len();
            let ghost out_before = out@;
            while j < tn
                invariant
                    0 <= j <= tn,
                    tn == tok@.len(),
                    out@ == out_before + tok@.subrange(0, j as int),
                decreases tn - j,
            {
                out.push(tok[j]);
                proof {
                    assert(out@ =~= out_before + tok@.subrange(0, j + 1));
                }
                j = j + 1;
            }
            proof {
                assert(tok@.subrange(0, tn as int) =~= tok@);
            }
            started = true;
        }
        proof {
            assert(out@ + join_rest(toks.subrange(k + 1, m as int), '/', started) =~= seq!['/']
                + join_rest(toks, '/', false));
        }
        k = k + 1;
    }
    proof {
        assert(toks.subrange(m as int, m as int) =~= Seq::<Seq<char>>::empty());
        assert(out@ =~= seq!['/'] + join_rest(toks, '/', false));
    }
    Ok(chars_to_string(&out))
}

/// A path with any run of trailing slashes removed.
pub open spec fn trim_trailing_slashes(s: Seq<char>) -> Seq<char>
    decreases s.len(),
{
    if s.len() > 0 && s.last() == '/' {
        trim_trailing_slashes(s.drop_last())
    } else {
        s
    }
}

/// Whether a path ends in `/graphql`.
pub open spec fn ends_in_graphql(s: Seq<char>) -> bool {
    s.len() >= 8 && s.subrange(s.len() - 8, s.len() as int) == seq![
        '/', 'g', 'r', 'a', 'p', 'h', 'q', 'l',
    ]
}

fn graphql_char(i: usize) -> (r: char)
    requires
        i < 8,
    ensures
        r == seq!['/', 'g', 'r', 'a', 'p', 'h', 'q', 'l'][i as int],
{
    match i {
        0 => '/',
        1 => 'g',
        2 => 'r',
        3 => 'a',
        4 => 'p',
        5 => 'h',
        6 => 'q',
        _ => 'l',
    }
}

/// Whether a path names a GraphQL endpoint: ignoring trailing slashes, it
/// ends in `/graphql`.
pub fn is_graphql_endpoint(path: &str) -> (r: bool)
    ensures
        r == ends_in_graphql(trim_trailing_slashes(path@)),
{
    let chars = str_to_chars(path);
    let mut end = chars.len();
    proof {
        assert(chars@.subrange(0, end as int) =~= path@);
    }
    while end > 0 && chars[end - 1] == '/'
        invariant
            0 <= end <= chars@.len(),
            chars@ == path@,
            trim_trailing_slashes(path@) == trim_trailing_slashes(chars@.subrange(0, end as int)),
        decreases end,
    {
        let ghost pre = chars@.subrange(0, end as int);
        proof {
            assert(pre.drop_last() =~= chars@.subrange(0, end - 1));
        }
        end = end - 1;
    }
    let ghost trimmed = trim_trailing_slashes(path@);
    proof {
        assert(trimmed == chars@.subrange(0, end as int));
    }
    if end < 8 {
        return false;
    }
    let mut i: usize = 0;
    while i < 8
        invariant
            0 <= i <= 8,
            8 <= end <= chars@.len(),
            trimmed == trim_trailing_slashes(path@),
            trimmed == chars@.subrange(0, end as int),
            trimmed.len() == end,
            forall|j: int|
                0 <= j < i ==> trimmed[end - 8 + j] == seq![
                    '/', 'g', 'r', 'a', 'p', 'h', 'q', 'l',
                ][j],
        decreases 8 - i,
    {
        if chars[end - 8 + i] != graphql_char(i) {
            proof {
                assert(trimmed[end - 8 + i as int] == chars@[end - 8 + i as int]);
                if ends_in_graphql(trimmed) {
                    let g = seq!['/', 'g', 'r', 'a', 'p', 'h', 'q', 'l'];
                    assert(trimmed.subrange(end - 8, end as int) == g);
                    assert(trimmed.subrange(end - 8, end as int)[i as int] == trimmed[end - 8
                        + i as int]);
                    assert(g[i as int] == trimmed[end - 8 + i as int]);
                    assert(false);
                }
                assert(!ends_in_graphql(trimmed));
            }
            return false;
        }
        i = i + 1;
    }
    proof {
        assert(trimmed.subrange(end - 8, end as int) =~= seq![
            '/', 'g', 'r', 'a', 'p', 'h', 'q', 'l',
        ]);
    }
    true
}

} // verus!
