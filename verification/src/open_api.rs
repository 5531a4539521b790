//! Path tokenization for matching traces against OpenAPI specifications.

use vstd::prelude::*;

verus! {

use crate::text::chars_to_string;
use crate::text::nonempty_tokens;
use crate::text::split_chars;
use crate::text::split_vec_chars;
use crate::text::str_to_chars;

/// Which OpenAPI specification, if any, an endpoint is validated against.
#[derive(Debug, Clone)]
pub struct EndpointInfo {
    pub openapi_spec_name: Option<String>,
    pub endpoint_path: String,
}

/// Splits a path into its non-empty `/`-separated segments.
pub fn get_split_path(path: &str) -> (r: Vec<String>)
    ensures
        r@.map_values(|t: String| t@) == nonempty_tokens(split_chars(path@, '/')),
{
    let chars = str_to_chars(path);
    let tokens = split_vec_chars(&chars, '/');
    let ghost toks = split_chars(path@, '/');
    let m = tokens.len();
    let mut out: Vec<String> = Vec::new();
    let mut i: usize = 0;
    proof {
        assert(out@.map_values(|t: String| t@) =~= Seq::<Seq<char>>::empty());
        assert(toks.subrange(0, m as int) =~= toks);
    }
    while i < m
        invariant
            0 <= i <= m,
            m == tokens@.len(),
            toks == tokens@.map_values(|t: Vec<char>| t@),
            toks.len() == m,
            forall|j: int| 0 <= j < m ==> toks[j] == tokens@[j]@,
            out@.map_values(|t: String| t@) + nonempty_tokens(toks.subrange(i as int, m as int))
                == nonempty_tokens(toks),
        decreases m - i,
    {
        let ghost pre = toks.subrange(i as int, m as int);
        let ghost out_view = out@.map_values(|t: String| t@);
        proof {
            assert(pre[0] == toks[i as int]);
            assert(pre.subrange(1, pre.len() as int) =~= toks.subrange(i + 1, m as int));
        }
        if tokens[i].len() > 0 {
            let piece = chars_to_string(&tokens[i]);
            out.push(piece);
            proof {
                assert(out@.map_values(|t: String| t@) =~= out_view + seq![toks[i as int]]);
                assert(out_view + (seq![toks[i as int]] + nonempty_tokens(
                    toks.subrange(i + 1, m as int),
                )) =~= (out_view + seq![toks[i as int]]) + nonempty_tokens(
                    toks.subrange(i + 1, m as int),
                ));
            }
        } else {
            proof {
                assert(Seq::<Seq<char>>::empty() + nonempty_tokens(
                    toks.subrange(i + 1, m as int),
                ) =~= nonempty_tokens(toks.subrange(i + 1, m as int)));
            }
        }
        i = i + 1;
    }
    proof {
        assert(toks.subrange(m as int, m as int) =~= Seq::<Seq<char>>::empty());
        assert(out@.map_values(|t: String| t@) =~= nonempty_tokens(toks));
    }
    out
}

} // verus!
