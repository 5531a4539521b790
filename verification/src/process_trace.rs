//! Accumulating per-path analysis results: the map from trace paths to the
//! sets of data kinds observed at them.

use vstd::prelude::*;

verus! {

use crate::sensitive_data::SensitiveData;
use crate::sensitive_data::detect_sensitive_in_path_data;
use crate::sensitive_data::spec_detect;
use crate::sensitive_data::strings_view;
use crate::text::str_eq;

/// The kinds observed at one path.
#[derive(Debug)]
pub struct PathTypes {
    pub path: String,
    pub types: Vec<String>,
}

/// A map from trace paths to the kinds observed at them, in first-seen
/// order; each path holds each kind once.
#[derive(Debug)]
pub struct DataTypeMap {
    pub entries: Vec<PathTypes>,
}

/// Spec-level contents of the map: the paths and their kind lists, in
/// order.
pub open spec fn dtm_view(m: DataTypeMap) -> Seq<(Seq<char>, Seq<Seq<char>>)> {
    m.entries@.map_values(|e: PathTypes| (e.path@, strings_view(e.types@)))
}

/// Recording one kind at one path: the first entry with that path gains
/// the kind unless it already holds it; a path not yet present gains a
/// fresh entry at the end.
pub open spec fn spec_add_type(
    s: Seq<(Seq<char>, Seq<Seq<char>>)>,
    path: Seq<char>,
    t: Seq<char>,
) -> Seq<(Seq<char>, Seq<Seq<char>>)>
    decreases s.len(),
{
    if s.len() == 0 {
        seq![(path, seq![t])]
    } else if s[0].0 == path {
        seq![
            (path, if s[0].1.contains(t) {
                s[0].1
            } else {
                s[0].1.push(t)
            }),
        ] + s.subrange(1, s.len() as int)
    } else {
        seq![s[0]] + spec_add_type(s.subrange(1, s.len() as int), path, t)
    }
}

proof fn lemma_add_type_skip(s: Seq<(Seq<char>, Seq<Seq<char>>)>, path: Seq<char>, t: Seq<char>, i: int)
    requires
        0 <= i <= s.len(),
        forall|j: int| 0 <= j < i ==> (#[trigger] s[j]).0 != path,
    ensures
        spec_add_type(s, path, t) == s.subrange(0, i) + spec_add_type(
            s.subrange(i, s.len() as int),
            path,
            t,
        ),
    decreases i,
{
    if i == 0 {
        assert(s.subrange(0, s.len() as int) =~= s);
        assert(s.subrange(0, 0) + spec_add_type(s, path, t) =~= spec_add_type(s, path, t));
    } else {
        let rest = s.subrange(1, s.len() as int);
        lemma_add_type_skip(rest, path, t, i - 1);
        assert(rest.subrange(0, i - 1) =~= s.subrange(1, i));
        assert(rest.subrange(i - 1, rest.len() as int) =~= s.subrange(i, s.len() as int));
        assert(seq![s[0]] + (s.subrange(1, i) + spec_add_type(
            s.subrange(i, s.len() as int),
            path,
            t,
        )) =~= s.subrange(0, i) + spec_add_type(s.subrange(i, s.len() as int), path, t));
    }
}

fn contains_string(v: &Vec<String>, s: &str) -> (r: bool)
    ensures
        r == strings_view(v@).contains(s@),
{
    let n = v.len();
    let mut i: usize = 0;
    while i < n
        invariant
            0 <= i <= n,
            n == v@.len(),
            forall|j: int| 0 <= j < i ==> v@[j]@ != s@,
        decreases n - i,
    {
        if str_eq(v[i].as_str(), s) {
            proof {
                assert(strings_view(v@)[i as int] == s@);
            }
            return true;
        }
        i = i + 1;
    }
    proof {
        if strings_view(v@).contains(s@) {
            let j = choose|j: int|
                0 <= j < strings_view(v@).len() && strings_view(v@)[j] == s@;
            assert(v@[j]@ == s@);
        }
    }
    false
}

/// Records that data of kind `d_type` was observed at `path`.
pub fn insert_data_type(data_types: &mut DataTypeMap, path: &str, d_type: String)
    ensures
        dtm_view(*final(data_types)) == spec_add_type(dtm_view(*old(data_types)), path@, d_type@),
{
    let ghost s0 = dtm_view(*old(data_types));
    let n = data_types.entries.len();
    let mut i: usize = 0;
    while i < n
        invariant
            0 <= i <= n,
            *data_types == *old(data_types),
            n == data_types.entries@.len(),
            forall|j: int| 0 <= j < i ==> (#[trigger] dtm_view(*data_types)[j]).0 != path@,
        decreases n - i,
    {
        if str_eq(data_types.entries[i].path.as_str(), path) {
            let ghost sv = dtm_view(*data_types);
            proof {
                lemma_add_type_skip(sv, path@, d_type@, i as int);
                assert(sv.subrange(i as int, sv.len() as int)[0] == sv[i as int]);
                assert(sv.subrange(i as int, sv.len() as int).subrange(
                    1,
                    sv.len() - i,
                ) =~= sv.subrange(i + 1, sv.len() as int));
            }
            let mut entry = data_types.entries.remove(i);
            let ghost dv = d_type@;
            if !contains_string(&entry.types, d_type.as_str()) {
                let ghost tv = strings_view(entry.types@);
                entry.types.push(d_type);
                proof {
                    assert(strings_view(entry.types@) =~= tv.push(dv));
                }
            }
            data_types.entries.insert(i, entry);
            proof {
                assert(dtm_view(*data_types) =~= sv.subrange(0, i as int) + (seq![
                    (path@, if sv[i as int].1.contains(d_type@) {
                        sv[i as int].1
                    } else {
                        sv[i as int].1.push(d_type@)
                    }),
                ] + sv.subrange(i + 1, sv.len() as int)));
            }
            return ;
        }
        i = i + 1;
    }
    proof {
        lemma_add_type_skip(dtm_view(*data_types), path@, d_type@, n as int);
        assert(dtm_view(*data_types).subrange(n as int, n as int) =~= Seq::<
            (Seq<char>, Seq<Seq<char>>),
        >::empty());
    }
    let mut types: Vec<String> = Vec::new();
    let ghost dv = d_type@;
    types.push(d_type);
    proof {
        assert(strings_view(types@) =~= seq![dv]);
    }
    let entry = PathTypes { path: path.to_owned(), types };
    data_types.entries.push(entry);
    proof {
        assert(dtm_view(*data_types) =~= dtm_view(*old(data_types)) + seq![(path@, seq![dv])]);
        assert(spec_add_type(Seq::<(Seq<char>, Seq<Seq<char>>)>::empty(), path@, dv) =~= seq![
            (path@, seq![dv]),
        ]);
        assert(s0.subrange(0, s0.len() as int) =~= s0);
    }
}

/// Recording a run of kinds at one path, one after the other.
pub open spec fn spec_add_types(
    s: Seq<(Seq<char>, Seq<Seq<char>>)>,
    path: Seq<char>,
    ts: Seq<Seq<char>>,
) -> Seq<(Seq<char>, Seq<Seq<char>>)>
    decreases ts.len(),
{
    if ts.len() == 0 {
        s
    } else {
        spec_add_types(spec_add_type(s, path, ts[0]), path, ts.subrange(1, ts.len() as int))
    }
}

/// Detects sensitive kinds named by a path and records them under the
/// resolved path: the kinds recorded are exactly `spec_detect` of the
/// path against the detector list's key patterns, and a path that
/// detects nothing leaves the map unchanged.
pub fn process_path(
    path: &String,
    resolved_path: String,
    sensitive_data_detected: &mut DataTypeMap,
    sensitive_data: &Vec<SensitiveData>,
)
    ensures
        dtm_view(*final(sensitive_data_detected)) == spec_add_types(
            dtm_view(*old(sensitive_data_detected)),
            resolved_path@,
            spec_detect(path@, sensitive_data@, true),
        ),
{
    let found = detect_sensitive_in_path_data(path.as_str(), sensitive_data);
    let ghost ts = strings_view(found@);
    let n = found.len();
    let mut i: usize = 0;
    proof {
        assert(ts.subrange(0, n as int) =~= ts);
    }
    while i < n
        invariant
            0 <= i <= n,
            n == found@.len(),
            ts == strings_view(found@),
            spec_add_types(
                dtm_view(*sensitive_data_detected),
                resolved_path@,
                ts.subrange(i as int, n as int),
            ) == spec_add_types(dtm_view(*old(sensitive_data_detected)), resolved_path@, ts),
        decreases n - i,
    {
        let ghost pre = ts.subrange(i as int, n as int);
        proof {
            assert(pre[0] == ts[i as int]);
            assert(pre.subrange(1, pre.len() as int) =~= ts.subrange(i + 1, n as int));
        }
        insert_data_type(sensitive_data_detected, resolved_path.as_str(), found[i].clone());
        i = i + 1;
    }
    proof {
        assert(ts.subrange(0, n as int) =~= ts);
        assert(ts.subrange(n as int, n as int) =~= Seq::<Seq<char>>::empty());
    }
}

} // verus!
