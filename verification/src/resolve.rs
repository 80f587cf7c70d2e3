//! Resolution of the startup inputs: the files each input expanded to,
//! deduplicated by key and put in path order.

use vstd::prelude::*;
use crate::path::{lemma_comps_lt_order, path_less, path_lt, same_path, components};
use crate::watch::{holds_path, keyed_views, KeyedPath, distinct_paths};

verus! {

/// A resolved input file.
#[derive(Clone, Debug, PartialEq, Eq)]
pub struct ResolvedFile {
    pub path: String,
}

/// A path with its key, as a value.
pub type Keyed = (Seq<char>, Seq<char>);

/// Where a stable insertion puts `x` in `s`: before the first entry whose
/// path comes after `x`'s path.
pub open spec fn insert_pos(s: Seq<Keyed>, x: Keyed) -> nat
    decreases s.len(),
{
    if s.len() == 0 {
        0
    } else if path_lt(x.0, s[0].0) {
        0
    } else {
        1 + insert_pos(s.drop_first(), x)
    }
}

/// The entries of `s` stably sorted by path: each inserted, in turn,
/// after every entry whose path does not come after its own.
pub open spec fn sort_keyed(s: Seq<Keyed>) -> Seq<Keyed>
    decreases s.len(),
{
    if s.len() == 0 {
        seq![]
    } else {
        let t = sort_keyed(s.drop_last());
        t.insert(insert_pos(t, s.last()) as int, s.last())
    }
}

/// The entries of `s`, keeping only the first entry of each key (keys
/// compared as paths).
pub open spec fn dedupe_keyed(s: Seq<Keyed>) -> Seq<Keyed>
    decreases s.len(),
{
    if s.len() == 0 {
        seq![]
    } else {
        let t = dedupe_keyed(s.drop_last());
        if holds_path(t.map_values(|e: Keyed| e.1), s.last().1) {
            t
        } else {
            t.push(s.last())
        }
    }
}

/// The groups joined in order.
pub open spec fn concat_groups(gs: Seq<Seq<Keyed>>) -> Seq<Keyed>
    decreases gs.len(),
{
    if gs.len() == 0 {
        seq![]
    } else {
        concat_groups(gs.drop_last()) + gs.last()
    }
}

/// The entries of each group.
pub open spec fn group_views(v: Seq<Vec<KeyedPath>>) -> Seq<Seq<Keyed>> {
    v.map_values(|g: Vec<KeyedPath>| keyed_views(g@))
}

/// The resolved files: each input's files in path order, the first file
/// of each key kept, and all of them in path order.
pub open spec fn resolved_of(gs: Seq<Seq<Keyed>>) -> Seq<Seq<char>> {
    sort_keyed(dedupe_keyed(concat_groups(gs.map_values(|g: Seq<Keyed>| sort_keyed(g))))).map_values(|e: Keyed| e.0)
}

proof fn lemma_insert_pos(s: Seq<Keyed>, x: Keyed)
    ensures
        insert_pos(s, x) <= s.len(),
        forall|j: int| 0 <= j < insert_pos(s, x) ==> !path_lt(x.0, #[trigger] s[j].0),
        insert_pos(s, x) < s.len() ==> path_lt(x.0, s[insert_pos(s, x) as int].0),
    decreases s.len(),
{
    if s.len() > 0 && !path_lt(x.0, s[0].0) {
        let t = s.drop_first();
        lemma_insert_pos(t, x);
        assert forall|j: int| 0 <= j < insert_pos(s, x) implies !path_lt(x.0, #[trigger] s[j].0) by {
            if j > 0 {
                assert(s[j] == t[j - 1]);
            }
        }
        if insert_pos(s, x) < s.len() {
            assert(s[insert_pos(s, x) as int] == t[insert_pos(t, x) as int]);
        }
    }
}

/// Sorts entries by path, stably.
fn sort_by_path(items: Vec<KeyedPath>) -> (out: Vec<KeyedPath>)
    ensures
        keyed_views(out@) == sort_keyed(keyed_views(items@)),
{
    let ghost s = keyed_views(items@);
    let mut src = items;
    let mut out: Vec<KeyedPath> = Vec::new();
    let n = src.len();
    let mut done: usize = 0;
    assert(s.take(0) =~= Seq::<Keyed>::empty());
    assert(keyed_views(out@) =~= Seq::<Keyed>::empty());
    while src.len() > 0
        invariant
            n == s.len(),
            done + src@.len() == n,
            keyed_views(src@) == s.skip(done as int),
            keyed_views(out@) == sort_keyed(s.take(done as int)),
        decreases src@.len(),
    {
        let ghost before_src = src@;
        let x = src.remove(0);
        let ghost xv = (x.path@, x.key@);
        let ghost t = keyed_views(out@);
        proof {
            assert(keyed_views(before_src)[0] == xv);
            assert(s.skip(done as int)[0] == xv);
            assert forall|j: int| 0 <= j < src@.len() implies #[trigger] keyed_views(src@)[j] == s.skip(done + 1)[j] by {
                assert(src@[j] == before_src[j + 1]);
                assert(keyed_views(before_src)[j + 1] == s.skip(done as int)[j + 1]);
            }
            assert(keyed_views(src@) =~= s.skip(done + 1));
            assert(s.take(done + 1).drop_last() =~= s.take(done as int));
            assert(s.take(done + 1).last() == xv);
            lemma_insert_pos(t, xv);
        }
        let mut p: usize = 0;
        while p < out.len() && !path_less(x.path.as_str(), out[p].path.as_str())
            invariant
                t == keyed_views(out@),
                xv == (x.path@, x.key@),
                0 <= p <= out@.len(),
                forall|j: int| 0 <= j < p ==> !path_lt(xv.0, #[trigger] t[j].0),
            decreases out@.len() - p,
        {
            proof {
                assert(t[p as int].0 == out@[p as int].path@);
            }
            p = p + 1;
        }
        proof {
            if p < out@.len() {
                assert(t[p as int].0 == out@[p as int].path@);
                assert(path_lt(xv.0, t[p as int].0));
            }
            assert(insert_pos(t, xv) == p) by {
                if insert_pos(t, xv) < p {
                    assert(!path_lt(xv.0, t[insert_pos(t, xv) as int].0));
                } else if insert_pos(t, xv) > p {
                    assert(!path_lt(xv.0, t[p as int].0));
                }
            }
        }
        out.insert(p, x);
        done = done + 1;
        proof {
            assert(keyed_views(out@) =~= t.insert(p as int, xv));
        }
    }
    assert(s.take(n as int) =~= s);
    out
}

/// The resolved startup files: `expanded[i]` holds the files input `i`
/// expanded to, each with its key (its canonical path where it exists).
/// Each input's files are put in path order; the first file of each key
/// is kept; the kept files are put in path order.
pub fn resolve_inputs(expanded: Vec<Vec<KeyedPath>>) -> (files: Vec<String>)
    ensures
        crate::lines::views(files@) == resolved_of(group_views(expanded@)),
{
    let ghost gs = group_views(expanded@);
    let ghost sorted_gs = gs.map_values(|g: Seq<Keyed>| sort_keyed(g));
    let mut groups = expanded;
    let total = groups.len();
    let mut taken: usize = 0;
    let mut kept: Vec<KeyedPath> = Vec::new();
    let mut keys: Vec<String> = Vec::new();
    assert(sorted_gs.take(0) =~= Seq::<Seq<Keyed>>::empty());
    assert(keyed_views(kept@) =~= Seq::<Keyed>::empty());
    while groups.len() > 0
        invariant
            total == gs.len(),
            sorted_gs == gs.map_values(|g: Seq<Keyed>| sort_keyed(g)),
            taken + groups@.len() == total,
            group_views(groups@) == gs.skip(taken as int),
            keyed_views(kept@) == dedupe_keyed(concat_groups(sorted_gs.take(taken as int))),
            crate::lines::views(keys@) == keyed_views(kept@).map_values(|e: Keyed| e.1),
        decreases groups@.len(),
    {
        let ghost before_groups = groups@;
        let g = groups.remove(0);
        let ghost prefix = concat_groups(sorted_gs.take(taken as int));
        proof {
            let bv = group_views(before_groups);
            assert(bv[0] == keyed_views(g@));
            assert(gs.skip(taken as int)[0] == keyed_views(g@));
            assert forall|j: int| 0 <= j < groups@.len() implies #[trigger] group_views(groups@)[j] == gs.skip(taken + 1)[j] by {
                assert(groups@[j] == before_groups[j + 1]);
                assert(bv[j + 1] == gs.skip(taken as int)[j + 1]);
            }
            assert(group_views(groups@) =~= gs.skip(taken + 1));
            assert(sorted_gs.take(taken + 1).drop_last() =~= sorted_gs.take(taken as int));
            assert(sorted_gs.take(taken + 1).last() == sort_keyed(keyed_views(g@)));
        }
        let mut sorted = sort_by_path(g);
        let ghost sg = keyed_views(sorted@);
        let m = sorted.len();
        let mut used: usize = 0;
        assert(sg.take(0) =~= Seq::<Keyed>::empty());
        assert(prefix + sg.take(0) =~= prefix);
        while sorted.len() > 0
            invariant
                m == sg.len(),
                used + sorted@.len() == m,
                keyed_views(sorted@) == sg.skip(used as int),
                keyed_views(kept@) == dedupe_keyed(prefix + sg.take(used as int)),
                crate::lines::views(keys@) == keyed_views(kept@).map_values(|e: Keyed| e.1),
            decreases sorted@.len(),
        {
            let ghost before_sorted = sorted@;
            let item = sorted.remove(0);
            let ghost iv = (item.path@, item.key@);
            proof {
                assert(keyed_views(before_sorted)[0] == iv);
                assert(sg.skip(used as int)[0] == iv);
                assert forall|j: int| 0 <= j < sorted@.len() implies #[trigger] keyed_views(sorted@)[j] == sg.skip(used + 1)[j] by {
                    assert(sorted@[j] == before_sorted[j + 1]);
                    assert(keyed_views(before_sorted)[j + 1] == sg.skip(used as int)[j + 1]);
                }
                assert(keyed_views(sorted@) =~= sg.skip(used + 1));
                let whole = prefix + sg.take(used + 1);
                assert(whole.drop_last() =~= prefix + sg.take(used as int));
                assert(whole.last() == iv);
            }
            let mut seen = false;
            let mut k: usize = 0;
            while k < keys.len()
                invariant
                    0 <= k <= keys@.len(),
                    iv == (item.path@, item.key@),
                    seen == exists|j: int| 0 <= j < k && same_path(#[trigger] crate::lines::views(keys@)[j], iv.1),
                decreases keys@.len() - k,
            {
                if crate::path::paths_equal(keys[k].as_str(), item.key.as_str()) {
                    seen = true;
                }
                proof {
                    assert(crate::lines::views(keys@)[k as int] == keys@[k as int]@);
                }
                k = k + 1;
            }
            if !seen {
                let ghost kv = keyed_views(kept@);
                let ghost ksv = crate::lines::views(keys@);
                keys.push(String::from_str(item.key.as_str()));
                kept.push(item);
                proof {
                    assert(keyed_views(kept@) =~= kv.push(iv));
                    assert(crate::lines::views(keys@) =~= ksv.push(iv.1));
                    assert(kv.push(iv).map_values(|e: Keyed| e.1) =~= kv.map_values(|e: Keyed| e.1).push(iv.1));
                    assert(crate::lines::views(keys@) =~= keyed_views(kept@).map_values(|e: Keyed| e.1));
                }
            }
            used = used + 1;
        }
        proof {
            assert(sg.take(m as int) =~= sg);
            assert(concat_groups(sorted_gs.take(taken + 1)) == prefix + sg);
        }
        taken = taken + 1;
    }
    proof {
        assert(sorted_gs.take(total as int) =~= sorted_gs);
    }
    let ghost deduped = keyed_views(kept@);
    let ordered = sort_by_path(kept);
    let mut files: Vec<String> = Vec::new();
    let mut i: usize = 0;
    while i < ordered.len()
        invariant
            0 <= i <= ordered@.len(),
            files@.len() == i,
            forall|k: int| 0 <= k < i ==> #[trigger] files@[k]@ == ordered@[k].path@,
        decreases ordered@.len() - i,
    {
        files.push(String::from_str(ordered[i].path.as_str()));
        i = i + 1;
    }
    proof {
        let r = resolved_of(gs);
        assert(crate::lines::views(files@) =~= keyed_views(ordered@).map_values(|e: Keyed| e.0));
    }
    files
}

/// Entries in path order: no entry's path comes before an earlier one's.
pub open spec fn sorted_by_path(r: Seq<Keyed>) -> bool {
    forall|i: int, j: int| 0 <= i < j < r.len() ==> !path_lt(#[trigger] r[j].0, #[trigger] r[i].0)
}

proof fn lemma_path_order(a: Seq<char>, b: Seq<char>, c: Seq<char>)
    ensures
        path_lt(a, b) && path_lt(b, c) ==> path_lt(a, c),
        !same_path(a, b) ==> path_lt(a, b) || path_lt(b, a),
        path_lt(a, b) ==> !path_lt(b, a),
{
    lemma_comps_lt_order(components(a), components(b), components(c));
}

/// Sorting puts the entries in path order.
pub proof fn lemma_sort_keyed_sorted(s: Seq<Keyed>)
    ensures
        sorted_by_path(sort_keyed(s)),
        sort_keyed(s).len() == s.len(),
    decreases s.len(),
{
    if s.len() > 0 {
        let t = sort_keyed(s.drop_last());
        lemma_sort_keyed_sorted(s.drop_last());
        let x = s.last();
        let p = insert_pos(t, x) as int;
        lemma_insert_pos(t, x);
        let r = t.insert(p, x);
        assert(r.len() == t.len() + 1);
        assert forall|i: int, j: int| 0 <= i < j < r.len() implies !path_lt(#[trigger] r[j].0, #[trigger] r[i].0) by {
            if j < p {
                assert(r[i] == t[i] && r[j] == t[j]);
            } else if j == p {
                assert(r[i] == t[i] && r[j] == x);
                lemma_path_order(x.0, t[i].0, t[i].0);
            } else if i < p {
                assert(r[i] == t[i] && r[j] == t[j - 1]);
            } else if i == p {
                assert(r[i] == x && r[j] == t[j - 1]);
                let q = t[j - 1].0;
                let tp = t[p].0;
                assert(path_lt(x.0, tp));
                if j - 1 > p {
                    assert(!path_lt(q, tp));
                }
                lemma_path_order(x.0, tp, q);
                lemma_path_order(q, x.0, tp);
                lemma_path_order(tp, q, q);
                if same_path(q, tp) {
                    assert(path_lt(q, x.0) == path_lt(tp, x.0));
                }
            } else {
                assert(r[i] == t[i - 1] && r[j] == t[j - 1]);
            }
        }
    }
}

/// Sorting keeps every entry, as often as it occurs.
pub proof fn lemma_sort_keyed_permutes(s: Seq<Keyed>)
    ensures
        sort_keyed(s).to_multiset() == s.to_multiset(),
    decreases s.len(),
{
    broadcast use vstd::seq_lib::group_to_multiset_ensures;
    if s.len() == 0 {
        assert(sort_keyed(s) =~= s);
    } else {
        let t = sort_keyed(s.drop_last());
        lemma_sort_keyed_permutes(s.drop_last());
        lemma_sort_keyed_sorted(s.drop_last());
        let x = s.last();
        let p = insert_pos(t, x) as int;
        lemma_insert_pos(t, x);
        let r = t.insert(p, x);
        assert(r.remove(p) =~= t);
        assert(r[p] == x);
        assert(r.to_multiset().remove(x) =~= t.to_multiset());
        assert(r.to_multiset().count(x) > 0) by {
            assert(r.contains(x));
        }
        assert(r.to_multiset() =~= t.to_multiset().insert(x));
        assert(s.drop_last().push(x) =~= s);
        assert(s.to_multiset() =~= s.drop_last().to_multiset().insert(x));
    }
}

/// The keys of entries.
pub open spec fn keys_of(s: Seq<Keyed>) -> Seq<Seq<char>> {
    s.map_values(|e: Keyed| e.1)
}

/// Deduplication keeps one entry per key: the kept keys are distinct
/// paths, every key of the input is among them, and every kept entry is an
/// entry of the input.
pub proof fn lemma_dedupe_keyed(s: Seq<Keyed>)
    ensures
        distinct_paths(keys_of(dedupe_keyed(s))),
        forall|i: int| 0 <= i < s.len() ==> holds_path(keys_of(dedupe_keyed(s)), #[trigger] s[i].1),
        forall|i: int| 0 <= i < dedupe_keyed(s).len() ==> s.contains(#[trigger] dedupe_keyed(s)[i]),
    decreases s.len(),
{
    if s.len() > 0 {
        let s1 = s.drop_last();
        lemma_dedupe_keyed(s1);
        let t = dedupe_keyed(s1);
        let x = s.last();
        assert(keys_of(t) == t.map_values(|e: Keyed| e.1));
        assert forall|i: int| 0 <= i < dedupe_keyed(s).len() implies s.contains(#[trigger] dedupe_keyed(s)[i]) by {
            if i < t.len() {
                assert(dedupe_keyed(s)[i] == t[i]);
                assert(s1.contains(t[i]));
                let k = choose|k: int| 0 <= k < s1.len() && s1[k] == t[i];
                assert(s[k] == t[i]);
            } else {
                assert(dedupe_keyed(s)[i] == x);
                assert(s[s.len() - 1] == x);
            }
        }
        if holds_path(keys_of(t), x.1) {
            assert forall|i: int| 0 <= i < s.len() implies holds_path(keys_of(dedupe_keyed(s)), #[trigger] s[i].1) by {
                if i < s1.len() {
                    assert(s[i] == s1[i]);
                }
            }
        } else {
            let d = t.push(x);
            assert(keys_of(d) =~= keys_of(t).push(x.1));
            assert forall|a: int, b: int| 0 <= a < b < keys_of(d).len() implies !same_path(#[trigger] keys_of(d)[a], #[trigger] keys_of(d)[b]) by {
                assert(keys_of(d)[a] == keys_of(t)[a]);
                if b < keys_of(t).len() {
                    assert(keys_of(d)[b] == keys_of(t)[b]);
                } else if same_path(keys_of(d)[a], keys_of(d)[b]) {
                    assert(same_path(keys_of(t)[a], x.1));
                }
            }
            assert forall|i: int| 0 <= i < s.len() implies holds_path(keys_of(dedupe_keyed(s)), #[trigger] s[i].1) by {
                if i < s1.len() {
                    assert(s[i] == s1[i]);
                    let k = choose|k: int| 0 <= k < keys_of(t).len() && same_path(#[trigger] keys_of(t)[k], s1[i].1);
                    assert(keys_of(d)[k] == keys_of(t)[k]);
                } else {
                    assert(keys_of(d)[keys_of(t).len() as int] == x.1);
                }
            }
        }
    }
}

/// The resolved files are in path order.
pub proof fn lemma_resolved_in_path_order(gs: Seq<Seq<Keyed>>)
    ensures
        forall|i: int, j: int| 0 <= i < j < resolved_of(gs).len() ==> !path_lt(#[trigger] resolved_of(gs)[j], #[trigger] resolved_of(gs)[i]),
{
    let d = dedupe_keyed(concat_groups(gs.map_values(|g: Seq<Keyed>| sort_keyed(g))));
    lemma_sort_keyed_sorted(d);
    let r = sort_keyed(d);
    assert forall|i: int, j: int| 0 <= i < j < resolved_of(gs).len() implies !path_lt(#[trigger] resolved_of(gs)[j], #[trigger] resolved_of(gs)[i]) by {
        assert(resolved_of(gs)[i] == r[i].0);
        assert(resolved_of(gs)[j] == r[j].0);
    }
}

} // verus!
