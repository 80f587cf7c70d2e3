//! Source labels for output lines: the shortest unique suffix of each
//! path, and the line record handed to the printer.

use vstd::prelude::*;
use crate::cli::PrefixMode;
use crate::path::{
    file_name, file_name_of, is_absolute, path_names, path_names_of, paths_equal, push_text, same_path,
};
use crate::lines::views;

verus! {

/// One emitted line with the label of its source.
#[derive(Debug)]
pub struct OutputLine {
    pub label: String,
    pub line: String,
}

/// The pieces a path's label is made of: its names, or, for a path
/// without any name, the path itself.
pub open spec fn label_parts(p: Seq<char>) -> Seq<Seq<char>> {
    let n = path_names(p);
    if n.len() > 0 {
        n
    } else {
        seq![p]
    }
}

/// Pieces joined with `/` between them.
pub open spec fn join_slash(s: Seq<Seq<char>>) -> Seq<char>
    decreases s.len(),
{
    if s.len() == 0 {
        seq![]
    } else if s.len() == 1 {
        s[0]
    } else {
        join_slash(s.drop_last()) + seq!['/'] + s.last()
    }
}

/// The label made of the last `w` pieces (all of them when there are fewer).
pub open spec fn suffix_label(parts: Seq<Seq<char>>, w: nat) -> Seq<char> {
    if w < parts.len() {
        join_slash(parts.skip(parts.len() - w))
    } else {
        join_slash(parts)
    }
}

/// The label of path `i` at widths `ws`.
pub open spec fn label_at(ps: Seq<Seq<Seq<char>>>, ws: Seq<nat>, i: int) -> Seq<char> {
    suffix_label(ps[i], ws[i])
}

/// Whether another path has the same label as path `i`.
pub open spec fn collides(ps: Seq<Seq<Seq<char>>>, ws: Seq<nat>, i: int) -> bool {
    exists|j: int| 0 <= j < ps.len() && j != i && #[trigger] label_at(ps, ws, j) == label_at(ps, ws, i)
}

/// Whether path `i` widens in the next round: it collides and has pieces left.
pub open spec fn grows(ps: Seq<Seq<Seq<char>>>, ws: Seq<nat>, i: int) -> bool {
    collides(ps, ws, i) && ws[i] < ps[i].len()
}

/// One round: every colliding label that can widen takes one more piece.
pub open spec fn widen_step(ps: Seq<Seq<Seq<char>>>, ws: Seq<nat>) -> Seq<nat> {
    Seq::new(ws.len(), |i: int| if grows(ps, ws, i) { ws[i] + 1 } else { ws[i] })
}

/// No label widens any more.
pub open spec fn settled(ps: Seq<Seq<Seq<char>>>, ws: Seq<nat>) -> bool {
    forall|i: int| 0 <= i < ps.len() ==> !#[trigger] grows(ps, ws, i)
}

/// Rounds until the labels settle, at most `fuel` of them.
pub open spec fn widen(ps: Seq<Seq<Seq<char>>>, ws: Seq<nat>, fuel: nat) -> Seq<nat>
    decreases fuel,
{
    if fuel == 0 || settled(ps, ws) {
        ws
    } else {
        widen(ps, widen_step(ps, ws), (fuel - 1) as nat)
    }
}

/// Sum of a sequence of naturals.
pub open spec fn sum(s: Seq<nat>) -> nat
    decreases s.len(),
{
    if s.len() == 0 {
        0
    } else {
        sum(s.drop_last()) + s.last()
    }
}

/// The number of pieces of each path.
pub open spec fn part_counts(ps: Seq<Seq<Seq<char>>>) -> Seq<nat> {
    Seq::new(ps.len(), |i: int| ps[i].len())
}

/// Every label starts one piece wide.
pub open spec fn initial_widths(n: nat) -> Seq<nat> {
    Seq::new(n, |i: int| 1nat)
}

/// The widths the labels settle at.
pub open spec fn final_widths(ps: Seq<Seq<Seq<char>>>) -> Seq<nat> {
    widen(ps, initial_widths(ps.len()), sum(part_counts(ps)))
}

/// The label pieces of each path.
pub open spec fn all_label_parts(paths: Seq<Seq<char>>) -> Seq<Seq<Seq<char>>> {
    paths.map_values(|p: Seq<char>| label_parts(p))
}

/// The label of each path: starting from its file name, every label that
/// another label equals takes one more piece of its path, round after
/// round, until no label that can still widen equals another.
pub open spec fn unique_labels(paths: Seq<Seq<char>>) -> Seq<Seq<char>> {
    let ps = all_label_parts(paths);
    let ws = final_widths(ps);
    Seq::new(paths.len(), |i: int| label_at(ps, ws, i))
}

/// Widths are well formed: one per path, between one and its piece count.
pub open spec fn widths_ok(ps: Seq<Seq<Seq<char>>>, ws: Seq<nat>) -> bool {
    &&& ws.len() == ps.len()
    &&& forall|i: int| 0 <= i < ps.len() ==> 1 <= #[trigger] ws[i] <= ps[i].len()
}

proof fn lemma_sum_le(a: Seq<nat>, b: Seq<nat>)
    requires
        a.len() == b.len(),
        forall|i: int| 0 <= i < a.len() ==> a[i] <= b[i],
    ensures
        sum(a) <= sum(b),
        (exists|i: int| 0 <= i < a.len() && a[i] < b[i]) ==> sum(a) < sum(b),
    decreases a.len(),
{
    if a.len() > 0 {
        let a1 = a.drop_last();
        let b1 = b.drop_last();
        lemma_sum_le(a1, b1);
        if exists|i: int| 0 <= i < a.len() && a[i] < b[i] {
            let i = choose|i: int| 0 <= i < a.len() && a[i] < b[i];
            if i < a.len() - 1 {
                assert(a1[i] < b1[i]);
            }
        }
    }
}

/// A round keeps widths well formed, and a round that changes anything
/// adds to their sum.
proof fn lemma_step(ps: Seq<Seq<Seq<char>>>, ws: Seq<nat>)
    requires
        widths_ok(ps, ws),
    ensures
        widths_ok(ps, widen_step(ps, ws)),
        sum(ws) <= sum(part_counts(ps)),
        !settled(ps, ws) ==> sum(widen_step(ps, ws)) > sum(ws),
{
    let st = widen_step(ps, ws);
    lemma_sum_le(ws, part_counts(ps));
    lemma_sum_le(ws, st);
    if !settled(ps, ws) {
        let i = choose|i: int| 0 <= i < ps.len() && grows(ps, ws, i);
        assert(ws[i] < st[i]);
    }
}

/// With enough fuel, widening ends settled and well formed, and more
/// fuel changes nothing.
proof fn lemma_widen(ps: Seq<Seq<Seq<char>>>, ws: Seq<nat>, fuel: nat)
    requires
        widths_ok(ps, ws),
        sum(ws) + fuel >= sum(part_counts(ps)),
    ensures
        widths_ok(ps, widen(ps, ws, fuel)),
        settled(ps, widen(ps, ws, fuel)),
    decreases fuel,
{
    lemma_step(ps, ws);
    if fuel == 0 {
        if !settled(ps, ws) {
            let st = widen_step(ps, ws);
            lemma_step(ps, st);
        }
    } else if !settled(ps, ws) {
        lemma_widen(ps, widen_step(ps, ws), (fuel - 1) as nat);
    }
}

proof fn lemma_widen_unfold(ps: Seq<Seq<Seq<char>>>, ws: Seq<nat>, fuel: nat)
    requires
        widths_ok(ps, ws),
        sum(ws) + fuel >= sum(part_counts(ps)),
        !settled(ps, ws),
    ensures
        fuel > 0,
        widen(ps, ws, fuel) == widen(ps, widen_step(ps, ws), (fuel - 1) as nat),
{
    lemma_step(ps, ws);
    let st = widen_step(ps, ws);
    lemma_step(ps, st);
}

/// Joins the last `w` pieces (all when there are fewer) with `/`.
fn build_label(parts: &Vec<String>, w: usize) -> (label: String)
    requires
        parts@.len() > 0,
        w >= 1,
    ensures
        label@ == suffix_label(views(parts@), w as nat),
{
    let n = parts.len();
    let start = if w < n { n - w } else { 0 };
    let ghost ps = views(parts@);
    let mut label = parts[start].clone();
    let mut k = start + 1;
    assert(ps.subrange(start as int, k as int) =~= seq![ps[start as int]]);
    assert(label@ == ps[start as int]);
    while k < n
        invariant
            ps == views(parts@),
            n == parts@.len(),
            start < k <= n,
            label@ == join_slash(ps.subrange(start as int, k as int)),
        decreases n - k,
    {
        let ghost before = label@;
        label.append("/");
        label.append(parts[k].as_str());
        proof {
            reveal_strlit("/");
            let sub = ps.subrange(start as int, k + 1);
            assert(sub.drop_last() =~= ps.subrange(start as int, k as int));
            assert(label@ =~= before + seq!['/'] + ps[k as int]);
        }
        k = k + 1;
    }
    proof {
        if w < n {
            assert(ps.subrange(start as int, n as int) =~= ps.skip(ps.len() - w));
        } else {
            assert(ps.subrange(0, n as int) =~= ps);
        }
    }
    label
}

/// The pieces of one path's label.
fn parts_for(path: &String) -> (parts: Vec<String>)
    ensures
        views(parts@) == label_parts(path@),
        parts@.len() > 0,
{
    let names = path_names_of(path.as_str());
    if names.len() > 0 {
        names
    } else {
        let v = vec![path.clone()];
        assert(views(v@) =~= seq![path@]);
        v
    }
}

/// The labels of `paths` at the given widths.
fn labels_at(parts: &Vec<Vec<String>>, widths: &Vec<usize>) -> (labels: Vec<String>)
    requires
        widths@.len() == parts@.len(),
        forall|i: int| 0 <= i < parts@.len() ==> parts@[i]@.len() > 0,
        forall|i: int| 0 <= i < parts@.len() ==> widths@[i] >= 1,
    ensures
        labels@.len() == parts@.len(),
        forall|i: int| 0 <= i < parts@.len() ==> #[trigger] labels@[i]@ == suffix_label(views(parts@[i]@), widths@[i] as nat),
{
    let mut labels: Vec<String> = Vec::new();
    let mut i: usize = 0;
    while i < parts.len()
        invariant
            widths@.len() == parts@.len(),
            forall|i: int| 0 <= i < parts@.len() ==> parts@[i]@.len() > 0,
            forall|i: int| 0 <= i < parts@.len() ==> widths@[i] >= 1,
            0 <= i <= parts@.len(),
            labels@.len() == i,
            forall|k: int| 0 <= k < i ==> #[trigger] labels@[k]@ == suffix_label(views(parts@[k]@), widths@[k] as nat),
        decreases parts@.len() - i,
    {
        labels.push(build_label(&parts[i], widths[i]));
        i = i + 1;
    }
    labels
}

/// The label of each path: the shortest suffix of its names that no other
/// label equals, found by widening colliding labels one name at a time
/// from the file name up. Labels of paths that run out of names before
/// they differ stay equal.
pub fn unique_suffix_labels(paths: &Vec<String>) -> (labels: Vec<String>)
    ensures
        views(labels@) == unique_labels(views(paths@)),
{
    let ghost pv = views(paths@);
    let ghost ps = all_label_parts(pv);
    let mut parts: Vec<Vec<String>> = Vec::new();
    let mut widths: Vec<usize> = Vec::new();
    let mut i: usize = 0;
    while i < paths.len()
        invariant
            pv == views(paths@),
            ps == all_label_parts(pv),
            0 <= i <= paths@.len(),
            parts@.len() == i,
            widths@.len() == i,
            forall|k: int| 0 <= k < i ==> #[trigger] views(parts@[k]@) == ps[k] && parts@[k]@.len() > 0,
            forall|k: int| 0 <= k < i ==> #[trigger] widths@[k] == 1,
        decreases paths@.len() - i,
    {
        parts.push(parts_for(&paths[i]));
        widths.push(1);
        i = i + 1;
    }
    let n = paths.len();
    let ghost init = initial_widths(ps.len());
    let ghost total = sum(part_counts(ps));
    let ghost mut fuel: nat = total;
    assert(widths@.map_values(|w: usize| w as nat) =~= init);
    loop
        invariant
            n == paths@.len() == parts@.len() == widths@.len() == ps.len(),
            pv == views(paths@),
            ps == all_label_parts(pv),
            forall|k: int| 0 <= k < n ==> #[trigger] views(parts@[k]@) == ps[k] && parts@[k]@.len() > 0,
            widths_ok(ps, widths@.map_values(|w: usize| w as nat)),
            sum(widths@.map_values(|w: usize| w as nat)) + fuel >= total,
            total == sum(part_counts(ps)),
            widen(ps, widths@.map_values(|w: usize| w as nat), fuel) == final_widths(ps),
        decreases fuel,
    {
        let ghost ws = widths@.map_values(|w: usize| w as nat);
        proof {
            assert forall|k: int| 0 <= k < n implies #[trigger] parts@[k]@.len() == ps[k].len() && widths@[k] >= 1 && parts@[k]@.len() > 0 by {
                assert(views(parts@[k]@).len() == parts@[k]@.len());
                assert(ws[k] == widths@[k] as nat);
                assert(1 <= ws[k]);
            }
            assert forall|k: int| 0 <= k < n implies #[trigger] widths@[k] >= 1 by {
                assert(ws[k] == widths@[k] as nat);
                assert(1 <= ws[k]);
            }
        }
        let labels = labels_at(&parts, &widths);
        assert(forall|k: int| 0 <= k < n ==> #[trigger] labels@[k]@ == label_at(ps, ws, k));
        let mut next: Vec<usize> = Vec::new();
        let mut changed = false;
        let mut a: usize = 0;
        while a < n
            invariant
                n == labels@.len() == widths@.len() == parts@.len() == ps.len(),
                ws == widths@.map_values(|w: usize| w as nat),
                widths_ok(ps, ws),
                forall|k: int| 0 <= k < n ==> #[trigger] parts@[k]@.len() == ps[k].len(),
                forall|k: int| 0 <= k < n ==> #[trigger] labels@[k]@ == label_at(ps, ws, k),
                0 <= a <= n,
                next@.len() == a,
                forall|k: int| 0 <= k < a ==> #[trigger] next@[k] as nat == widen_step(ps, ws)[k],
                changed == exists|k: int| 0 <= k < a && grows(ps, ws, k),
            decreases n - a,
        {
            let mut hit = false;
            let mut b: usize = 0;
            while b < n
                invariant
                    n == labels@.len() == ps.len(),
                    forall|k: int| 0 <= k < n ==> #[trigger] labels@[k]@ == label_at(ps, ws, k),
                    0 <= a < n,
                    0 <= b <= n,
                    hit == exists|j: int| 0 <= j < b && j != a && #[trigger] label_at(ps, ws, j) == label_at(ps, ws, a as int),
                decreases n - b,
            {
                if b != a && String::eq(&labels[b], &labels[a]) {
                    hit = true;
                }
                proof {
                    if b != a && labels@[b as int]@ == labels@[a as int]@ {
                        assert(label_at(ps, ws, b as int) == label_at(ps, ws, a as int));
                    }
                }
                b = b + 1;
            }
            let w = widths[a];
            proof {
                assert(parts@[a as int]@.len() == ps[a as int].len());
                assert(ws[a as int] == w as nat);
                assert(hit == collides(ps, ws, a as int));
                assert(grows(ps, ws, a as int) == (hit && w < parts@[a as int]@.len()));
            }
            let ghost old_next = next@;
            if hit && w < parts[a].len() {
                next.push(w + 1);
                changed = true;
            } else {
                next.push(w);
            }
            proof {
                assert(next@[a as int] as nat == widen_step(ps, ws)[a as int]);
                assert forall|k: int| 0 <= k < a + 1 implies #[trigger] next@[k] as nat == widen_step(ps, ws)[k] by {
                    if k < a {
                        assert(next@[k] == old_next[k]);
                    }
                }
                if grows(ps, ws, a as int) {
                    assert(exists|k: int| 0 <= k < a + 1 && grows(ps, ws, k));
                } else {
                    assert((exists|k: int| 0 <= k < a + 1 && grows(ps, ws, k)) ==> (exists|k: int| 0 <= k < a && grows(ps, ws, k)));
                }
            }
            a = a + 1;
        }
        if !changed {
            proof {
                assert(settled(ps, ws));
                assert(widen(ps, ws, fuel) == ws);
                assert(final_widths(ps) == ws);
                let ul = unique_labels(pv);
                assert(ul.len() == n);
                assert forall|k: int| 0 <= k < n implies #[trigger] views(labels@)[k] == ul[k] by {
                    assert(views(labels@)[k] == labels@[k]@);
                    assert(labels@[k]@ == label_at(ps, ws, k));
                }
                assert(views(labels@) =~= unique_labels(pv));
            }
            return labels;
        }
        proof {
            lemma_widen_unfold(ps, ws, fuel);
            lemma_step(ps, ws);
            assert(next@.map_values(|w: usize| w as nat) =~= widen_step(ps, ws));
            fuel = (fuel - 1) as nat;
        }
        widths = next;
    }
}

proof fn lemma_final_widths(paths: Seq<Seq<char>>)
    ensures
        widths_ok(all_label_parts(paths), final_widths(all_label_parts(paths))),
        settled(all_label_parts(paths), final_widths(all_label_parts(paths))),
{
    let ps = all_label_parts(paths);
    let init = initial_widths(ps.len());
    assert forall|i: int| 0 <= i < ps.len() implies 1 <= #[trigger] init[i] <= ps[i].len() by {
        assert(ps[i] == label_parts(paths[i]));
    }
    lemma_widen(ps, init, sum(part_counts(ps)));
}

/// A join of pieces ends with the last piece.
pub proof fn lemma_join_ends_with_last(s: Seq<Seq<char>>)
    requires
        s.len() > 0,
    ensures
        join_slash(s).len() >= s.last().len(),
        join_slash(s).skip(join_slash(s).len() - s.last().len()) == s.last(),
{
    let j = join_slash(s);
    if s.len() == 1 {
        assert(j.skip(0) =~= j);
    } else {
        assert(j.skip(j.len() - s.last().len()) =~= s.last());
    }
}

/// Every label is a suffix of its path's names: the last `w` of them
/// joined with `/`, for some `w` from one to their number. (For a path
/// without names, the only piece is the path itself.)
pub proof fn lemma_labels_are_name_suffixes(paths: Seq<Seq<char>>, i: int) -> (w: nat)
    requires
        0 <= i < paths.len(),
    ensures
        1 <= w <= label_parts(paths[i]).len(),
        unique_labels(paths)[i] == join_slash(label_parts(paths[i]).skip(label_parts(paths[i]).len() - w)),
{
    let ps = all_label_parts(paths);
    lemma_final_widths(paths);
    let w = final_widths(ps)[i];
    assert(ps[i] == label_parts(paths[i]));
    if w == ps[i].len() {
        assert(ps[i].skip(0) =~= ps[i]);
    }
    assert(unique_labels(paths)[i] == join_slash(ps[i].skip(ps[i].len() - w)));
    w
}

/// Labels are unique unless a path runs out of names: two different
/// entries with equal labels both carry all the names of their paths.
pub proof fn lemma_labels_unique_until_exhausted(paths: Seq<Seq<char>>, i: int, j: int)
    requires
        0 <= i < paths.len(),
        0 <= j < paths.len(),
        i != j,
        unique_labels(paths)[i] == unique_labels(paths)[j],
    ensures
        unique_labels(paths)[i] == join_slash(label_parts(paths[i])),
        unique_labels(paths)[j] == join_slash(label_parts(paths[j])),
{
    let ps = all_label_parts(paths);
    let ws = final_widths(ps);
    lemma_final_widths(paths);
    assert(ps[i] == label_parts(paths[i]));
    assert(ps[j] == label_parts(paths[j]));
    assert(label_at(ps, ws, j) == label_at(ps, ws, i));
    assert(collides(ps, ws, i));
    assert(!grows(ps, ws, i));
    assert(label_at(ps, ws, i) == label_at(ps, ws, j));
    assert(collides(ps, ws, j));
    assert(!grows(ps, ws, j));
}

/// Every label ends with the last piece of its path: the file name, for a
/// path that has names.
pub proof fn lemma_label_ends_with_file_name(paths: Seq<Seq<char>>, i: int)
    requires
        0 <= i < paths.len(),
    ensures
        unique_labels(paths)[i].len() >= label_parts(paths[i]).last().len(),
        unique_labels(paths)[i].skip(unique_labels(paths)[i].len() - label_parts(paths[i]).last().len())
            == label_parts(paths[i]).last(),
{
    let ps = all_label_parts(paths);
    lemma_final_widths(paths);
    let w = final_widths(ps)[i];
    let p = label_parts(paths[i]);
    assert(ps[i] == p);
    let t = if w < p.len() { p.skip(p.len() - w) } else { p };
    assert(t.last() == p.last());
    lemma_join_ends_with_last(t);
}

/// The number of pieces in the label of path `i`.
pub open spec fn label_width(paths: Seq<Seq<char>>, i: int) -> nat {
    final_widths(all_label_parts(paths))[i]
}

/// Every widening was needed: for each label of more than one piece, the
/// label one piece shorter is a label of another path (some suffix of its
/// pieces).
pub open spec fn widenings_needed(ps: Seq<Seq<Seq<char>>>, ws: Seq<nat>) -> bool {
    forall|i: int| 0 <= i < ps.len() && #[trigger] ws[i] > 1 ==> exists|j: int, v: nat|
        0 <= j < ps.len() && j != i && 1 <= v <= ps[j].len()
            && #[trigger] suffix_label(ps[j], v) == suffix_label(ps[i], (ws[i] - 1) as nat)
}

proof fn lemma_widen_needed(ps: Seq<Seq<Seq<char>>>, ws: Seq<nat>, fuel: nat)
    requires
        widths_ok(ps, ws),
        widenings_needed(ps, ws),
    ensures
        widenings_needed(ps, widen(ps, ws, fuel)),
    decreases fuel,
{
    if fuel > 0 && !settled(ps, ws) {
        let st = widen_step(ps, ws);
        lemma_step(ps, ws);
        assert forall|i: int| 0 <= i < ps.len() && #[trigger] st[i] > 1 implies exists|j: int, v: nat|
            0 <= j < ps.len() && j != i && 1 <= v <= ps[j].len()
                && #[trigger] suffix_label(ps[j], v) == suffix_label(ps[i], (st[i] - 1) as nat) by {
            if grows(ps, ws, i) {
                let j = choose|j: int| 0 <= j < ps.len() && j != i && #[trigger] label_at(ps, ws, j) == label_at(ps, ws, i);
                assert(st[i] - 1 == ws[i]);
                assert(suffix_label(ps[j], ws[j]) == suffix_label(ps[i], (st[i] - 1) as nat));
            } else {
                assert(st[i] == ws[i]);
            }
        }
        lemma_widen_needed(ps, st, (fuel - 1) as nat);
    }
}

/// Labels are no longer than needed: a label that carries more than its
/// last piece does so because the label one piece shorter is also a label
/// that another path can take (the last `v` pieces of that path, for some
/// `v`).
pub proof fn lemma_labels_widen_only_when_needed(paths: Seq<Seq<char>>, i: int) -> (jv: (int, nat))
    requires
        0 <= i < paths.len(),
    ensures
        unique_labels(paths)[i] == suffix_label(label_parts(paths[i]), label_width(paths, i)),
        1 <= label_width(paths, i) <= label_parts(paths[i]).len(),
        label_width(paths, i) > 1 ==> ({
            let (j, v) = jv;
            let w = label_width(paths, i);
            &&& 0 <= j < paths.len()
            &&& j != i
            &&& 1 <= v <= label_parts(paths[j]).len()
            &&& suffix_label(label_parts(paths[j]), v) == suffix_label(label_parts(paths[i]), (w - 1) as nat)
        }),
{
    let ps = all_label_parts(paths);
    let init = initial_widths(ps.len());
    assert forall|i: int| 0 <= i < ps.len() implies 1 <= #[trigger] init[i] <= ps[i].len() by {
        assert(ps[i] == label_parts(paths[i]));
    }
    lemma_widen_needed(ps, init, sum(part_counts(ps)));
    lemma_final_widths(paths);
    let ws = final_widths(ps);
    assert(ps[i] == label_parts(paths[i]));
    if ws[i] > 1 {
        let (j, v) = choose|j: int, v: nat| 0 <= j < ps.len() && j != i && 1 <= v <= ps[j].len()
            && #[trigger] suffix_label(ps[j], v) == suffix_label(ps[i], (ws[i] - 1) as nat);
        assert(ps[j] == label_parts(paths[j]));
        (j, v)
    } else {
        (0, 0)
    }
}

/// `p` lists each index below `n` exactly once.
pub open spec fn is_permutation(p: Seq<int>, n: nat) -> bool {
    &&& p.len() == n
    &&& forall|i: int| 0 <= i < n ==> 0 <= #[trigger] p[i] < n
    &&& forall|i: int, j: int| 0 <= i < n && 0 <= j < n && i != j ==> #[trigger] p[i] != #[trigger] p[j]
    &&& forall|k: int| 0 <= k < n ==> #[trigger] p.contains(k)
}

/// `s` reordered by `p`: item `i` is `s[p[i]]`.
pub open spec fn permute<A>(s: Seq<A>, p: Seq<int>) -> Seq<A> {
    Seq::new(p.len(), |i: int| s[p[i]])
}

/// One round of widening commutes with reordering the paths.
proof fn lemma_permute_step(ps: Seq<Seq<Seq<char>>>, ws: Seq<nat>, p: Seq<int>)
    requires
        ws.len() == ps.len(),
        is_permutation(p, ps.len()),
    ensures
        forall|i: int| 0 <= i < ps.len() ==> #[trigger] grows(permute(ps, p), permute(ws, p), i) == grows(ps, ws, p[i]),
        widen_step(permute(ps, p), permute(ws, p)) == permute(widen_step(ps, ws), p),
        settled(permute(ps, p), permute(ws, p)) == settled(ps, ws),
{
    let qs = permute(ps, p);
    let vs = permute(ws, p);
    let n = ps.len();
    assert forall|i: int| 0 <= i < n implies #[trigger] grows(qs, vs, i) == grows(ps, ws, p[i]) by {
        let k = p[i];
        if collides(qs, vs, i) {
            let j = choose|j: int| 0 <= j < qs.len() && j != i && #[trigger] label_at(qs, vs, j) == label_at(qs, vs, i);
            assert(p[j] != p[i]);
            assert(label_at(ps, ws, p[j]) == label_at(ps, ws, k));
            assert(collides(ps, ws, k));
        }
        if collides(ps, ws, k) {
            let j = choose|j: int| 0 <= j < ps.len() && j != k && #[trigger] label_at(ps, ws, j) == label_at(ps, ws, k);
            assert(p.contains(j));
            let m = choose|m: int| 0 <= m < p.len() && p[m] == j;
            assert(m != i);
            assert(label_at(qs, vs, m) == label_at(qs, vs, i));
            assert(collides(qs, vs, i));
        }
    }
    assert(widen_step(qs, vs) =~= permute(widen_step(ps, ws), p));
    if settled(ps, ws) {
        assert forall|i: int| 0 <= i < n implies !#[trigger] grows(qs, vs, i) by {
            assert(!grows(ps, ws, p[i]));
        }
    }
    if settled(qs, vs) {
        assert forall|k: int| 0 <= k < n implies !#[trigger] grows(ps, ws, k) by {
            assert(p.contains(k));
            let m = choose|m: int| 0 <= m < p.len() && p[m] == k;
            assert(!grows(qs, vs, m));
        }
    }
}

/// Widening commutes with reordering the paths.
proof fn lemma_permute_widen(ps: Seq<Seq<Seq<char>>>, ws: Seq<nat>, p: Seq<int>, fuel: nat)
    requires
        ws.len() == ps.len(),
        is_permutation(p, ps.len()),
    ensures
        widen(permute(ps, p), permute(ws, p), fuel) == permute(widen(ps, ws, fuel), p),
    decreases fuel,
{
    lemma_permute_step(ps, ws, p);
    if fuel > 0 && !settled(ps, ws) {
        lemma_permute_widen(ps, widen_step(ps, ws), p, (fuel - 1) as nat);
    }
}

/// Once there is enough fuel to settle, more fuel changes nothing.
proof fn lemma_widen_fuel(ps: Seq<Seq<Seq<char>>>, ws: Seq<nat>, f1: nat, f2: nat)
    requires
        widths_ok(ps, ws),
        sum(ws) + f1 >= sum(part_counts(ps)),
        f1 <= f2,
    ensures
        widen(ps, ws, f2) == widen(ps, ws, f1),
    decreases f1,
{
    if !settled(ps, ws) {
        lemma_widen_unfold(ps, ws, f1);
        lemma_step(ps, ws);
        lemma_widen_fuel(ps, widen_step(ps, ws), (f1 - 1) as nat, (f2 - 1) as nat);
    }
}

/// Every label starts one piece wide, which is within the pieces of its path.
proof fn lemma_initial_widths_ok(paths: Seq<Seq<char>>)
    ensures
        widths_ok(all_label_parts(paths), initial_widths(paths.len())),
{
    let ps = all_label_parts(paths);
    let init = initial_widths(ps.len());
    assert forall|i: int| 0 <= i < ps.len() implies 1 <= #[trigger] init[i] <= ps[i].len() by {
        assert(ps[i] == label_parts(paths[i]));
    }
}

/// Labels do not depend on the order of the paths: reordering the paths
/// reorders their labels the same way, so each path keeps its label.
pub proof fn lemma_labels_ignore_order(paths: Seq<Seq<char>>, p: Seq<int>)
    requires
        is_permutation(p, paths.len()),
    ensures
        unique_labels(permute(paths, p)) == permute(unique_labels(paths), p),
{
    let n = paths.len();
    let qpaths = permute(paths, p);
    let ps = all_label_parts(paths);
    let qs = all_label_parts(qpaths);
    assert(qs =~= permute(ps, p));
    let init = initial_widths(n);
    assert(permute(init, p) =~= initial_widths(qpaths.len()));
    let fp = sum(part_counts(ps));
    let fq = sum(part_counts(qs));
    let f = if fp < fq { fq } else { fp };
    lemma_initial_widths_ok(paths);
    lemma_initial_widths_ok(qpaths);
    lemma_widen_fuel(ps, init, fp, f);
    lemma_widen_fuel(qs, initial_widths(qpaths.len()), fq, f);
    lemma_permute_widen(ps, init, p, f);
    let wp = final_widths(ps);
    assert(final_widths(qs) == permute(wp, p));
    assert(unique_labels(qpaths) =~= permute(unique_labels(paths), p));
}

/// Source labels for a fixed set of paths, with a fallback for others.
pub struct Labeler {
    paths: Vec<String>,
    labels: Vec<String>,
}

impl View for Labeler {
    type V = Seq<(Seq<char>, Seq<char>)>;

    closed spec fn view(&self) -> Seq<(Seq<char>, Seq<char>)> {
        Seq::new(self.paths@.len(), |i: int| (self.paths@[i]@, self.labels@[i]@))
    }
}

/// The label a labeler gives `path`: the label of the last entry that is
/// the same path, else the path's file name, else `"?"`.
pub open spec fn lookup_label(entries: Seq<(Seq<char>, Seq<char>)>, path: Seq<char>) -> Seq<char>
    decreases entries.len(),
{
    if entries.len() == 0 {
        match file_name_of(path) {
            Some(n) => n,
            None => seq!['?'],
        }
    } else if same_path(entries.last().0, path) {
        entries.last().1
    } else {
        lookup_label(entries.drop_last(), path)
    }
}

impl Labeler {
    /// The invariant: one label per path.
    pub closed spec fn wf(&self) -> bool {
        self.paths@.len() == self.labels@.len()
    }

    /// A labeler for `paths`, each labeled by `unique_suffix_labels`.
    pub fn new(paths: &Vec<String>) -> (l: Self)
        ensures
            l.wf(),
            l@.len() == paths@.len(),
            forall|i: int| 0 <= i < paths@.len() ==> #[trigger] l@[i] == (paths@[i]@, unique_labels(views(paths@))[i]),
    {
        let labels = unique_suffix_labels(paths);
        let mut copies: Vec<String> = Vec::new();
        let mut i: usize = 0;
        while i < paths.len()
            invariant
                0 <= i <= paths@.len(),
                copies@.len() == i,
                forall|k: int| 0 <= k < i ==> #[trigger] copies@[k] == paths@[k],
            decreases paths@.len() - i,
        {
            copies.push(paths[i].clone());
            i = i + 1;
        }
        proof {
            assert(views(labels@).len() == labels@.len());
            assert(unique_labels(views(paths@)).len() == views(paths@).len());
        }
        let l = Labeler { paths: copies, labels };
        proof {
            assert forall|i: int| 0 <= i < paths@.len() implies #[trigger] l@[i] == (paths@[i]@, unique_labels(views(paths@))[i]) by {
                assert(views(l.labels@)[i] == l.labels@[i]@);
                assert(l.paths@[i] == paths@[i]);
            }
        }
        l
    }

    /// The label for `path`: its own label when it is one of the labeled
    /// paths (compared as paths), else its file name, else `"?"`.
    pub fn label_for(&self, path: &str) -> (label: String)
        requires
            self.wf(),
        ensures
            label@ == lookup_label(self@, path@),
    {
        let mut k = self.paths.len();
        assert(self@.take(k as int) =~= self@);
        while k > 0
            invariant
                self.wf(),
                k <= self.paths@.len(),
                lookup_label(self@, path@) == lookup_label(self@.take(k as int), path@),
            decreases k,
        {
            let ghost e = self@.take(k as int);
            assert(e.drop_last() =~= self@.take(k - 1));
            if paths_equal(self.paths[k - 1].as_str(), path) {
                return self.labels[k - 1].clone();
            }
            k = k - 1;
        }
        assert(self@.take(0) =~= Seq::<(Seq<char>, Seq<char>)>::empty());
        match file_name(path) {
            Some(n) => n,
            None => {
                let q = String::from_str("?");
                proof {
                    reveal_strlit("?");
                }
                q
            },
        }
    }
}

/// The text printed for one line: the label in brackets (in cyan when
/// colored), a space, and the line.
pub open spec fn printed_text(label: Seq<char>, line: Seq<char>, colored: bool) -> Seq<char> {
    if colored {
        seq!['\x1b', '[', '3', '6', 'm', '['] + label + seq![']', '\x1b', '[', '0', 'm', ' '] + line
    } else {
        seq!['['] + label + seq![']', ' '] + line
    }
}

/// Formats one output line for printing (without the final newline).
pub fn format_line(item: &OutputLine, colored: bool) -> (text: String)
    ensures
        text@ == printed_text(item.label@, item.line@, colored),
{
    if colored {
        let mut text = String::from_str("\x1b[36m[");
        text.append(item.label.as_str());
        text.append("]\x1b[0m ");
        text.append(item.line.as_str());
        proof {
            reveal_strlit("\x1b[36m[");
            reveal_strlit("]\x1b[0m ");
        }
        assert(text@ =~= printed_text(item.label@, item.line@, colored));
        text
    } else {
        let mut text = String::from_str("[");
        text.append(item.label.as_str());
        text.append("] ");
        text.append(item.line.as_str());
        proof {
            reveal_strlit("[");
            reveal_strlit("] ");
        }
        assert(text@ =~= printed_text(item.label@, item.line@, colored));
        text
    }
}

/// A path made absolute against the working directory `cwd`.
pub open spec fn absolute_of(path: Seq<char>, cwd: Seq<char>) -> Seq<char> {
    if is_absolute(path) {
        path
    } else {
        push_text(cwd, path)
    }
}

/// A directory with a trailing separator.
pub open spec fn dir_prefix(dir: Seq<char>) -> Seq<char> {
    if dir.len() > 0 && dir.last() == '/' {
        dir
    } else {
        dir.push('/')
    }
}

/// An absolute path relative to `cwd` when it lies below it, else as it is.
pub open spec fn relative_of(abs: Seq<char>, cwd: Seq<char>) -> Seq<char> {
    let pre = dir_prefix(cwd);
    if abs.len() > pre.len() && abs.take(pre.len() as int) == pre {
        abs.skip(pre.len() as int)
    } else {
        abs
    }
}

/// The label of the last entry that is the same path as `path`, if any.
pub open spec fn entry_label(entries: Seq<(Seq<char>, Seq<char>)>, path: Seq<char>) -> Option<Seq<char>>
    decreases entries.len(),
{
    if entries.len() == 0 {
        None
    } else if same_path(entries.last().0, path) {
        Some(entries.last().1)
    } else {
        entry_label(entries.drop_last(), path)
    }
}

/// Whether some entry already carries `label`.
pub open spec fn label_taken(entries: Seq<(Seq<char>, Seq<char>)>, label: Seq<char>) -> bool {
    exists|i: int| 0 <= i < entries.len() && #[trigger] entries[i].1 == label
}

/// The width of the shortest suffix of `parts`, of `w` pieces or more,
/// that no entry carries; all the pieces when every shorter one is taken.
pub open spec fn free_width(entries: Seq<(Seq<char>, Seq<char>)>, parts: Seq<Seq<char>>, w: nat) -> nat
    decreases parts.len() - w,
{
    if w >= parts.len() {
        parts.len()
    } else if !label_taken(entries, suffix_label(parts, w)) {
        w
    } else {
        free_width(entries, parts, w + 1)
    }
}

/// The label a path that is not registered yet gets: in basename mode the
/// shortest suffix of its names that no entry carries yet (all its names
/// when every shorter suffix is taken); its absolute path in full mode;
/// its relative path in relative mode, or its absolute path when that
/// label is taken.
pub open spec fn fresh_label(
    entries: Seq<(Seq<char>, Seq<char>)>,
    mode: PrefixMode,
    cwd: Seq<char>,
    path: Seq<char>,
) -> Seq<char> {
    match mode {
        PrefixMode::Basename => {
            let parts = label_parts(path);
            suffix_label(parts, free_width(entries, parts, 1))
        },
        PrefixMode::Full => absolute_of(path, cwd),
        PrefixMode::Relative => {
            let r = relative_of(absolute_of(path, cwd), cwd);
            if label_taken(entries, r) {
                absolute_of(path, cwd)
            } else {
                r
            }
        },
    }
}

proof fn lemma_free_width(entries: Seq<(Seq<char>, Seq<char>)>, parts: Seq<Seq<char>>, w: nat)
    requires
        1 <= w <= parts.len(),
    ensures
        w <= free_width(entries, parts, w) <= parts.len(),
        forall|v: nat| w <= v < free_width(entries, parts, w) ==> label_taken(entries, #[trigger] suffix_label(parts, v)),
        free_width(entries, parts, w) < parts.len() ==> !label_taken(entries, suffix_label(parts, free_width(entries, parts, w))),
    decreases parts.len() - w,
{
    if w < parts.len() && label_taken(entries, suffix_label(parts, w)) {
        lemma_free_width(entries, parts, w + 1);
    }
}

/// A file attached later in basename mode gets the shortest suffix of its
/// names that no registered path carries: every shorter suffix is taken,
/// and the label itself is free unless it is all of the path's names.
pub proof fn lemma_fresh_basename_is_shortest_free(
    entries: Seq<(Seq<char>, Seq<char>)>,
    cwd: Seq<char>,
    path: Seq<char>,
) -> (w: nat)
    ensures
        1 <= w <= label_parts(path).len(),
        fresh_label(entries, PrefixMode::Basename, cwd, path) == suffix_label(label_parts(path), w),
        forall|v: nat| 1 <= v < w ==> label_taken(entries, #[trigger] suffix_label(label_parts(path), v)),
        w < label_parts(path).len() ==> !label_taken(entries, fresh_label(entries, PrefixMode::Basename, cwd, path)),
{
    let parts = label_parts(path);
    lemma_free_width(entries, parts, 1);
    free_width(entries, parts, 1)
}

/// The model of a label registry.
pub struct RegistryModel {
    pub mode: PrefixMode,
    pub cwd: Seq<char>,
    pub entries: Seq<(Seq<char>, Seq<char>)>,
}

/// The labels of the startup paths: unique suffixes in basename mode,
/// absolute paths in full mode, relative paths in relative mode, widened
/// to absolute paths where two relative labels are equal.
pub open spec fn startup_labels(paths: Seq<Seq<char>>, mode: PrefixMode, cwd: Seq<char>) -> Seq<Seq<char>> {
    match mode {
        PrefixMode::Basename => unique_labels(paths),
        PrefixMode::Full => paths.map_values(|p: Seq<char>| absolute_of(p, cwd)),
        PrefixMode::Relative => Seq::new(paths.len(), |i: int| {
            let r = relative_of(absolute_of(paths[i], cwd), cwd);
            if exists|j: int| 0 <= j < paths.len() && j != i
                && #[trigger] relative_of(absolute_of(paths[j], cwd), cwd) == r {
                absolute_of(paths[i], cwd)
            } else {
                r
            }
        }),
    }
}

/// Makes `path` absolute against `cwd`.
fn make_absolute(path: &str, cwd: &str) -> (abs: String)
    ensures
        abs@ == absolute_of(path@, cwd@),
{
    if !path.is_empty() && path.get_char(0) == '/' {
        String::from_str(path)
    } else {
        let mut buf = String::from_str(cwd);
        let t = String::from_str(path);
        crate::path::push_path(&mut buf, &t);
        buf
    }
}

/// Makes an absolute path relative to `cwd` when it lies below it.
fn make_relative(abs: &str, cwd: &str) -> (rel: String)
    ensures
        rel@ == relative_of(abs@, cwd@),
{
    let mut pre = String::from_str(cwd);
    let n = cwd.unicode_len();
    if !(n > 0 && cwd.get_char(n - 1) == '/') {
        crate::lines::push_char(&mut pre, '/');
    }
    assert(pre@ == dir_prefix(cwd@));
    let p = pre.as_str().unicode_len();
    let a = abs.unicode_len();
    if a <= p {
        return String::from_str(abs);
    }
    let mut i: usize = 0;
    while i < p
        invariant
            p == pre@.len(),
            pre@ == dir_prefix(cwd@),
            a == abs@.len(),
            p < a,
            0 <= i <= p,
            forall|k: int| 0 <= k < i ==> abs@[k] == pre@[k],
        decreases p - i,
    {
        if abs.get_char(i) != pre.as_str().get_char(i) {
            proof {
                assert(abs@.take(p as int)[i as int] != pre@[i as int]);
                assert(abs@.take(p as int) != pre@);
            }
            return String::from_str(abs);
        }
        i = i + 1;
    }
    assert(abs@.take(p as int) =~= pre@);
    String::from_str(abs.substring_char(p, a))
}

/// Allocates source labels by prefix mode: startup paths get their labels
/// up front; paths attached later get theirs on first use, and keep them.
pub struct LabelRegistry {
    mode: PrefixMode,
    cwd: String,
    paths: Vec<String>,
    labels: Vec<String>,
}

impl View for LabelRegistry {
    type V = RegistryModel;

    closed spec fn view(&self) -> RegistryModel {
        RegistryModel {
            mode: self.mode,
            cwd: self.cwd@,
            entries: Seq::new(self.paths@.len(), |i: int| (self.paths@[i]@, self.labels@[i]@)),
        }
    }
}

impl LabelRegistry {
    /// The invariant: one label per path.
    pub closed spec fn wf(&self) -> bool {
        self.paths@.len() == self.labels@.len()
    }

    /// A registry holding the labels of the startup `paths` under `mode`,
    /// with `cwd` as the working directory.
    pub fn with_paths(paths: &Vec<String>, mode: PrefixMode, cwd: &str) -> (r: Self)
        ensures
            r.wf(),
            r@.mode == mode,
            r@.cwd == cwd@,
            r@.entries.len() == paths@.len(),
            forall|i: int| 0 <= i < paths@.len() ==> #[trigger] r@.entries[i] == (paths@[i]@, startup_labels(views(paths@), mode, cwd@)[i]),
    {
        let ghost pv = views(paths@);
        let n = paths.len();
        let mut copies: Vec<String> = Vec::new();
        let mut i: usize = 0;
        while i < n
            invariant
                n == paths@.len(),
                0 <= i <= n,
                copies@.len() == i,
                forall|k: int| 0 <= k < i ==> #[trigger] copies@[k] == paths@[k],
            decreases n - i,
        {
            copies.push(paths[i].clone());
            i = i + 1;
        }
        let labels: Vec<String> = match mode {
            PrefixMode::Basename => unique_suffix_labels(paths),
            PrefixMode::Full => {
                let mut out: Vec<String> = Vec::new();
                let mut i: usize = 0;
                while i < n
                    invariant
                        n == paths@.len(),
                        pv == views(paths@),
                        0 <= i <= n,
                        out@.len() == i,
                        forall|k: int| 0 <= k < i ==> #[trigger] out@[k]@ == absolute_of(pv[k], cwd@),
                    decreases n - i,
                {
                    out.push(make_absolute(paths[i].as_str(), cwd));
                    i = i + 1;
                }
                out
            },
            PrefixMode::Relative => {
                let mut abs: Vec<String> = Vec::new();
                let mut rel: Vec<String> = Vec::new();
                let mut i: usize = 0;
                while i < n
                    invariant
                        n == paths@.len(),
                        pv == views(paths@),
                        0 <= i <= n,
                        abs@.len() == i,
                        rel@.len() == i,
                        forall|k: int| 0 <= k < i ==> #[trigger] abs@[k]@ == absolute_of(pv[k], cwd@),
                        forall|k: int| 0 <= k < i ==> #[trigger] rel@[k]@ == relative_of(absolute_of(pv[k], cwd@), cwd@),
                    decreases n - i,
                {
                    let a = make_absolute(paths[i].as_str(), cwd);
                    let r = make_relative(a.as_str(), cwd);
                    abs.push(a);
                    rel.push(r);
                    i = i + 1;
                }
                let mut out: Vec<String> = Vec::new();
                let mut i: usize = 0;
                while i < n
                    invariant
                        n == paths@.len() == abs@.len() == rel@.len(),
                        pv == views(paths@),
                        0 <= i <= n,
                        out@.len() == i,
                        forall|k: int| 0 <= k < n ==> #[trigger] abs@[k]@ == absolute_of(pv[k], cwd@),
                        forall|k: int| 0 <= k < n ==> #[trigger] rel@[k]@ == relative_of(absolute_of(pv[k], cwd@), cwd@),
                        forall|k: int| 0 <= k < i ==> #[trigger] out@[k]@ == startup_labels(pv, PrefixMode::Relative, cwd@)[k],
                    decreases n - i,
                {
                    let mut clash = false;
                    let mut j: usize = 0;
                    while j < n
                        invariant
                            n == rel@.len(),
                            pv.len() == n,
                            0 <= i < n,
                            0 <= j <= n,
                            forall|k: int| 0 <= k < n ==> #[trigger] rel@[k]@ == relative_of(absolute_of(pv[k], cwd@), cwd@),
                            clash == exists|q: int| 0 <= q < j && q != i
                                && #[trigger] relative_of(absolute_of(pv[q], cwd@), cwd@) == relative_of(absolute_of(pv[i as int], cwd@), cwd@),
                        decreases n - j,
                    {
                        if j != i && String::eq(&rel[j], &rel[i]) {
                            clash = true;
                        }
                        proof {
                            assert(rel@[j as int]@ == relative_of(absolute_of(pv[j as int], cwd@), cwd@));
                        }
                        j = j + 1;
                    }
                    if clash {
                        out.push(abs[i].clone());
                    } else {
                        out.push(rel[i].clone());
                    }
                    i = i + 1;
                }
                out
            },
        };
        proof {
            assert(views(labels@).len() == labels@.len());
        }
        let r = LabelRegistry { mode, cwd: String::from_str(cwd), paths: copies, labels };
        proof {
            assert forall|i: int| 0 <= i < paths@.len() implies #[trigger] r@.entries[i] == (paths@[i]@, startup_labels(views(paths@), mode, cwd@)[i]) by {
                assert(views(r.labels@)[i] == r.labels@[i]@);
                assert(r.paths@[i] == paths@[i]);
                assert(pv[i] == paths@[i]@);
            }
        }
        r
    }

    /// Whether some registered path already carries `label`.
    fn is_taken(&self, label: &String) -> (taken: bool)
        requires
            self.wf(),
        ensures
            taken == label_taken(self@.entries, label@),
    {
        let ghost entries = self@.entries;
        let mut j: usize = 0;
        while j < self.labels.len()
            invariant
                self.wf(),
                self@.entries == entries,
                0 <= j <= self.labels@.len(),
                forall|q: int| 0 <= q < j ==> #[trigger] entries[q].1 != label@,
            decreases self.labels@.len() - j,
        {
            assert(entries[j as int].1 == self.labels@[j as int]@);
            if String::eq(&self.labels[j], label) {
                return true;
            }
            j = j + 1;
        }
        false
    }

    /// The label for `path`: the one it already has, else a fresh one
    /// (see `fresh_label`), which it keeps from now on.
    pub fn allocate(&mut self, path: &str) -> (label: String)
        requires
            old(self).wf(),
        ensures
            final(self).wf(),
            final(self)@.mode == old(self)@.mode,
            final(self)@.cwd == old(self)@.cwd,
            entry_label(old(self)@.entries, path@) matches Some(l) ==> label@ == l
                && final(self)@ == old(self)@,
            entry_label(old(self)@.entries, path@) is None ==> label@ == fresh_label(old(self)@.entries, old(self)@.mode, old(self)@.cwd, path@)
                && final(self)@.entries == old(self)@.entries.push((path@, label@)),
    {
        let ghost entries = self@.entries;
        let mut k = self.paths.len();
        assert(entries.take(k as int) =~= entries);
        while k > 0
            invariant
                self.wf(),
                self@.entries == entries,
                k <= self.paths@.len(),
                entry_label(entries, path@) == entry_label(entries.take(k as int), path@),
            decreases k,
        {
            assert(entries.take(k as int).drop_last() =~= entries.take(k - 1));
            if paths_equal(self.paths[k - 1].as_str(), path) {
                return self.labels[k - 1].clone();
            }
            k = k - 1;
        }
        assert(entries.take(0) =~= Seq::<(Seq<char>, Seq<char>)>::empty());
        let label = match self.mode {
            PrefixMode::Basename => {
                let parts = parts_for(&String::from_str(path));
                let ghost ps = views(parts@);
                let n = parts.len();
                let mut w: usize = 1;
                let mut label = build_label(&parts, 1);
                proof {
                    lemma_free_width(entries, ps, 1);
                }
                loop
                    invariant
                        self.wf(),
                        self@.entries == entries,
                        ps == views(parts@),
                        ps == label_parts(path@),
                        n == parts@.len(),
                        n > 0,
                        1 <= w <= n,
                        label@ == suffix_label(ps, w as nat),
                        free_width(entries, ps, 1) == free_width(entries, ps, w as nat),
                    ensures
                        label@ == suffix_label(ps, free_width(entries, ps, 1)),
                    decreases n - w,
                {
                    if w >= n {
                        assert(free_width(entries, ps, w as nat) == w);
                        break;
                    }
                    if !self.is_taken(&label) {
                        assert(free_width(entries, ps, w as nat) == w);
                        break;
                    }
                    assert(free_width(entries, ps, w as nat) == free_width(entries, ps, (w + 1) as nat));
                    w = w + 1;
                    label = build_label(&parts, w);
                }
                label
            },
            PrefixMode::Full => make_absolute(path, self.cwd.as_str()),
            PrefixMode::Relative => {
                let a = make_absolute(path, self.cwd.as_str());
                let r = make_relative(a.as_str(), self.cwd.as_str());
                let taken = self.is_taken(&r);
                if taken {
                    a
                } else {
                    r
                }
            },
        };
        self.paths.push(String::from_str(path));
        self.labels.push(label.clone());
        proof {
            assert(self@.entries =~= entries.push((path@, label@)));
        }
        label
    }
}

/// A path's label does not change: allocating it again gives the label it
/// was given the first time.
pub proof fn lemma_allocate_is_stable(entries: Seq<(Seq<char>, Seq<char>)>, path: Seq<char>, label: Seq<char>)
    ensures
        entry_label(entries.push((path, label)), path) == Some(label),
{
    assert(entries.push((path, label)).last() == (path, label));
}

/// A path given relative to the working directory gets itself back as its
/// relative label: making it absolute against `cwd` and then relative to
/// `cwd` gives the path as it was, so it never gains a leading `/`.
pub proof fn lemma_relative_undoes_absolute(p: Seq<char>, cwd: Seq<char>)
    requires
        p.len() > 0,
        p[0] != '/',
    ensures
        relative_of(absolute_of(p, cwd), cwd) == p,
{
    let a = absolute_of(p, cwd);
    if cwd.len() == 0 {
        assert(cwd + p =~= p);
        assert(dir_prefix(cwd) =~= seq!['/']);
        if p.len() > 1 {
            assert(p.take(1)[0] == p[0]);
        }
    } else if cwd.last() == '/' {
        assert((cwd + p).take(cwd.len() as int) =~= cwd);
        assert((cwd + p).skip(cwd.len() as int) =~= p);
    } else {
        let pre = cwd.push('/');
        assert(a =~= pre + p);
        assert(a.take(pre.len() as int) =~= pre);
        assert(a.skip(pre.len() as int) =~= p);
    }
}

/// A path below the working directory is labeled by what follows the
/// directory and its separator: for `cwd` without a trailing `/` and a
/// nonempty `r`, the relative label of `cwd/r` is `r`; for `cwd` with a
/// trailing `/`, that of `cwd` followed by `r` is `r`.
pub proof fn lemma_relative_strips_cwd_and_separator(cwd: Seq<char>, r: Seq<char>)
    requires
        r.len() > 0,
    ensures
        cwd.len() > 0 && cwd.last() != '/' ==> relative_of(cwd + seq!['/'] + r, cwd) == r,
        cwd.len() > 0 && cwd.last() == '/' ==> relative_of(cwd + r, cwd) == r,
{
    if cwd.len() > 0 && cwd.last() != '/' {
        let a = cwd + seq!['/'] + r;
        let pre = cwd.push('/');
        assert(a.take(pre.len() as int) =~= pre);
        assert(a.skip(pre.len() as int) =~= r);
    }
    if cwd.len() > 0 && cwd.last() == '/' {
        let a = cwd + r;
        assert(a.take(cwd.len() as int) =~= cwd);
        assert(a.skip(cwd.len() as int) =~= r);
    }
}

/// In full mode a label is the path made absolute: an absolute path is its
/// own label, and a relative path `p` is labeled `cwd/p` (`cwd` followed
/// by `p` when `cwd` is empty or ends with `/`), for startup paths and for
/// paths registered later alike.
pub proof fn lemma_full_labels(paths: Seq<Seq<char>>, cwd: Seq<char>, i: int, entries: Seq<(Seq<char>, Seq<char>)>)
    requires
        0 <= i < paths.len(),
    ensures
        paths[i].len() > 0 && paths[i][0] == '/' ==> startup_labels(paths, PrefixMode::Full, cwd)[i] == paths[i]
            && fresh_label(entries, PrefixMode::Full, cwd, paths[i]) == paths[i],
        !(paths[i].len() > 0 && paths[i][0] == '/') && cwd.len() > 0 && cwd.last() != '/'
            ==> startup_labels(paths, PrefixMode::Full, cwd)[i] == cwd + seq!['/'] + paths[i]
            && fresh_label(entries, PrefixMode::Full, cwd, paths[i]) == cwd + seq!['/'] + paths[i],
        !(paths[i].len() > 0 && paths[i][0] == '/') && (cwd.len() == 0 || cwd.last() == '/')
            ==> startup_labels(paths, PrefixMode::Full, cwd)[i] == cwd + paths[i]
            && fresh_label(entries, PrefixMode::Full, cwd, paths[i]) == cwd + paths[i],
{
}

} // verus!
