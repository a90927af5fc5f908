//! Why removing a subtree keeps a well-formed map well-formed.
//!
//! The removed ids are the node and everything below it; nothing that stays has a
//! removed parent or lists a removed child, every chain of ancestors of a node that
//! stays is made of nodes that stay, and a chain of ancestors never repeats a node.

use vstd::prelude::*;
use crate::map::edit::{
    kept, kept_assignments, lemma_ancestry_fuel, lemma_depth_child, lemma_distinct_ids_fit,
    listed_under, pruned, subtree_list, without,
};
use crate::map::model::{
    ancestry, assignments_ok, children_ok, count_id, depth_spec, depths_ok, has_node,
    ids_unique, idx_of, lemma_count_pos, lemma_idx_of, lemma_idx_of_at, lemma_idx_of_unique,
    name_issue, parents_ok, same_name, sv, wf_parts, Assignment,
    ClimbErr, MapNode, MAX_DEPTH,
};

verus! {

/// The positions `kept` lists: in range, of surviving nodes, increasing, and all of
/// them.
proof fn lemma_kept(ns: Seq<MapNode>, d: Seq<Seq<char>>)
    ensures
        forall|k: int| 0 <= k < kept(ns, d).len() ==> 0 <= #[trigger] kept(ns, d)[k] < ns.len()
            && !d.contains(ns[kept(ns, d)[k]].id@),
        forall|a: int, b: int| 0 <= a < b < kept(ns, d).len() ==> #[trigger] kept(ns, d)[a] < #[trigger] kept(ns, d)[b],
        forall|i: int| 0 <= i < ns.len() && !d.contains((#[trigger] ns[i]).id@) ==> exists|k: int| 0 <= k < kept(ns, d).len() && kept(ns, d)[k] == i,
    decreases ns.len(),
{
    if ns.len() > 0 {
        let p = ns.drop_last();
        lemma_kept(p, d);
        let r = kept(p, d);
        let ks = kept(ns, d);
        assert forall|k: int| 0 <= k < r.len() implies #[trigger] ns[r[k]] == p[r[k]] by {}
        if d.contains(ns.last().id@) {
            assert(ks == r);
        } else {
            assert(ks == r.push(ns.len() - 1));
        }
        assert forall|k: int| 0 <= k < ks.len() implies 0 <= #[trigger] ks[k] < ns.len() && !d.contains(ns[ks[k]].id@) by {
            if k < r.len() {
                assert(ks[k] == r[k]);
                assert(ns[r[k]] == p[r[k]]);
            }
        }
        assert forall|a: int, b: int| 0 <= a < b < ks.len() implies #[trigger] ks[a] < #[trigger] ks[b] by {
            if b < r.len() {
                assert(ks[a] == r[a] && ks[b] == r[b]);
            } else {
                assert(ks[a] == r[a]);
            }
        }
        assert forall|i: int| 0 <= i < ns.len() && !d.contains((#[trigger] ns[i]).id@) implies exists|k: int| 0 <= k < ks.len() && ks[k] == i by {
            if i < ns.len() - 1 {
                assert(p[i] == ns[i]);
                let k = choose|k: int| 0 <= k < r.len() && r[k] == i;
                assert(ks[k] == r[k]);
            } else {
                assert(ns[i] == ns.last());
                assert(ks[ks.len() - 1] == i);
            }
        }
    }
}

/// Where a node is found after the pruning: at its kept position when it survives,
/// nowhere otherwise.
proof fn lemma_pruned_idx(ns: Seq<MapNode>, ns2: Seq<MapNode>, id: Seq<char>, d: Seq<Seq<char>>, x: Seq<char>)
    requires
        ids_unique(ns),
        pruned(ns, ns2, id, d),
    ensures
        has_node(ns, x) && !d.contains(x) ==> {
            let k = idx_of(ns2, x);
            &&& 0 <= k < kept(ns, d).len()
            &&& kept(ns, d)[k] == idx_of(ns, x)
        },
        !(has_node(ns, x) && !d.contains(x)) ==> idx_of(ns2, x) < 0,
{
    let ks = kept(ns, d);
    lemma_kept(ns, d);
    lemma_idx_of(ns, x);
    lemma_idx_of(ns2, x);
    if has_node(ns, x) && !d.contains(x) {
        let i = idx_of(ns, x);
        assert(!d.contains(ns[i].id@));
        let k = choose|k: int| 0 <= k < ks.len() && ks[k] == i;
        assert(ns2[k].id@ == x);
        assert forall|j: int| 0 <= j < k implies (#[trigger] ns2[j]).id@ != x by {
            assert(ks[j] < ks[k]);
            assert(ns2[j].id == ns[ks[j]].id);
            assert(ns[ks[j]].id@ != ns[i].id@);
        }
        lemma_idx_of_at(ns2, x, k);
    } else {
        if idx_of(ns2, x) >= 0 {
            let k = idx_of(ns2, x);
            assert(ns2[k].id == ns[ks[k]].id);
            lemma_idx_of_unique(ns, x, ks[k]);
        }
    }
}

/// A node whose parent was removed was removed too.
proof fn lemma_closed_down(ns: Seq<MapNode>, id: Seq<char>, d: Seq<Seq<char>>, i: int)
    requires
        parents_ok(ns),
        subtree_list(ns, id, d),
        0 <= i < ns.len(),
        ns[i].parent matches Some(p) && d.contains(p@),
    ensures
        d.contains(ns[i].id@),
{
    let p = ns[i].parent->Some_0;
    crate::map::model::lemma_parent_lists(ns, i);
    let ip = idx_of(ns, p@);
    lemma_count_pos(ns[ip].children@, ns[i].id@);
    let m = choose|m: int| 0 <= m < ns[ip].children@.len() && (#[trigger] ns[ip].children@[m])@ == ns[i].id@;
    let q = choose|q: int| 0 <= q < d.len() && d[q] == p@;
    assert(d.contains(ns[idx_of(ns, d[q])].children@[m]@));
}

/// Every listed node is at least as deep as the first.
proof fn lemma_listed_depth(ns: Seq<MapNode>, id: Seq<char>, d: Seq<Seq<char>>, q: int)
    requires
        ids_unique(ns),
        children_ok(ns),
        depths_ok(ns),
        subtree_list(ns, id, d),
        has_node(ns, id),
        0 <= q < d.len(),
    ensures
        depth_spec(ns, d[q]) is Ok,
        depth_spec(ns, id) is Ok,
        depth_spec(ns, d[q])->Ok_0 >= depth_spec(ns, id)->Ok_0,
    decreases q,
{
    lemma_idx_of(ns, id);
    assert(depth_spec(ns, ns[idx_of(ns, id)].id@) is Ok);
    if q > 0 {
        let p = choose|p: int| #![trigger d[p]] 0 <= p < q && listed_under(ns, d[p], d[q]);
        lemma_listed_depth(ns, id, d, p);
        let ip = idx_of(ns, d[p]);
        lemma_idx_of(ns, d[p]);
        let m = choose|m: int| 0 <= m < ns[ip].children@.len() && (#[trigger] ns[ip].children@[m])@ == d[q];
        crate::map::model::lemma_child_back(ns, ip, m);
        lemma_depth_child(ns, d[q], d[p]);
    }
}

/// The parent of the removed node is not removed.
proof fn lemma_parent_stays(ns: Seq<MapNode>, id: Seq<char>, d: Seq<Seq<char>>)
    requires
        ids_unique(ns),
        parents_ok(ns),
        children_ok(ns),
        depths_ok(ns),
        subtree_list(ns, id, d),
        has_node(ns, id),
        ns[idx_of(ns, id)].parent is Some,
    ensures
        !d.contains(ns[idx_of(ns, id)].parent->Some_0@),
{
    let i = idx_of(ns, id);
    lemma_idx_of(ns, id);
    let o = ns[i].parent->Some_0@;
    crate::map::model::lemma_parent_lists(ns, i);
    lemma_depth_child(ns, id, o);
    if d.contains(o) {
        let q = choose|q: int| 0 <= q < d.len() && d[q] == o;
        lemma_listed_depth(ns, id, d, q);
    }
}

/// Counting an id other than `x` is not changed by taking `x` out.
pub(crate) proof fn lemma_count_without(c: Seq<String>, x: Seq<char>, y: Seq<char>)
    requires
        y != x,
    ensures
        count_id(without(c, x), y) == count_id(c, y),
    decreases c.len(),
{
    if c.len() > 0 {
        lemma_count_without(c.drop_last(), x, y);
        let r = without(c.drop_last(), x);
        if c.last()@ != x {
            assert(r.push(c.last()).drop_last() =~= r);
        }
    }
}

/// What stays in a list without `x` was in the list and is not `x`.
pub(crate) proof fn lemma_without_from(c: Seq<String>, x: Seq<char>)
    ensures
        forall|k: int| 0 <= k < without(c, x).len() ==> (#[trigger] without(c, x)[k])@ != x
            && exists|m: int| 0 <= m < c.len() && c[m] == without(c, x)[k],
    decreases c.len(),
{
    if c.len() > 0 {
        let p = c.drop_last();
        lemma_without_from(p, x);
        let r = without(p, x);
        let w = without(c, x);
        assert forall|k: int| 0 <= k < w.len() implies (#[trigger] w[k])@ != x && exists|m: int| 0 <= m < c.len() && c[m] == w[k] by {
            if k < r.len() {
                assert(w[k] == r[k]);
                let m = choose|m: int| 0 <= m < p.len() && p[m] == r[k];
                assert(c[m] == p[m]);
            } else {
                assert(w[k] == c.last());
                assert(c[c.len() - 1] == c.last());
            }
        }
    }
}

/// A walk up from `x` that reached a root: each entry exists, the first is `x`, each
/// next one is the parent of the one before, and a suffix is the walk from its
/// first entry.
pub(crate) proof fn lemma_ancestry_shape(ns: Seq<MapNode>, x: Seq<char>, k: nat, a: Seq<Seq<char>>)
    requires
        ancestry(ns, x, k) == Ok::<Seq<Seq<char>>, ClimbErr>(a),
    ensures
        a.len() >= 1,
        a.len() <= k,
        a[0] == x,
        forall|t: int| 0 <= t < a.len() ==> has_node(ns, #[trigger] a[t]),
        forall|t: int| 0 <= t < a.len() - 1 ==> sv(ns[idx_of(ns, #[trigger] a[t])].parent) == Some(a[t + 1]),
        ns[idx_of(ns, a[a.len() - 1])].parent is None,
        forall|t: int| 0 <= t < a.len() ==> ancestry(ns, #[trigger] a[t], (k - t) as nat) == Ok::<Seq<Seq<char>>, ClimbErr>(a.skip(t)),
    decreases k,
{
    let i = idx_of(ns, x);
    match ns[i].parent {
        None => {
            assert(a == seq![x]);
            assert(a.skip(0) =~= a);
        },
        Some(p) => {
            let b = ancestry(ns, p@, (k - 1) as nat)->Ok_0;
            assert(ancestry(ns, p@, (k - 1) as nat) is Ok);
            lemma_ancestry_shape(ns, p@, (k - 1) as nat, b);
            assert(a == seq![x] + b);
            assert forall|t: int| 0 <= t < a.len() implies has_node(ns, #[trigger] a[t]) by {
                if t > 0 {
                    assert(a[t] == b[t - 1]);
                }
            }
            assert forall|t: int| 0 <= t < a.len() - 1 implies sv(ns[idx_of(ns, #[trigger] a[t])].parent) == Some(a[t + 1]) by {
                if t > 0 {
                    assert(a[t] == b[t - 1]);
                    assert(a[t + 1] == b[t]);
                } else {
                    assert(a[1] == b[0]);
                }
            }
            assert(a[a.len() - 1] == b[b.len() - 1]);
            assert forall|t: int| 0 <= t < a.len() implies ancestry(ns, #[trigger] a[t], (k - t) as nat) == Ok::<Seq<Seq<char>>, ClimbErr>(a.skip(t)) by {
                if t > 0 {
                    assert(a[t] == b[t - 1]);
                    assert(a.skip(t) =~= b.skip(t - 1));
                } else {
                    assert(a.skip(0) =~= a);
                }
            }
        },
    }
}

/// A walk that reached a root never meets a node twice.
pub(crate) proof fn lemma_ancestry_distinct(ns: Seq<MapNode>, x: Seq<char>, k: nat, a: Seq<Seq<char>>)
    requires
        ancestry(ns, x, k) == Ok::<Seq<Seq<char>>, ClimbErr>(a),
    ensures
        a.no_duplicates(),
{
    lemma_ancestry_shape(ns, x, k, a);
    assert forall|i: int, j: int| 0 <= i < a.len() && 0 <= j < a.len() && i != j implies a[i] != a[j] by {
        if a[i] == a[j] {
            let (lo, hi) = if i < j { (i, j) } else { (j, i) };
            assert(ancestry(ns, a[lo], (k - lo) as nat) == Ok::<Seq<Seq<char>>, ClimbErr>(a.skip(lo)));
            assert(ancestry(ns, a[hi], (k - hi) as nat) == Ok::<Seq<Seq<char>>, ClimbErr>(a.skip(hi)));
            lemma_ancestry_fuel(ns, a[hi], (k - hi) as nat, (k - lo) as nat);
            assert(a.skip(lo).len() != a.skip(hi).len());
        }
    }
}

/// A walk that reached a root needs no more steps than its length.
pub(crate) proof fn lemma_ancestry_tight(ns: Seq<MapNode>, x: Seq<char>, k: nat, a: Seq<Seq<char>>)
    requires
        ancestry(ns, x, k) == Ok::<Seq<Seq<char>>, ClimbErr>(a),
    ensures
        ancestry(ns, x, a.len()) == Ok::<Seq<Seq<char>>, ClimbErr>(a),
    decreases k,
{
    let i = idx_of(ns, x);
    match ns[i].parent {
        None => {},
        Some(p) => {
            let b = ancestry(ns, p@, (k - 1) as nat)->Ok_0;
            lemma_ancestry_tight(ns, p@, (k - 1) as nat, b);
            assert(a == seq![x] + b);
        },
    }
}

/// Walking up from a surviving node is the same before and after the pruning.
proof fn lemma_ancestry_pruned(ns: Seq<MapNode>, ns2: Seq<MapNode>, id: Seq<char>, d: Seq<Seq<char>>, x: Seq<char>, k: nat)
    requires
        ids_unique(ns),
        parents_ok(ns),
        subtree_list(ns, id, d),
        pruned(ns, ns2, id, d),
        has_node(ns, x),
        !d.contains(x),
    ensures
        ancestry(ns2, x, k) == ancestry(ns, x, k),
    decreases k,
{
    lemma_pruned_idx(ns, ns2, id, d, x);
    let ks = kept(ns, d);
    let kx = idx_of(ns2, x);
    let ix = idx_of(ns, x);
    assert(ns2[kx].parent == ns[ks[kx]].parent);
    if k > 0 {
        match ns[ix].parent {
            None => {},
            Some(p) => {
                lemma_idx_of(ns, x);
                crate::map::model::lemma_parent_lists(ns, ix);
                if d.contains(p@) {
                    lemma_closed_down(ns, id, d, ix);
                }
                lemma_ancestry_pruned(ns, ns2, id, d, p@, (k - 1) as nat);
            },
        }
    }
}

/// Removing a subtree (with the assignments to it) keeps a well-formed map
/// well-formed.
pub proof fn lemma_remove_keeps_wf(ns: Seq<MapNode>, asg: Seq<Assignment>, ns2: Seq<MapNode>, id: Seq<char>, d: Seq<Seq<char>>)
    requires
        wf_parts(ns, asg),
        has_node(ns, id),
        subtree_list(ns, id, d),
        pruned(ns, ns2, id, d),
    ensures
        wf_parts(ns2, kept_assignments(asg, d)),
{
    let ks = kept(ns, d);
    lemma_kept(ns, d);
    let i0 = idx_of(ns, id);
    lemma_idx_of(ns, id);
    let op = sv(ns[i0].parent);
    if ns[i0].parent is Some {
        lemma_parent_stays(ns, id, d);
    }
    // Ids stay unique.
    assert forall|a: int, b: int| 0 <= a < ns2.len() && 0 <= b < ns2.len() && a != b implies #[trigger] ns2[a].id@ != #[trigger] ns2[b].id@ by {
        assert(ns2[a].id == ns[ks[a]].id && ns2[b].id == ns[ks[b]].id);
        if a < b {
            assert(ks[a] < ks[b]);
        } else {
            assert(ks[b] < ks[a]);
        }
    }
    // Parents exist and list their children once.
    assert forall|k: int| 0 <= k < ns2.len() implies match #[trigger] ns2[k].parent {
        None => true,
        Some(p) => has_node(ns2, p@) && count_id(ns2[idx_of(ns2, p@)].children@, ns2[k].id@) == 1,
    } by {
        let i = ks[k];
        assert(ns2[k].parent == ns[i].parent && ns2[k].id == ns[i].id);
        match ns[i].parent {
            None => {},
            Some(p) => {
                crate::map::model::lemma_parent_lists(ns, i);
                if d.contains(p@) {
                    lemma_closed_down(ns, id, d, i);
                }
                lemma_pruned_idx(ns, ns2, id, d, p@);
                let kp = idx_of(ns2, p@);
                let ip = idx_of(ns, p@);
                assert(ks[kp] == ip);
                assert(ns2[kp].children@ == if op matches Some(o) && ks[kp] == idx_of(ns, o) {
                    without(ns[ip].children@, id)
                } else {
                    ns[ip].children@
                });
                assert(ns[i].id@ != id) by {
                    assert(d[0] == id);
                }
                lemma_count_without(ns[ip].children@, id, ns[i].id@);
            },
        }
    }
    // Listed children exist and point back.
    assert forall|k: int, m: int| 0 <= k < ns2.len() && 0 <= m < ns2[k].children@.len() implies has_node(ns2, #[trigger] ns2[k].children@[m]@)
        && sv(ns2[idx_of(ns2, ns2[k].children@[m]@)].parent) == Some(ns2[k].id@) by {
        let i = ks[k];
        let c = ns2[k].children@[m];
        let is_op = op matches Some(o) && i == idx_of(ns, o);
        let m0 = if is_op {
            lemma_without_from(ns[i].children@, id);
            let w = without(ns[i].children@, id);
            assert(w[m] == c);
            choose|m0: int| 0 <= m0 < ns[i].children@.len() && ns[i].children@[m0] == w[m]
        } else {
            m
        };
        assert(ns[i].children@[m0] == c);
        crate::map::model::lemma_child_back(ns, i, m0);
        let ic = idx_of(ns, c@);
        lemma_idx_of(ns, c@);
        if d.contains(c@) {
            let q = choose|q: int| 0 <= q < d.len() && d[q] == c@;
            if q == 0 {
                // `c` is the removed node: then this is its parent, whose list lost it.
                assert(sv(ns[i0].parent) == Some(ns[i].id@));
                let o = ns[i0].parent->Some_0;
                lemma_idx_of_unique(ns, o@, i);
                lemma_without_from(ns[i].children@, id);
                assert(false);
            } else {
                let p = choose|p: int| #![trigger d[p]] 0 <= p < q && listed_under(ns, d[p], d[q]);
                let ip = idx_of(ns, d[p]);
                lemma_idx_of(ns, d[p]);
                let mm = choose|mm: int| 0 <= mm < ns[ip].children@.len() && (#[trigger] ns[ip].children@[mm])@ == d[q];
                crate::map::model::lemma_child_back(ns, ip, mm);
                lemma_idx_of_unique(ns, ns[i].id@, i);
                assert(d.contains(ns[i].id@)) by {
                    assert(d[p] == ns[i].id@);
                }
            }
        }
        lemma_pruned_idx(ns, ns2, id, d, c@);
        let kc = idx_of(ns2, c@);
        assert(ns2[kc].parent == ns[ks[kc]].parent);
    }
    // Names are unchanged.
    assert forall|k: int| 0 <= k < ns2.len() implies name_issue(#[trigger] ns2[k].name@) is None by {
        assert(ns2[k].name == ns[ks[k]].name);
    }
    // Depths: every walk up from a survivor is the same walk, and fits in the smaller map.
    assert forall|k: int| 0 <= k < ns2.len() implies #[trigger] depth_spec(ns2, ns2[k].id@) is Ok
        && depth_spec(ns2, ns2[k].id@)->Ok_0 <= MAX_DEPTH by {
        let i = ks[k];
        let x = ns[i].id@;
        assert(ns2[k].id == ns[i].id);
        assert(depth_spec(ns, ns[i].id@) is Ok);
        let a = ancestry(ns, x, ns.len())->Ok_0;
        lemma_ancestry_shape(ns, x, ns.len(), a);
        lemma_ancestry_distinct(ns, x, ns.len(), a);
        assert forall|t: int| 0 <= t < a.len() implies !d.contains(#[trigger] a[t]) by {
            lemma_ancestors_stay(ns, id, d, x, a, t);
        }
        assert forall|t: int| 0 <= t < a.len() implies has_node(ns2, #[trigger] a[t]) by {
            lemma_pruned_idx(ns, ns2, id, d, a[t]);
        }
        lemma_distinct_ids_fit(ns2, a);
        lemma_ancestry_tight(ns, x, ns.len(), a);
        lemma_ancestry_fuel(ns, x, a.len(), ns2.len());
        lemma_ancestry_pruned(ns, ns2, id, d, x, ns2.len());
        lemma_idx_of(ns2, x);
        lemma_pruned_idx(ns, ns2, id, d, x);
    }
    // Siblings: same names and parents as before.
    assert forall|a: int, b: int|
        0 <= a < ns2.len() && 0 <= b < ns2.len() && a != b && sv(ns2[a].parent) == sv(ns2[b].parent) implies !same_name(
        #[trigger] ns2[a].name@,
        #[trigger] ns2[b].name@,
    ) by {
        assert(ns2[a].name == ns[ks[a]].name && ns2[a].parent == ns[ks[a]].parent);
        assert(ns2[b].name == ns[ks[b]].name && ns2[b].parent == ns[ks[b]].parent);
        if a < b {
            assert(ks[a] < ks[b]);
        } else {
            assert(ks[b] < ks[a]);
        }
    }
    // Assignments: what stays points at what stays.
    lemma_kept_assignments(asg, d, ns, ns2, id);
}

/// Every ancestor of a surviving node survives.
proof fn lemma_ancestors_stay(ns: Seq<MapNode>, id: Seq<char>, d: Seq<Seq<char>>, x: Seq<char>, a: Seq<Seq<char>>, t: int)
    requires
        parents_ok(ns),
        subtree_list(ns, id, d),
        !d.contains(x),
        a.len() >= 1,
        a[0] == x,
        forall|s: int| 0 <= s < a.len() ==> has_node(ns, #[trigger] a[s]),
        forall|s: int| 0 <= s < a.len() - 1 ==> sv(ns[idx_of(ns, #[trigger] a[s])].parent) == Some(a[s + 1]),
        0 <= t < a.len(),
    ensures
        !d.contains(a[t]),
    decreases t,
{
    if t > 0 {
        lemma_ancestors_stay(ns, id, d, x, a, t - 1);
        let c = a[t - 1];
        let ic = idx_of(ns, c);
        lemma_idx_of(ns, c);
        assert(sv(ns[ic].parent) == Some(a[t]));
        if d.contains(a[t]) {
            lemma_closed_down(ns, id, d, ic);
        }
    }
}

/// The assignments that stay are unique and point at surviving nodes.
proof fn lemma_kept_assignments(asg: Seq<Assignment>, d: Seq<Seq<char>>, ns: Seq<MapNode>, ns2: Seq<MapNode>, id: Seq<char>)
    requires
        ids_unique(ns),
        assignments_ok(ns, asg),
        pruned(ns, ns2, id, d),
    ensures
        assignments_ok(ns2, kept_assignments(asg, d)),
{
    let k2 = kept_assignments(asg, d);
    lemma_kept_assignments_sub(asg, d);
    assert forall|a: int, b: int| 0 <= a < k2.len() && 0 <= b < k2.len() && a != b implies #[trigger] k2[a].id@ != #[trigger] k2[b].id@ by {
        lemma_kept_assignments_order(asg, d, a, b);
    }
    assert forall|a: int| 0 <= a < k2.len() implies has_node(ns2, #[trigger] k2[a].node_id@) by {
        let i = choose|i: int| 0 <= i < asg.len() && asg[i] == k2[a];
        assert(has_node(ns, asg[i].node_id@));
        lemma_pruned_idx(ns, ns2, id, d, k2[a].node_id@);
    }
}

/// What stays is taken from the list, and avoids `d`.
proof fn lemma_kept_assignments_sub(asg: Seq<Assignment>, d: Seq<Seq<char>>)
    ensures
        forall|a: int| 0 <= a < kept_assignments(asg, d).len() ==> !d.contains((#[trigger] kept_assignments(asg, d)[a]).node_id@)
            && exists|i: int| 0 <= i < asg.len() && asg[i] == kept_assignments(asg, d)[a],
    decreases asg.len(),
{
    if asg.len() > 0 {
        let p = asg.drop_last();
        lemma_kept_assignments_sub(p, d);
        let r = kept_assignments(p, d);
        let k2 = kept_assignments(asg, d);
        assert forall|a: int| 0 <= a < k2.len() implies !d.contains((#[trigger] k2[a]).node_id@) && exists|i: int| 0 <= i < asg.len() && asg[i] == k2[a] by {
            if a < r.len() {
                assert(k2[a] == r[a]);
                let i = choose|i: int| 0 <= i < p.len() && p[i] == r[a];
                assert(asg[i] == p[i]);
            } else {
                assert(k2[a] == asg.last());
                assert(asg[asg.len() - 1] == asg.last());
            }
        }
    }
}

/// Two different entries of what stays come from two different places of the list,
/// so with unique ids they have different ids.
proof fn lemma_kept_assignments_order(asg: Seq<Assignment>, d: Seq<Seq<char>>, a: int, b: int)
    requires
        forall|x: int, y: int| 0 <= x < asg.len() && 0 <= y < asg.len() && x != y ==> #[trigger] asg[x].id@ != #[trigger] asg[y].id@,
        0 <= a < kept_assignments(asg, d).len(),
        0 <= b < kept_assignments(asg, d).len(),
        a != b,
    ensures
        kept_assignments(asg, d)[a].id@ != kept_assignments(asg, d)[b].id@,
    decreases asg.len(),
{
    let p = asg.drop_last();
    let r = kept_assignments(p, d);
    let k2 = kept_assignments(asg, d);
    assert forall|x: int, y: int| 0 <= x < p.len() && 0 <= y < p.len() && x != y implies #[trigger] p[x].id@ != #[trigger] p[y].id@ by {
        assert(p[x] == asg[x] && p[y] == asg[y]);
    }
    if a < r.len() && b < r.len() {
        assert(k2[a] == r[a] && k2[b] == r[b]);
        lemma_kept_assignments_order(p, d, a, b);
    } else {
        lemma_kept_assignments_sub(p, d);
        let (x, y) = if a < r.len() { (a, b) } else { (b, a) };
        assert(k2[y] == asg.last());
        assert(k2[x] == r[x]);
        let i = choose|i: int| 0 <= i < p.len() && p[i] == r[x];
        assert(asg[i] == p[i]);
        assert(asg[asg.len() - 1] == asg.last());
        assert(asg[i].id@ != asg[asg.len() - 1].id@);
    }
}

} // verus!
