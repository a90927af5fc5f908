//! Why an accepted move keeps a well-formed map well-formed.
//!
//! Only the moved node's parent and two child lists change. Every other node keeps
//! its chain of ancestors; a node at or under the moved one gets the part of its old
//! chain up to the moved node, followed by the chain of the new parent. The cycle
//! check keeps the moved node off that second part, and the depth check bounds the
//! first part by the height of the moved subtree.

use vstd::prelude::*;
use crate::map::edit::{
    lemma_ancestry_fuel, lemma_count_push, lemma_distinct_ids_fit, move_check, moved, next_level,
    height_spec, subtree_height_spec, up_walk, without,
};
use crate::map::model::{
    ancestry, children_ok, clash_by_parent, count_id, depth_spec, depths_ok,
    has_node, ids_unique, idx_of, lemma_clash_same_parent, lemma_count_pos, lemma_idx_of,
    lemma_same_name_sym, parents_ok, siblings_ok, sv, wf_parts, Assignment, ClimbErr,
    MapNode, MAX_DEPTH,
};
use crate::map::prune::{
    lemma_ancestry_distinct, lemma_ancestry_shape, lemma_ancestry_tight, lemma_count_without,
    lemma_without_from,
};
use crate::text::views;

verus! {

/// Taking `x` out of a list leaves no `x` in it.
pub(crate) proof fn lemma_count_without_self(c: Seq<String>, x: Seq<char>)
    ensures
        count_id(without(c, x), x) == 0,
    decreases c.len(),
{
    if c.len() > 0 {
        lemma_count_without_self(c.drop_last(), x);
        let r = without(c.drop_last(), x);
        if c.last()@ != x {
            lemma_count_push(r, c.last(), x);
        }
    }
}

/// A move changes no id, so every id is found where it was.
proof fn lemma_moved_idx(ns: Seq<MapNode>, ns2: Seq<MapNode>, id: Seq<char>, np: Option<Seq<char>>)
    requires
        has_node(ns, id),
        moved(ns, ns2, id, np),
    ensures
        forall|x: Seq<char>| #![trigger idx_of(ns2, x)] idx_of(ns2, x) == idx_of(ns, x),
{
    assert forall|x: Seq<char>| #![trigger idx_of(ns2, x)] idx_of(ns2, x) == idx_of(ns, x) by {
        lemma_idx_of(ns, x);
        lemma_idx_of(ns2, x);
        let a = idx_of(ns, x);
        let b = idx_of(ns2, x);
        if a >= 0 {
            assert(ns2[a].id == ns[a].id);
        }
        if b >= 0 {
            assert(ns2[b].id == ns[b].id);
        }
        if a >= 0 && b >= 0 {
            if a < b {
                assert(ns2[a].id == ns[a].id);
            } else if b < a {
                assert(ns2[b].id == ns[b].id);
            }
        }
    }
}

/// A node listed under `k` that is the moved node means `k` is its old parent.
proof fn lemma_listed_is_old_parent(ns: Seq<MapNode>, id: Seq<char>, k: int)
    requires
        children_ok(ns),
        has_node(ns, id),
        0 <= k < ns.len(),
        count_id(ns[k].children@, id) > 0,
        ids_unique(ns),
    ensures
        sv(ns[idx_of(ns, id)].parent) == Some(ns[k].id@),
        idx_of(ns, ns[k].id@) == k,
{
    lemma_count_pos(ns[k].children@, id);
    let m = choose|m: int| 0 <= m < ns[k].children@.len() && (#[trigger] ns[k].children@[m])@ == id;
    assert(has_node(ns, ns[k].children@[m]@));
    crate::map::model::lemma_idx_of_unique(ns, ns[k].id@, k);
}

/// The parent links of a moved map.
proof fn lemma_move_parents(ns: Seq<MapNode>, asg: Seq<Assignment>, ns2: Seq<MapNode>, id: Seq<char>, np: Option<Seq<char>>)
    requires
        wf_parts(ns, asg),
        move_check(ns, id, np) is None,
        moved(ns, ns2, id, np),
    ensures
        parents_ok(ns2),
{
    let i = idx_of(ns, id);
    lemma_idx_of(ns, id);
    lemma_moved_idx(ns, ns2, id, np);
    let op = sv(ns[i].parent);
    assert forall|k: int| 0 <= k < ns2.len() implies match #[trigger] ns2[k].parent {
        None => true,
        Some(p) => has_node(ns2, p@) && count_id(ns2[idx_of(ns2, p@)].children@, ns2[k].id@) == 1,
    } by {
        assert(ns2[k].id == ns[k].id);
        if k != i {
            assert(ns2[k].parent == ns[k].parent);
            match ns[k].parent {
                None => {},
                Some(p) => {
                    crate::map::model::lemma_parent_lists(ns, k);
                    let jp = idx_of(ns, p@);
                    lemma_idx_of(ns, p@);
                    assert(ns[k].id@ != id);
                    let c = ns[jp].children@;
                    let c1 = if op matches Some(o) && jp == idx_of(ns, o) { without(c, id) } else { c };
                    lemma_count_without(c, id, ns[k].id@);
                    assert(count_id(c1, ns[k].id@) == 1);
                    assert(ns2[jp] == ns2[jp]);
                    if np matches Some(q) && jp == idx_of(ns, q) {
                        assert(ns2[jp].children@ == c1.push(ns2[jp].children@.last()));
                        lemma_count_push(c1, ns2[jp].children@.last(), ns[k].id@);
                    }
                },
            }
        } else {
            match ns2[k].parent {
                None => {},
                Some(pp) => {
                    let p = pp@;
                    assert(np == Some(p));
                    assert(has_node(ns, p));
                    let jp = idx_of(ns, p);
                    lemma_idx_of(ns, p);
                    let c = ns[jp].children@;
                    let c1 = if op matches Some(o) && jp == idx_of(ns, o) { without(c, id) } else { c };
                    if op matches Some(o) && jp == idx_of(ns, o) {
                        lemma_count_without_self(c, id);
                    } else if count_id(c, id) > 0 {
                        lemma_listed_is_old_parent(ns, id, jp);
                    }
                    assert(count_id(c1, id) == 0);
                    assert(ns2[jp] == ns2[jp]);
                    assert(ns2[jp].children@ == c1.push(ns2[jp].children@.last()));
                    lemma_count_push(c1, ns2[jp].children@.last(), id);
                },
            }
        }
    }
}

/// The child lists of a moved map.
proof fn lemma_move_children(ns: Seq<MapNode>, asg: Seq<Assignment>, ns2: Seq<MapNode>, id: Seq<char>, np: Option<Seq<char>>)
    requires
        wf_parts(ns, asg),
        move_check(ns, id, np) is None,
        moved(ns, ns2, id, np),
    ensures
        children_ok(ns2),
{
    let i = idx_of(ns, id);
    lemma_idx_of(ns, id);
    lemma_moved_idx(ns, ns2, id, np);
    let op = sv(ns[i].parent);
    assert forall|k: int, m: int| 0 <= k < ns2.len() && 0 <= m < ns2[k].children@.len() implies has_node(ns2, #[trigger] ns2[k].children@[m]@)
        && sv(ns2[idx_of(ns2, ns2[k].children@[m]@)].parent) == Some(ns2[k].id@) by {
        assert(ns2[k].id == ns[k].id);
        let c = ns[k].children@;
        let is_old = op matches Some(o) && k == idx_of(ns, o);
        let c1 = if is_old { without(c, id) } else { c };
        let g = ns2[k].children@[m];
        if np matches Some(p) && k == idx_of(ns, p) && m == ns2[k].children@.len() - 1 {
            assert(g@ == id);
            let p = np->Some_0;
            assert(has_node(ns, p));
            lemma_idx_of(ns, p);
        } else {
            if np matches Some(p) && k == idx_of(ns, p) {
                assert(ns2[k].children@.drop_last()[m] == g);
            }
            assert(c1[m] == g);
            let m0: int = if is_old {
                lemma_without_from(c, id);
                choose|m0: int| 0 <= m0 < c.len() && c[m0] == c1[m]
            } else {
                m
            };
            assert(c[m0] == g);
            assert(has_node(ns, c[m0]@));
            let jg = idx_of(ns, g@);
            lemma_idx_of(ns, g@);
            if g@ == id {
                assert(!is_old);
                crate::map::edit::lemma_count_one(c, m0, id);
                lemma_listed_is_old_parent(ns, id, k);
                lemma_idx_of(ns, ns[k].id@);
            }
            assert(jg != i);
            assert(ns2[jg].parent == ns[jg].parent);
        }
    }
}

/// Siblings of a moved map never clash.
proof fn lemma_move_siblings(ns: Seq<MapNode>, asg: Seq<Assignment>, ns2: Seq<MapNode>, id: Seq<char>, np: Option<Seq<char>>)
    requires
        wf_parts(ns, asg),
        move_check(ns, id, np) is None,
        moved(ns, ns2, id, np),
    ensures
        siblings_ok(ns2),
{
    let i = idx_of(ns, id);
    lemma_idx_of(ns, id);
    let name = ns[i].name@;
    lemma_clash_same_parent(ns, np, name, Some(id));
    assert(!clash_by_parent(ns, np, name, Some(id)));
    assert forall|a: int, b: int|
        0 <= a < ns2.len() && 0 <= b < ns2.len() && a != b && sv(ns2[a].parent) == sv(ns2[b].parent) implies !crate::map::model::same_name(
            #[trigger] ns2[a].name@,
            #[trigger] ns2[b].name@,
        ) by {
        assert(ns2[a].name == ns[a].name && ns2[b].name == ns[b].name);
        assert(ns2[a].id == ns[a].id && ns2[b].id == ns[b].id);
        if a == i {
            assert(ns[b].id@ != id);
            assert(ns2[b].parent == ns[b].parent);
            lemma_same_name_sym(ns[a].name@, ns[b].name@);
            if crate::map::model::same_name(ns[b].name@, name) {
                assert(sv(ns[b].parent) == np && Some(ns[b].id@) != Some(id));
                assert(clash_by_parent(ns, np, name, Some(id)));
            }
        } else if b == i {
            assert(ns[a].id@ != id);
            assert(ns2[a].parent == ns[a].parent);
            if crate::map::model::same_name(ns[a].name@, name) {
                assert(sv(ns[a].parent) == np && Some(ns[a].id@) != Some(id));
                assert(clash_by_parent(ns, np, name, Some(id)));
            }
        } else {
            assert(ns2[a].parent == ns[a].parent && ns2[b].parent == ns[b].parent);
        }
    }
}

/// A chain of ancestors that does not pass through the moved node is the same after
/// the move.
proof fn lemma_chain_unmoved(ns: Seq<MapNode>, ns2: Seq<MapNode>, id: Seq<char>, np: Option<Seq<char>>, x: Seq<char>, k: nat, a: Seq<Seq<char>>)
    requires
        has_node(ns, id),
        moved(ns, ns2, id, np),
        ancestry(ns, x, k) == Ok::<Seq<Seq<char>>, ClimbErr>(a),
        !a.contains(id),
    ensures
        ancestry(ns2, x, k) == Ok::<Seq<Seq<char>>, ClimbErr>(a),
    decreases k,
{
    lemma_moved_idx(ns, ns2, id, np);
    lemma_ancestry_shape(ns, x, k, a);
    lemma_idx_of(ns, x);
    lemma_idx_of(ns, id);
    let j = idx_of(ns, x);
    assert(a[0] == x);
    assert(x != id);
    assert(j != idx_of(ns, id));
    assert(ns2[j].parent == ns[j].parent);
    match ns[j].parent {
        None => {},
        Some(p) => {
            let b = ancestry(ns, p@, (k - 1) as nat)->Ok_0;
            assert(a == seq![x] + b);
            assert forall|q: int| 0 <= q < b.len() implies b[q] != id by {
                assert(a[q + 1] == b[q]);
            }
            lemma_chain_unmoved(ns, ns2, id, np, p@, (k - 1) as nat, b);
        },
    }
}

/// A climb from `p` that ran clear of `id` means that `id` is not among the
/// ancestors of `p`.
proof fn lemma_clear_climb(ns: Seq<MapNode>, p: Seq<char>, id: Seq<char>, w: nat, k: nat, cp: Seq<Seq<char>>)
    requires
        ancestry(ns, p, k) == Ok::<Seq<Seq<char>>, ClimbErr>(cp),
        up_walk(ns, p, id, w) is Clear,
        cp.len() <= w,
    ensures
        !cp.contains(id),
    decreases k,
{
    lemma_ancestry_shape(ns, p, k, cp);
    let j = idx_of(ns, p);
    assert(p != id);
    match ns[j].parent {
        None => {
            assert(cp == seq![p]);
        },
        Some(q) => {
            let b = ancestry(ns, q@, (k - 1) as nat)->Ok_0;
            assert(cp == seq![p] + b);
            lemma_ancestry_shape(ns, q@, (k - 1) as nat, b);
            lemma_clear_climb(ns, q@, id, (w - 1) as nat, (k - 1) as nat, b);
            assert forall|r: int| 0 <= r < cp.len() implies cp[r] != id by {
                if r > 0 {
                    assert(cp[r] == b[r - 1]);
                }
            }
        },
    }
}

/// The `m`-th level of a breadth-first walk from `f`.
pub open spec fn level(ns: Seq<MapNode>, f: Seq<Seq<char>>, m: nat) -> Seq<Seq<char>>
    decreases m,
{
    if m == 0 {
        f
    } else {
        next_level(ns, level(ns, f, (m - 1) as nat))
    }
}

/// The children of an existing node of a level are on the next level.
proof fn lemma_next_level_has(ns: Seq<MapNode>, f: Seq<Seq<char>>, c: Seq<char>, g: Seq<char>)
    requires
        f.contains(c),
        has_node(ns, c),
        views(ns[idx_of(ns, c)].children@).contains(g),
    ensures
        next_level(ns, f).contains(g),
    decreases f.len(),
{
    let rest = next_level(ns, f.drop_last());
    let j = idx_of(ns, f.last());
    if f.last() == c {
        let kids = views(ns[j].children@);
        let q = choose|q: int| 0 <= q < kids.len() && kids[q] == g;
        assert((rest + kids)[rest.len() + q] == g);
    } else {
        let q = choose|q: int| 0 <= q < f.len() && f[q] == c;
        assert(f.drop_last()[q] == c);
        lemma_next_level_has(ns, f.drop_last(), c, g);
        let r = choose|r: int| 0 <= r < rest.len() && rest[r] == g;
        if j >= 0 {
            assert((rest + views(ns[j].children@))[r] == g);
        }
    }
}

proof fn lemma_level_shift(ns: Seq<MapNode>, f: Seq<Seq<char>>, m: nat)
    ensures
        level(ns, f, m + 1) == level(ns, next_level(ns, f), m),
    decreases m,
{
    assert(level(ns, f, 0) == f);
    assert(level(ns, f, 1) == next_level(ns, level(ns, f, 0)));
    if m > 0 {
        lemma_level_shift(ns, f, (m - 1) as nat);
        assert(level(ns, f, m + 1) == next_level(ns, level(ns, f, m)));
        assert(level(ns, next_level(ns, f), m) == next_level(ns, level(ns, next_level(ns, f), (m - 1) as nat)));
    }
}

proof fn lemma_level_empty(ns: Seq<MapNode>, m: nat)
    ensures
        level(ns, Seq::<Seq<char>>::empty(), m).len() == 0,
    decreases m,
{
    if m > 0 {
        lemma_level_empty(ns, (m - 1) as nat);
    }
}

/// A walk whose `j`-th level is not empty counts at least `j + 1` levels.
proof fn lemma_height_reaches(ns: Seq<MapNode>, f: Seq<Seq<char>>, k: nat, j: nat)
    requires
        j < k,
        level(ns, f, j).len() > 0,
    ensures
        height_spec(ns, f, k) >= j + 1,
    decreases j,
{
    if f.len() == 0 {
        assert(f == Seq::<Seq<char>>::empty());
        lemma_level_empty(ns, j);
    } else if j > 0 {
        lemma_level_shift(ns, f, (j - 1) as nat);
        lemma_height_reaches(ns, next_level(ns, f), (k - 1) as nat, (j - 1) as nat);
    }
}

/// Walking down from an entry of a chain of ancestors meets the entries below it,
/// one level per step.
proof fn lemma_chain_levels(ns: Seq<MapNode>, x: Seq<char>, k: nat, a: Seq<Seq<char>>, t: int, m: nat)
    requires
        parents_ok(ns),
        ancestry(ns, x, k) == Ok::<Seq<Seq<char>>, ClimbErr>(a),
        0 <= t < a.len(),
        m <= t,
    ensures
        level(ns, seq![a[t]], m).contains(a[t - m]),
    decreases m,
{
    lemma_ancestry_shape(ns, x, k, a);
    if m == 0 {
        assert(seq![a[t]][0] == a[t]);
    } else {
        lemma_chain_levels(ns, x, k, a, t, (m - 1) as nat);
        let up = a[t - m + 1];
        let c = a[t - m];
        let ci = idx_of(ns, c);
        lemma_idx_of(ns, c);
        lemma_idx_of(ns, up);
        assert(sv(ns[idx_of(ns, a[t - m])].parent) == Some(a[t - m + 1]));
        crate::map::model::lemma_parent_lists(ns, ci);
        let kids = ns[idx_of(ns, up)].children@;
        lemma_count_pos(kids, c);
        let q = choose|q: int| 0 <= q < kids.len() && (#[trigger] kids[q])@ == c;
        assert(views(kids)[q] == c);
        lemma_next_level_has(ns, level(ns, seq![a[t]], (m - 1) as nat), up, c);
    }
}

/// After the move, the chain from an entry at or below the moved node is the old
/// chain down to the moved node followed by the new parent's chain.
proof fn lemma_chain_moved(ns: Seq<MapNode>, ns2: Seq<MapNode>, id: Seq<char>, np: Option<Seq<char>>, x: Seq<char>, k: nat, a: Seq<Seq<char>>, t: int, s: int, cp: Seq<Seq<char>>)
    requires
        has_node(ns, id),
        moved(ns, ns2, id, np),
        ancestry(ns, x, k) == Ok::<Seq<Seq<char>>, ClimbErr>(a),
        0 <= s <= t < a.len(),
        a[t] == id,
        match np {
            None => cp.len() == 0,
            Some(p) => ancestry(ns2, p, cp.len()) == Ok::<Seq<Seq<char>>, ClimbErr>(cp),
        },
    ensures
        ancestry(ns2, a[s], (t + 1 - s + cp.len()) as nat) == Ok::<Seq<Seq<char>>, ClimbErr>(a.subrange(s, t + 1) + cp),
    decreases t - s,
{
    lemma_moved_idx(ns, ns2, id, np);
    lemma_ancestry_shape(ns, x, k, a);
    lemma_ancestry_distinct(ns, x, k, a);
    let i = idx_of(ns, id);
    lemma_idx_of(ns, id);
    if s == t {
        assert(a.subrange(t, t + 1) =~= seq![id]);
        match np {
            None => {
                assert(ns2[i].parent is None);
                assert(seq![id] + cp =~= seq![id]);
            },
            Some(p) => {
                let pp = ns2[i].parent->Some_0;
                assert(pp@ == p);
            },
        }
    } else {
        lemma_chain_moved(ns, ns2, id, np, x, k, a, t, s + 1, cp);
        let j = idx_of(ns, a[s]);
        lemma_idx_of(ns, a[s]);
        assert(a[s] != a[t]);
        assert(j != i);
        assert(ns2[j].parent == ns[j].parent);
        assert(sv(ns[idx_of(ns, a[s])].parent) == Some(a[s + 1]));
        assert(a.subrange(s, t + 1) + cp =~= seq![a[s]] + (a.subrange(s + 1, t + 1) + cp));
    }
}

/// Every node of a moved map reaches a root within the depth limit.
proof fn lemma_move_depths(ns: Seq<MapNode>, asg: Seq<Assignment>, ns2: Seq<MapNode>, id: Seq<char>, np: Option<Seq<char>>)
    requires
        wf_parts(ns, asg),
        move_check(ns, id, np) is None,
        moved(ns, ns2, id, np),
    ensures
        depths_ok(ns2),
{
    let n = ns.len();
    let i = idx_of(ns, id);
    lemma_idx_of(ns, id);
    lemma_moved_idx(ns, ns2, id, np);
    let h = subtree_height_spec(ns, id);
    let d: nat = match np {
        None => 0,
        Some(p) => depth_spec(ns, p)->Ok_0,
    };
    assert(d + h <= MAX_DEPTH);
    let cp: Seq<Seq<char>> = match np {
        None => Seq::empty(),
        Some(p) => ancestry(ns, p, n)->Ok_0,
    };
    if let Some(p) = np {
        assert(has_node(ns, p));
        assert(up_walk(ns, p, id, n + 1) is Clear);
        assert(ancestry(ns, p, n) == Ok::<Seq<Seq<char>>, ClimbErr>(cp));
        lemma_ancestry_shape(ns, p, n, cp);
        lemma_ancestry_tight(ns, p, n, cp);
        lemma_clear_climb(ns, p, id, n + 1, n, cp);
        lemma_chain_unmoved(ns, ns2, id, np, p, cp.len(), cp);
    }
    assert(cp.len() == d);
    assert forall|k: int| 0 <= k < ns2.len() implies #[trigger] depth_spec(ns2, ns2[k].id@) is Ok && depth_spec(ns2, ns2[k].id@)->Ok_0 <= MAX_DEPTH by {
        assert(ns2[k].id == ns[k].id);
        let x = ns[k].id@;
        assert(depth_spec(ns, ns[k].id@) is Ok);
        lemma_idx_of(ns, x);
        let a = ancestry(ns, x, n)->Ok_0;
        assert(ancestry(ns, x, n) == Ok::<Seq<Seq<char>>, ClimbErr>(a));
        if !a.contains(id) {
            lemma_chain_unmoved(ns, ns2, id, np, x, n, a);
        } else {
            lemma_ancestry_shape(ns, x, n, a);
            let t = choose|t: int| 0 <= t < a.len() && a[t] == id;
            lemma_chain_levels(ns, x, n, a, t, t as nat);
            assert(level(ns, seq![id], t as nat).contains(a[0]));
            lemma_height_reaches(ns, seq![id], n, t as nat);
            lemma_chain_moved(ns, ns2, id, np, x, n, a, t, 0, cp);
            let ch = a.subrange(0, t + 1) + cp;
            let f = (t + 1 + cp.len()) as nat;
            assert(a[0] == x);
            lemma_ancestry_distinct(ns2, x, f, ch);
            lemma_ancestry_shape(ns2, x, f, ch);
            lemma_distinct_ids_fit(ns2, ch);
            lemma_ancestry_fuel(ns2, x, f, n);
        }
    }
}

/// An accepted move keeps a well-formed map well-formed: the assignments are
/// untouched, every parent lists its children once, every listed child points back,
/// no two siblings clash, and every node still reaches a root within the depth
/// limit.
pub proof fn lemma_move_keeps_wf(ns: Seq<MapNode>, asg: Seq<Assignment>, ns2: Seq<MapNode>, id: Seq<char>, np: Option<Seq<char>>)
    requires
        wf_parts(ns, asg),
        move_check(ns, id, np) is None,
        moved(ns, ns2, id, np),
    ensures
        wf_parts(ns2, asg),
{
    lemma_idx_of(ns, id);
    lemma_moved_idx(ns, ns2, id, np);
    assert forall|a: int, b: int| 0 <= a < ns2.len() && 0 <= b < ns2.len() && a != b implies #[trigger] ns2[a].id@ != #[trigger] ns2[b].id@ by {
        assert(ns2[a].id == ns[a].id && ns2[b].id == ns[b].id);
    }
    assert forall|q: int| 0 <= q < asg.len() implies has_node(ns2, #[trigger] asg[q].node_id@) by {
        assert(has_node(ns, asg[q].node_id@));
    }
    assert forall|q: int| 0 <= q < ns2.len() implies crate::map::model::name_issue(#[trigger] ns2[q].name@) is None by {
        assert(ns2[q].name == ns[q].name);
    }
    lemma_move_parents(ns, asg, ns2, id, np);
    lemma_move_children(ns, asg, ns2, id, np);
    lemma_move_siblings(ns, asg, ns2, id, np);
    lemma_move_depths(ns, asg, ns2, id, np);
}

} // verus!
