//! Map templates, and the two views of one structure: a saved tree, or a string
//! template.
//!
//! There is only one store, the tree. A string template imports as a chain of nodes;
//! a chain exports back to a string template. A tree that forks cannot be written as
//! one string, and the refusal says where it forks.

use vstd::prelude::*;
use crate::config::model::new_id;
use crate::map::edit::{
    copy_node, leaf_added, lemma_same_shape, ov, lemma_depth_child, add_check,
};
use crate::map::model::{
    has_node, idx_of, lemma_idx_of, sv, wf_parts, Assignment,
    FolderMap, MapError, MapErrorV, MapNode, MAX_DEPTH, depth_spec, top_level, lemma_top_level,
    name_issue_kind, name_issue, sibling_clash, children_spec,
};
use crate::organize::{parse_template, segments, split_segments, template_check};
use crate::text::{chars_of, join, join_seq, owned, push_char, push_str, views};

verus! {

/// A saved map template: the tree alone, without assignments (cards differ from one
/// day and one project to the next).
#[derive(Debug, Clone, PartialEq, Eq)]
pub struct MapTemplate {
    pub id: String,
    pub name: String,
    pub map: FolderMap,
}

/// Every field of node `b` equals the one of node `a` (child lists by content).
pub open spec fn same_fields(a: MapNode, b: MapNode) -> bool {
    &&& a.id == b.id
    &&& a.name == b.name
    &&& a.parent == b.parent
    &&& a.children@ == b.children@
}

/// The ids each node refers to, node by node: its parent, its children, itself.
pub open spec fn refs(ns: Seq<MapNode>) -> Seq<Seq<char>>
    decreases ns.len(),
{
    if ns.len() == 0 {
        Seq::empty()
    } else {
        let n = ns.last();
        let own: Seq<Seq<char>> = match n.parent {
            Some(p) => seq![p@],
            None => Seq::empty(),
        };
        refs(ns.drop_last()) + own + views(n.children@) + seq![n.id@]
    }
}

/// The first of `rs` that names no node of `ns`.
pub open spec fn first_dangling(ns: Seq<MapNode>, rs: Seq<Seq<char>>) -> Option<Seq<char>>
    decreases rs.len(),
{
    if rs.len() == 0 {
        None
    } else {
        match first_dangling(ns, rs.drop_last()) {
            Some(x) => Some(x),
            None => if has_node(ns, rs.last()) { None } else { Some(rs.last()) },
        }
    }
}

/// The detail of a template that refers to a node it does not hold.
pub open spec fn dangling_text(name: Seq<char>, x: Seq<char>) -> Seq<char> {
    "模板「"@ + name + "」引用了不存在的节点 "@ + x
}

/// `ns2` is `ns` with every id replaced through `fresh` (the node at `k` gets
/// `fresh[k]`), names and shape kept.
pub open spec fn renumbered(ns: Seq<MapNode>, ns2: Seq<MapNode>, fresh: Seq<Seq<char>>) -> bool {
    &&& ns2.len() == ns.len()
    &&& fresh.len() == ns.len()
    &&& forall|k: int| 0 <= k < ns.len() ==> {
        &&& (#[trigger] ns2[k]).id@ == fresh[idx_of(ns, ns[k].id@)]
        &&& ns2[k].name == ns[k].name
        &&& sv(ns2[k].parent) == match ns[k].parent {
            Some(p) => Some(fresh[idx_of(ns, p@)]),
            None => None,
        }
        &&& views(ns2[k].children@) == views(ns[k].children@).map_values(|c: Seq<char>| fresh[idx_of(ns, c)])
    }
}

proof fn lemma_first_dangling_none(ns: Seq<MapNode>, rs: Seq<Seq<char>>)
    requires
        first_dangling(ns, rs) is None,
    ensures
        forall|k: int| 0 <= k < rs.len() ==> has_node(ns, #[trigger] rs[k]),
    decreases rs.len(),
{
    if rs.len() > 0 {
        lemma_first_dangling_none(ns, rs.drop_last());
        assert forall|k: int| 0 <= k < rs.len() implies has_node(ns, #[trigger] rs[k]) by {
            if k < rs.len() - 1 {
                assert(rs[k] == rs.drop_last()[k]);
            }
        }
    }
}

proof fn lemma_first_dangling_append(ns: Seq<MapNode>, rs: Seq<Seq<char>>, x: Seq<char>)
    requires
        first_dangling(ns, rs) is None,
    ensures
        first_dangling(ns, rs.push(x)) == (if has_node(ns, x) { None::<Seq<char>> } else { Some(x) }),
{
    assert(rs.push(x).drop_last() =~= rs);
}

/// References that all resolve leave nothing dangling after those that came before.
proof fn lemma_first_dangling_concat(ns: Seq<MapNode>, a: Seq<Seq<char>>, b: Seq<Seq<char>>)
    requires
        first_dangling(ns, a) is None,
        forall|k: int| 0 <= k < b.len() ==> has_node(ns, #[trigger] b[k]),
    ensures
        first_dangling(ns, a + b) is None,
    decreases b.len(),
{
    if b.len() == 0 {
        assert(a + b =~= a);
    } else {
        lemma_first_dangling_concat(ns, a, b.drop_last());
        assert((a + b).drop_last() =~= a + b.drop_last());
        assert((a + b).last() == b[b.len() - 1]);
    }
}

/// In a map whose parents and children all exist, no reference dangles.
proof fn lemma_refs_resolve(ns: Seq<MapNode>, i: int)
    requires
        crate::map::model::parents_ok(ns),
        crate::map::model::children_ok(ns),
        0 <= i <= ns.len(),
    ensures
        first_dangling(ns, refs(ns.take(i))) is None,
    decreases i,
{
    if i == 0 {
        assert(refs(ns.take(0)) =~= Seq::<Seq<char>>::empty());
    } else {
        lemma_refs_resolve(ns, i - 1);
        let t = ns.take(i);
        assert(t.drop_last() =~= ns.take(i - 1));
        let n = ns[i - 1];
        assert(t.last() == n);
        let own: Seq<Seq<char>> = match n.parent {
            Some(p) => seq![p@],
            None => Seq::empty(),
        };
        lemma_idx_of(ns, n.id@);
        let b = own + views(n.children@) + seq![n.id@];
        assert forall|k: int| 0 <= k < b.len() implies has_node(ns, #[trigger] b[k]) by {
            if k < own.len() {
                assert(ns[i - 1] == n);
            } else if k < own.len() + n.children@.len() {
                assert(b[k] == n.children@[k - own.len()]@);
                assert(ns[i - 1].children@[k - own.len()] == n.children@[k - own.len()]);
            } else {
                assert(b[k] == n.id@);
            }
        }
        assert(refs(t) =~= refs(ns.take(i - 1)) + b);
        lemma_first_dangling_concat(ns, refs(ns.take(i - 1)), b);
    }
}

/// What renumbering does to one reference.
pub open spec fn renamed(ns: Seq<MapNode>, fresh: Seq<Seq<char>>, x: Seq<char>) -> Seq<char> {
    fresh[idx_of(ns, x)]
}

/// Renumbering with distinct fresh ids keeps the nodes where they were and tells
/// references apart exactly as before.
proof fn lemma_renumber_ids(ns: Seq<MapNode>, ns2: Seq<MapNode>, fresh: Seq<Seq<char>>)
    requires
        crate::map::model::ids_unique(ns),
        renumbered(ns, ns2, fresh),
        fresh.no_duplicates(),
    ensures
        forall|k: int| 0 <= k < ns.len() ==> (#[trigger] ns2[k]).id@ == fresh[k],
        crate::map::model::ids_unique(ns2),
        forall|k: int| 0 <= k < ns.len() ==> idx_of(ns2, #[trigger] fresh[k]) == k,
        forall|x: Seq<char>| #[trigger] has_node(ns, x) ==> idx_of(ns2, renamed(ns, fresh, x)) == idx_of(ns, x),
        forall|x: Seq<char>, y: Seq<char>| has_node(ns, x) && has_node(ns, y) && #[trigger] renamed(ns, fresh, x) == #[trigger] renamed(ns, fresh, y) ==> x == y,
{
    assert forall|k: int| 0 <= k < ns.len() implies (#[trigger] ns2[k]).id@ == fresh[k] by {
        crate::map::model::lemma_idx_of_unique(ns, ns[k].id@, k);
    }
    assert forall|k: int| 0 <= k < ns.len() implies idx_of(ns2, #[trigger] fresh[k]) == k by {
        assert(ns2[k].id@ == fresh[k]);
        crate::map::model::lemma_idx_of_unique(ns2, fresh[k], k);
    }
    assert forall|x: Seq<char>| #[trigger] has_node(ns, x) implies idx_of(ns2, renamed(ns, fresh, x)) == idx_of(ns, x) by {
        lemma_idx_of(ns, x);
        assert(idx_of(ns2, fresh[idx_of(ns, x)]) == idx_of(ns, x));
    }
    assert forall|x: Seq<char>, y: Seq<char>| has_node(ns, x) && has_node(ns, y) && #[trigger] renamed(ns, fresh, x) == #[trigger] renamed(ns, fresh, y) implies x == y by {
        lemma_idx_of(ns, x);
        lemma_idx_of(ns, y);
    }
}

/// Counting a renumbered child list counts the renumbered reference.
proof fn lemma_count_renumbered(ns: Seq<MapNode>, fresh: Seq<Seq<char>>, c1: Seq<String>, c2: Seq<String>, x: Seq<char>)
    requires
        c2.len() == c1.len(),
        forall|k: int| 0 <= k < c1.len() ==> (#[trigger] c2[k])@ == renamed(ns, fresh, c1[k]@),
        forall|k: int| 0 <= k < c1.len() ==> has_node(ns, #[trigger] c1[k]@),
        has_node(ns, x),
        forall|a: Seq<char>, b: Seq<char>| has_node(ns, a) && has_node(ns, b) && #[trigger] renamed(ns, fresh, a) == #[trigger] renamed(ns, fresh, b) ==> a == b,
    ensures
        crate::map::model::count_id(c2, renamed(ns, fresh, x)) == crate::map::model::count_id(c1, x),
    decreases c1.len(),
{
    if c1.len() > 0 {
        let d1 = c1.drop_last();
        let d2 = c2.drop_last();
        assert forall|k: int| 0 <= k < d1.len() implies (#[trigger] d2[k])@ == renamed(ns, fresh, d1[k]@) && has_node(ns, d1[k]@) by {
            assert(d2[k] == c2[k] && d1[k] == c1[k]);
        }
        lemma_count_renumbered(ns, fresh, d1, d2, x);
        let k = c1.len() - 1;
        assert(c2[k]@ == renamed(ns, fresh, c1[k]@));
        assert(has_node(ns, c1[k]@));
    }
}

/// A chain of ancestors climbs the same way through the renumbered nodes.
proof fn lemma_ancestry_renumbered(ns: Seq<MapNode>, ns2: Seq<MapNode>, fresh: Seq<Seq<char>>, id: Seq<char>, k: nat)
    requires
        crate::map::model::ids_unique(ns),
        crate::map::model::parents_ok(ns),
        renumbered(ns, ns2, fresh),
        fresh.no_duplicates(),
        has_node(ns, id),
        crate::map::model::ancestry(ns, id, k) is Ok,
    ensures
        crate::map::model::ancestry(ns2, renamed(ns, fresh, id), k) is Ok,
        crate::map::model::ancestry(ns2, renamed(ns, fresh, id), k)->Ok_0.len()
            == crate::map::model::ancestry(ns, id, k)->Ok_0.len(),
    decreases k,
{
    lemma_renumber_ids(ns, ns2, fresh);
    let i = idx_of(ns, id);
    assert(idx_of(ns2, renamed(ns, fresh, id)) == i);
    assert(ns2[i] == ns2[i]);
    lemma_idx_of(ns, id);
    match ns[i].parent {
        None => {},
        Some(p) => {
            assert(has_node(ns, p@));
            lemma_ancestry_renumbered(ns, ns2, fresh, p@, (k - 1) as nat);
        },
    }
}

/// Renumbering a well-formed map with distinct fresh ids gives a well-formed map.
proof fn lemma_renumber_wf(ns: Seq<MapNode>, asg: Seq<Assignment>, ns2: Seq<MapNode>, fresh: Seq<Seq<char>>)
    requires
        wf_parts(ns, asg),
        renumbered(ns, ns2, fresh),
        fresh.no_duplicates(),
    ensures
        wf_parts(ns2, Seq::<Assignment>::empty()),
{
    lemma_renumber_ids(ns, ns2, fresh);
    assert forall|i: int| 0 <= i < ns2.len() implies match #[trigger] ns2[i].parent {
        None => true,
        Some(p) => has_node(ns2, p@) && crate::map::model::count_id(ns2[idx_of(ns2, p@)].children@, ns2[i].id@) == 1,
    } by {
        assert(ns[i] == ns[i]);
        lemma_idx_of(ns, ns[i].id@);
        if let Some(p) = ns[i].parent {
            let j = idx_of(ns, p@);
            assert(has_node(ns, p@));
            assert(idx_of(ns2, renamed(ns, fresh, p@)) == j);
            assert(ns2[j] == ns2[j] && ns[j] == ns[j]);
            assert(ns2[i].id@ == renamed(ns, fresh, ns[i].id@));
            lemma_idx_of(ns, p@);
            let f = |c: Seq<char>| fresh[idx_of(ns, c)];
            assert(views(ns2[j].children@) == views(ns[j].children@).map_values(f));
            assert forall|k: int| 0 <= k < ns[j].children@.len() implies has_node(ns, #[trigger] ns[j].children@[k]@)
                && ns2[j].children@[k]@ == renamed(ns, fresh, ns[j].children@[k]@) by {
                assert(views(ns2[j].children@)[k] == views(ns[j].children@).map_values(f)[k]);
            }
            lemma_count_renumbered(ns, fresh, ns[j].children@, ns2[j].children@, ns[i].id@);
        }
    }
    assert forall|i: int, k: int| 0 <= i < ns2.len() && 0 <= k < ns2[i].children@.len() implies has_node(ns2, #[trigger] ns2[i].children@[k]@)
        && sv(ns2[idx_of(ns2, ns2[i].children@[k]@)].parent) == Some(ns2[i].id@) by {
        assert(ns[i] == ns[i] && ns2[i] == ns2[i]);
        let f = |c: Seq<char>| fresh[idx_of(ns, c)];
        assert(views(ns2[i].children@) == views(ns[i].children@).map_values(f));
        assert(views(ns2[i].children@).len() == ns2[i].children@.len());
        assert(views(ns[i].children@).map_values(f).len() == ns[i].children@.len());
        assert(views(ns2[i].children@)[k] == views(ns[i].children@).map_values(f)[k]);
        let c = ns[i].children@[k]@;
        assert(has_node(ns, c));
        let j = idx_of(ns, c);
        assert(idx_of(ns2, renamed(ns, fresh, c)) == j);
        assert(ns2[j] == ns2[j] && ns[j] == ns[j]);
        assert(sv(ns[idx_of(ns, c)].parent) == Some(ns[i].id@));
        crate::map::model::lemma_idx_of_unique(ns, ns[i].id@, i);
        assert(ns2[i].children@[k]@ == renamed(ns, fresh, c));
        lemma_idx_of(ns, c);
        let pp = ns[j].parent->Some_0;
        assert(pp@ == ns[i].id@);
        assert(idx_of(ns, pp@) == i);
        assert(sv(ns2[j].parent) == Some(fresh[i]));
    }
    assert forall|i: int| 0 <= i < ns2.len() implies name_issue(#[trigger] ns2[i].name@) is None by {
        assert(ns[i] == ns[i]);
    }
    assert forall|i: int| 0 <= i < ns2.len() implies #[trigger] depth_spec(ns2, ns2[i].id@) is Ok && depth_spec(ns2, ns2[i].id@)->Ok_0 <= MAX_DEPTH by {
        assert(ns[i] == ns[i]);
        lemma_idx_of(ns, ns[i].id@);
        assert(depth_spec(ns, ns[i].id@) is Ok);
        crate::map::model::lemma_idx_of_unique(ns, ns[i].id@, i);
        lemma_ancestry_renumbered(ns, ns2, fresh, ns[i].id@, ns.len());
    }
    assert forall|i: int, j: int|
        0 <= i < ns2.len() && 0 <= j < ns2.len() && i != j && sv(ns2[i].parent) == sv(ns2[j].parent) implies !crate::map::model::same_name(
            #[trigger] ns2[i].name@,
            #[trigger] ns2[j].name@,
        ) by {
        assert(ns[i] == ns[i] && ns[j] == ns[j]);
        match (ns[i].parent, ns[j].parent) {
            (Some(a), Some(b)) => {
                assert(has_node(ns, a@) && has_node(ns, b@));
                assert(renamed(ns, fresh, a@) == renamed(ns, fresh, b@));
            },
            _ => {},
        }
    }
}

/// An empty map is well formed.
proof fn lemma_empty_wf(m: FolderMap)
    requires
        m.nodes@.len() == 0,
        m.assignments@.len() == 0,
    ensures
        m.wf(),
{
}

impl MapTemplate {
    /// Saves a map as a template named `name`: the nodes are copied as they are, the
    /// assignments are left behind.
    pub fn from_map(name: &str, map: &FolderMap) -> (r: MapTemplate)
        ensures
            r.name@ == name@,
            exists|ms: u64, n: u64| r.id@ == #[trigger] crate::config::model::id_text("mtp"@, ms as nat, n as nat),
            r.map.assignments@.len() == 0,
            r.map.nodes@.len() == map.nodes@.len(),
            forall|k: int| 0 <= k < map.nodes@.len() ==> same_fields(#[trigger] r.map.nodes@[k], map.nodes@[k]),
            map.wf() ==> r.map.wf(),
    {
        let mut nodes: Vec<MapNode> = Vec::new();
        let mut i: usize = 0;
        while i < map.nodes.len()
            invariant
                i <= map.nodes@.len(),
                nodes@.len() == i,
                forall|k: int| 0 <= k < i ==> same_fields(#[trigger] nodes@[k], map.nodes@[k]),
            decreases map.nodes@.len() - i,
        {
            nodes.push(copy_node(&map.nodes[i]));
            i = i + 1;
        }
        let m = FolderMap { nodes, assignments: Vec::new() };
        proof {
            if map.wf() {
                let ns = map.nodes@;
                let ns2 = m.nodes@;
                lemma_same_shape(ns, ns2);
                assert forall|k: int| 0 <= k < ns2.len() implies crate::map::model::name_issue(#[trigger] ns2[k].name@) is None by {
                    assert(same_fields(ns2[k], ns[k]));
                }
                assert forall|a: int, b: int|
                    0 <= a < ns2.len() && 0 <= b < ns2.len() && a != b && sv(ns2[a].parent) == sv(ns2[b].parent) implies !crate::map::model::same_name(
                    #[trigger] ns2[a].name@,
                    #[trigger] ns2[b].name@,
                ) by {
                    assert(same_fields(ns2[a], ns[a]) && same_fields(ns2[b], ns[b]));
                }
            }
        }
        MapTemplate { id: new_id("mtp"), name: owned(name), map: m }
    }

    /// Fresh ids, one per node: none equal to an id of the template, none repeated.
    fn fresh_ids(&self) -> (r: Vec<String>)
        ensures
            r@.len() == self.map.nodes@.len(),
            views(r@).no_duplicates(),
            forall|k: int| 0 <= k < r@.len() ==> !has_node(self.map.nodes@, #[trigger] r@[k]@),
    {
        let ghost ns = self.map.nodes@;
        let n = self.map.nodes.len();
        let mut longest: usize = 0;
        let mut i: usize = 0;
        while i < n
            invariant
                ns == self.map.nodes@,
                n == ns.len(),
                i <= n,
                forall|k: int| 0 <= k < i ==> (#[trigger] ns[k]).id@.len() <= longest,
            decreases n - i,
        {
            let l = chars_of(self.map.nodes[i].id.as_str()).len();
            if l > longest {
                longest = l;
            }
            i = i + 1;
        }
        let mut out: Vec<String> = Vec::new();
        let mut j: usize = 0;
        while j < n
            invariant
                ns == self.map.nodes@,
                n == ns.len(),
                j <= n,
                out@.len() == j,
                forall|k: int| 0 <= k < ns.len() ==> (#[trigger] ns[k]).id@.len() <= longest,
                forall|k: int| 0 <= k < out@.len() ==> (#[trigger] out@[k])@.len() <= longest,
                views(out@).no_duplicates(),
                forall|k: int| 0 <= k < out@.len() ==> !has_node(ns, #[trigger] out@[k]@),
            decreases n - j,
        {
            let mut id = new_id("map");
            while self.map.find_index(id.as_str()).is_some() || crate::map::edit::listed_in(&out, id.as_str())
                invariant
                    ns == self.map.nodes@,
                    forall|k: int| 0 <= k < ns.len() ==> (#[trigger] ns[k]).id@.len() <= longest,
                    forall|k: int| 0 <= k < out@.len() ==> (#[trigger] out@[k])@.len() <= longest,
                decreases longest + 1 - id@.len(),
            {
                proof {
                    lemma_idx_of(ns, id@);
                    if has_node(ns, id@) {
                        assert(ns[idx_of(ns, id@)].id@.len() <= longest);
                    } else {
                        let w = choose|w: int| 0 <= w < views(out@).len() && views(out@)[w] == id@;
                        assert(out@[w]@.len() <= longest);
                    }
                }
                push_char(&mut id, '-');
            }
            proof {
                lemma_idx_of(ns, id@);
            }
            let l = chars_of(id.as_str()).len();
            if l > longest {
                longest = l;
            }
            let ghost o = out@;
            out.push(id);
            proof {
                assert(views(out@) =~= views(o).push(out@[j as int]@));
                assert forall|a: int, b: int| 0 <= a < views(out@).len() && 0 <= b < views(out@).len() && a != b implies views(out@)[a] != views(out@)[b] by {
                    if a < j && b < j {
                        assert(views(o)[a] != views(o)[b]);
                    } else if a < j {
                        assert(!views(o).contains(views(out@)[b]) ==> views(o)[a] != views(out@)[b]);
                    } else {
                        assert(!views(o).contains(views(out@)[a]) ==> views(o)[b] != views(out@)[a]);
                    }
                }
            }
            j = j + 1;
        }
        out
    }

    /// The fresh id standing for template id `x`.
    fn lookup(&self, fresh: &Vec<String>, x: &str) -> (r: Result<String, MapError>)
        requires
            fresh@.len() == self.map.nodes@.len(),
        ensures
            match r {
                Ok(s) => has_node(self.map.nodes@, x@) && s@ == fresh@[idx_of(self.map.nodes@, x@)]@,
                Err(e) => !has_node(self.map.nodes@, x@) && e@ == (MapErrorV::Inconsistent { detail: dangling_text(self.name@, x@) }),
            },
    {
        match self.map.find_index(x) {
            Some(i) => Ok(fresh[i].clone()),
            None => {
                let mut d = String::new();
                push_str(&mut d, "模板「");
                push_str(&mut d, self.name.as_str());
                push_str(&mut d, "」引用了不存在的节点 ");
                push_str(&mut d, x);
                proof {
                    assert(d@ =~= dangling_text(self.name@, x@));
                }
                Err(MapError::Inconsistent { detail: d })
            },
        }
    }

    /// Applies the template: a new map with the same names and shape and entirely new
    /// ids, so that a template and a map made from it can never be taken for one
    /// another. A reference to a node the template does not hold, or a structure that
    /// fails [`FolderMap::validate`], is refused.
    #[verifier::spinoff_prover]
    pub fn instantiate(&self) -> (r: Result<FolderMap, MapError>)
        ensures
            match r {
                Ok(m) => {
                    &&& first_dangling(self.map.nodes@, refs(self.map.nodes@)) is None
                    &&& m.wf()
                    &&& m.assignments@.len() == 0
                    &&& exists|fresh: Seq<Seq<char>>| {
                        &&& #[trigger] renumbered(self.map.nodes@, m.nodes@, fresh)
                        &&& fresh.no_duplicates()
                        &&& forall|k: int| 0 <= k < fresh.len() ==> !has_node(self.map.nodes@, #[trigger] fresh[k])
                    }
                },
                Err(e) => match first_dangling(self.map.nodes@, refs(self.map.nodes@)) {
                    Some(x) => e@ == (MapErrorV::Inconsistent { detail: dangling_text(self.name@, x) }),
                    None => e@ is Inconsistent || e@ is TooDeep || e@ is DuplicateSibling || e@ is NodeMissing
                        || name_issue_kind(e@),
                },
            },
            self.map.wf() ==> r is Ok,
    {
        let ghost ns = self.map.nodes@;
        proof {
            if self.map.wf() {
                lemma_refs_resolve(ns, ns.len() as int);
                assert(ns.take(ns.len() as int) =~= ns);
            }
        }
        let fresh = self.fresh_ids();
        let ghost fv = views(fresh@);
        let mut nodes: Vec<MapNode> = Vec::new();
        let mut i: usize = 0;
        while i < self.map.nodes.len()
            invariant
                ns == self.map.nodes@,
                self.map.wf() ==> first_dangling(ns, refs(ns)) is None,
                fresh@.len() == ns.len(),
                fv == views(fresh@),
                i <= ns.len(),
                nodes@.len() == i,
                first_dangling(ns, refs(ns.take(i as int))) is None,
                forall|k: int| 0 <= k < i ==> {
                    &&& (#[trigger] nodes@[k]).id@ == fv[idx_of(ns, ns[k].id@)]
                    &&& nodes@[k].name == ns[k].name
                    &&& sv(nodes@[k].parent) == match ns[k].parent {
                        Some(p) => Some(fv[idx_of(ns, p@)]),
                        None => None,
                    }
                    &&& views(nodes@[k].children@) == views(ns[k].children@).map_values(|c: Seq<char>| fv[idx_of(ns, c)])
                },
            decreases ns.len() - i,
        {
            let n = &self.map.nodes[i];
            let ghost pre = refs(ns.take(i as int));
            proof {
                assert(ns.take(i + 1).drop_last() =~= ns.take(i as int));
                assert(ns.take(i + 1).last() == ns[i as int]);
            }
            let ghost own: Seq<Seq<char>> = match ns[i as int].parent {
                Some(p) => seq![p@],
                None => Seq::empty(),
            };
            proof {
                assert(refs(ns.take(i + 1)) == pre + own + views(n.children@) + seq![n.id@]);
            }
            let parent = match &n.parent {
                Some(p) => match self.lookup(&fresh, p.as_str()) {
                    Ok(x) => Some(x),
                    Err(e) => {
                        proof {
                            lemma_first_dangling_append(ns, pre, p@);
                            assert(pre + own =~= pre.push(p@));
                            assert(refs(ns.take(i + 1)) =~= pre.push(p@) + (views(n.children@) + seq![n.id@]));
                            lemma_first_dangling_prefix(ns, pre.push(p@), views(n.children@) + seq![n.id@]);
                            lemma_refs_prefix(ns, (i + 1) as int);
                        }
                        return Err(e);
                    },
                },
                None => None,
            };
            proof {
                assert(first_dangling(ns, pre + own) is None) by {
                    if let Some(p) = ns[i as int].parent {
                        assert(pre + own =~= pre.push(p@));
                        lemma_first_dangling_append(ns, pre, p@);
                    } else {
                        assert(pre + own =~= pre);
                    }
                }
            }
            let mut children: Vec<String> = Vec::new();
            let mut k: usize = 0;
            while k < n.children.len()
                invariant
                    ns == self.map.nodes@,
                    self.map.wf() ==> first_dangling(ns, refs(ns)) is None,
                    i < ns.len(),
                    *n == ns[i as int],
                    fresh@.len() == ns.len(),
                    fv == views(fresh@),
                    k <= n.children@.len(),
                    i + 1 <= ns.len(),
                    refs(ns.take(i + 1)) == pre + own + views(n.children@) + seq![n.id@],
                    first_dangling(ns, pre + own + views(n.children@).take(k as int)) is None,
                    views(children@) == views(n.children@).take(k as int).map_values(|c: Seq<char>| fv[idx_of(ns, c)]),
                decreases n.children@.len() - k,
            {
                let c = &n.children[k];
                let ghost acc = pre + own + views(n.children@).take(k as int);
                proof {
                    assert(pre + own + views(n.children@).take(k + 1) =~= acc.push(c@));
                    lemma_first_dangling_append(ns, acc, c@);
                }
                match self.lookup(&fresh, c.as_str()) {
                    Ok(x) => {
                        let ghost o = children@;
                        children.push(x);
                        proof {
                            lemma_idx_of(ns, c@);
                            assert(fv[idx_of(ns, c@)] == fresh@[idx_of(ns, c@)]@);
                            let f = |c: Seq<char>| fv[idx_of(ns, c)];
                            assert(views(children@) =~= views(o).push(children@.last()@));
                            assert(views(n.children@).take(k + 1) =~= views(n.children@).take(k as int).push(c@));
                            assert(views(n.children@).take(k + 1).map_values(f) =~= views(n.children@).take(k as int).map_values(f).push(f(c@)));
                        }
                    },
                    Err(e) => {
                        proof {
                            assert(views(n.children@) =~= views(n.children@).take(k as int).push(c@) + views(n.children@).skip(k + 1));
                            assert(refs(ns.take(i + 1)) =~= acc.push(c@) + (views(n.children@).skip(k + 1) + seq![n.id@]));
                            lemma_first_dangling_prefix(ns, acc.push(c@), views(n.children@).skip(k + 1) + seq![n.id@]);
                            lemma_refs_prefix(ns, (i + 1) as int);
                        }
                        return Err(e);
                    },
                }
                k = k + 1;
            }
            proof {
                assert(views(n.children@).take(n.children@.len() as int) =~= views(n.children@));
            }
            let ghost acc = pre + own + views(n.children@);
            proof {
                assert(refs(ns.take(i + 1)) =~= acc.push(n.id@));
                lemma_first_dangling_append(ns, acc, n.id@);
                lemma_idx_of(ns, n.id@);
            }
            let id = match self.lookup(&fresh, n.id.as_str()) {
                Ok(x) => x,
                Err(e) => {
                    proof {
                        lemma_refs_prefix(ns, (i + 1) as int);
                    }
                    return Err(e);
                },
            };
            let ghost before = nodes@;
            nodes.push(MapNode { id, name: n.name.clone(), parent, children });
            proof {
                assert(fv[idx_of(ns, n.id@)] == fresh@[idx_of(ns, n.id@)]@);
                if let Some(p) = ns[i as int].parent {
                    lemma_idx_of(ns, p@);
                    assert(fv[idx_of(ns, p@)] == fresh@[idx_of(ns, p@)]@);
                }
                assert(nodes@[i as int].id@ == fv[idx_of(ns, ns[i as int].id@)]);
                assert forall|k: int| 0 <= k < i + 1 implies {
                    &&& (#[trigger] nodes@[k]).id@ == fv[idx_of(ns, ns[k].id@)]
                    &&& nodes@[k].name == ns[k].name
                    &&& sv(nodes@[k].parent) == match ns[k].parent {
                        Some(p) => Some(fv[idx_of(ns, p@)]),
                        None => None,
                    }
                    &&& views(nodes@[k].children@) == views(ns[k].children@).map_values(|c: Seq<char>| fv[idx_of(ns, c)])
                } by {
                    if k < i {
                        assert(nodes@[k] == before[k]);
                    }
                }
            }
            i = i + 1;
        }
        proof {
            assert(ns.take(ns.len() as int) =~= ns);
        }
        let out = FolderMap { nodes, assignments: Vec::new() };
        proof {
            assert(first_dangling(ns, refs(ns)) is None);
        }
        proof {
            if self.map.wf() {
                assert(renumbered(ns, out.nodes@, fv));
                assert(fv.no_duplicates());
                lemma_renumber_wf(ns, self.map.assignments@, out.nodes@, fv);
                assert(out.assignments@ =~= Seq::<Assignment>::empty());
            }
        }
        match out.validate() {
            Err(e) => {
                proof {
                    assert(e@ is Inconsistent || e@ is TooDeep || e@ is DuplicateSibling || e@ is NodeMissing
                        || name_issue_kind(e@));
                }
                Err(e)
            },
            Ok(()) => {
                proof {
                    assert forall|k: int| 0 <= k < fv.len() implies !has_node(ns, #[trigger] fv[k]) by {
                        assert(fv[k] == fresh@[k]@);
                    }
                    assert(renumbered(ns, out.nodes@, fv));
                    assert(fv.no_duplicates());
                }
                let r: Result<FolderMap, MapError> = Ok(out);
                proof {
                    assert(r matches Ok(m) && renumbered(self.map.nodes@, m.nodes@, fv));
                    assert(r matches Ok(m) && exists|f: Seq<Seq<char>>| {
                        &&& #[trigger] renumbered(self.map.nodes@, m.nodes@, f)
                        &&& f.no_duplicates()
                        &&& forall|k: int| 0 <= k < f.len() ==> !has_node(self.map.nodes@, #[trigger] f[k])
                    });
                }
                r
            },
        }
    }
}

/// Dangling references in a prefix are the first ones of the whole.
proof fn lemma_first_dangling_prefix(ns: Seq<MapNode>, a: Seq<Seq<char>>, b: Seq<Seq<char>>)
    requires
        first_dangling(ns, a) is Some,
    ensures
        first_dangling(ns, a + b) == first_dangling(ns, a),
    decreases b.len(),
{
    if b.len() > 0 {
        lemma_first_dangling_prefix(ns, a, b.drop_last());
        assert((a + b).drop_last() =~= a + b.drop_last());
    } else {
        assert(a + b =~= a);
    }
}

/// The references of a prefix of the nodes come first among all references.
proof fn lemma_refs_prefix(ns: Seq<MapNode>, i: int)
    requires
        0 <= i <= ns.len(),
        first_dangling(ns, refs(ns.take(i))) is Some,
    ensures
        first_dangling(ns, refs(ns)) == first_dangling(ns, refs(ns.take(i))),
    decreases ns.len() - i,
{
    if i < ns.len() {
        let t = ns.take(i + 1);
        assert(t.drop_last() =~= ns.take(i));
        let n = t.last();
        let own: Seq<Seq<char>> = match n.parent {
            Some(p) => seq![p@],
            None => Seq::empty(),
        };
        assert(refs(t) == refs(ns.take(i)) + own + views(n.children@) + seq![n.id@]);
        assert(refs(t) =~= refs(ns.take(i)) + (own + views(n.children@) + seq![n.id@]));
        lemma_first_dangling_prefix(ns, refs(ns.take(i)), own + views(n.children@) + seq![n.id@]);
        lemma_refs_prefix(ns, i + 1);
    } else {
        assert(ns.take(i) =~= ns);
    }
}

/// What importing a string template gives: the chain of its segments.
pub open spec fn is_chain(ns: Seq<MapNode>, names: Seq<Seq<char>>) -> bool {
    &&& ns.len() == names.len()
    &&& forall|k: int| 0 <= k < ns.len() ==> {
        &&& (#[trigger] ns[k]).name@ == names[k]
        &&& sv(ns[k].parent) == if k == 0 { None } else { Some(ns[k - 1].id@) }
        &&& views(ns[k].children@) == if k + 1 < ns.len() { seq![ns[k + 1].id@] } else { Seq::<Seq<char>>::empty() }
    }
}

/// Whether an error is one that adding a node can give.
pub open spec fn add_error_kind(e: MapErrorV) -> bool {
    name_issue_kind(e) || e is TooDeep || e is DuplicateSibling || e is NodeMissing || e is Inconsistent
}

/// Appending a leaf under the last node of a chain gives a chain one longer.
#[verifier::spinoff_prover]
#[verifier::rlimit(50)]
proof fn lemma_chain_grows(ns: Seq<MapNode>, ns2: Seq<MapNode>, gs: Seq<Seq<char>>, k: int, id: Seq<char>)
    requires
        0 <= k < gs.len(),
        is_chain(ns, gs.take(k)),
        leaf_added(ns, ns2, if k == 0 { None } else { Some(ns[k - 1].id@) }, gs[k], id),
        k > 0 ==> idx_of(ns, ns[k - 1].id@) == k - 1,
    ensures
        is_chain(ns2, gs.take(k + 1)),
{
    assert forall|t: int| 0 <= t < ns2.len() implies {
        &&& (#[trigger] ns2[t]).name@ == gs.take(k + 1)[t]
        &&& sv(ns2[t].parent) == if t == 0 { None } else { Some(ns2[t - 1].id@) }
        &&& views(ns2[t].children@) == if t + 1 < ns2.len() { seq![ns2[t + 1].id@] } else { Seq::<Seq<char>>::empty() }
    } by {
        if t < k {
            assert(ns2[t] == ns2[t]);
            assert(ns[t].name@ == gs.take(k)[t]);
            if t > 0 {
                assert(ns2[t - 1] == ns2[t - 1]);
            }
            if t == k - 1 {
                assert(views(ns2[t].children@) =~= views(ns[t].children@).push(id));
            } else {
                assert(ns2[t + 1] == ns2[t + 1]);
            }
        } else {
            assert(ns2[t] == ns2.last());
            assert(views(ns2[t].children@) =~= Seq::<Seq<char>>::empty());
            if t > 0 {
                assert(ns2[t - 1] == ns2[t - 1]);
            }
        }
    }
}

/// Why the segment `name` cannot become the `k`-th node of a chain: its name is
/// refused, or it would lie one level deeper than the limit.
pub open spec fn segment_failure(name: Seq<char>, k: int) -> Option<MapErrorV> {
    if name_issue(name) is Some {
        name_issue(name)
    } else if k >= MAX_DEPTH {
        Some(MapErrorV::TooDeep { max: MAX_DEPTH as nat })
    } else {
        None
    }
}

/// Why segments cannot become a chain: the failure of the first segment that fails.
#[verifier::opaque]
pub open spec fn chain_failure(gs: Seq<Seq<char>>) -> Option<MapErrorV>
    decreases gs.len(),
{
    if gs.len() == 0 {
        None
    } else {
        match chain_failure(gs.drop_last()) {
            Some(e) => Some(e),
            None => segment_failure(gs.last(), gs.len() - 1),
        }
    }
}

/// A failure among the first `j` segments is the failure of all of them.
proof fn lemma_chain_failure_prefix(gs: Seq<Seq<char>>, j: int)
    requires
        0 <= j <= gs.len(),
        chain_failure(gs.take(j)) is Some,
    ensures
        chain_failure(gs) == chain_failure(gs.take(j)),
    decreases gs.len(),
{
    reveal(chain_failure);
    if j == gs.len() {
        assert(gs.take(j) =~= gs);
    } else {
        assert(gs.drop_last().take(j) =~= gs.take(j));
        lemma_chain_failure_prefix(gs.drop_last(), j);
    }
}

/// Segments become a chain exactly when every one of them is an acceptable node name
/// and there are no more of them than the depth limit.
pub proof fn lemma_chain_failure_none(gs: Seq<Seq<char>>)
    ensures
        chain_failure(gs) is None <==> (gs.len() <= MAX_DEPTH && forall|k: int| 0 <= k < gs.len() ==> #[trigger] name_issue(gs[k]) is None),
    decreases gs.len(),
{
    reveal(chain_failure);
    if gs.len() > 0 {
        let d = gs.drop_last();
        lemma_chain_failure_none(d);
        assert forall|k: int| 0 <= k < d.len() implies #[trigger] d[k] == gs[k] by {}
        if chain_failure(gs) is None {
            assert forall|k: int| 0 <= k < gs.len() implies #[trigger] name_issue(gs[k]) is None by {
                if k < d.len() {
                    assert(name_issue(d[k]) is None);
                }
            }
        }
        if gs.len() <= MAX_DEPTH && forall|k: int| 0 <= k < gs.len() ==> #[trigger] name_issue(gs[k]) is None {
            assert forall|k: int| 0 <= k < d.len() implies #[trigger] name_issue(d[k]) is None by {
                assert(name_issue(gs[k]) is None);
            }
            assert(name_issue(gs[gs.len() - 1]) is None);
        }
    }
}

/// Adding the `k`-th segment under the last node of a well-formed chain of `k` nodes is
/// refused exactly for that segment's own failure.
proof fn lemma_chain_add_check(ns: Seq<MapNode>, asg: Seq<Assignment>, gs: Seq<Seq<char>>, k: int, parent: Option<Seq<char>>)
    requires
        wf_parts(ns, asg),
        0 <= k < gs.len(),
        is_chain(ns, gs.take(k)),
        parent == if k == 0 { None } else { Some(ns[k - 1].id@) },
    ensures
        add_check(ns, parent, gs[k]) == segment_failure(gs[k], k),
{
    if k == 0 {
        assert(top_level(ns) =~= Seq::<MapNode>::empty());
        assert(!sibling_clash(ns, parent, gs[k], None));
    } else {
        lemma_chain_depths(ns, asg, gs.take(k), k - 1);
        crate::map::model::lemma_idx_of_unique(ns, ns[k - 1].id@, k - 1);
        assert(ns[k - 1] == ns[k - 1]);
        assert(views(ns[k - 1].children@).len() == 0);
        assert(ns[k - 1].children@ =~= Seq::<String>::empty());
        assert(children_spec(ns, parent) =~= Seq::<MapNode>::empty());
        assert(!sibling_clash(ns, parent, gs[k], None));
    }
}

/// One step of the import loop: adding the `k`-th segment is refused exactly for its
/// own failure, which is then the failure of all the segments; accepted, it leaves the
/// first `k + 1` segments without failure.
proof fn lemma_import_step(ns: Seq<MapNode>, asg: Seq<Assignment>, gs: Seq<Seq<char>>, k: int, parent: Option<Seq<char>>)
    requires
        wf_parts(ns, asg),
        0 <= k < gs.len(),
        is_chain(ns, gs.take(k)),
        chain_failure(gs.take(k)) is None,
        parent == if k == 0 { None } else { Some(ns[k - 1].id@) },
    ensures
        add_check(ns, parent, gs[k]) == segment_failure(gs[k], k),
        chain_failure(gs.take(k + 1)) == segment_failure(gs[k], k),
        segment_failure(gs[k], k) is Some ==> chain_failure(gs) == segment_failure(gs[k], k),
{
    reveal(chain_failure);
    lemma_chain_add_check(ns, asg, gs, k, parent);
    assert(gs.take(k + 1).drop_last() =~= gs.take(k));
    assert(gs.take(k + 1).last() == gs[k]);
    if segment_failure(gs[k], k) is Some {
        lemma_chain_failure_prefix(gs, k + 1);
    }
}

/// Adds the `k`-th segment of a template under the last node of the chain built so far.
/// Refused, it gives the failure of all the segments; accepted, the chain is one longer.
#[verifier::spinoff_prover]
#[verifier::rlimit(50)]
fn import_segment(map: &mut FolderMap, parent: &Option<String>, seg: &str, Ghost(gs): Ghost<Seq<Seq<char>>>, Ghost(k): Ghost<int>) -> (r: Result<String, MapError>)
    requires
        old(map).wf(),
        old(map).assignments@.len() == 0,
        0 <= k < gs.len(),
        seg@ == gs[k],
        is_chain(old(map).nodes@, gs.take(k)),
        chain_failure(gs.take(k)) is None,
        sv(*parent) == if k == 0 { None } else { Some(old(map).nodes@[k - 1].id@) },
    ensures
        match r {
            Ok(id) => {
                &&& final(map).wf()
                &&& final(map).assignments@.len() == 0
                &&& is_chain(final(map).nodes@, gs.take(k + 1))
                &&& chain_failure(gs.take(k + 1)) is None
                &&& final(map).nodes@[k].id@ == id@
            },
            Err(e) => chain_failure(gs) == Some(e@),
        },
{
    let ghost ns = map.nodes@;
    let p: Option<&str> = match parent {
        Some(s) => Some(s.as_str()),
        None => None,
    };
    proof {
        assert(ov(p) == sv(*parent));
        lemma_import_step(ns, map.assignments@, gs, k, sv(*parent));
    }
    let r = map.add_node(p, seg);
    proof {
        if r is Ok {
            let id = r->Ok_0;
            if k > 0 {
                crate::map::model::lemma_idx_of_unique(ns, ns[k - 1].id@, k - 1);
            }
            lemma_chain_grows(ns, map.nodes@, gs, k, id@);
        }
    }
    r
}

/// A string template → a chain of nodes, one per segment. The string must first pass
/// every check of a string template (the required placeholders included), and each
/// segment then every check of a node name.
#[verifier::spinoff_prover]
#[verifier::rlimit(50)]
pub fn import_template_string(raw: &str) -> (r: Result<FolderMap, MapError>)
    ensures
        match r {
            Ok(m) => {
                &&& template_check(raw@) is Ok
                &&& m.wf()
                &&& m.assignments@.len() == 0
                &&& is_chain(m.nodes@, segments(raw@))
                &&& chain_failure(segments(raw@)) is None
            },
            Err(e) => match template_check(raw@) {
                Err(t) => e@ == (MapErrorV::BadTemplateString { template: raw@, reason: t }),
                Ok(()) => chain_failure(segments(raw@)) == Some(e@),
            },
        },
{
    match parse_template(raw) {
        Err(e) => {
            return Err(MapError::BadTemplateString { template: owned(raw), reason: e });
        },
        Ok(()) => {},
    }
    let segs = split_segments(raw);
    let ghost gs = segments(raw@);
    let mut map = FolderMap::new();
    proof {
        lemma_empty_wf(map);
    }
    let mut parent: Option<String> = None;
    let mut k: usize = 0;
    assert(chain_failure(gs.take(0)) is None) by {
        reveal(chain_failure);
        assert(gs.take(0).len() == 0);
    }
    while k < segs.len()
        invariant
            template_check(raw@) is Ok,
            gs == segments(raw@),
            segs@.len() == gs.len(),
            forall|t: int| 0 <= t < segs@.len() ==> #[trigger] segs@[t]@ == gs[t],
            k <= segs@.len(),
            map.wf(),
            map.assignments@.len() == 0,
            is_chain(map.nodes@, gs.take(k as int)),
            chain_failure(gs.take(k as int)) is None,
            sv(parent) == if k == 0 { None } else { Some(map.nodes@[k - 1].id@) },
        decreases segs@.len() - k,
    {
        match import_segment(&mut map, &parent, segs[k].as_str(), Ghost(gs), Ghost(k as int)) {
            Err(e) => {
                return Err(e);
            },
            Ok(id) => {
                parent = Some(id);
            },
        }
        k = k + 1;
    }
    proof {
        assert(gs.take(segs@.len() as int) =~= gs);
    }
    Ok(map)
}

/// The names along a chain, starting at the node at `c`, walking at most `fuel` nodes:
/// refused where a node has more than one child or lists a child that does not exist.
pub open spec fn chain_walk(ns: Seq<MapNode>, c: int, fuel: nat) -> Result<Seq<Seq<char>>, MapErrorV>
    decreases fuel,
{
    if fuel == 0 {
        Ok(Seq::empty())
    } else {
        let n = ns[c];
        let k = n.children@.len();
        if k == 0 {
            Ok(seq![n.name@])
        } else if k == 1 {
            let ci = idx_of(ns, n.children@[0]@);
            if ci < 0 {
                Err(MapErrorV::Inconsistent { detail: "节点 "@ + n.id@ + " 的子节点不存在"@ })
            } else {
                match chain_walk(ns, ci, (fuel - 1) as nat) {
                    Ok(r) => Ok(seq![n.name@] + r),
                    Err(e) => Err(e),
                }
            }
        } else {
            Err(MapErrorV::NotAChain { at: Some(n.name@), branches: k })
        }
    }
}

/// What exporting a map as a string template gives.
pub open spec fn export_spec(ns: Seq<MapNode>) -> Result<Seq<char>, MapErrorV> {
    if ns.len() == 0 {
        Err(MapErrorV::EmptyMap)
    } else {
        let roots = top_level(ns);
        if roots.len() != 1 {
            Err(MapErrorV::NotAChain { at: None, branches: roots.len() })
        } else {
            match chain_walk(ns, idx_of(ns, roots[0].id@), ns.len() as nat) {
                Err(e) => Err(e),
                Ok(names) => {
                    let out = join_seq(names, '/');
                    match template_check(out) {
                        Err(t) => Err(MapErrorV::BadTemplateString { template: out, reason: t }),
                        Ok(()) => Ok(out),
                    }
                },
            }
        }
    }
}

/// A top-level node has depth 1.
proof fn lemma_top_depth(ns: Seq<MapNode>, i: int)
    requires
        ids_unique_nodes(ns),
        0 <= i < ns.len(),
        ns[i].parent is None,
    ensures
        depth_spec(ns, ns[i].id@) == Ok::<nat, MapErrorV>(1),
{
    crate::map::model::lemma_idx_of_unique(ns, ns[i].id@, i);
}

/// Unique ids, under a name local to this file.
pub open spec fn ids_unique_nodes(ns: Seq<MapNode>) -> bool {
    crate::map::model::ids_unique(ns)
}

/// Whether the walk down single children from the node at `c` stops within `fuel`
/// nodes: at a node without children or with several, or at a child that does not
/// exist. It never stops where the children loop back.
pub open spec fn walk_ends(ns: Seq<MapNode>, c: int, fuel: nat) -> bool
    decreases fuel,
{
    fuel > 0 && {
        let n = ns[c];
        n.children@.len() != 1 || idx_of(ns, n.children@[0]@) < 0
            || walk_ends(ns, idx_of(ns, n.children@[0]@), (fuel - 1) as nat)
    }
}

/// Whether exporting a map comes to an end: it is refused before any walk (no nodes,
/// or not exactly one top-level node), or the walk from the top-level node stops
/// within as many steps as there are nodes. Only a map whose single children lead
/// round in a loop fails this.
pub open spec fn export_ends(ns: Seq<MapNode>) -> bool {
    ns.len() == 0 || top_level(ns).len() != 1 || walk_ends(ns, idx_of(ns, top_level(ns)[0].id@), ns.len() as nat)
}

/// A chain → its string template, `/` between the names. Only a chain can be
/// exported: a fork is refused with where it forks, and a result that would not pass
/// as a string template is refused now rather than later.
#[verifier::spinoff_prover]
#[verifier::rlimit(30)]
pub fn export_template_string(map: &FolderMap) -> (r: Result<String, MapError>)
    requires
        export_ends(map.nodes@),
    ensures
        match r {
            Ok(s) => export_spec(map.nodes@) == Ok::<Seq<char>, MapErrorV>(s@),
            Err(e) => export_spec(map.nodes@) == Err::<Seq<char>, MapErrorV>(e@),
        },
{
    let ghost ns = map.nodes@;
    let n = map.nodes.len();
    if n == 0 {
        return Err(MapError::EmptyMap);
    }
    let roots = map.children(None);
    if roots.len() != 1 {
        return Err(MapError::NotAChain { at: None, branches: roots.len() });
    }
    proof {
        lemma_top_level(ns);
        let j = choose|j: int| #![trigger ns[j]] 0 <= j < ns.len() && top_level(ns)[0] == ns[j] && ns[j].parent is None;
        lemma_idx_of(ns, ns[j].id@);
    }
    let mut cur = match map.find_index(roots[0].id.as_str()) {
        Some(c) => c,
        None => {
            proof {
                assert(false);
            }
            return Err(MapError::EmptyMap);
        },
    };
    let ghost c0 = cur as int;
    proof {
        assert(roots@[0] == top_level(ns)[0]);
        assert(c0 == idx_of(ns, top_level(ns)[0].id@));
    }
    let mut segs: Vec<String> = Vec::new();
    proof {
        assert(views(segs@) =~= Seq::<Seq<char>>::empty());
        if let Ok(x) = chain_walk(ns, c0, n as nat) {
            assert(Seq::<Seq<char>>::empty() + x =~= x);
        }
    }
    let mut t: usize = 0;
    loop
        invariant_except_break
            segs@.len() == t,
            chain_walk(ns, c0, n as nat) == match chain_walk(ns, cur as int, (n - t) as nat) {
                Ok(r) => Ok(views(segs@) + r),
                Err(e) => Err(e),
            },
            walk_ends(ns, cur as int, (n - t) as nat),
        invariant
            ns == map.nodes@,
            n == ns.len(),
            cur < ns.len(),
            t < n,
            0 <= c0 < ns.len(),
            ns.len() > 0,
            top_level(ns).len() == 1,
            c0 == idx_of(ns, top_level(ns)[0].id@),
        ensures
            chain_walk(ns, c0, n as nat) == Ok::<Seq<Seq<char>>, MapErrorV>(views(segs@)),
        decreases n - t,
    {
        let ghost gsegs = views(segs@);
        let ghost f = (n - t) as nat;
        segs.push(map.nodes[cur].name.clone());
        proof {
            assert(views(segs@) =~= gsegs.push(ns[cur as int].name@));
            assert(gsegs + (seq![ns[cur as int].name@]) =~= views(segs@));
        }
        let k = map.nodes[cur].children.len();
        if k == 0 {
            proof {
                assert(chain_walk(ns, cur as int, f) == Ok::<Seq<Seq<char>>, MapErrorV>(seq![ns[cur as int].name@]));
                assert(chain_walk(ns, c0, n as nat) == Ok::<Seq<Seq<char>>, MapErrorV>(views(segs@)));
            }
            break;
        } else if k == 1 {
            let cid = &map.nodes[cur].children[0];
            match map.find_index(cid.as_str()) {
                None => {
                    let mut d = String::new();
                    push_str(&mut d, "节点 ");
                    push_str(&mut d, map.nodes[cur].id.as_str());
                    push_str(&mut d, " 的子节点不存在");
                    proof {
                        assert(d@ =~= "节点 "@ + ns[cur as int].id@ + " 的子节点不存在"@);
                    }
                    return Err(MapError::Inconsistent { detail: d });
                },
                Some(ci) => {
                    proof {
                        let r = chain_walk(ns, ci as int, (f - 1) as nat);
                        assert(chain_walk(ns, cur as int, f) == match r {
                            Ok(x) => Ok(seq![ns[cur as int].name@] + x),
                            Err(e) => Err::<Seq<Seq<char>>, MapErrorV>(e),
                        });
                        if let Ok(x) = r {
                            assert(gsegs + (seq![ns[cur as int].name@] + x) =~= views(segs@) + x);
                        }
                        assert(walk_ends(ns, ci as int, (f - 1) as nat));
                    }
                    cur = ci;
                    t = t + 1;
                },
            }
        } else {
            proof {
                assert(chain_walk(ns, cur as int, f) == Err::<Seq<Seq<char>>, MapErrorV>(MapErrorV::NotAChain { at: Some(ns[cur as int].name@), branches: k as nat }));
            }
            return Err(MapError::NotAChain { at: Some(map.nodes[cur].name.clone()), branches: k });
        }
    }
    let out = join(segs.as_slice(), '/');
    match parse_template(out.as_str()) {
        Err(e) => Err(MapError::BadTemplateString { template: out, reason: e }),
        Ok(()) => Ok(out),
    }
}

/// The depth of each node of a chain is its position plus one.
proof fn lemma_chain_depths(ns: Seq<MapNode>, asg: Seq<Assignment>, names: Seq<Seq<char>>, k: int)
    requires
        wf_parts(ns, asg),
        is_chain(ns, names),
        0 <= k < ns.len(),
    ensures
        depth_spec(ns, ns[k].id@) == Ok::<nat, MapErrorV>((k + 1) as nat),
    decreases k,
{
    assert(ns[k] == ns[k]);
    if k == 0 {
        assert(sv(ns[0].parent) == None::<Seq<char>>);
        lemma_top_depth(ns, 0);
    } else {
        lemma_chain_depths(ns, asg, names, k - 1);
        crate::map::model::lemma_idx_of_unique(ns, ns[k].id@, k);
        crate::map::model::lemma_idx_of_unique(ns, ns[k - 1].id@, k - 1);
        lemma_depth_child(ns, ns[k].id@, ns[k - 1].id@);
    }
}

/// A chain has one top-level node: its first.
proof fn lemma_chain_top(ns: Seq<MapNode>, names: Seq<Seq<char>>, j: int)
    requires
        is_chain(ns, names),
        1 <= j <= ns.len(),
    ensures
        top_level(ns.take(j)) == seq![ns[0]],
    decreases j,
{
    let t = ns.take(j);
    assert(t.drop_last() =~= ns.take(j - 1));
    assert(t.last() == ns[j - 1]);
    assert(ns[j - 1] == ns[j - 1]);
    if j == 1 {
        assert(sv(ns[0].parent) == None::<Seq<char>>);
        assert(top_level(ns.take(0)) =~= Seq::<MapNode>::empty()) by {
            assert(ns.take(0).len() == 0);
        }
    } else {
        lemma_chain_top(ns, names, j - 1);
        assert(ns[j - 1].parent is Some);
    }
}

/// What a chain says of its `k`-th node.
spec fn chain_node(ns: Seq<MapNode>, names: Seq<Seq<char>>, k: int) -> bool {
    &&& ns[k].name@ == names[k]
    &&& k + 1 == ns.len() ==> ns[k].children@.len() == 0
    &&& k + 1 < ns.len() ==> ns[k].children@.len() == 1 && ns[k].children@[0]@ == ns[k + 1].id@
}

proof fn lemma_chain_nodes(ns: Seq<MapNode>, names: Seq<Seq<char>>)
    requires
        is_chain(ns, names),
    ensures
        forall|k: int| 0 <= k < ns.len() ==> #[trigger] chain_node(ns, names, k),
{
    assert forall|k: int| 0 <= k < ns.len() implies #[trigger] chain_node(ns, names, k) by {
        assert(ns[k] == ns[k]);
        if k + 1 < ns.len() {
            assert(views(ns[k].children@) == seq![ns[k + 1].id@]);
            assert(views(ns[k].children@)[0] == ns[k].children@[0]@);
        } else {
            assert(views(ns[k].children@).len() == 0);
        }
    }
}

/// Walking a chain from its `k`-th node with enough steps meets every later name.
proof fn lemma_chain_walk_all(ns: Seq<MapNode>, names: Seq<Seq<char>>, k: int, fuel: nat)
    requires
        forall|j: int| 0 <= j < ns.len() ==> #[trigger] chain_node(ns, names, j),
        names.len() == ns.len(),
        crate::map::model::ids_unique(ns),
        0 <= k < ns.len(),
        fuel >= ns.len() - k,
    ensures
        chain_walk(ns, k, fuel) == Ok::<Seq<Seq<char>>, MapErrorV>(names.skip(k)),
    decreases ns.len() - k,
{
    assert(chain_node(ns, names, k));
    if k == ns.len() - 1 {
        assert(names.skip(k) =~= seq![names[k]]);
    } else {
        crate::map::model::lemma_idx_of_unique(ns, ns[k + 1].id@, k + 1);
        lemma_chain_walk_all(ns, names, k + 1, (fuel - 1) as nat);
        assert(names.skip(k) =~= seq![names[k]] + names.skip(k + 1));
    }
}

/// A required placeholder, braced, is a non-empty piece without separators.
proof fn lemma_placeholder_piece(name: Seq<char>)
    requires
        name == crate::organize::PH_PROJECT@ || name == crate::organize::PH_DATE@ || name == crate::organize::PH_DEVICE@,
    ensures
        crate::organize::braced(name).len() > 0,
        crate::organize::sep_free(crate::organize::braced(name)),
{
    reveal_strlit("项目");
    reveal_strlit("日期");
    reveal_strlit("设备");
    let b = crate::organize::braced(name);
    assert forall|k: int| 0 <= k < b.len() implies !crate::organize::is_sep(#[trigger] b[k]) by {
        if 0 < k < b.len() - 1 {
            assert(b[k] == name[k - 1]);
        }
    }
}

/// The two views of one structure agree: a map imported from a string template (a
/// well-formed chain whose names are the template's segments) exports back to those
/// segments joined with `/`, and that string splits into the same segments.
pub proof fn lemma_import_export_roundtrip(ns: Seq<MapNode>, asg: Seq<Assignment>, raw: Seq<char>)
    requires
        wf_parts(ns, asg),
        template_check(raw) is Ok,
        is_chain(ns, segments(raw)),
    ensures
        export_spec(ns) == Ok::<Seq<char>, MapErrorV>(join_seq(segments(raw), '/')),
        segments(join_seq(segments(raw), '/')) == segments(raw),
{
    let segs = segments(raw);
    let out = join_seq(segs, '/');
    let n = ns.len() as int;
    assert(segs.len() > 0);
    lemma_placeholder_piece(crate::organize::PH_PROJECT@);
    crate::organize::lemma_segments(raw, crate::organize::braced(crate::organize::PH_PROJECT@));
    crate::organize::lemma_split_join(segs);
    // the names along the chain
    lemma_chain_depths(ns, asg, segs, n - 1);
    assert(ns[n - 1] == ns[n - 1]);
    assert(depth_spec(ns, ns[n - 1].id@) is Ok && depth_spec(ns, ns[n - 1].id@)->Ok_0 <= MAX_DEPTH);
    lemma_chain_top(ns, segs, n);
    assert(ns.take(n) =~= ns);
    crate::map::model::lemma_idx_of_unique(ns, ns[0].id@, 0);
    lemma_chain_nodes(ns, segs);
    lemma_chain_walk_all(ns, segs, 0, ns.len() as nat);
    assert(segs.skip(0) =~= segs);
    // the joined string passes the same check as the imported one
    assert(crate::organize::first_segment_error(segments(out)) == crate::organize::first_segment_error(segs));
    assert forall|name: Seq<char>|
        name == crate::organize::PH_PROJECT@ || name == crate::organize::PH_DATE@ || name == crate::organize::PH_DEVICE@
        implies crate::organize::contains_sub(out, #[trigger] crate::organize::braced(name))
            == crate::organize::contains_sub(raw, crate::organize::braced(name)) by {
        lemma_placeholder_piece(name);
        crate::organize::lemma_segments(raw, crate::organize::braced(name));
        crate::organize::lemma_segments(out, crate::organize::braced(name));
    }
    assert(template_check(out) == template_check(raw));
}

} // verus!
