//! Refreshing nodes from folders made by hand on disk: one way (disk → map), read
//! only, additions only.
//!
//! The plan is shown to the user before anything enters the tree; names that cannot
//! become nodes are listed apart with their reason rather than swallowed. Merging a
//! plan is atomic: every addition passes, or the map stays as it was.

use vstd::prelude::*;
use crate::map::edit::{copy_node, leaf_added, ov};
use crate::map::model::{
    copy_map_error, has_node, idx_of, lemma_idx_of, name_issue, same_name, sv, wf_parts,
    Assignment, FolderMap, MapError, MapNode,
};
use crate::map::model::{children_spec, first_named, top_level, validate_node_name, MAX_DEPTH};
use crate::map::template::{same_fields, segment_failure};
use crate::map::edit::add_check;
use crate::map::model::{depth_spec, sibling_clash, MapErrorV};
use crate::text::{sort_texts, text_le};
use crate::text::{
    ascii_lower_chars, ascii_lower_seq, chars_of, join, join_seq, seq_eq, str_eq, views,
};

verus! {

/// A folder that the refresh would add (relative to the project root, parents first).
#[derive(Debug, Clone, PartialEq, Eq)]
pub struct RefreshAddition {
    pub segments: Vec<String>,
}

impl RefreshAddition {
    /// The relative path shown in the preview: the segments joined with `/`.
    pub fn display_path(&self) -> (r: String)
        ensures
            r@ == join_seq(views(self.segments@), '/'),
    {
        join(self.segments.as_slice(), '/')
    }
}

/// A folder that cannot become a node, with the reason (its name fails the node-name
/// checks). It is shown, never merged.
#[derive(Debug, Clone, PartialEq, Eq)]
pub struct RefreshSkipped {
    pub segments: Vec<String>,
    pub reason: MapError,
}

impl RefreshSkipped {
    /// The relative path shown in the "cannot merge" list.
    pub fn display_path(&self) -> (r: String)
        ensures
            r@ == join_seq(views(self.segments@), '/'),
    {
        join(self.segments.as_slice(), '/')
    }
}

/// A refresh preview: merged only after the user confirms it.
#[derive(Debug, Clone, PartialEq, Eq)]
pub struct RefreshPlan {
    /// A parent folder always comes before its children.
    pub additions: Vec<RefreshAddition>,
    pub skipped: Vec<RefreshSkipped>,
}

/// The display path of an addition.
pub open spec fn path_of(a: RefreshAddition) -> Seq<char> {
    join_seq(views(a.segments@), '/')
}

/// The additions whose display path is one of `confirmed`, in order.
pub open spec fn confirmed_additions(adds: Seq<RefreshAddition>, confirmed: Seq<Seq<char>>) -> Seq<RefreshAddition>
    decreases adds.len(),
{
    if adds.len() == 0 {
        adds
    } else {
        let r = confirmed_additions(adds.drop_last(), confirmed);
        if confirmed.contains(path_of(adds.last())) { r.push(adds.last()) } else { r }
    }
}

/// A copy of a list of path segments.
fn copy_segments(v: &Vec<String>) -> (r: Vec<String>)
    ensures
        r@ == v@,
{
    crate::map::edit::copy_ids(v)
}

impl RefreshPlan {
    /// An empty plan.
    pub fn new() -> (r: RefreshPlan)
        ensures
            r.additions@.len() == 0,
            r.skipped@.len() == 0,
    {
        RefreshPlan { additions: Vec::new(), skipped: Vec::new() }
    }

    /// Nothing to add and nothing to report.
    pub fn is_empty(&self) -> (r: bool)
        ensures
            r == (self.additions@.len() == 0 && self.skipped@.len() == 0),
    {
        self.additions.len() == 0 && self.skipped.len() == 0
    }

    /// Keeps only the additions whose display path the user confirmed. The disk may
    /// have changed between preview and merge: an addition that was not confirmed is
    /// left for the next refresh, and a confirmed one that is gone just disappears.
    /// `skipped` is kept as it is: it is only shown.
    pub fn confirmed_only(&self, confirmed: &[String]) -> (r: RefreshPlan)
        ensures
            r.additions@.len() == confirmed_additions(self.additions@, views(confirmed@)).len(),
            forall|k: int| 0 <= k < r.additions@.len() ==> (#[trigger] r.additions@[k]).segments@
                == confirmed_additions(self.additions@, views(confirmed@))[k].segments@,
            r.skipped@.len() == self.skipped@.len(),
            forall|k: int| 0 <= k < r.skipped@.len() ==> {
                &&& (#[trigger] r.skipped@[k]).segments@ == self.skipped@[k].segments@
                &&& r.skipped@[k].reason@ == self.skipped@[k].reason@
            },
    {
        let mut adds: Vec<RefreshAddition> = Vec::new();
        let mut i: usize = 0;
        while i < self.additions.len()
            invariant
                i <= self.additions@.len(),
                adds@.len() == confirmed_additions(self.additions@.take(i as int), views(confirmed@)).len(),
                forall|t: int| 0 <= t < adds@.len() ==> (#[trigger] adds@[t]).segments@
                    == confirmed_additions(self.additions@.take(i as int), views(confirmed@))[t].segments@,
            decreases self.additions@.len() - i,
        {
            proof {
                assert(self.additions@.take(i + 1).drop_last() =~= self.additions@.take(i as int));
                assert(self.additions@.take(i + 1).last() == self.additions@[i as int]);
            }
            let p = self.additions[i].display_path();
            let mut found = false;
            let mut k: usize = 0;
            while k < confirmed.len()
                invariant
                    k <= confirmed@.len(),
                    found == exists|j: int| 0 <= j < k && (#[trigger] confirmed@[j])@ == p@,
                decreases confirmed@.len() - k,
            {
                if str_eq(confirmed[k].as_str(), p.as_str()) {
                    found = true;
                }
                k = k + 1;
            }
            proof {
                if found {
                    let j = choose|j: int| 0 <= j < confirmed@.len() && (#[trigger] confirmed@[j])@ == p@;
                    assert(views(confirmed@)[j] == p@);
                } else {
                    assert forall|j: int| 0 <= j < views(confirmed@).len() implies views(confirmed@)[j] != p@ by {
                        assert(views(confirmed@)[j] == confirmed@[j]@);
                    }
                }
            }
            if found {
                let a = RefreshAddition { segments: copy_segments(&self.additions[i].segments) };
                adds.push(a);
            }
            i = i + 1;
        }
        proof {
            assert(self.additions@.take(self.additions@.len() as int) =~= self.additions@);
        }
        let mut skipped: Vec<RefreshSkipped> = Vec::new();
        let mut j: usize = 0;
        while j < self.skipped.len()
            invariant
                j <= self.skipped@.len(),
                skipped@.len() == j,
                forall|k: int| 0 <= k < j ==> {
                    &&& (#[trigger] skipped@[k]).segments@ == self.skipped@[k].segments@
                    &&& skipped@[k].reason@ == self.skipped@[k].reason@
                },
            decreases self.skipped@.len() - j,
        {
            skipped.push(RefreshSkipped {
                segments: copy_segments(&self.skipped[j].segments),
                reason: copy_map_error(&self.skipped[j].reason),
            });
            j = j + 1;
        }
        RefreshPlan { additions: adds, skipped }
    }
}

/// Folders a refresh leaves out: hidden ones (starting with `.`) and the system's
/// own clutter, compared without regard to ASCII case.
pub open spec fn excluded_name(name: Seq<char>) -> bool {
    ||| (name.len() > 0 && name[0] == '.')
    ||| ascii_lower_seq(name) == ascii_lower_seq("$RECYCLE.BIN"@)
    ||| ascii_lower_seq(name) == ascii_lower_seq("System Volume Information"@)
}

/// Whether a folder is left out of refreshes: hidden (`.` first) or system clutter
/// (`$RECYCLE.BIN`, `System Volume Information`, in any ASCII case).
pub fn is_excluded_dir(name: &str) -> (r: bool)
    ensures
        r == excluded_name(name@),
{
    let v = chars_of(name);
    if v.len() > 0 && v[0] == '.' {
        return true;
    }
    let low = ascii_lower_chars(v.as_slice());
    let bin = ascii_lower_chars(chars_of("$RECYCLE.BIN").as_slice());
    let svi = ascii_lower_chars(chars_of("System Volume Information").as_slice());
    seq_eq(low.as_slice(), bin.as_slice()) || seq_eq(low.as_slice(), svi.as_slice())
}

/// `ns2` grew from `ns` by additions only: every old node keeps its id, name and
/// parent (child lists may gain entries), and the new nodes come after them.
pub open spec fn only_added(ns: Seq<MapNode>, ns2: Seq<MapNode>) -> bool {
    &&& ns.len() <= ns2.len()
    &&& forall|i: int| 0 <= i < ns.len() ==> {
        &&& (#[trigger] ns2[i]).id == ns[i].id
        &&& ns2[i].name == ns[i].name
        &&& ns2[i].parent == ns[i].parent
    }
}

/// Whether `name` is one of the segments of the plan's additions.
pub open spec fn plan_segment(adds: Seq<RefreshAddition>, name: Seq<char>) -> bool {
    exists|a: int, k: int| 0 <= a < adds.len() && 0 <= k < adds[a].segments@.len() && (#[trigger] adds[a].segments@[k])@ == name
}

/// Node positions `ix` spell the path `segs` from the top level down: each node's name
/// matches its segment without regard to case, and each node is a child of the one
/// before it.
pub open spec fn path_at(ns: Seq<MapNode>, segs: Seq<String>, ix: Seq<int>) -> bool {
    &&& ix.len() == segs.len()
    &&& forall|j: int| 0 <= j < ix.len() ==> {
        &&& 0 <= #[trigger] ix[j] < ns.len()
        &&& same_name(ns[ix[j]].name@, segs[j]@)
        &&& sv(ns[ix[j]].parent) == if j == 0 { None } else { Some(ns[ix[j - 1]].id@) }
    }
}

/// The path `segs` is present in the map, from the top level down.
pub open spec fn path_present(ns: Seq<MapNode>, segs: Seq<String>) -> bool {
    exists|ix: Seq<int>| path_at(ns, segs, ix)
}

/// The level a walk has reached: the top level before the first segment, else the node
/// of the last segment walked.
pub open spec fn walked_to(ns: Seq<MapNode>, ix: Seq<int>, parent: Option<Seq<char>>) -> bool {
    if ix.len() == 0 { parent is None } else { parent == Some(ns[ix[ix.len() - 1]].id@) }
}

/// A path stays present when nodes are only added.
proof fn lemma_path_kept(ns: Seq<MapNode>, ns2: Seq<MapNode>, segs: Seq<String>, ix: Seq<int>)
    requires
        path_at(ns, segs, ix),
        only_added(ns, ns2),
    ensures
        path_at(ns2, segs, ix),
{
    assert forall|j: int| 0 <= j < ix.len() implies {
        &&& 0 <= #[trigger] ix[j] < ns2.len()
        &&& same_name(ns2[ix[j]].name@, segs[j]@)
        &&& sv(ns2[ix[j]].parent) == if j == 0 { None } else { Some(ns2[ix[j - 1]].id@) }
    } by {
        assert(ns2[ix[j]] == ns2[ix[j]]);
        if j > 0 {
            assert(0 <= ix[j - 1] < ns.len());
            assert(ns2[ix[j - 1]] == ns2[ix[j - 1]]);
        }
    }
}

/// Following a matching child extends the walked path by one segment.
proof fn lemma_path_child(ns: Seq<MapNode>, asg: Seq<Assignment>, segs: Seq<String>, ix: Seq<int>, parent: Option<Seq<char>>, f: int) -> (m: int)
    requires
        wf_parts(ns, asg),
        ix.len() < segs.len(),
        path_at(ns, segs.take(ix.len() as int), ix),
        walked_to(ns, ix, parent),
        f == first_named(children_spec(ns, parent), segs[ix.len() as int]@),
        f >= 0,
    ensures
        0 <= m < ns.len(),
        ns[m] == children_spec(ns, parent)[f],
        path_at(ns, segs.take(ix.len() as int + 1), ix.push(m)),
{
    let k = ix.len() as int;
    let kids = children_spec(ns, parent);
    crate::map::model::lemma_first_named(kids, segs[k]@);
    let m: int = match parent {
        None => {
            crate::map::model::lemma_top_level(ns);
            let j = choose|j: int| #![trigger ns[j]] 0 <= j < ns.len() && top_level(ns)[f] == ns[j] && ns[j].parent is None;
            assert(sv(ns[j].parent) == None::<Seq<char>>);
            j
        },
        Some(pid) => {
            let q = ix[k - 1];
            assert(0 <= q < ns.len());
            assert(pid == ns[q].id@);
            crate::map::model::lemma_idx_of_unique(ns, pid, q);
            let ids = ns[q].children@;
            let mm = crate::map::model::lemma_kid_at(ns, ids, f);
            crate::map::model::lemma_child_back(ns, q, mm);
            lemma_idx_of(ns, ids[mm]@);
            idx_of(ns, ids[mm]@)
        },
    };
    let ix2 = ix.push(m);
    let st = segs.take(k + 1);
    assert forall|j: int| 0 <= j < ix2.len() implies {
        &&& 0 <= #[trigger] ix2[j] < ns.len()
        &&& same_name(ns[ix2[j]].name@, st[j]@)
        &&& sv(ns[ix2[j]].parent) == if j == 0 { None } else { Some(ns[ix2[j - 1]].id@) }
    } by {
        if j < k {
            assert(ix2[j] == ix[j]);
            assert(st[j] == segs.take(k)[j]);
            if j > 0 {
                assert(ix2[j - 1] == ix[j - 1]);
            }
        } else {
            assert(ix2[j] == m);
            assert(st[j] == segs[k]);
            if j > 0 {
                assert(ix2[j - 1] == ix[j - 1]);
            }
        }
    }
    m
}

/// Adding a leaf for the next segment under the level reached extends the walked path.
proof fn lemma_path_added(ns: Seq<MapNode>, ns2: Seq<MapNode>, segs: Seq<String>, ix: Seq<int>, parent: Option<Seq<char>>, id: Seq<char>)
    requires
        ix.len() < segs.len(),
        path_at(ns, segs.take(ix.len() as int), ix),
        walked_to(ns, ix, parent),
        leaf_added(ns, ns2, parent, segs[ix.len() as int]@, id),
    ensures
        path_at(ns2, segs.take(ix.len() as int + 1), ix.push(ns.len() as int)),
        walked_to(ns2, ix.push(ns.len() as int), Some(id)),
        only_added(ns, ns2),
{
    let k = ix.len() as int;
    let ix2 = ix.push(ns.len() as int);
    let st = segs.take(k + 1);
    assert forall|t: int| 0 <= t < ns.len() implies {
        &&& (#[trigger] ns2[t]).id == ns[t].id
        &&& ns2[t].name == ns[t].name
        &&& ns2[t].parent == ns[t].parent
    } by {
        assert(ns2[t] == ns2[t]);
    }
    assert(ns2[ns.len() as int] == ns2.last());
    assert forall|j: int| 0 <= j < ix2.len() implies {
        &&& 0 <= #[trigger] ix2[j] < ns2.len()
        &&& same_name(ns2[ix2[j]].name@, st[j]@)
        &&& sv(ns2[ix2[j]].parent) == if j == 0 { None } else { Some(ns2[ix2[j - 1]].id@) }
    } by {
        if j < k {
            assert(ix2[j] == ix[j]);
            assert(st[j] == segs.take(k)[j]);
            assert(ns2[ix[j]] == ns2[ix[j]]);
            if j > 0 {
                assert(ix2[j - 1] == ix[j - 1]);
                assert(ns2[ix[j - 1]] == ns2[ix[j - 1]]);
            }
        } else {
            assert(ix2[j] == ns.len());
            assert(st[j] == segs[k]);
            if j > 0 {
                assert(ix2[j - 1] == ix[j - 1]);
                assert(ns2[ix[j - 1]] == ns2[ix[j - 1]]);
            }
        }
    }
}

/// The node reached after walking `ix.len()` segments from the top lies that deep.
proof fn lemma_walk_depth(ns: Seq<MapNode>, asg: Seq<Assignment>, segs: Seq<String>, ix: Seq<int>)
    requires
        wf_parts(ns, asg),
        path_at(ns, segs, ix),
        ix.len() > 0,
    ensures
        depth_spec(ns, ns[ix.last()].id@) == Ok::<nat, MapErrorV>(ix.len()),
    decreases ix.len(),
{
    let k = ix.len() - 1;
    assert(0 <= ix[k] < ns.len());
    if k == 0 {
        crate::map::model::lemma_idx_of_unique(ns, ns[ix[0]].id@, ix[0]);
    } else {
        let d = ix.drop_last();
        let ds = segs.drop_last();
        assert forall|j: int| 0 <= j < d.len() implies {
            &&& 0 <= #[trigger] d[j] < ns.len()
            &&& same_name(ns[d[j]].name@, ds[j]@)
            &&& sv(ns[d[j]].parent) == if j == 0 { None } else { Some(ns[d[j - 1]].id@) }
        } by {
            assert(d[j] == ix[j]);
            assert(ds[j] == segs[j]);
            if j > 0 {
                assert(d[j - 1] == ix[j - 1]);
            }
        }
        lemma_walk_depth(ns, asg, ds, d);
        assert(0 <= ix[k - 1] < ns.len());
        let c = ns[ix[k]].id@;
        let p = ns[ix[k - 1]].id@;
        crate::map::model::lemma_idx_of_unique(ns, c, ix[k]);
        crate::map::model::lemma_idx_of_unique(ns, p, ix[k - 1]);
        crate::map::edit::lemma_depth_child(ns, c, p);
    }
}

/// Where a walk finds no matching child, adding the next segment there is refused
/// exactly for that segment's own failure at that depth.
proof fn lemma_merge_check(ns: Seq<MapNode>, asg: Seq<Assignment>, segs: Seq<String>, ix: Seq<int>, parent: Option<Seq<char>>)
    requires
        wf_parts(ns, asg),
        ix.len() < segs.len(),
        path_at(ns, segs.take(ix.len() as int), ix),
        walked_to(ns, ix, parent),
        first_named(children_spec(ns, parent), segs[ix.len() as int]@) < 0,
    ensures
        add_check(ns, parent, segs[ix.len() as int]@) == segment_failure(segs[ix.len() as int]@, ix.len() as int),
{
    let k = ix.len() as int;
    let name = segs[k]@;
    crate::map::model::lemma_first_named(children_spec(ns, parent), name);
    assert(!sibling_clash(ns, parent, name, None));
    if k > 0 {
        lemma_walk_depth(ns, asg, segs.take(k), ix);
    }
}

/// A node-by-node copy has the same invariant.
proof fn lemma_copy_wf(ns: Seq<MapNode>, ns2: Seq<MapNode>, asg: Seq<Assignment>)
    requires
        wf_parts(ns, asg),
        ns2.len() == ns.len(),
        forall|k: int| 0 <= k < ns.len() ==> same_fields(#[trigger] ns2[k], ns[k]),
    ensures
        wf_parts(ns2, asg),
{
    crate::map::edit::lemma_same_shape(ns, ns2);
    assert forall|k: int| 0 <= k < ns2.len() implies name_issue(#[trigger] ns2[k].name@) is None by {
        assert(same_fields(ns2[k], ns[k]));
    }
    assert forall|a: int, b: int|
        0 <= a < ns2.len() && 0 <= b < ns2.len() && a != b && sv(ns2[a].parent) == sv(ns2[b].parent) implies !same_name(
        #[trigger] ns2[a].name@,
        #[trigger] ns2[b].name@,
    ) by {
        assert(same_fields(ns2[a], ns[a]) && same_fields(ns2[b], ns[b]));
    }
    assert forall|a: int| 0 <= a < asg.len() implies has_node(ns2, #[trigger] asg[a].node_id@) by {
        assert(idx_of(ns2, asg[a].node_id@) == idx_of(ns, asg[a].node_id@));
    }
}

/// A copy of a map, node by node and assignment by assignment.
fn copy_map(m: &FolderMap) -> (r: FolderMap)
    ensures
        r.nodes@.len() == m.nodes@.len(),
        forall|k: int| 0 <= k < m.nodes@.len() ==> same_fields(#[trigger] r.nodes@[k], m.nodes@[k]),
        r.assignments@ == m.assignments@,
        m.wf() ==> r.wf(),
{
    let mut nodes: Vec<MapNode> = Vec::new();
    let mut i: usize = 0;
    while i < m.nodes.len()
        invariant
            i <= m.nodes@.len(),
            nodes@.len() == i,
            forall|k: int| 0 <= k < i ==> same_fields(#[trigger] nodes@[k], m.nodes@[k]),
        decreases m.nodes@.len() - i,
    {
        nodes.push(copy_node(&m.nodes[i]));
        i = i + 1;
    }
    let mut asg: Vec<Assignment> = Vec::new();
    let mut j: usize = 0;
    while j < m.assignments.len()
        invariant
            j <= m.assignments@.len(),
            asg@ == m.assignments@.take(j as int),
        decreases m.assignments@.len() - j,
    {
        asg.push(crate::map::edit::copy_assignment(&m.assignments[j]));
        j = j + 1;
        proof {
            assert(asg@ =~= m.assignments@.take(j as int));
        }
    }
    proof {
        assert(m.assignments@.take(m.assignments@.len() as int) =~= m.assignments@);
    }
    let r = FolderMap { nodes, assignments: asg };
    proof {
        if m.wf() {
            lemma_copy_wf(m.nodes@, r.nodes@, m.assignments@);
        }
    }
    r
}

/// Two node lists with the same nodes, field by field: ids, names and parents equal,
/// and the same child ids in the same order.
pub open spec fn same_nodes(a: Seq<MapNode>, b: Seq<MapNode>) -> bool {
    &&& a.len() == b.len()
    &&& forall|k: int| 0 <= k < a.len() ==> same_fields(#[trigger] a[k], b[k])
}

/// What merging the path `segs` does from its `k`-th segment on, under `parent`, when
/// the nodes it adds take the ids `ids` in turn and the map ends as `fin`: a segment
/// that matches a child of `parent` (the first, without regard to case) is followed;
/// any other becomes a new leaf under `parent` with the next id, one not yet in the
/// map. No id is left over, and nothing else changes.
pub open spec fn path_merge(ns: Seq<MapNode>, segs: Seq<String>, k: int, parent: Option<Seq<char>>, ids: Seq<Seq<char>>, fin: Seq<MapNode>) -> bool
    decreases segs.len() - k,
{
    if !(0 <= k < segs.len()) {
        ids.len() == 0 && fin == ns
    } else {
        let kids = children_spec(ns, parent);
        let f = first_named(kids, segs[k]@);
        if f >= 0 {
            path_merge(ns, segs, k + 1, Some(kids[f].id@), ids, fin)
        } else {
            &&& ids.len() > 0
            &&& !has_node(ns, ids[0])
            &&& exists|ns2: Seq<MapNode>| #[trigger] leaf_added(ns, ns2, parent, segs[k]@, ids[0])
                && path_merge(ns2, segs, k + 1, Some(ids[0]), ids.drop_first(), fin)
        }
    }
}

/// What merging the additions from the `i`-th on does: each addition's path merged in
/// turn from the top level, the new nodes taking the ids `ids` in order, ending as `fin`.
pub open spec fn plan_merge(ns: Seq<MapNode>, adds: Seq<RefreshAddition>, i: int, ids: Seq<Seq<char>>, fin: Seq<MapNode>) -> bool
    decreases adds.len() - i,
{
    if !(0 <= i < adds.len()) {
        ids.len() == 0 && fin == ns
    } else {
        exists|mid: Seq<MapNode>, a: Seq<Seq<char>>|
            a.len() <= ids.len() && a == ids.take(a.len() as int) && #[trigger] path_merge(ns, adds[i].segments@, 0, None, a, mid)
                && plan_merge(mid, adds, i + 1, ids.skip(a.len() as int), fin)
    }
}

/// Following a matching child: a merge of the rest from the child is a merge from here.
proof fn lemma_path_merge_follow(ns: Seq<MapNode>, segs: Seq<String>, k: int, parent: Option<Seq<char>>, ids: Seq<Seq<char>>, fin: Seq<MapNode>)
    requires
        0 <= k < segs.len(),
        first_named(children_spec(ns, parent), segs[k]@) >= 0,
        path_merge(ns, segs, k + 1, Some(children_spec(ns, parent)[first_named(children_spec(ns, parent), segs[k]@)].id@), ids, fin),
    ensures
        path_merge(ns, segs, k, parent, ids, fin),
{
}

/// Adding a leaf: a merge of the rest from the new leaf is a merge from here.
proof fn lemma_path_merge_add(ns: Seq<MapNode>, ns2: Seq<MapNode>, segs: Seq<String>, k: int, parent: Option<Seq<char>>, id: Seq<char>, ids: Seq<Seq<char>>, fin: Seq<MapNode>)
    requires
        0 <= k < segs.len(),
        first_named(children_spec(ns, parent), segs[k]@) < 0,
        !has_node(ns, id),
        leaf_added(ns, ns2, parent, segs[k]@, id),
        path_merge(ns2, segs, k + 1, Some(id), ids, fin),
    ensures
        path_merge(ns, segs, k, parent, seq![id] + ids, fin),
{
    assert((seq![id] + ids).drop_first() =~= ids);
    assert((seq![id] + ids)[0] == id);
}

/// The end of a path: nothing more to merge.
proof fn lemma_path_merge_end(ns: Seq<MapNode>, segs: Seq<String>, parent: Option<Seq<char>>)
    ensures
        path_merge(ns, segs, segs.len() as int, parent, Seq::empty(), ns),
{
}

/// One addition merged, then the rest: a merge of the additions from here.
proof fn lemma_plan_merge_step(ns: Seq<MapNode>, mid: Seq<MapNode>, adds: Seq<RefreshAddition>, i: int, a: Seq<Seq<char>>, b: Seq<Seq<char>>, fin: Seq<MapNode>)
    requires
        0 <= i < adds.len(),
        path_merge(ns, adds[i].segments@, 0, None, a, mid),
        plan_merge(mid, adds, i + 1, b, fin),
    ensures
        plan_merge(ns, adds, i, a + b, fin),
{
    assert((a + b).take(a.len() as int) =~= a);
    assert((a + b).skip(a.len() as int) =~= b);
}

/// Walks one addition's path from the top, following a child that matches each
/// segment without regard to case and adding a node where none does. The nodes it
/// adds are appended to `created`.
#[verifier::spinoff_prover]
#[verifier::rlimit(50)]
fn merge_path(
    work: &mut FolderMap,
    segs: &Vec<String>,
    created: &mut Vec<String>,
    Ghost(ns0): Ghost<Seq<MapNode>>,
    Ghost(adds): Ghost<Seq<RefreshAddition>>,
    Ghost(i): Ghost<int>,
) -> (r: Result<(), MapError>)
    requires
        0 <= i < adds.len(),
        segs@ == adds[i].segments@,
        only_added(ns0, old(work).nodes@),
        old(work).nodes@.len() == ns0.len() + old(created)@.len(),
        forall|t: int| 0 <= t < old(created)@.len() ==> (#[trigger] old(created)@[t])@ == old(work).nodes@[ns0.len() + t].id@,
        forall|t: int| ns0.len() <= t < old(work).nodes@.len() ==> plan_segment(adds, #[trigger] old(work).nodes@[t].name@),
    ensures
        match r {
            Ok(()) => {
                &&& only_added(ns0, final(work).nodes@)
                &&& only_added(old(work).nodes@, final(work).nodes@)
                &&& final(work).nodes@.len() == ns0.len() + final(created)@.len()
                &&& forall|t: int| 0 <= t < final(created)@.len() ==> (#[trigger] final(created)@[t])@ == final(work).nodes@[ns0.len() + t].id@
                &&& forall|t: int| ns0.len() <= t < final(work).nodes@.len() ==> plan_segment(adds, #[trigger] final(work).nodes@[t].name@)
                &&& final(work).assignments@ == old(work).assignments@
                &&& old(work).wf() ==> final(work).wf()
                &&& old(work).wf() ==> path_present(final(work).nodes@, segs@)
                &&& old(created)@.len() <= final(created)@.len()
                &&& views(final(created)@).take(old(created)@.len() as int) == views(old(created)@)
                &&& path_merge(old(work).nodes@, segs@, 0, None, views(final(created)@).skip(old(created)@.len() as int), final(work).nodes@)
            },
            Err(e) => {
                &&& crate::map::template::add_error_kind(e@)
                &&& old(work).wf() ==> exists|k: int| 0 <= k < segs@.len() && #[trigger] segment_failure(segs@[k]@, k) == Some(e@)
            },
        },
{
    let ghost w0 = work.nodes@;
    let ghost wf0 = work.wf();
    let ghost c0 = views(created@);
    let mut parent: Option<String> = None;
    let mut k: usize = 0;
    let ghost mut ix: Seq<int> = Seq::empty();
    let ghost mut used: Seq<Seq<char>> = Seq::empty();
    proof {
        assert(c0 + used =~= c0);
        assert forall|rest: Seq<Seq<char>>, fin: Seq<MapNode>| #[trigger] path_merge(work.nodes@, segs@, k as int, sv(parent), rest, fin)
            implies path_merge(w0, segs@, 0, None, used + rest, fin) by {
            assert(used + rest =~= rest);
        }
    }
    proof {
        assert(path_at(work.nodes@, segs@.take(0), ix));
        assert forall|t: int| 0 <= t < w0.len() implies {
            &&& (#[trigger] w0[t]).id == w0[t].id
            &&& w0[t].name == w0[t].name
            &&& w0[t].parent == w0[t].parent
        } by {}
    }
    while k < segs.len()
        invariant
            0 <= i < adds.len(),
            segs@ == adds[i].segments@,
            k <= segs@.len(),
            only_added(ns0, work.nodes@),
            only_added(w0, work.nodes@),
            work.nodes@.len() == ns0.len() + created@.len(),
            forall|t: int| 0 <= t < created@.len() ==> (#[trigger] created@[t])@ == work.nodes@[ns0.len() + t].id@,
            forall|t: int| ns0.len() <= t < work.nodes@.len() ==> plan_segment(adds, #[trigger] work.nodes@[t].name@),
            work.assignments@ == old(work).assignments@,
            wf0 == old(work).wf(),
            wf0 ==> work.wf(),
            wf0 ==> path_at(work.nodes@, segs@.take(k as int), ix),
            wf0 ==> walked_to(work.nodes@, ix, sv(parent)),
            c0 == views(old(created)@),
            views(created@) == c0 + used,
            forall|rest: Seq<Seq<char>>, fin: Seq<MapNode>| #[trigger] path_merge(work.nodes@, segs@, k as int, sv(parent), rest, fin)
                ==> path_merge(w0, segs@, 0, None, used + rest, fin),
        decreases segs@.len() - k,
    {
        let p: Option<&str> = match &parent {
            Some(s) => Some(s.as_str()),
            None => None,
        };
        let existing: Option<String> = match work.find_child(p, segs[k].as_str()) {
            Some(n) => Some(n.id.clone()),
            None => None,
        };
        proof {
            assert(ov(p) == sv(parent));
        }
        match existing {
            Some(id) => {
                proof {
                    if wf0 {
                        let kids = children_spec(work.nodes@, sv(parent));
                        let f = first_named(kids, segs@[k as int]@);
                        let m = lemma_path_child(work.nodes@, work.assignments@, segs@, ix, sv(parent), f);
                        ix = ix.push(m);
                    }
                    let kids = children_spec(work.nodes@, sv(parent));
                    let f = first_named(kids, segs@[k as int]@);
                    assert(id@ == kids[f].id@);
                    assert forall|rest: Seq<Seq<char>>, fin: Seq<MapNode>| #[trigger] path_merge(work.nodes@, segs@, k as int + 1, Some(id@), rest, fin)
                        implies path_merge(w0, segs@, 0, None, used + rest, fin) by {
                        lemma_path_merge_follow(work.nodes@, segs@, k as int, sv(parent), rest, fin);
                    }
                }
                parent = Some(id);
            },
            None => {
                let ghost before = work.nodes@;
                match work.add_node(p, segs[k].as_str()) {
                    Err(e) => {
                        proof {
                            if let Some(pp) = ov(p) {
                                if crate::map::model::depth_spec(before, pp) is Err {
                                    assert(crate::map::template::add_error_kind(e@));
                                }
                            }
                            if wf0 {
                                lemma_merge_check(before, work.assignments@, segs@, ix, sv(parent));
                                assert(segment_failure(segs@[k as int]@, k as int) == Some(e@));
                            }
                        }
                        return Err(e);
                    },
                    Ok(id) => {
                        let ghost after = work.nodes@;
                        proof {
                            if wf0 {
                                lemma_path_added(before, after, segs@, ix, sv(parent), id@);
                                ix = ix.push(before.len() as int);
                            }
                            assert forall|t: int| 0 <= t < w0.len() implies {
                                &&& (#[trigger] after[t]).id == w0[t].id
                                &&& after[t].name == w0[t].name
                                &&& after[t].parent == w0[t].parent
                            } by {
                                assert(after[t] == after[t] && before[t] == before[t]);
                            }
                            assert forall|t: int| 0 <= t < ns0.len() implies {
                                &&& (#[trigger] after[t]).id == ns0[t].id
                                &&& after[t].name == ns0[t].name
                                &&& after[t].parent == ns0[t].parent
                            } by {
                                assert(after[t] == after[t] && before[t] == before[t]);
                            }
                            assert forall|t: int| ns0.len() <= t < after.len() implies plan_segment(adds, #[trigger] after[t].name@) by {
                                if t < before.len() {
                                    assert(after[t] == after[t] && before[t] == before[t]);
                                } else {
                                    assert(after[t] == after.last());
                                    assert(adds[i].segments@[k as int]@ == after[t].name@);
                                }
                            }
                        }
                        let ghost cb = created@;
                        created.push(id.clone());
                        proof {
                            assert forall|t: int| 0 <= t < created@.len() implies (#[trigger] created@[t])@ == after[ns0.len() + t].id@ by {
                                if t < cb.len() {
                                    assert(created@[t] == cb[t]);
                                    assert(after[ns0.len() + t] == after[ns0.len() + t]);
                                    assert(before[ns0.len() + t] == before[ns0.len() + t]);
                                } else {
                                    assert(after[ns0.len() + t] == after.last());
                                }
                            }
                            assert forall|rest: Seq<Seq<char>>, fin: Seq<MapNode>| #[trigger] path_merge(after, segs@, k as int + 1, Some(id@), rest, fin)
                                implies path_merge(w0, segs@, 0, None, used.push(id@) + rest, fin) by {
                                lemma_path_merge_add(before, after, segs@, k as int, sv(parent), id@, rest, fin);
                                assert(path_merge(before, segs@, k as int, sv(parent), seq![id@] + rest, fin));
                                assert(used.push(id@) + rest =~= used + (seq![id@] + rest));
                            }
                            assert(created@.last()@ == id@);
                            assert(created@.drop_last() =~= cb);
                            assert(views(cb) == c0 + used);
                            assert(views(created@) =~= views(cb).push(id@));
                            assert(views(created@) =~= c0 + used.push(id@));
                            used = used.push(id@);
                        }
                        parent = Some(id);
                    },
                }
            },
        }
        k = k + 1;
    }
    proof {
        if wf0 {
            assert(segs@.take(k as int) =~= segs@);
        }
        lemma_path_merge_end(work.nodes@, segs@, sv(parent));
        assert(path_merge(work.nodes@, segs@, k as int, sv(parent), Seq::empty(), work.nodes@));
        assert(used + Seq::<Seq<char>>::empty() =~= used);
        assert(views(created@).skip(c0.len() as int) =~= used);
        assert(views(created@).take(c0.len() as int) =~= c0);
    }
    Ok(())
}

/// Every segment of every addition can become a node at its depth: its name passes
/// the checks of a node name and it lies within the depth limit.
pub open spec fn plan_mergeable(adds: Seq<RefreshAddition>) -> bool {
    forall|a: int, k: int| 0 <= a < adds.len() && 0 <= k < adds[a].segments@.len()
        ==> #[trigger] segment_failure(adds[a].segments@[k]@, k) is None
}

/// Merges the confirmed plan into the map and returns the ids of the nodes it
/// created. Each addition is walked from the top: a segment that matches an existing
/// child (without regard to case) is followed, any other is added as a node. Only
/// `additions` are merged. Atomic: the work is done on a copy and swapped in only when
/// every addition passed, so a refused plan leaves the map exactly as it was.
pub fn apply_refresh(map: &mut FolderMap, plan: &RefreshPlan) -> (r: Result<Vec<String>, MapError>)
    ensures
        match r {
            Ok(created) => {
                &&& only_added(old(map).nodes@, final(map).nodes@)
                &&& final(map).nodes@.len() == old(map).nodes@.len() + created@.len()
                &&& forall|k: int| 0 <= k < created@.len() ==> (#[trigger] created@[k])@
                    == final(map).nodes@[old(map).nodes@.len() + k].id@
                &&& final(map).assignments@ == old(map).assignments@
                &&& forall|t: int| old(map).nodes@.len() <= t < final(map).nodes@.len()
                    ==> plan_segment(plan.additions@, #[trigger] final(map).nodes@[t].name@)
                &&& old(map).wf() ==> final(map).wf()
                &&& old(map).wf() ==> forall|a: int| 0 <= a < plan.additions@.len()
                    ==> path_present(final(map).nodes@, #[trigger] plan.additions@[a].segments@)
                &&& exists|start: Seq<MapNode>| same_nodes(start, old(map).nodes@)
                    && #[trigger] plan_merge(start, plan.additions@, 0, views(created@), final(map).nodes@)
            },
            Err(e) => {
                &&& final(map).nodes == old(map).nodes
                &&& final(map).assignments == old(map).assignments
                &&& crate::map::template::add_error_kind(e@)
                &&& old(map).wf() ==> exists|a: int, k: int| 0 <= a < plan.additions@.len() && 0 <= k < plan.additions@[a].segments@.len()
                    && #[trigger] segment_failure(plan.additions@[a].segments@[k]@, k) == Some(e@)
            },
        },
        old(map).wf() && plan_mergeable(plan.additions@) ==> r is Ok,
{
    let ghost ns0 = map.nodes@;
    let mut work = copy_map(map);
    let ghost start = work.nodes@;
    let mut created: Vec<String> = Vec::new();
    let mut i: usize = 0;
    proof {
        assert forall|rest: Seq<Seq<char>>, fin: Seq<MapNode>| #[trigger] plan_merge(work.nodes@, plan.additions@, i as int, rest, fin)
            implies plan_merge(start, plan.additions@, 0, views(created@) + rest, fin) by {
            assert(views(created@) + rest =~= rest);
        }
    }
    proof {
        assert forall|t: int| 0 <= t < ns0.len() implies {
            &&& (#[trigger] work.nodes@[t]).id == ns0[t].id
            &&& work.nodes@[t].name == ns0[t].name
            &&& work.nodes@[t].parent == ns0[t].parent
        } by {
            assert(same_fields(work.nodes@[t], ns0[t]));
        }
    }
    while i < plan.additions.len()
        invariant
            ns0 == map.nodes@,
            *map == *old(map),
            i <= plan.additions@.len(),
            only_added(ns0, work.nodes@),
            work.nodes@.len() == ns0.len() + created@.len(),
            forall|k: int| 0 <= k < created@.len() ==> (#[trigger] created@[k])@ == work.nodes@[ns0.len() + k].id@,
            work.assignments@ == map.assignments@,
            forall|t: int| ns0.len() <= t < work.nodes@.len() ==> plan_segment(plan.additions@, #[trigger] work.nodes@[t].name@),
            map.wf() ==> work.wf(),
            map.wf() ==> forall|a: int| 0 <= a < i ==> path_present(work.nodes@, #[trigger] plan.additions@[a].segments@),
            same_nodes(start, ns0),
            forall|rest: Seq<Seq<char>>, fin: Seq<MapNode>| #[trigger] plan_merge(work.nodes@, plan.additions@, i as int, rest, fin)
                ==> plan_merge(start, plan.additions@, 0, views(created@) + rest, fin),
        decreases plan.additions@.len() - i,
    {
        let ghost before = work.nodes@;
        let ghost cb = views(created@);
        match merge_path(&mut work, &plan.additions[i].segments, &mut created, Ghost(ns0), Ghost(plan.additions@), Ghost(i as int)) {
            Err(e) => {
                proof {
                    if map.wf() {
                        let k = choose|k: int| 0 <= k < plan.additions@[i as int].segments@.len() && #[trigger] segment_failure(plan.additions@[i as int].segments@[k]@, k) == Some(e@);
                        assert(segment_failure(plan.additions@[i as int].segments@[k]@, k) == Some(e@));
                    }
                }
                return Err(e);
            },
            Ok(()) => {},
        }
        proof {
            if map.wf() {
                assert forall|a: int| 0 <= a < i + 1 implies path_present(work.nodes@, #[trigger] plan.additions@[a].segments@) by {
                    if a < i {
                        let w = choose|w: Seq<int>| path_at(before, plan.additions@[a].segments@, w);
                        lemma_path_kept(before, work.nodes@, plan.additions@[a].segments@, w);
                    }
                }
            }
            let used = views(created@).skip(cb.len() as int);
            assert(views(created@) =~= cb + used);
            assert forall|rest: Seq<Seq<char>>, fin: Seq<MapNode>| #[trigger] plan_merge(work.nodes@, plan.additions@, i as int + 1, rest, fin)
                implies plan_merge(start, plan.additions@, 0, views(created@) + rest, fin) by {
                lemma_plan_merge_step(before, work.nodes@, plan.additions@, i as int, used, rest, fin);
                assert(cb + (used + rest) =~= views(created@) + rest);
            }
        }
        i = i + 1;
    }
    proof {
        assert(plan_merge(work.nodes@, plan.additions@, i as int, Seq::empty(), work.nodes@));
        assert(views(created@) + Seq::<Seq<char>>::empty() =~= views(created@));
    }
    *map = work;
    Ok(created)
}

/// Where a folder read during a refresh sits in the map.
#[derive(Debug, Clone, PartialEq, Eq)]
pub enum RefreshAnchor {
    /// The project root: the map's top level.
    Top,
    /// A folder that is an existing node (its id).
    Node(String),
    /// A folder that is itself new: nothing of the map lies under it.
    Fresh,
}

/// What a refresh does with one sub-folder.
#[derive(Debug, Clone, PartialEq, Eq)]
pub enum RefreshStep {
    /// The folder is an existing node: go into it, with that node as anchor.
    Enter { name: String, node_id: String },
    /// The folder is new: list it, then go into it as a fresh folder.
    Add { name: String },
    /// No node can have this name: list it apart with the reason, and do not go into
    /// it (nothing under it could be merged).
    Skip { name: String, reason: MapError },
}

/// The sub-folders a refresh considers, by name: not left out, in character order.
pub open spec fn refresh_order(names: Seq<Seq<char>>) -> Seq<Seq<char>> {
    names.filter(|n: Seq<char>| !excluded_name(n)).sort_by(|a: Seq<char>, b: Seq<char>| text_le(a, b))
}

/// The existing children of an anchor.
pub open spec fn anchor_children(ns: Seq<MapNode>, anchor: RefreshAnchor) -> Seq<MapNode> {
    match anchor {
        RefreshAnchor::Top => children_spec(ns, None),
        RefreshAnchor::Node(id) => children_spec(ns, Some(id@)),
        RefreshAnchor::Fresh => Seq::empty(),
    }
}

/// The step for a sub-folder `name` under `anchor`: enter the first child of that name
/// (any ASCII case); otherwise add it when its name can be a node's, else skip it with
/// the reason.
pub open spec fn step_matches(ns: Seq<MapNode>, anchor: RefreshAnchor, name: Seq<char>, st: RefreshStep) -> bool {
    let kids = anchor_children(ns, anchor);
    let m = first_named(kids, name);
    if m >= 0 {
        st matches RefreshStep::Enter { name: n, node_id } && n@ == name && node_id@ == kids[m].id@
    } else {
        match name_issue(name) {
            None => st matches RefreshStep::Add { name: n } && n@ == name,
            Some(e) => st matches RefreshStep::Skip { name: n, reason } && n@ == name && reason@ == e,
        }
    }
}

impl RefreshStep {
    /// The folder's name.
    pub fn name(&self) -> (r: &str)
        ensures
            r@ == (match *self {
                RefreshStep::Enter { name, .. } => name@,
                RefreshStep::Add { name } => name@,
                RefreshStep::Skip { name, .. } => name@,
            }),
    {
        match self {
            RefreshStep::Enter { name, .. } => name.as_str(),
            RefreshStep::Add { name } => name.as_str(),
            RefreshStep::Skip { name, .. } => name.as_str(),
        }
    }

    /// The anchor to go into the folder with, or `None` when the refresh does not go in.
    pub fn next_anchor(&self) -> (r: Option<RefreshAnchor>)
        ensures
            match *self {
                RefreshStep::Enter { node_id, .. } => r matches Some(RefreshAnchor::Node(id)) && id@ == node_id@,
                RefreshStep::Add { .. } => r == Some(RefreshAnchor::Fresh),
                RefreshStep::Skip { .. } => r is None,
            },
    {
        match self {
            RefreshStep::Enter { node_id, .. } => Some(RefreshAnchor::Node(node_id.clone())),
            RefreshStep::Add { .. } => Some(RefreshAnchor::Fresh),
            RefreshStep::Skip { .. } => None,
        }
    }
}

/// The steps for the sub-folders `names` of a folder at `depth` under `anchor`: one
/// per folder that is not left out, in character order; none at all once the tree's
/// depth limit is reached (a folder there could not be merged). Only names are read.
pub fn refresh_steps(map: &FolderMap, anchor: &RefreshAnchor, depth: usize, names: &[String]) -> (r: Vec<RefreshStep>)
    ensures
        depth >= MAX_DEPTH ==> r@.len() == 0,
        depth < MAX_DEPTH ==> r@.len() == refresh_order(views(names@)).len(),
        depth < MAX_DEPTH ==> forall|k: int| 0 <= k < r@.len() ==>
            step_matches(map.nodes@, *anchor, refresh_order(views(names@))[k], #[trigger] r@[k]),
{
    let mut out: Vec<RefreshStep> = Vec::new();
    if depth >= MAX_DEPTH {
        return out;
    }
    let ghost keep = |n: Seq<char>| !excluded_name(n);
    let mut kept: Vec<String> = Vec::new();
    let mut i: usize = 0;
    while i < names.len()
        invariant
            i <= names@.len(),
            keep == (|n: Seq<char>| !excluded_name(n)),
            views(kept@) == views(names@.take(i as int)).filter(keep),
        decreases names@.len() - i,
    {
        proof {
            assert(names@.take(i + 1).drop_last() =~= names@.take(i as int));
            assert(views(names@.take(i + 1)) =~= views(names@.take(i as int)).push(names@[i as int]@));
            reveal(Seq::filter);
            assert(views(names@.take(i + 1)).drop_last() =~= views(names@.take(i as int)));
        }
        let ghost vt = views(names@.take(i + 1));
        proof {
            assert(vt.last() == names@[i as int]@);
        }
        if !is_excluded_dir(names[i].as_str()) {
            let ghost before = kept@;
            kept.push(names[i].clone());
            proof {
                assert(keep(names@[i as int]@));
                assert(vt.filter(keep) == vt.drop_last().filter(keep).push(vt.last()));
                assert(views(kept@) =~= views(before).push(names@[i as int]@));
            }
        } else {
            proof {
                assert(!keep(names@[i as int]@));
                assert(vt.filter(keep) == vt.drop_last().filter(keep));
            }
        }
        i = i + 1;
    }
    proof {
        assert(names@.take(names@.len() as int) =~= names@);
    }
    let order = sort_texts(kept.as_slice());
    let ghost ord = refresh_order(views(names@));
    proof {
        assert(views(order@) == ord);
    }
    let mut k: usize = 0;
    while k < order.len()
        invariant
            k <= order@.len(),
            views(order@) == ord,
            out@.len() == k,
            forall|t: int| 0 <= t < k ==> step_matches(map.nodes@, *anchor, ord[t], #[trigger] out@[t]),
        decreases order@.len() - k,
    {
        let name = &order[k];
        proof {
            assert(ord[k as int] == name@);
        }
        let found = match anchor {
            RefreshAnchor::Top => map.find_child(None, name.as_str()),
            RefreshAnchor::Node(id) => map.find_child(Some(id.as_str()), name.as_str()),
            RefreshAnchor::Fresh => None,
        };
        let step = match found {
            Some(node) => RefreshStep::Enter { name: name.clone(), node_id: node.id.clone() },
            None => {
                proof {
                    if *anchor is Fresh {
                        assert(anchor_children(map.nodes@, *anchor) =~= Seq::<MapNode>::empty());
                        assert(first_named(Seq::<MapNode>::empty(), name@) < 0);
                    }
                }
                match validate_node_name(name.as_str()) {
                    Ok(()) => RefreshStep::Add { name: name.clone() },
                    Err(reason) => RefreshStep::Skip { name: name.clone(), reason },
                }
            },
        };
        out.push(step);
        k = k + 1;
    }
    proof {
        assert(order@.len() == ord.len());
    }
    out
}

impl RefreshPlan {
    /// Records a step of the walk over the folder at `prefix`: an addition or a
    /// skipped folder at `prefix` + the folder's name; entering an existing node adds
    /// nothing.
    pub fn note(&mut self, prefix: &[String], step: &RefreshStep)
        ensures
            match *step {
                RefreshStep::Enter { .. } => final(self).additions@ == old(self).additions@
                    && final(self).skipped@ == old(self).skipped@,
                RefreshStep::Add { name } => final(self).skipped@ == old(self).skipped@
                    && final(self).additions@.len() == old(self).additions@.len() + 1
                    && final(self).additions@.drop_last() == old(self).additions@
                    && views(final(self).additions@.last().segments@) == views(prefix@).push(name@),
                RefreshStep::Skip { name, reason } => final(self).additions@ == old(self).additions@
                    && final(self).skipped@.len() == old(self).skipped@.len() + 1
                    && final(self).skipped@.drop_last() == old(self).skipped@
                    && views(final(self).skipped@.last().segments@) == views(prefix@).push(name@)
                    && final(self).skipped@.last().reason@ == reason@,
            },
    {
        match step {
            RefreshStep::Enter { .. } => {},
            RefreshStep::Add { name } => {
                let mut segs = segments_of(prefix);
                segs.push(name.clone());
                let ghost before = self.additions@;
                self.additions.push(RefreshAddition { segments: segs });
                proof {
                    assert(self.additions@.drop_last() =~= before);
                }
            },
            RefreshStep::Skip { name, reason } => {
                let mut segs = segments_of(prefix);
                segs.push(name.clone());
                let ghost before = self.skipped@;
                self.skipped.push(RefreshSkipped { segments: segs, reason: copy_map_error(reason) });
                proof {
                    assert(self.skipped@.drop_last() =~= before);
                }
            },
        }
    }
}

fn segments_of(prefix: &[String]) -> (r: Vec<String>)
    ensures
        views(r@) == views(prefix@),
{
    let mut out: Vec<String> = Vec::new();
    let mut i: usize = 0;
    while i < prefix.len()
        invariant
            i <= prefix@.len(),
            views(out@) == views(prefix@.take(i as int)),
        decreases prefix@.len() - i,
    {
        let ghost before = out@;
        out.push(prefix[i].clone());
        proof {
            assert(views(out@) =~= views(before).push(prefix@[i as int]@));
            assert(views(prefix@.take(i + 1)) =~= views(prefix@.take(i as int)).push(prefix@[i as int]@));
        }
        i = i + 1;
    }
    proof {
        assert(prefix@.take(prefix@.len() as int) =~= prefix@);
    }
    out
}

/// The anchor a refresh reads the `j`-th folder of a present path under: the top level
/// for the first, else the node of the folder before it.
pub open spec fn path_anchor(ns: Seq<MapNode>, ix: Seq<int>, j: int) -> RefreshAnchor {
    if j == 0 { RefreshAnchor::Top } else { RefreshAnchor::Node(ns[ix[j - 1]].id) }
}

/// A refresh that reads the folders of a path present in a well-formed map enters an
/// existing node at each of them: none of them is offered again. With `apply_refresh`,
/// which leaves every merged path present, a refresh right after a merge offers none of
/// the merged folders again.
#[verifier::spinoff_prover]
pub proof fn lemma_present_path_entered(ns: Seq<MapNode>, asg: Seq<Assignment>, segs: Seq<String>, ix: Seq<int>, j: int, st: RefreshStep)
    requires
        wf_parts(ns, asg),
        path_at(ns, segs, ix),
        0 <= j < segs.len(),
        step_matches(ns, path_anchor(ns, ix, j), segs[j]@, st),
    ensures
        st is Enter,
{
    let name = segs[j]@;
    let m = ix[j];
    assert(0 <= m < ns.len());
    assert(same_name(ns[m].name@, name));
    let kids = anchor_children(ns, path_anchor(ns, ix, j));
    let f: int = if j == 0 {
        assert(ns[m].parent is None);
        crate::map::model::lemma_top_level(ns);
        choose|k: int| 0 <= k < top_level(ns).len() && #[trigger] top_level(ns)[k] == ns[m]
    } else {
        let q = ix[j - 1];
        assert(0 <= q < ns.len());
        let p = ns[q].id@;
        assert(sv(ns[m].parent) == Some(p));
        crate::map::model::lemma_idx_of_unique(ns, p, q);
        let pp = ns[m].parent->Some_0;
        assert(pp@ == p);
        assert(crate::map::model::count_id(ns[q].children@, ns[m].id@) == 1);
        crate::map::model::lemma_count_pos(ns[q].children@, ns[m].id@);
        let c = choose|c: int| 0 <= c < ns[q].children@.len() && (#[trigger] ns[q].children@[c])@ == ns[m].id@;
        crate::map::model::lemma_idx_of_unique(ns, ns[m].id@, m);
        crate::map::model::lemma_kid_in(ns, ns[q].children@, c)
    };
    assert(kids[f] == ns[m]);
    crate::map::model::lemma_first_named(kids, name);
    assert(first_named(kids, name) >= 0);
}

/// The first `k` segments of a present path are present too.
proof fn lemma_path_prefix(ns: Seq<MapNode>, segs: Seq<String>, ix: Seq<int>, k: int)
    requires
        path_at(ns, segs, ix),
        0 <= k <= segs.len(),
    ensures
        path_at(ns, segs.take(k), ix.take(k)),
{
    let t = ix.take(k);
    let st = segs.take(k);
    assert forall|j: int| 0 <= j < t.len() implies {
        &&& 0 <= #[trigger] t[j] < ns.len()
        &&& same_name(ns[t[j]].name@, st[j]@)
        &&& sv(ns[t[j]].parent) == if j == 0 { None } else { Some(ns[t[j - 1]].id@) }
    } by {
        assert(t[j] == ix[j] && st[j] == segs[j]);
        if j > 0 {
            assert(t[j - 1] == ix[j - 1]);
        }
    }
}

/// A refresh right after a merge finds nothing. Take a listing of the folders on disk,
/// each as its path of names from the project root, where every folder was either in
/// the map already or on the path of a merged addition (the refresh that made the plan
/// left none aside). After the merge, which only adds nodes and leaves every addition's
/// path present, each listed folder is an existing node, and a refresh that reads it
/// enters that node at every level instead of offering any of it again.
pub proof fn lemma_refresh_after_merge(
    old_nodes: Seq<MapNode>,
    new_nodes: Seq<MapNode>,
    asg: Seq<Assignment>,
    adds: Seq<RefreshAddition>,
    disk: Seq<Seq<String>>,
    d: int,
)
    requires
        wf_parts(new_nodes, asg),
        only_added(old_nodes, new_nodes),
        forall|a: int| 0 <= a < adds.len() ==> path_present(new_nodes, #[trigger] adds[a].segments@),
        forall|e: int| 0 <= e < disk.len() ==> path_present(old_nodes, #[trigger] disk[e])
            || exists|a: int, k: int| 0 <= a < adds.len() && 0 <= k <= adds[a].segments@.len() && disk[e] == #[trigger] adds[a].segments@.take(k),
        0 <= d < disk.len(),
    ensures
        exists|ix: Seq<int>| #[trigger] path_at(new_nodes, disk[d], ix)
            && forall|j: int, st: RefreshStep| 0 <= j < disk[d].len() && #[trigger] step_matches(new_nodes, path_anchor(new_nodes, ix, j), disk[d][j]@, st)
                ==> st is Enter,
{
    let ix: Seq<int> = if path_present(old_nodes, disk[d]) {
        let w = choose|w: Seq<int>| path_at(old_nodes, disk[d], w);
        lemma_path_kept(old_nodes, new_nodes, disk[d], w);
        w
    } else {
        let (a, k) = choose|a: int, k: int| 0 <= a < adds.len() && 0 <= k <= adds[a].segments@.len() && disk[d] == #[trigger] adds[a].segments@.take(k);
        assert(path_present(new_nodes, adds[a].segments@));
        let w = choose|w: Seq<int>| path_at(new_nodes, adds[a].segments@, w);
        lemma_path_prefix(new_nodes, adds[a].segments@, w, k);
        w.take(k)
    };
    assert(path_at(new_nodes, disk[d], ix));
    assert forall|j: int, st: RefreshStep| 0 <= j < disk[d].len() && #[trigger] step_matches(new_nodes, path_anchor(new_nodes, ix, j), disk[d][j]@, st)
        implies st is Enter by {
        lemma_present_path_entered(new_nodes, asg, disk[d], ix, j, st);
    }
}

} // verus!
