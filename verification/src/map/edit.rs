//! Edits of the copy-map tree: add, rename, move and remove.
//!
//! Each edit checks first and changes the tree only when every check has passed, so
//! a refused edit leaves the map exactly as it was; an accepted edit keeps a
//! well-formed map well-formed.

use vstd::prelude::*;
use crate::config::model::new_id;
use crate::map::model::{
    ancestry, children_ok, count_id, depth_spec, depths_ok, has_node, ids_unique, idx_of,
    lemma_clash_same_parent, lemma_count_pos, lemma_idx_of, lemma_idx_of_at, lemma_same_name_sym,
    name_issue, parents_ok, same_name, sibling_clash, siblings_ok, sv,
    validate_node_name, walk_spec, wf_parts, chain_error, missing_ancestor, ClimbErr,
    FolderMap, MapError, MapErrorV, Assignment,
    MapNode, MAX_DEPTH,
};
use crate::text::{chars_of, owned, push_char, str_eq, views};

verus! {

/// An optional `&str` by view.
pub open spec fn ov(o: Option<&str>) -> Option<Seq<char>> {
    match o {
        Some(p) => Some(p@),
        None => None,
    }
}

/// Why adding a node named `name` under `parent` is refused, in the order the checks
/// run: the name, then the parent (it must exist, with a sound ancestry, and leave
/// room for one more level), then the siblings.
pub open spec fn add_check(ns: Seq<MapNode>, parent: Option<Seq<char>>, name: Seq<char>) -> Option<MapErrorV> {
    if name_issue(name) is Some {
        name_issue(name)
    } else {
        let depth_err: Option<MapErrorV> = match parent {
            None => None,
            Some(p) => match depth_spec(ns, p) {
                Err(e) => Some(e),
                Ok(d) => if d + 1 > MAX_DEPTH { Some(MapErrorV::TooDeep { max: MAX_DEPTH as nat }) } else { None },
            },
        };
        if depth_err is Some {
            depth_err
        } else if sibling_clash(ns, parent, name, None) {
            Some(MapErrorV::DuplicateSibling { name })
        } else {
            None
        }
    }
}

/// `ns2` is `ns` with a leaf `id` named `name` appended under `parent`, and `id`
/// appended to the parent's child list.
pub open spec fn leaf_added(ns: Seq<MapNode>, ns2: Seq<MapNode>, parent: Option<Seq<char>>, name: Seq<char>, id: Seq<char>) -> bool {
    &&& ns2.len() == ns.len() + 1
    &&& ns2.last().id@ == id
    &&& ns2.last().name@ == name
    &&& sv(ns2.last().parent) == parent
    &&& ns2.last().children@.len() == 0
    &&& forall|i: int| 0 <= i < ns.len() ==> {
        &&& (#[trigger] ns2[i]).id == ns[i].id
        &&& ns2[i].name == ns[i].name
        &&& ns2[i].parent == ns[i].parent
        &&& if parent matches Some(p) && i == idx_of(ns, p) {
            &&& ns2[i].children@.len() == ns[i].children@.len() + 1
            &&& ns2[i].children@.drop_last() == ns[i].children@
            &&& ns2[i].children@.last()@ == id
        } else {
            ns2[i].children == ns[i].children
        }
    }
}

/// Ids of a prefix are found where they were.
pub proof fn lemma_idx_prefix(ns: Seq<MapNode>, ns2: Seq<MapNode>, x: Seq<char>)
    requires
        ns.len() <= ns2.len(),
        forall|i: int| 0 <= i < ns.len() ==> (#[trigger] ns2[i]).id@ == ns[i].id@,
        idx_of(ns, x) >= 0,
    ensures
        idx_of(ns2, x) == idx_of(ns, x),
{
    lemma_idx_of(ns, x);
    let i = idx_of(ns, x);
    assert forall|j: int| 0 <= j < i implies (#[trigger] ns2[j]).id@ != x by {
        assert(ns[j].id@ != x);
    }
    lemma_idx_of_at(ns2, x, i);
}

/// An id that is new in a one-longer sequence is found at its end.
pub proof fn lemma_idx_appended(ns: Seq<MapNode>, ns2: Seq<MapNode>, x: Seq<char>)
    requires
        ns2.len() == ns.len() + 1,
        forall|i: int| 0 <= i < ns.len() ==> (#[trigger] ns2[i]).id@ == ns[i].id@,
        !has_node(ns, x),
        ns2.last().id@ == x,
    ensures
        idx_of(ns2, x) == ns.len(),
{
    lemma_idx_of(ns, x);
    assert forall|j: int| 0 <= j < ns.len() implies (#[trigger] ns2[j]).id@ != x by {
        assert(ns[j].id@ != x);
    }
    lemma_idx_of_at(ns2, x, ns.len() as int);
}

/// Appending one item to a list adds one to its count exactly when it matches.
pub proof fn lemma_count_push(ids: Seq<String>, s: String, x: Seq<char>)
    ensures
        count_id(ids.push(s), x) == count_id(ids, x) + if s@ == x { 1nat } else { 0nat },
{
    assert(ids.push(s).drop_last() =~= ids);
}

/// Walking up is the same in a map whose old nodes kept their ids and parents.
pub proof fn lemma_ancestry_keep(ns: Seq<MapNode>, ns2: Seq<MapNode>, x: Seq<char>, k: nat)
    requires
        ns.len() <= ns2.len(),
        forall|i: int| 0 <= i < ns.len() ==> (#[trigger] ns2[i]).id@ == ns[i].id@ && ns2[i].parent == ns[i].parent,
        forall|i: int| 0 <= i < ns.len() && (#[trigger] ns[i]).parent is Some ==> has_node(ns, ns[i].parent->Some_0@),
        has_node(ns, x),
    ensures
        ancestry(ns2, x, k) == ancestry(ns, x, k),
    decreases k,
{
    lemma_idx_prefix(ns, ns2, x);
    lemma_idx_of(ns, x);
    let i = idx_of(ns, x);
    assert(ns2[i].parent == ns[i].parent);
    if k > 0 {
        match ns[i].parent {
            None => {},
            Some(p) => {
                assert(ns[i].parent is Some);
                lemma_ancestry_keep(ns, ns2, p@, (k - 1) as nat);
            },
        }
    }
}

/// A walk that reached a root within `k` steps gives the same answer with more steps.
pub proof fn lemma_ancestry_fuel(ns: Seq<MapNode>, x: Seq<char>, k: nat, k2: nat)
    requires
        k <= k2,
        ancestry(ns, x, k) is Ok,
    ensures
        ancestry(ns, x, k2) == ancestry(ns, x, k),
    decreases k,
{
    let i = idx_of(ns, x);
    if i >= 0 && k > 0 {
        match ns[i].parent {
            None => {},
            Some(p) => {
                lemma_ancestry_fuel(ns, p@, (k - 1) as nat, (k2 - 1) as nat);
            },
        }
    }
}

/// Parents exist, as `parents_ok` says.
proof fn lemma_parents_exist(ns: Seq<MapNode>)
    requires
        parents_ok(ns),
    ensures
        forall|i: int| 0 <= i < ns.len() && (#[trigger] ns[i]).parent is Some ==> has_node(ns, ns[i].parent->Some_0@),
{
    assert forall|i: int| 0 <= i < ns.len() && (#[trigger] ns[i]).parent is Some implies has_node(ns, ns[i].parent->Some_0@) by {
        assert(match ns[i].parent {
            None => true,
            Some(p) => has_node(ns, p@) && count_id(ns[idx_of(ns, p@)].children@, ns[i].id@) == 1,
        });
    }
}

/// A listed child exists, as `children_ok` says; so a fresh id is listed nowhere.
proof fn lemma_fresh_unlisted(ns: Seq<MapNode>, i: int, x: Seq<char>)
    requires
        children_ok(ns),
        0 <= i < ns.len(),
        !has_node(ns, x),
    ensures
        count_id(ns[i].children@, x) == 0,
{
    if count_id(ns[i].children@, x) > 0 {
        lemma_count_pos(ns[i].children@, x);
        let m = choose|m: int| 0 <= m < ns[i].children@.len() && (#[trigger] ns[i].children@[m])@ == x;
        assert(has_node(ns, ns[i].children@[m]@));
    }
}

proof fn lemma_add_ids(ns: Seq<MapNode>, ns2: Seq<MapNode>, parent: Option<Seq<char>>, name: Seq<char>, id: Seq<char>)
    requires
        ids_unique(ns),
        !has_node(ns, id),
        leaf_added(ns, ns2, parent, name, id),
    ensures
        ids_unique(ns2),
{
    lemma_idx_of(ns, id);
    assert forall|a: int, b: int| 0 <= a < ns2.len() && 0 <= b < ns2.len() && a != b implies #[trigger] ns2[a].id@ != #[trigger] ns2[b].id@ by {
        if a < ns.len() && b < ns.len() {
            assert(ns[a].id@ != ns[b].id@);
        } else if a < ns.len() {
            assert(ns[a].id@ != id);
        } else {
            assert(ns[b].id@ != id);
        }
    }
}

proof fn lemma_add_parents(ns: Seq<MapNode>, ns2: Seq<MapNode>, parent: Option<Seq<char>>, name: Seq<char>, id: Seq<char>)
    requires
        parents_ok(ns),
        children_ok(ns),
        !has_node(ns, id),
        leaf_added(ns, ns2, parent, name, id),
        parent matches Some(p) ==> has_node(ns, p),
    ensures
        parents_ok(ns2),
{
    let n = ns.len() as int;
    assert forall|i: int| 0 <= i < ns2.len() implies match #[trigger] ns2[i].parent {
        None => true,
        Some(p) => has_node(ns2, p@) && count_id(ns2[idx_of(ns2, p@)].children@, ns2[i].id@) == 1,
    } by {
        if i < n {
            assert(ns2[i] == ns2[i]);
            match ns[i].parent {
                None => {},
                Some(p) => {
                    assert(match ns[i].parent {
                        None => true,
                        Some(q) => has_node(ns, q@) && count_id(ns[idx_of(ns, q@)].children@, ns[i].id@) == 1,
                    });
                    lemma_idx_prefix(ns, ns2, p@);
                    let ip = idx_of(ns, p@);
                    lemma_idx_of(ns, p@);
                    assert(ns2[ip] == ns2[ip]);
                    lemma_idx_of(ns, id);
                    assert(ns[i].id@ != id);
                    if parent matches Some(q) && ip == idx_of(ns, q) {
                        lemma_count_push(ns[ip].children@, ns2[ip].children@.last(), ns[i].id@);
                        assert(ns[ip].children@.push(ns2[ip].children@.last()) =~= ns2[ip].children@);
                    }
                },
            }
        } else {
            assert(ns2[i] == ns2.last());
            match parent {
                None => {},
                Some(p) => {
                    lemma_idx_prefix(ns, ns2, p);
                    let ip = idx_of(ns, p);
                    lemma_idx_of(ns, p);
                    assert(ns2[ip] == ns2[ip]);
                    lemma_fresh_unlisted(ns, ip, id);
                    lemma_count_push(ns[ip].children@, ns2[ip].children@.last(), id);
                    assert(ns[ip].children@.push(ns2[ip].children@.last()) =~= ns2[ip].children@);
                },
            }
        }
    }
}

proof fn lemma_add_children(ns: Seq<MapNode>, ns2: Seq<MapNode>, parent: Option<Seq<char>>, name: Seq<char>, id: Seq<char>)
    requires
        children_ok(ns),
        !has_node(ns, id),
        leaf_added(ns, ns2, parent, name, id),
    ensures
        children_ok(ns2),
{
    let n = ns.len() as int;
    lemma_idx_appended(ns, ns2, id);
    assert forall|i: int, k: int| 0 <= i < ns2.len() && 0 <= k < ns2[i].children@.len() implies has_node(ns2, #[trigger] ns2[i].children@[k]@)
        && sv(ns2[idx_of(ns2, ns2[i].children@[k]@)].parent) == Some(ns2[i].id@) by {
        assert(i < n);
        assert(ns2[i] == ns2[i]);
        let modified = parent matches Some(p) && i == idx_of(ns, p);
        if modified && k == ns[i].children@.len() {
            let p = parent->Some_0;
            lemma_idx_of(ns, p);
            assert(ns2[i].children@[k] == ns2[i].children@.last());
        } else {
            if modified {
                assert(ns2[i].children@[k] == ns2[i].children@.drop_last()[k]);
            }
            assert(ns2[i].children@[k] == ns[i].children@[k]);
            let c = ns[i].children@[k]@;
            assert(has_node(ns, ns[i].children@[k]@));
            lemma_idx_prefix(ns, ns2, c);
            let ic = idx_of(ns, c);
            lemma_idx_of(ns, c);
            assert(ns2[ic] == ns2[ic]);
        }
    }
}

proof fn lemma_add_depths(ns: Seq<MapNode>, ns2: Seq<MapNode>, parent: Option<Seq<char>>, name: Seq<char>, id: Seq<char>)
    requires
        parents_ok(ns),
        depths_ok(ns),
        !has_node(ns, id),
        leaf_added(ns, ns2, parent, name, id),
        parent matches Some(p) ==> depth_spec(ns, p) is Ok && depth_spec(ns, p)->Ok_0 + 1 <= MAX_DEPTH,
    ensures
        depths_ok(ns2),
{
    let n = ns.len();
    lemma_parents_exist(ns);
    assert forall|i: int| 0 <= i < ns2.len() implies #[trigger] depth_spec(ns2, ns2[i].id@) is Ok && depth_spec(ns2, ns2[i].id@)->Ok_0 <= MAX_DEPTH by {
        if i < n {
            assert(ns2[i] == ns2[i]);
            let x = ns[i].id@;
            assert(depth_spec(ns, ns[i].id@) is Ok);
            lemma_idx_of(ns, x);
            lemma_idx_prefix(ns, ns2, x);
            lemma_ancestry_keep(ns, ns2, x, (n + 1) as nat);
            lemma_ancestry_fuel(ns, x, n, (n + 1) as nat);
        } else {
            assert(ns2[i] == ns2.last());
            lemma_idx_appended(ns, ns2, id);
            match parent {
                None => {
                    assert(ancestry(ns2, id, (n + 1) as nat) == Ok::<Seq<Seq<char>>, ClimbErr>(seq![id]));
                },
                Some(p) => {
                    lemma_idx_of(ns, p);
                    lemma_ancestry_keep(ns, ns2, p, n);
                    assert(ancestry(ns2, id, (n + 1) as nat) == crate::map::model::ext(seq![id], ancestry(ns2, p, n)));
                },
            }
        }
    }
}

proof fn lemma_add_siblings(ns: Seq<MapNode>, ns2: Seq<MapNode>, parent: Option<Seq<char>>, name: Seq<char>, id: Seq<char>)
    requires
        ids_unique(ns),
        parents_ok(ns),
        children_ok(ns),
        siblings_ok(ns),
        !sibling_clash(ns, parent, name, None),
        leaf_added(ns, ns2, parent, name, id),
    ensures
        siblings_ok(ns2),
{
    let n = ns.len() as int;
    lemma_clash_same_parent(ns, parent, name, None);
    assert forall|a: int, b: int|
        0 <= a < ns2.len() && 0 <= b < ns2.len() && a != b && sv(ns2[a].parent) == sv(ns2[b].parent) implies !same_name(
        #[trigger] ns2[a].name@,
        #[trigger] ns2[b].name@,
    ) by {
        if a < n && b < n {
            assert(ns2[a] == ns2[a] && ns2[b] == ns2[b]);
        } else if a < n {
            assert(ns2[a] == ns2[a]);
            assert(ns2[b] == ns2.last());
            assert(!(sv(ns[a].parent) == parent && Some(ns[a].id@) != None::<Seq<char>> && same_name(ns[a].name@, name)));
        } else {
            assert(ns2[b] == ns2[b]);
            assert(ns2[a] == ns2.last());
            assert(!(sv(ns[b].parent) == parent && Some(ns[b].id@) != None::<Seq<char>> && same_name(ns[b].name@, name)));
            lemma_same_name_sym(ns[b].name@, name);
        }
    }
}

/// Adding a leaf that passed every check keeps a well-formed map well-formed.
proof fn lemma_add_keeps_wf(ns: Seq<MapNode>, asg: Seq<crate::map::model::Assignment>, ns2: Seq<MapNode>, parent: Option<Seq<char>>, name: Seq<char>, id: Seq<char>)
    requires
        wf_parts(ns, asg),
        add_check(ns, parent, name) is None,
        !has_node(ns, id),
        leaf_added(ns, ns2, parent, name, id),
    ensures
        wf_parts(ns2, asg),
{
    if let Some(p) = parent {
        assert(depth_spec(ns, p) is Ok);
        assert(walk_spec(ns, p) is Ok);
    }
    lemma_add_ids(ns, ns2, parent, name, id);
    lemma_add_parents(ns, ns2, parent, name, id);
    lemma_add_children(ns, ns2, parent, name, id);
    lemma_add_depths(ns, ns2, parent, name, id);
    lemma_add_siblings(ns, ns2, parent, name, id);
    assert forall|i: int| 0 <= i < ns2.len() implies name_issue(#[trigger] ns2[i].name@) is None by {
        if i < ns.len() {
            assert(ns2[i] == ns2[i]);
        } else {
            assert(ns2[i] == ns2.last());
        }
    }
    assert forall|a: int| 0 <= a < asg.len() implies has_node(ns2, #[trigger] asg[a].node_id@) by {
        lemma_idx_prefix(ns, ns2, asg[a].node_id@);
    }
}

impl FolderMap {
    /// An id that no node has: a new `map-…` id, lengthened with `-` in the unlikely
    /// case that it is taken.
    fn fresh_node_id(&self) -> (r: String)
        ensures
            !has_node(self.nodes@, r@),
    {
        let ghost ns = self.nodes@;
        let mut longest: usize = 0;
        let mut i: usize = 0;
        while i < self.nodes.len()
            invariant
                ns == self.nodes@,
                i <= ns.len(),
                forall|k: int| 0 <= k < i ==> (#[trigger] ns[k]).id@.len() <= longest,
            decreases ns.len() - i,
        {
            let l = chars_of(self.nodes[i].id.as_str()).len();
            if l > longest {
                longest = l;
            }
            i = i + 1;
        }
        let mut id = new_id("map");
        while self.find_index(id.as_str()).is_some()
            invariant
                ns == self.nodes@,
                forall|k: int| 0 <= k < ns.len() ==> (#[trigger] ns[k]).id@.len() <= longest,
            decreases longest + 1 - id@.len(),
        {
            proof {
                lemma_idx_of(ns, id@);
                assert(ns[idx_of(ns, id@)].id@.len() <= longest);
            }
            push_char(&mut id, '-');
        }
        id
    }

    /// Adds a node named `name` under `parent` (`None`: at the top level) and returns
    /// its id. The name must pass [`validate_node_name`], the parent must exist and
    /// leave room for one more level, and no sibling may have the same name (without
    /// regard to case). A refused add leaves the map as it was.
    pub fn add_node(&mut self, parent: Option<&str>, name: &str) -> (r: Result<String, MapError>)
        ensures
            match r {
                Ok(id) => {
                    &&& add_check(old(self).nodes@, ov(parent), name@) is None
                    &&& !has_node(old(self).nodes@, id@)
                    &&& leaf_added(old(self).nodes@, final(self).nodes@, ov(parent), name@, id@)
                    &&& final(self).assignments == old(self).assignments
                },
                Err(e) => {
                    &&& add_check(old(self).nodes@, ov(parent), name@) == Some(e@)
                    &&& final(self).nodes == old(self).nodes
                    &&& final(self).assignments == old(self).assignments
                },
            },
            old(self).wf() ==> final(self).wf(),
    {
        match validate_node_name(name) {
            Err(e) => {
                return Err(e);
            },
            Ok(()) => {},
        }
        match parent {
            Some(pid) => {
                match self.depth_of(pid) {
                    Err(e) => {
                        return Err(e);
                    },
                    Ok(depth) => {
                        if depth >= MAX_DEPTH {
                            return Err(MapError::TooDeep { max: MAX_DEPTH });
                        }
                    },
                }
            },
            None => {},
        }
        match self.ensure_no_sibling(parent, name, None) {
            Err(e) => {
                return Err(e);
            },
            Ok(()) => {},
        }
        let ghost ns = self.nodes@;
        let id = self.fresh_node_id();
        let node = MapNode {
            id: id.clone(),
            name: owned(name),
            parent: match parent {
                Some(p) => Some(owned(p)),
                None => None,
            },
            children: Vec::new(),
        };
        self.nodes.push(node);
        proof {
            assert forall|i: int| 0 <= i < ns.len() implies (#[trigger] self.nodes@[i]).id@ == ns[i].id@ by {
                assert(self.nodes@[i] == ns[i]);
            }
        }
        match parent {
            Some(pid) => {
                proof {
                    lemma_idx_prefix(ns, self.nodes@, pid@);
                    lemma_idx_of(ns, pid@);
                }
                match self.find_index(pid) {
                    Some(j) => {
                        self.nodes[j].children.push(id.clone());
                        proof {
                            assert(self.nodes@[j as int].children@.drop_last() =~= ns[j as int].children@);
                        }
                    },
                    None => {},
                }
            },
            None => {},
        }
        proof {
            if old(self).wf() {
                lemma_add_keeps_wf(ns, self.assignments@, self.nodes@, ov(parent), name@, id@);
            }
        }
        Ok(id)
    }
}

/// Why renaming node `id` to `name` is refused: a missing node, then the name, then a
/// sibling (other than the node itself) with the same name.
pub open spec fn rename_check(ns: Seq<MapNode>, id: Seq<char>, name: Seq<char>) -> Option<MapErrorV> {
    if !has_node(ns, id) {
        Some(MapErrorV::NodeMissing { id })
    } else if name_issue(name) is Some {
        name_issue(name)
    } else if sibling_clash(ns, sv(ns[idx_of(ns, id)].parent), name, Some(id)) {
        Some(MapErrorV::DuplicateSibling { name })
    } else {
        None
    }
}

/// `ns2` is `ns` with the node at `i` renamed to `name`.
pub open spec fn renamed(ns: Seq<MapNode>, ns2: Seq<MapNode>, i: int, name: Seq<char>) -> bool {
    &&& ns2.len() == ns.len()
    &&& ns2[i].name@ == name
    &&& forall|k: int| 0 <= k < ns.len() ==> {
        &&& (#[trigger] ns2[k]).id == ns[k].id
        &&& ns2[k].parent == ns[k].parent
        &&& ns2[k].children == ns[k].children
        &&& k != i ==> ns2[k].name == ns[k].name
    }
}

/// Ids, parents and child lists decide everything but names and siblings: a map with
/// the same shape keeps those parts of the invariant.
pub(crate) proof fn lemma_same_shape(ns: Seq<MapNode>, ns2: Seq<MapNode>)
    requires
        ns2.len() == ns.len(),
        forall|k: int| 0 <= k < ns.len() ==> {
            &&& (#[trigger] ns2[k]).id == ns[k].id
            &&& ns2[k].parent == ns[k].parent
            &&& ns2[k].children@ == ns[k].children@
        },
        ids_unique(ns),
        parents_ok(ns),
        children_ok(ns),
        depths_ok(ns),
    ensures
        ids_unique(ns2),
        parents_ok(ns2),
        children_ok(ns2),
        depths_ok(ns2),
        forall|x: Seq<char>| #![trigger idx_of(ns2, x)] idx_of(ns2, x) == idx_of(ns, x),
{
    assert forall|x: Seq<char>| #![trigger idx_of(ns2, x)] idx_of(ns2, x) == idx_of(ns, x) by {
        if idx_of(ns, x) >= 0 {
            lemma_idx_prefix(ns, ns2, x);
        } else {
            lemma_idx_of(ns, x);
            lemma_idx_of(ns2, x);
            if idx_of(ns2, x) >= 0 {
                assert(ns[idx_of(ns2, x)].id@ == x);
            }
        }
    }
    assert forall|a: int, b: int| 0 <= a < ns2.len() && 0 <= b < ns2.len() && a != b implies #[trigger] ns2[a].id@ != #[trigger] ns2[b].id@ by {
        assert(ns[a].id@ != ns[b].id@);
    }
    assert forall|i: int| 0 <= i < ns2.len() implies match #[trigger] ns2[i].parent {
        None => true,
        Some(p) => has_node(ns2, p@) && count_id(ns2[idx_of(ns2, p@)].children@, ns2[i].id@) == 1,
    } by {
        assert(ns2[i] == ns2[i]);
        assert(match ns[i].parent {
            None => true,
            Some(q) => has_node(ns, q@) && count_id(ns[idx_of(ns, q@)].children@, ns[i].id@) == 1,
        });
        match ns[i].parent {
            None => {},
            Some(p) => {
                lemma_idx_of(ns, p@);
                assert(ns2[idx_of(ns, p@)] == ns2[idx_of(ns, p@)]);
            },
        }
    }
    assert forall|i: int, k: int| 0 <= i < ns2.len() && 0 <= k < ns2[i].children@.len() implies has_node(ns2, #[trigger] ns2[i].children@[k]@)
        && sv(ns2[idx_of(ns2, ns2[i].children@[k]@)].parent) == Some(ns2[i].id@) by {
        assert(ns2[i] == ns2[i]);
        assert(ns2[i].children@[k] == ns[i].children@[k]);
        let c = ns[i].children@[k]@;
        assert(has_node(ns, ns[i].children@[k]@));
        lemma_idx_of(ns, c);
        assert(ns2[idx_of(ns, c)] == ns2[idx_of(ns, c)]);
    }
    lemma_parents_exist(ns);
    assert forall|i: int| 0 <= i < ns2.len() implies #[trigger] depth_spec(ns2, ns2[i].id@) is Ok && depth_spec(ns2, ns2[i].id@)->Ok_0 <= MAX_DEPTH by {
        assert(ns2[i] == ns2[i]);
        let x = ns[i].id@;
        assert(depth_spec(ns, ns[i].id@) is Ok);
        lemma_idx_of(ns, x);
        lemma_ancestry_keep(ns, ns2, x, ns.len());
    }
}

proof fn lemma_rename_keeps_wf(ns: Seq<MapNode>, asg: Seq<crate::map::model::Assignment>, ns2: Seq<MapNode>, id: Seq<char>, name: Seq<char>)
    requires
        wf_parts(ns, asg),
        rename_check(ns, id, name) is None,
        renamed(ns, ns2, idx_of(ns, id), name),
    ensures
        wf_parts(ns2, asg),
{
    let i = idx_of(ns, id);
    lemma_idx_of(ns, id);
    lemma_same_shape(ns, ns2);
    assert forall|k: int| 0 <= k < ns2.len() implies name_issue(#[trigger] ns2[k].name@) is None by {
        assert(ns2[k] == ns2[k]);
    }
    let par = sv(ns[i].parent);
    lemma_clash_same_parent(ns, par, name, Some(id));
    assert forall|a: int, b: int|
        0 <= a < ns2.len() && 0 <= b < ns2.len() && a != b && sv(ns2[a].parent) == sv(ns2[b].parent) implies !same_name(
        #[trigger] ns2[a].name@,
        #[trigger] ns2[b].name@,
    ) by {
        assert(ns2[a] == ns2[a] && ns2[b] == ns2[b]);
        if a == i {
            assert(ns[b].id@ != ns[i].id@);
            assert(!(sv(ns[b].parent) == par && Some(ns[b].id@) != Some(id) && same_name(ns[b].name@, name)));
            lemma_same_name_sym(ns[b].name@, name);
        } else if b == i {
            assert(ns[a].id@ != ns[i].id@);
            assert(!(sv(ns[a].parent) == par && Some(ns[a].id@) != Some(id) && same_name(ns[a].name@, name)));
        }
    }
    assert forall|a: int| 0 <= a < asg.len() implies has_node(ns2, #[trigger] asg[a].node_id@) by {
        assert(idx_of(ns2, asg[a].node_id@) == idx_of(ns, asg[a].node_id@));
    }
}

impl FolderMap {
    /// Renames node `id`. The new name must pass [`validate_node_name`] and clash with
    /// no sibling other than the node itself (so a node may keep its own name). A
    /// refused rename leaves the map as it was.
    pub fn rename_node(&mut self, id: &str, name: &str) -> (r: Result<(), MapError>)
        ensures
            match r {
                Ok(()) => {
                    &&& rename_check(old(self).nodes@, id@, name@) is None
                    &&& renamed(old(self).nodes@, final(self).nodes@, idx_of(old(self).nodes@, id@), name@)
                    &&& final(self).assignments == old(self).assignments
                },
                Err(e) => {
                    &&& rename_check(old(self).nodes@, id@, name@) == Some(e@)
                    &&& final(self).nodes == old(self).nodes
                    &&& final(self).assignments == old(self).assignments
                },
            },
            old(self).wf() ==> final(self).wf(),
    {
        let i = match self.find_index(id) {
            Some(i) => i,
            None => {
                return Err(MapError::NodeMissing { id: owned(id) });
            },
        };
        match validate_node_name(name) {
            Err(e) => {
                return Err(e);
            },
            Ok(()) => {},
        }
        let par: Option<&str> = match &self.nodes[i].parent {
            Some(p) => Some(p.as_str()),
            None => None,
        };
        proof {
            assert(ov(par) == sv(self.nodes@[i as int].parent));
        }
        match self.ensure_no_sibling(par, name, Some(id)) {
            Err(e) => {
                return Err(e);
            },
            Ok(()) => {},
        }
        let ghost ns = self.nodes@;
        self.nodes[i].name = owned(name);
        proof {
            if old(self).wf() {
                lemma_rename_keeps_wf(ns, self.assignments@, self.nodes@, id@, name@);
            }
        }
        Ok(())
    }
}

/// What the climb from an existing node `cur` towards the root meets within `k` steps:
/// the `target` node, a dangling parent id, or neither.
pub enum UpWalk {
    Found,
    Clear,
    Missing(Seq<char>),
}

/// The cycle check of a move: climbs from `cur` for at most `k` steps looking for
/// `target`.
pub open spec fn up_walk(ns: Seq<MapNode>, cur: Seq<char>, target: Seq<char>, k: nat) -> UpWalk
    decreases k,
{
    if k == 0 {
        UpWalk::Clear
    } else if cur == target {
        UpWalk::Found
    } else {
        match ns[idx_of(ns, cur)].parent {
            None => UpWalk::Clear,
            Some(p) => if idx_of(ns, p@) < 0 {
                UpWalk::Missing(p@)
            } else {
                up_walk(ns, p@, target, (k - 1) as nat)
            },
        }
    }
}

/// The ids of the children of the existing nodes among `f`, in order: the next level
/// of a breadth-first walk.
pub open spec fn next_level(ns: Seq<MapNode>, f: Seq<Seq<char>>) -> Seq<Seq<char>>
    decreases f.len(),
{
    if f.len() == 0 {
        Seq::empty()
    } else {
        let rest = next_level(ns, f.drop_last());
        let j = idx_of(ns, f.last());
        if j >= 0 { rest + views(ns[j].children@) } else { rest }
    }
}

/// How many non-empty levels a breadth-first walk from `f` meets within `k` levels.
pub open spec fn height_spec(ns: Seq<MapNode>, f: Seq<Seq<char>>, k: nat) -> nat
    decreases k,
{
    if k == 0 || f.len() == 0 {
        0
    } else {
        1 + height_spec(ns, next_level(ns, f), (k - 1) as nat)
    }
}

/// The height of the subtree under `id` (a leaf has height 1), counting at most as
/// many levels as there are nodes.
pub open spec fn subtree_height_spec(ns: Seq<MapNode>, id: Seq<char>) -> nat {
    height_spec(ns, seq![id], ns.len())
}

/// A child list without `x`.
pub open spec fn without(ids: Seq<String>, x: Seq<char>) -> Seq<String>
    decreases ids.len(),
{
    if ids.len() == 0 {
        ids
    } else {
        let r = without(ids.drop_last(), x);
        if ids.last()@ == x { r } else { r.push(ids.last()) }
    }
}

/// Why moving node `id` under `np` (`None`: to the top level) is refused: a missing
/// node or target, a target that is the node itself or one of its descendants (or
/// whose ancestry is broken), a sibling with the same name at the target, then a
/// subtree that would end up deeper than the limit.
pub open spec fn move_check(ns: Seq<MapNode>, id: Seq<char>, np: Option<Seq<char>>) -> Option<MapErrorV> {
    if !has_node(ns, id) {
        Some(MapErrorV::NodeMissing { id })
    } else {
        let name = ns[idx_of(ns, id)].name@;
        let cyc: Option<MapErrorV> = match np {
            None => None,
            Some(p) => if !has_node(ns, p) {
                Some(MapErrorV::NodeMissing { id: p })
            } else {
                match up_walk(ns, p, id, ns.len() + 1) {
                    UpWalk::Found => Some(MapErrorV::WouldCycle { name }),
                    UpWalk::Missing(q) => Some(chain_error(p, ClimbErr::Missing(q))),
                    UpWalk::Clear => None,
                }
            },
        };
        if cyc is Some {
            cyc
        } else if sibling_clash(ns, np, name, Some(id)) {
            Some(MapErrorV::DuplicateSibling { name })
        } else {
            let pd: Result<nat, MapErrorV> = match np {
                Some(p) => depth_spec(ns, p),
                None => Ok(0),
            };
            match pd {
                Err(e) => Some(e),
                Ok(d) => if d + subtree_height_spec(ns, id) > MAX_DEPTH {
                    Some(MapErrorV::TooDeep { max: MAX_DEPTH as nat })
                } else {
                    None
                },
            }
        }
    }
}

/// `ns2` is `ns` with node `id` moved under `np`: its parent pointer changed, `id`
/// taken out of the old parent's child list and appended to the new parent's.
pub open spec fn moved(ns: Seq<MapNode>, ns2: Seq<MapNode>, id: Seq<char>, np: Option<Seq<char>>) -> bool {
    let i = idx_of(ns, id);
    let op = sv(ns[i].parent);
    &&& ns2.len() == ns.len()
    &&& sv(ns2[i].parent) == np
    &&& forall|k: int| 0 <= k < ns.len() ==> {
        let c1 = if op matches Some(o) && k == idx_of(ns, o) { without(ns[k].children@, id) } else { ns[k].children@ };
        &&& (#[trigger] ns2[k]).id == ns[k].id
        &&& ns2[k].name == ns[k].name
        &&& k != i ==> ns2[k].parent == ns[k].parent
        &&& if np matches Some(p) && k == idx_of(ns, p) {
            &&& ns2[k].children@.len() == c1.len() + 1
            &&& ns2[k].children@.drop_last() == c1
            &&& ns2[k].children@.last()@ == id
        } else {
            ns2[k].children@ == c1
        }
    }
}

/// A copy of a child list without `x`.
fn list_without(ids: &Vec<String>, x: &str) -> (r: Vec<String>)
    ensures
        r@ == without(ids@, x@),
{
    let mut out: Vec<String> = Vec::new();
    let mut i: usize = 0;
    while i < ids.len()
        invariant
            i <= ids@.len(),
            out@ == without(ids@.take(i as int), x@),
        decreases ids@.len() - i,
    {
        proof {
            assert(ids@.take(i + 1).drop_last() =~= ids@.take(i as int));
            assert(ids@.take(i + 1).last() == ids@[i as int]);
        }
        if !str_eq(ids[i].as_str(), x) {
            out.push(ids[i].clone());
        }
        i = i + 1;
    }
    proof {
        assert(ids@.take(ids@.len() as int) =~= ids@);
    }
    out
}

impl FolderMap {
    /// Climbs from node `cur` towards the root for at most `left + 1` steps, looking
    /// for `target`. `Ok(true)`: found; `Ok(false)`: reached a root or ran out of
    /// steps; an ancestor id that names no node is reported against `np`.
    fn climb(&self, cur: usize, target: &str, np: &str, left: usize) -> (r: Result<bool, MapError>)
        requires
            cur < self.nodes@.len(),
            self.nodes@[cur as int].id@ == self.nodes@[idx_of(self.nodes@, self.nodes@[cur as int].id@)].id@,
            idx_of(self.nodes@, self.nodes@[cur as int].id@) == cur,
        ensures
            match r {
                Ok(true) => up_walk(self.nodes@, self.nodes@[cur as int].id@, target@, (left + 1) as nat) is Found,
                Ok(false) => up_walk(self.nodes@, self.nodes@[cur as int].id@, target@, (left + 1) as nat) is Clear,
                Err(e) => up_walk(self.nodes@, self.nodes@[cur as int].id@, target@, (left + 1) as nat) matches UpWalk::Missing(q)
                    && e@ == chain_error(np@, ClimbErr::Missing(q)),
            },
        decreases left,
    {
        let ghost ns = self.nodes@;
        if str_eq(self.nodes[cur].id.as_str(), target) {
            return Ok(true);
        }
        match &self.nodes[cur].parent {
            None => Ok(false),
            Some(pid) => {
                match self.find_index(pid.as_str()) {
                    None => Err(missing_ancestor(np, pid.as_str())),
                    Some(j) => {
                        if left == 0 {
                            proof {
                                assert(up_walk(ns, pid@, target@, 0) is Clear);
                            }
                            return Ok(false);
                        }
                        proof {
                            lemma_idx_of(ns, pid@);
                        }
                        self.climb(j, target, np, left - 1)
                    },
                }
            },
        }
    }

    /// The ids of the children of the existing nodes among `f`.
    fn next_level_ids(&self, f: &Vec<String>) -> (r: Vec<String>)
        ensures
            views(r@) == next_level(self.nodes@, views(f@)),
    {
        let ghost ns = self.nodes@;
        let mut out: Vec<String> = Vec::new();
        let mut i: usize = 0;
        while i < f.len()
            invariant
                ns == self.nodes@,
                i <= f@.len(),
                views(out@) == next_level(ns, views(f@).take(i as int)),
            decreases f@.len() - i,
        {
            proof {
                assert(views(f@).take(i + 1).drop_last() =~= views(f@).take(i as int));
                assert(views(f@).take(i + 1).last() == f@[i as int]@);
            }
            match self.find_index(f[i].as_str()) {
                Some(j) => {
                    let ch = &self.nodes[j].children;
                    let ghost before = views(out@);
                    let mut k: usize = 0;
                    while k < ch.len()
                        invariant
                            ns == self.nodes@,
                            j < ns.len(),
                            *ch == ns[j as int].children,
                            k <= ch@.len(),
                            views(out@) == before + views(ch@).take(k as int),
                        decreases ch@.len() - k,
                    {
                        let ghost o = out@;
                        out.push(ch[k].clone());
                        proof {
                            assert(views(out@) =~= views(o).push(ch@[k as int]@));
                            assert(views(ch@).take(k + 1) =~= views(ch@).take(k as int).push(ch@[k as int]@));
                        }
                        k = k + 1;
                    }
                    proof {
                        assert(views(ch@).take(ch@.len() as int) =~= views(ch@));
                    }
                },
                None => {},
            }
            i = i + 1;
        }
        proof {
            assert(views(f@).take(f@.len() as int) =~= views(f@));
        }
        out
    }

    /// Height of the subtree under `id` (a leaf counts 1), walking at most as many
    /// levels as there are nodes, so that a damaged tree cannot keep it going.
    fn subtree_height(&self, id: &str) -> (h: usize)
        ensures
            h as nat == subtree_height_spec(self.nodes@, id@),
    {
        let ghost ns = self.nodes@;
        let len = self.nodes.len();
        let mut height: usize = 0;
        let mut frontier: Vec<String> = Vec::new();
        frontier.push(owned(id));
        proof {
            assert(views(frontier@) =~= seq![id@]);
        }
        let mut round: usize = 0;
        while round < len && frontier.len() > 0
            invariant
                ns == self.nodes@,
                len == ns.len(),
                round <= len,
                height <= round,
                height + height_spec(ns, views(frontier@), (len - round) as nat) == height_spec(ns, seq![id@], len as nat),
            decreases len - round,
        {
            height = height + 1;
            frontier = self.next_level_ids(&frontier);
            round = round + 1;
        }
        height
    }

    /// Moves node `id` under `new_parent` (`None`: to the top level). Refused when the
    /// target is the node itself or one of its descendants, when a sibling at the
    /// target has the same name, or when the whole moved subtree would end up deeper
    /// than the limit. A refused move leaves the map as it was.
    pub fn move_node(&mut self, id: &str, new_parent: Option<&str>) -> (r: Result<(), MapError>)
        ensures
            match r {
                Ok(()) => {
                    &&& move_check(old(self).nodes@, id@, ov(new_parent)) is None
                    &&& moved(old(self).nodes@, final(self).nodes@, id@, ov(new_parent))
                    &&& final(self).assignments == old(self).assignments
                },
                Err(e) => {
                    &&& move_check(old(self).nodes@, id@, ov(new_parent)) == Some(e@)
                    &&& final(self).nodes == old(self).nodes
                    &&& final(self).assignments == old(self).assignments
                },
            },
            old(self).wf() ==> final(self).wf(),
    {
        let ghost ns = self.nodes@;
        let len = self.nodes.len();
        let i = match self.find_index(id) {
            Some(i) => i,
            None => {
                return Err(MapError::NodeMissing { id: owned(id) });
            },
        };
        proof {
            lemma_idx_of(ns, id@);
        }
        let name = self.nodes[i].name.clone();
        match new_parent {
            Some(np) => {
                let start = match self.find_index(np) {
                    Some(s) => s,
                    None => {
                        return Err(MapError::NodeMissing { id: owned(np) });
                    },
                };
                proof {
                    lemma_idx_of(ns, np@);
                }
                match self.climb(start, id, np, len) {
                    Err(e) => {
                        return Err(e);
                    },
                    Ok(true) => {
                        return Err(MapError::WouldCycle { name });
                    },
                    Ok(false) => {},
                }
            },
            None => {},
        }
        match self.ensure_no_sibling(new_parent, name.as_str(), Some(id)) {
            Err(e) => {
                return Err(e);
            },
            Ok(()) => {},
        }
        let parent_depth: usize = match new_parent {
            Some(np) => match self.depth_of(np) {
                Err(e) => {
                    return Err(e);
                },
                Ok(d) => d,
            },
            None => 0,
        };
        let h = self.subtree_height(id);
        if parent_depth > MAX_DEPTH || h > MAX_DEPTH - parent_depth {
            return Err(MapError::TooDeep { max: MAX_DEPTH });
        }
        let old_parent: Option<String> = match &self.nodes[i].parent {
            Some(p) => Some(p.clone()),
            None => None,
        };
        let ghost mid0 = self.nodes@;
        match &old_parent {
            Some(op) => {
                match self.find_index(op.as_str()) {
                    Some(j) => {
                        let kept = list_without(&self.nodes[j].children, id);
                        self.nodes[j].children = kept;
                    },
                    None => {},
                }
            },
            None => {},
        }
        let ghost mid = self.nodes@;
        proof {
            assert forall|k: int| 0 <= k < ns.len() implies (#[trigger] mid[k]).id == ns[k].id && mid[k].parent == ns[k].parent
                && mid[k].name == ns[k].name by {}
            if let Some(p) = new_parent {
                lemma_idx_prefix(ns, mid, p@);
            }
        }
        match new_parent {
            Some(np) => {
                match self.find_index(np) {
                    Some(j) => {
                        self.nodes[j].children.push(owned(id));
                        proof {
                            assert(self.nodes@[j as int].children@.drop_last() =~= mid[j as int].children@);
                        }
                    },
                    None => {},
                }
            },
            None => {},
        }
        self.nodes[i].parent = match new_parent {
            Some(np) => Some(owned(np)),
            None => None,
        };
        proof {
            if wf_parts(ns, self.assignments@) {
                crate::map::relocate::lemma_move_keeps_wf(ns, self.assignments@, self.nodes@, id@, ov(new_parent));
            }
        }
        Ok(())
    }
}

/// `c` is listed in the child list of node `p`.
pub open spec fn listed_under(ns: Seq<MapNode>, p: Seq<char>, c: Seq<char>) -> bool {
    &&& has_node(ns, p)
    &&& exists|m: int| 0 <= m < ns[idx_of(ns, p)].children@.len() && (#[trigger] ns[idx_of(ns, p)].children@[m])@ == c
}

/// `d` lists node `id` and everything below it, each once: `id` first, every later
/// entry listed under an earlier one, and every child of a listed node listed too.
pub open spec fn subtree_list(ns: Seq<MapNode>, id: Seq<char>, d: Seq<Seq<char>>) -> bool {
    &&& d.len() >= 1
    &&& d[0] == id
    &&& d.no_duplicates()
    &&& forall|q: int| #![trigger d[q]] 0 < q < d.len() ==> exists|p: int| #![trigger d[p]] 0 <= p < q && listed_under(ns, d[p], d[q])
    &&& forall|q: int, m: int|
        0 <= q < d.len() && has_node(ns, d[q]) && 0 <= m < ns[idx_of(ns, d[q])].children@.len()
            ==> d.contains(#[trigger] ns[idx_of(ns, d[q])].children@[m]@)
}

/// Positions of the nodes whose id is not in `d`, in order.
pub open spec fn kept(ns: Seq<MapNode>, d: Seq<Seq<char>>) -> Seq<int>
    decreases ns.len(),
{
    if ns.len() == 0 {
        Seq::empty()
    } else {
        let r = kept(ns.drop_last(), d);
        if d.contains(ns.last().id@) { r } else { r.push(ns.len() - 1) }
    }
}

/// The assignments whose node is not in `d`, in order.
pub open spec fn kept_assignments(asg: Seq<Assignment>, d: Seq<Seq<char>>) -> Seq<Assignment>
    decreases asg.len(),
{
    if asg.len() == 0 {
        asg
    } else {
        let r = kept_assignments(asg.drop_last(), d);
        if d.contains(asg.last().node_id@) { r } else { r.push(asg.last()) }
    }
}

/// `ns2` holds, in order, the nodes of `ns` whose ids are not in `d`; the parent of
/// `id` no longer lists it.
pub open spec fn pruned(ns: Seq<MapNode>, ns2: Seq<MapNode>, id: Seq<char>, d: Seq<Seq<char>>) -> bool {
    let ks = kept(ns, d);
    let op = sv(ns[idx_of(ns, id)].parent);
    &&& ns2.len() == ks.len()
    &&& forall|k: int| 0 <= k < ks.len() ==> {
        &&& (#[trigger] ns2[k]).id == ns[ks[k]].id
        &&& ns2[k].name == ns[ks[k]].name
        &&& ns2[k].parent == ns[ks[k]].parent
        &&& ns2[k].children@ == if op matches Some(o) && ks[k] == idx_of(ns, o) {
            without(ns[ks[k]].children@, id)
        } else {
            ns[ks[k]].children@
        }
    }
}

/// Two places holding the same id make its count at least two.
proof fn lemma_count_two(ids: Seq<String>, a: int, b: int, x: Seq<char>)
    requires
        0 <= a < b < ids.len(),
        ids[a]@ == x,
        ids[b]@ == x,
    ensures
        count_id(ids, x) >= 2,
    decreases ids.len(),
{
    let d = ids.drop_last();
    if b < ids.len() - 1 {
        assert(d[a] == ids[a] && d[b] == ids[b]);
        lemma_count_two(d, a, b, x);
    } else {
        assert(d[a] == ids[a]);
        lemma_count_one(d, a, x);
    }
}

pub(crate) proof fn lemma_count_one(ids: Seq<String>, a: int, x: Seq<char>)
    requires
        0 <= a < ids.len(),
        ids[a]@ == x,
    ensures
        count_id(ids, x) >= 1,
    decreases ids.len(),
{
    if a < ids.len() - 1 {
        assert(ids.drop_last()[a] == ids[a]);
        lemma_count_one(ids.drop_last(), a, x);
    }
}

/// A child's depth is one more than its parent's.
pub(crate) proof fn lemma_depth_child(ns: Seq<MapNode>, c: Seq<char>, p: Seq<char>)
    requires
        depths_ok(ns),
        has_node(ns, c),
        has_node(ns, p),
        sv(ns[idx_of(ns, c)].parent) == Some(p),
    ensures
        depth_spec(ns, c) is Ok,
        depth_spec(ns, p) is Ok,
        depth_spec(ns, c)->Ok_0 == depth_spec(ns, p)->Ok_0 + 1,
{
    let i = idx_of(ns, c);
    lemma_idx_of(ns, c);
    let j = idx_of(ns, p);
    lemma_idx_of(ns, p);
    assert(depth_spec(ns, ns[i].id@) is Ok);
    assert(depth_spec(ns, ns[j].id@) is Ok);
    let n = ns.len();
    let q = ns[i].parent->Some_0;
    assert(q@ == p);
    assert(ancestry(ns, c, n) == crate::map::model::ext(seq![c], ancestry(ns, p, (n - 1) as nat)));
    lemma_ancestry_fuel(ns, p, (n - 1) as nat, n);
}

/// Distinct ids of existing nodes are no more than the nodes.
pub(crate) proof fn lemma_distinct_ids_fit(ns: Seq<MapNode>, d: Seq<Seq<char>>)
    requires
        d.no_duplicates(),
        forall|q: int| 0 <= q < d.len() ==> has_node(ns, #[trigger] d[q]),
    ensures
        d.len() <= ns.len(),
{
    let ix = Seq::new(d.len(), |q: int| idx_of(ns, d[q]));
    assert forall|a: int, b: int| 0 <= a < ix.len() && 0 <= b < ix.len() && a != b implies ix[a] != ix[b] by {
        lemma_idx_of(ns, d[a]);
        lemma_idx_of(ns, d[b]);
    }
    assert(ix.no_duplicates());
    ix.unique_seq_to_set();
    vstd::set_lib::lemma_int_range(0, ns.len() as int);
    assert forall|x: int| ix.to_set().contains(x) implies vstd::set_lib::set_int_range(0, ns.len() as int).contains(x) by {
        let q = choose|q: int| 0 <= q < ix.len() && ix[q] == x;
        lemma_idx_of(ns, d[q]);
    }
    vstd::set_lib::lemma_len_subset(ix.to_set(), vstd::set_lib::set_int_range(0, ns.len() as int));
}

/// Whether `x` is among `v`.
pub(crate) fn listed_in(v: &Vec<String>, x: &str) -> (r: bool)
    ensures
        r == views(v@).contains(x@),
{
    let mut i: usize = 0;
    while i < v.len()
        invariant
            i <= v@.len(),
            forall|k: int| 0 <= k < i ==> views(v@)[k] != x@,
        decreases v@.len() - i,
    {
        if str_eq(v[i].as_str(), x) {
            proof {
                assert(views(v@)[i as int] == x@);
            }
            return true;
        }
        i = i + 1;
    }
    false
}

/// A copy of a child list.
pub(crate) fn copy_ids(v: &Vec<String>) -> (r: Vec<String>)
    ensures
        r@ == v@,
{
    let mut out: Vec<String> = Vec::new();
    let mut i: usize = 0;
    while i < v.len()
        invariant
            i <= v@.len(),
            out@ == v@.take(i as int),
        decreases v@.len() - i,
    {
        out.push(v[i].clone());
        i = i + 1;
        proof {
            assert(out@ =~= v@.take(i as int));
        }
    }
    proof {
        assert(v@.take(v@.len() as int) =~= v@);
    }
    out
}

/// A field-by-field copy of a node.
pub(crate) fn copy_node(n: &MapNode) -> (r: MapNode)
    ensures
        r.id == n.id,
        r.name == n.name,
        r.parent == n.parent,
        r.children@ == n.children@,
{
    MapNode {
        id: n.id.clone(),
        name: n.name.clone(),
        parent: match &n.parent {
            Some(p) => Some(p.clone()),
            None => None,
        },
        children: copy_ids(&n.children),
    }
}

/// A field-by-field copy of an assignment.
pub(crate) fn copy_assignment(a: &Assignment) -> (r: Assignment)
    ensures
        r == *a,
{
    Assignment {
        id: a.id.clone(),
        device_id: a.device_id.clone(),
        device_name: a.device_name.clone(),
        node_id: a.node_id.clone(),
    }
}

impl FolderMap {
    /// The node `id` and everything below it, breadth-first: `id`, its children, their
    /// children, and so on.
    fn subtree_ids(&self, id: &str) -> (d: Vec<String>)
        requires
            crate::map::model::links_ok(self.nodes@),
            has_node(self.nodes@, id@),
        ensures
            subtree_list(self.nodes@, id@, views(d@)),
    {
        let ghost ns = self.nodes@;
        let ghost asg = self.assignments@;
        let mut doomed: Vec<String> = Vec::new();
        doomed.push(owned(id));
        let ghost mut from: Seq<int> = seq![0int];
        proof {
            lemma_idx_of(ns, id@);
            assert(depth_spec(ns, ns[idx_of(ns, id@)].id@) is Ok);
        }
        let ghost d0 = depth_spec(ns, id@)->Ok_0;
        let mut i: usize = 0;
        while i < doomed.len()
            invariant
                ns == self.nodes@,
                asg == self.assignments@,
                crate::map::model::links_ok(ns),
                depth_spec(ns, id@) == Ok::<nat, MapErrorV>(d0),
                1 <= doomed@.len() <= ns.len(),
                i <= doomed@.len(),
                doomed@[0]@ == id@,
                from.len() == doomed@.len(),
                views(doomed@).no_duplicates(),
                forall|q: int| 0 <= q < doomed@.len() ==> has_node(ns, #[trigger] views(doomed@)[q]),
                forall|q: int| 0 < q < doomed@.len() ==> {
                    &&& 0 <= #[trigger] from[q] < i
                    &&& from[q] < q
                    &&& listed_under(ns, views(doomed@)[from[q]], views(doomed@)[q])
                },
                forall|q: int| 0 < q < doomed@.len() ==> #[trigger] depth_spec(ns, views(doomed@)[q]) is Ok
                    && depth_spec(ns, views(doomed@)[q])->Ok_0 > d0,
                forall|q: int, m: int|
                    0 <= q < i && 0 <= m < ns[idx_of(ns, views(doomed@)[q])].children@.len()
                        ==> views(doomed@).contains(#[trigger] ns[idx_of(ns, views(doomed@)[q])].children@[m]@),
            decreases ns.len() - i,
        {
            let ghost dv = views(doomed@);
            proof {
                assert(has_node(ns, dv[i as int]));
            }
            let j = match self.find_index(doomed[i].as_str()) {
                Some(j) => j,
                None => {
                    proof {
                        assert(false);
                    }
                    return doomed;
                },
            };
            proof {
                lemma_idx_of(ns, dv[i as int]);
                if i > 0 {
                    assert(depth_spec(ns, dv[i as int]) is Ok);
                }
            }
            let ghost base = doomed@.len();
            let ch = &self.nodes[j].children;
            let mut k: usize = 0;
            while k < ch.len()
                invariant
                    ns == self.nodes@,
                    asg == self.assignments@,
                    crate::map::model::links_ok(ns),
                    depth_spec(ns, id@) == Ok::<nat, MapErrorV>(d0),
                    j < ns.len(),
                    j as int == idx_of(ns, dv[i as int]),
                    ns[j as int].id@ == dv[i as int],
                    *ch == ns[j as int].children,
                    i < base,
                    dv.len() == base,
                    dv[0] == id@,
                    k <= ch@.len(),
                    doomed@.len() == base + k,
                    doomed@.len() <= ns.len(),
                    views(doomed@).take(base as int) == dv,
                    forall|t: int| 0 <= t < k ==> #[trigger] views(doomed@)[base + t] == ch@[t]@,
                    from.len() == doomed@.len(),
                    views(doomed@).no_duplicates(),
                    forall|q: int| 0 <= q < doomed@.len() ==> has_node(ns, #[trigger] views(doomed@)[q]),
                    forall|q: int| 0 < q < doomed@.len() ==> {
                        &&& 0 <= #[trigger] from[q] <= i
                        &&& from[q] < q
                        &&& listed_under(ns, views(doomed@)[from[q]], views(doomed@)[q])
                    },
                    forall|q: int| 0 < q < base ==> from[q] < i,
                    forall|q: int| base <= q < doomed@.len() ==> from[q] == i,
                    depth_spec(ns, dv[i as int]) is Ok && depth_spec(ns, dv[i as int])->Ok_0 >= d0,
                    forall|q: int| 0 < q < doomed@.len() ==> #[trigger] depth_spec(ns, views(doomed@)[q]) is Ok
                        && depth_spec(ns, views(doomed@)[q])->Ok_0 > d0,
                    forall|q: int, m: int|
                        0 <= q < i && 0 <= m < ns[idx_of(ns, views(doomed@)[q])].children@.len()
                            ==> views(doomed@).contains(#[trigger] ns[idx_of(ns, views(doomed@)[q])].children@[m]@),
                decreases ch@.len() - k,
            {
                let ghost old_d = views(doomed@);
                let ghost c = ch@[k as int]@;
                proof {
                    crate::map::model::lemma_child_back(ns, j as int, k as int);
                    lemma_idx_of(ns, c);
                    let ic = idx_of(ns, c);
                    assert(sv(ns[ic].parent) == Some(dv[i as int]));
                    lemma_depth_child(ns, c, dv[i as int]);
                    // `c` is new: not `id`, not under an earlier node, not an earlier sibling.
                    assert forall|q: int| 0 <= q < old_d.len() implies old_d[q] != c by {
                        if q == 0 {
                            assert(old_d[0] == id@);
                        } else if q < base {
                            let f = from[q];
                            assert(listed_under(ns, old_d[f], old_d[q]));
                            if old_d[q] == c {
                                let pf = idx_of(ns, old_d[f]);
                                lemma_idx_of(ns, old_d[f]);
                                let m = choose|m: int| 0 <= m < ns[pf].children@.len() && (#[trigger] ns[pf].children@[m])@ == old_d[q];
                                crate::map::model::lemma_child_back(ns, pf, m);
                                assert(old_d[f] == dv[f]);
                                assert(dv[i as int] == old_d[i as int]);
                                assert(f != i);
                            }
                        } else {
                            let t = q - base;
                            assert(old_d[base + t] == ch@[t]@);
                            if old_d[q] == c {
                                crate::map::model::lemma_parent_lists(ns, ic);
                                lemma_count_two(ch@, t, k as int, c);
                            }
                        }
                    }
                    lemma_distinct_ids_fit(ns, old_d.push(c));
                }
                doomed.push(ch[k].clone());
                proof {
                    from = from.push(i as int);
                    let nd = views(doomed@);
                    assert(nd =~= old_d.push(c));
                    assert(nd.take(base as int) =~= old_d.take(base as int));
                    assert(listed_under(ns, nd[i as int], c)) by {
                        assert(ns[j as int].children@[k as int]@ == c);
                    }
                    assert forall|q: int| 0 < q < nd.len() implies {
                        &&& 0 <= #[trigger] from[q] <= i
                        &&& from[q] < q
                        &&& listed_under(ns, nd[from[q]], nd[q])
                    } by {
                        if q < old_d.len() {
                            assert(nd[q] == old_d[q]);
                            assert(nd[from[q]] == old_d[from[q]]);
                        }
                    }
                    assert forall|q: int, m: int|
                        0 <= q < i && 0 <= m < ns[idx_of(ns, nd[q])].children@.len()
                            implies nd.contains(#[trigger] ns[idx_of(ns, nd[q])].children@[m]@) by {
                        assert(nd[q] == old_d[q]);
                        assert(old_d.contains(ns[idx_of(ns, old_d[q])].children@[m]@));
                        let w = choose|w: int| 0 <= w < old_d.len() && old_d[w] == ns[idx_of(ns, old_d[q])].children@[m]@;
                        assert(nd[w] == old_d[w]);
                    }
                }
                k = k + 1;
            }
            proof {
                let nd = views(doomed@);
                assert forall|q: int, m: int|
                    0 <= q < i + 1 && 0 <= m < ns[idx_of(ns, nd[q])].children@.len()
                        implies nd.contains(#[trigger] ns[idx_of(ns, nd[q])].children@[m]@) by {
                    if q == i {
                        assert(nd[q] == dv[i as int]);
                        assert(nd[base + m] == ch@[m]@);
                    }
                }
            }
            proof {
                assert(views(doomed@)[0] == views(doomed@).take(base as int)[0]);
            }
            i = i + 1;
        }
        proof {
            let d = views(doomed@);
            assert(d[0] == id@);
            assert forall|q: int| #![trigger d[q]] 0 < q < d.len() implies exists|p: int| #![trigger d[p]] 0 <= p < q && listed_under(ns, d[p], d[q]) by {
                let p = from[q];
                assert(listed_under(ns, d[p], d[q]));
            }
        }
        doomed
    }

    /// Removes node `id` together with everything below it and every assignment to
    /// any of those nodes, and returns the removed ids (`id` first, then breadth-first).
    /// Only the map changes: no folder on disk is touched.
    pub fn remove_node(&mut self, id: &str) -> (r: Result<Vec<String>, MapError>)
        requires
            crate::map::model::links_ok(old(self).nodes@),
        ensures
            match r {
                Ok(d) => {
                    &&& has_node(old(self).nodes@, id@)
                    &&& subtree_list(old(self).nodes@, id@, views(d@))
                    &&& pruned(old(self).nodes@, final(self).nodes@, id@, views(d@))
                    &&& final(self).assignments@ == kept_assignments(old(self).assignments@, views(d@))
                    &&& old(self).wf() ==> final(self).wf()
                },
                Err(e) => {
                    &&& !has_node(old(self).nodes@, id@)
                    &&& e@ == (MapErrorV::NodeMissing { id: id@ })
                    &&& final(self).nodes == old(self).nodes
                    &&& final(self).assignments == old(self).assignments
                },
            },
    {
        let ghost ns = self.nodes@;
        let i = match self.find_index(id) {
            Some(i) => i,
            None => {
                return Err(MapError::NodeMissing { id: owned(id) });
            },
        };
        proof {
            lemma_idx_of(ns, id@);
        }
        let doomed = self.subtree_ids(id);
        let ghost dv = views(doomed@);
        // Take `id` out of its parent's child list.
        let pj: Option<usize> = match &self.nodes[i].parent {
            Some(p) => self.find_index(p.as_str()),
            None => None,
        };
        let ghost op = sv(ns[i as int].parent);
        let mut nodes: Vec<MapNode> = Vec::new();
        let mut k: usize = 0;
        while k < self.nodes.len()
            invariant
                ns == self.nodes@,
                k <= ns.len(),
                i as int == idx_of(ns, id@),
                dv == views(doomed@),
                op == sv(ns[i as int].parent),
                match pj {
                    Some(j) => op matches Some(o) && j as int == idx_of(ns, o),
                    None => op matches Some(o) ==> idx_of(ns, o) < 0,
                },
                nodes@.len() == kept(ns.take(k as int), dv).len(),
                forall|t: int| 0 <= t < nodes@.len() ==> {
                    let ks = kept(ns.take(k as int), dv);
                    &&& (#[trigger] nodes@[t]).id == ns[ks[t]].id
                    &&& nodes@[t].name == ns[ks[t]].name
                    &&& nodes@[t].parent == ns[ks[t]].parent
                    &&& nodes@[t].children@ == if op matches Some(o) && ks[t] == idx_of(ns, o) {
                        without(ns[ks[t]].children@, id@)
                    } else {
                        ns[ks[t]].children@
                    }
                },
                forall|t: int| 0 <= t < kept(ns.take(k as int), dv).len() ==> 0 <= #[trigger] kept(ns.take(k as int), dv)[t] < k,
            decreases ns.len() - k,
        {
            proof {
                assert(ns.take(k + 1).drop_last() =~= ns.take(k as int));
                assert(ns.take(k + 1).last() == ns[k as int]);
            }
            if !listed_in(&doomed, self.nodes[k].id.as_str()) {
                let mut n = copy_node(&self.nodes[k]);
                let is_parent = match pj {
                    Some(j) => j == k,
                    None => false,
                };
                if is_parent {
                    n.children = list_without(&self.nodes[k].children, id);
                }
                nodes.push(n);
            }
            k = k + 1;
        }
        proof {
            assert(ns.take(ns.len() as int) =~= ns);
        }
        self.nodes = nodes;
        // Drop the assignments to removed nodes.
        let ghost asg = self.assignments@;
        let mut kept_asg: Vec<Assignment> = Vec::new();
        let mut a: usize = 0;
        while a < self.assignments.len()
            invariant
                asg == self.assignments@,
                a <= asg.len(),
                dv == views(doomed@),
                kept_asg@ == kept_assignments(asg.take(a as int), dv),
            decreases asg.len() - a,
        {
            proof {
                assert(asg.take(a + 1).drop_last() =~= asg.take(a as int));
                assert(asg.take(a + 1).last() == asg[a as int]);
            }
            if !listed_in(&doomed, self.assignments[a].node_id.as_str()) {
                kept_asg.push(copy_assignment(&self.assignments[a]));
            }
            a = a + 1;
        }
        proof {
            assert(asg.take(asg.len() as int) =~= asg);
        }
        self.assignments = kept_asg;
        proof {
            if wf_parts(ns, asg) {
                crate::map::prune::lemma_remove_keeps_wf(ns, asg, self.nodes@, id@, dv);
            }
        }
        Ok(doomed)
    }
}

} // verus!
