//! The copy-map tree: nodes, assignments and every check on them.
//!
//! All validation happens when an edit is made: an edit that fails a check is refused
//! on the spot and leaves the tree exactly as it was. Node names are held to a stricter
//! standard than rendered path segments — a name that would only become legal after
//! sanitising would make the canvas disagree with the folder created on disk.

use vstd::prelude::*;
use crate::organize::{
    char_is_illegal, check_segment_chars, is_illegal_char, is_reserved_name, is_reserved_segment,
    segment_check, TemplateError, TemplateErrorV,
};
use crate::text::{chars_of, owned, push_str, str_eq, trim_chars, trim_seq};

verus! {

/// Depth limit of the tree (a top-level node is at depth 1).
pub const MAX_DEPTH: usize = 12;

/// Longest node name, in characters.
pub const MAX_NAME_CHARS: usize = 100;

/// One folder node of the map.
#[derive(Debug, Clone, PartialEq, Eq)]
pub struct MapNode {
    pub id: String,
    /// Folder name. May hold `{placeholders}`, rendered at dispatch time.
    pub name: String,
    /// Parent node id; `None` for a top-level node (directly under the project root).
    pub parent: Option<String>,
    /// Child node ids, in their stable display order.
    pub children: Vec<String>,
}

/// One device → node assignment (a line drawn on the canvas).
#[derive(Debug, Clone, PartialEq, Eq)]
pub struct Assignment {
    pub id: String,
    pub device_id: String,
    /// Shown on the line: colour is never the only carrier of meaning.
    pub device_name: String,
    pub node_id: String,
}

/// The map: a forest of folder nodes plus every assignment.
///
/// Top-level nodes are ordered by their position in `nodes`; other nodes by their
/// parent's `children` list.
#[derive(Debug, Clone, PartialEq, Eq)]
pub struct FolderMap {
    pub nodes: Vec<MapNode>,
    pub assignments: Vec<Assignment>,
}

/// Why a map edit was refused.
#[derive(Debug, Clone, PartialEq, Eq)]
pub enum MapError {
    /// The name is empty, or only white space.
    EmptyName,
    /// The name is too long.
    NameTooLong { name: String, max: usize, actual: usize },
    /// The name holds a character Windows refuses, or a control character.
    IllegalCharacter { name: String },
    /// The name is a reserved Windows device name (with or without extension).
    ReservedName { name: String },
    /// The name starts with a space, or ends with a dot or a space.
    PaddedName { name: String },
    /// A placeholder in the name is malformed.
    BadPlaceholder { name: String, reason: TemplateError },
    /// A sibling already has this name (compared without case, as NTFS does).
    DuplicateSibling { name: String },
    /// Deeper than the depth limit.
    TooDeep { max: usize },
    /// No node with this id.
    NodeMissing { id: String },
    /// The move would put a node under itself or its own descendant.
    WouldCycle { name: String },
    /// No assignment with this id.
    AssignmentMissing { id: String },
    /// This device is already assigned to this node.
    DuplicateAssignment { device_name: String, node_name: String },
    /// The device's source volume is not connected.
    SourceOffline { device_name: String },
    /// The tree is not a chain; `at` names the fork (`None`: forked at the top level).
    NotAChain { at: Option<String>, branches: usize },
    /// The map is empty.
    EmptyMap,
    /// A string template is not valid.
    BadTemplateString { template: String, reason: TemplateError },
    /// The stored structure is inconsistent; `detail` is for troubleshooting.
    Inconsistent { detail: String },
    /// The project folder could not be read.
    Unreadable { path: String, reason: String },
}

/// [`MapError`] with its text taken by view.
pub enum MapErrorV {
    EmptyName,
    NameTooLong { name: Seq<char>, max: nat, actual: nat },
    IllegalCharacter { name: Seq<char> },
    ReservedName { name: Seq<char> },
    PaddedName { name: Seq<char> },
    BadPlaceholder { name: Seq<char>, reason: TemplateErrorV },
    DuplicateSibling { name: Seq<char> },
    TooDeep { max: nat },
    NodeMissing { id: Seq<char> },
    WouldCycle { name: Seq<char> },
    AssignmentMissing { id: Seq<char> },
    DuplicateAssignment { device_name: Seq<char>, node_name: Seq<char> },
    SourceOffline { device_name: Seq<char> },
    NotAChain { at: Option<Seq<char>>, branches: nat },
    EmptyMap,
    BadTemplateString { template: Seq<char>, reason: TemplateErrorV },
    Inconsistent { detail: Seq<char> },
    Unreadable { path: Seq<char>, reason: Seq<char> },
}

/// An optional string by view.
pub open spec fn sv(o: Option<String>) -> Option<Seq<char>> {
    match o {
        Some(s) => Some(s@),
        None => None,
    }
}

impl View for MapError {
    type V = MapErrorV;

    open spec fn view(&self) -> MapErrorV {
        match self {
            MapError::EmptyName => MapErrorV::EmptyName,
            MapError::NameTooLong { name, max, actual } => MapErrorV::NameTooLong {
                name: name@,
                max: *max as nat,
                actual: *actual as nat,
            },
            MapError::IllegalCharacter { name } => MapErrorV::IllegalCharacter { name: name@ },
            MapError::ReservedName { name } => MapErrorV::ReservedName { name: name@ },
            MapError::PaddedName { name } => MapErrorV::PaddedName { name: name@ },
            MapError::BadPlaceholder { name, reason } => MapErrorV::BadPlaceholder {
                name: name@,
                reason: reason@,
            },
            MapError::DuplicateSibling { name } => MapErrorV::DuplicateSibling { name: name@ },
            MapError::TooDeep { max } => MapErrorV::TooDeep { max: *max as nat },
            MapError::NodeMissing { id } => MapErrorV::NodeMissing { id: id@ },
            MapError::WouldCycle { name } => MapErrorV::WouldCycle { name: name@ },
            MapError::AssignmentMissing { id } => MapErrorV::AssignmentMissing { id: id@ },
            MapError::DuplicateAssignment { device_name, node_name } => MapErrorV::DuplicateAssignment {
                device_name: device_name@,
                node_name: node_name@,
            },
            MapError::SourceOffline { device_name } => MapErrorV::SourceOffline {
                device_name: device_name@,
            },
            MapError::NotAChain { at, branches } => MapErrorV::NotAChain {
                at: sv(*at),
                branches: *branches as nat,
            },
            MapError::EmptyMap => MapErrorV::EmptyMap,
            MapError::BadTemplateString { template, reason } => MapErrorV::BadTemplateString {
                template: template@,
                reason: reason@,
            },
            MapError::Inconsistent { detail } => MapErrorV::Inconsistent { detail: detail@ },
            MapError::Unreadable { path, reason } => MapErrorV::Unreadable {
                path: path@,
                reason: reason@,
            },
        }
    }
}

/// The first problem with a node name, in the order the checks run: the one that is
/// easiest to understand comes first, and only one is reported.
pub open spec fn name_issue(s: Seq<char>) -> Option<MapErrorV> {
    if trim_seq(s).len() == 0 {
        Some(MapErrorV::EmptyName)
    } else if s.len() > MAX_NAME_CHARS {
        Some(MapErrorV::NameTooLong { name: s, max: MAX_NAME_CHARS as nat, actual: s.len() })
    } else if exists|i: int| 0 <= i < s.len() && is_illegal_char(#[trigger] s[i]) {
        Some(MapErrorV::IllegalCharacter { name: s })
    } else if s[0] == ' ' || s.last() == ' ' || s.last() == '.' {
        Some(MapErrorV::PaddedName { name: s })
    } else if is_reserved_name(s) {
        Some(MapErrorV::ReservedName { name: s })
    } else {
        match segment_check(s) {
            Err(e) => Some(MapErrorV::BadPlaceholder { name: s, reason: e }),
            Ok(()) => None,
        }
    }
}

/// Checks a node name: not blank, at most [`MAX_NAME_CHARS`] characters, no character
/// Windows refuses, no leading space or trailing dot/space, not a reserved device
/// name, and well-formed placeholders.
pub fn validate_node_name(name: &str) -> (r: Result<(), MapError>)
    ensures
        match r {
            Ok(()) => name_issue(name@) is None,
            Err(e) => name_issue(name@) == Some(e@),
        },
{
    let v = chars_of(name);
    let t = trim_chars(v.as_slice());
    if t.len() == 0 {
        return Err(MapError::EmptyName);
    }
    let n = v.len();
    if n > MAX_NAME_CHARS {
        return Err(MapError::NameTooLong { name: owned(name), max: MAX_NAME_CHARS, actual: n });
    }
    let mut i: usize = 0;
    while i < n
        invariant
            i <= n,
            n == v@.len(),
            v@ == name@,
            trim_seq(name@).len() != 0,
            name@.len() <= MAX_NAME_CHARS,
            forall|j: int| 0 <= j < i ==> !is_illegal_char(#[trigger] v@[j]),
        decreases n - i,
    {
        if char_is_illegal(v[i]) {
            proof {
                assert(is_illegal_char(name@[i as int]));
            }
            return Err(MapError::IllegalCharacter { name: owned(name) });
        }
        i = i + 1;
    }
    proof {
        // A blank trim would have returned above, so the name is not empty.
        if v@.len() == 0 {
            assert(trim_seq(v@) =~= Seq::<char>::empty());
        }
    }
    if v[0] == ' ' || v[n - 1] == ' ' || v[n - 1] == '.' {
        return Err(MapError::PaddedName { name: owned(name) });
    }
    if is_reserved_segment(v.as_slice()) {
        return Err(MapError::ReservedName { name: owned(name) });
    }
    match check_segment_chars(v.as_slice()) {
        Err(reason) => Err(MapError::BadPlaceholder { name: owned(name), reason }),
        Ok(()) => Ok(()),
    }
}

/// Index of the first node with this id, or -1.
pub open spec fn idx_of(ns: Seq<MapNode>, id: Seq<char>) -> int
    decreases ns.len(),
{
    if ns.len() == 0 {
        -1
    } else {
        let r = idx_of(ns.drop_last(), id);
        if r >= 0 {
            r
        } else if ns.last().id@ == id {
            ns.len() - 1
        } else {
            -1
        }
    }
}

/// Whether a node with this id exists.
pub open spec fn has_node(ns: Seq<MapNode>, id: Seq<char>) -> bool {
    idx_of(ns, id) >= 0
}

/// What `idx_of` finds: the first matching position, or nothing when none matches.
pub proof fn lemma_idx_of(ns: Seq<MapNode>, id: Seq<char>)
    ensures
        -1 <= idx_of(ns, id) < ns.len(),
        idx_of(ns, id) >= 0 ==> ns[idx_of(ns, id)].id@ == id,
        forall|j: int| 0 <= j < idx_of(ns, id) ==> (#[trigger] ns[j]).id@ != id,
        idx_of(ns, id) < 0 ==> forall|j: int| 0 <= j < ns.len() ==> (#[trigger] ns[j]).id@ != id,
    decreases ns.len(),
{
    if ns.len() > 0 {
        lemma_idx_of(ns.drop_last(), id);
        let r = idx_of(ns.drop_last(), id);
        assert forall|j: int| 0 <= j < ns.len() - 1 implies #[trigger] ns[j] == ns.drop_last()[j] by {}
    }
}

/// A matching node preceded by no other match is the one `idx_of` finds.
pub proof fn lemma_idx_of_at(ns: Seq<MapNode>, id: Seq<char>, i: int)
    requires
        0 <= i < ns.len(),
        ns[i].id@ == id,
        forall|j: int| 0 <= j < i ==> (#[trigger] ns[j]).id@ != id,
    ensures
        idx_of(ns, id) == i,
{
    lemma_idx_of(ns, id);
}

/// With unique ids, any matching node is the one `idx_of` finds.
pub proof fn lemma_idx_of_unique(ns: Seq<MapNode>, id: Seq<char>, i: int)
    requires
        0 <= i < ns.len(),
        ns[i].id@ == id,
        ids_unique(ns),
    ensures
        idx_of(ns, id) == i,
{
    lemma_idx_of(ns, id);
    assert forall|j: int| 0 <= j < i implies (#[trigger] ns[j]).id@ != id by {
        assert(ns[j].id@ != ns[i].id@);
    }
    lemma_idx_of_at(ns, id, i);
}

/// No two nodes share an id.
pub open spec fn ids_unique(ns: Seq<MapNode>) -> bool {
    forall|i: int, j: int| 0 <= i < ns.len() && 0 <= j < ns.len() && i != j ==> #[trigger] ns[i].id@ != #[trigger] ns[j].id@
}

impl FolderMap {
    /// An empty map.
    pub fn new() -> (r: FolderMap)
        ensures
            r.nodes@.len() == 0,
            r.assignments@.len() == 0,
    {
        FolderMap { nodes: Vec::new(), assignments: Vec::new() }
    }

    /// Position of the node with this id.
    pub fn find_index(&self, id: &str) -> (r: Option<usize>)
        ensures
            match r {
                Some(i) => i < self.nodes@.len() && i as int == idx_of(self.nodes@, id@),
                None => idx_of(self.nodes@, id@) < 0,
            },
    {
        let mut i: usize = 0;
        while i < self.nodes.len()
            invariant
                i <= self.nodes@.len(),
                forall|j: int| 0 <= j < i ==> (#[trigger] self.nodes@[j]).id@ != id@,
            decreases self.nodes@.len() - i,
        {
            if str_eq(self.nodes[i].id.as_str(), id) {
                proof {
                    lemma_idx_of_at(self.nodes@, id@, i as int);
                }
                return Some(i);
            }
            i = i + 1;
        }
        proof {
            lemma_idx_of(self.nodes@, id@);
        }
        None
    }
}


impl Default for FolderMap {
    /// An empty map.
    fn default() -> (r: FolderMap)
        ensures
            r.nodes@.len() == 0,
            r.assignments@.len() == 0,
    {
        FolderMap::new()
    }
}

/// How climbing towards the root failed.
pub enum ClimbErr {
    /// An ancestor id names no node.
    Missing(Seq<char>),
    /// The walk did not reach a root within the node count: the chain loops.
    Cycle,
}

/// The ids from `id` up to its root (inclusive), walking at most `k` steps.
pub open spec fn ancestry(ns: Seq<MapNode>, id: Seq<char>, k: nat) -> Result<Seq<Seq<char>>, ClimbErr>
    decreases k,
{
    let i = idx_of(ns, id);
    if i < 0 {
        Err(ClimbErr::Missing(id))
    } else if k == 0 {
        Err(ClimbErr::Cycle)
    } else {
        match ns[i].parent {
            None => Ok(seq![id]),
            Some(p) => ext(seq![id], ancestry(ns, p@, (k - 1) as nat)),
        }
    }
}

/// Prefixes a successful walk.
pub open spec fn ext(pre: Seq<Seq<char>>, r: Result<Seq<Seq<char>>, ClimbErr>) -> Result<Seq<Seq<char>>, ClimbErr> {
    match r {
        Ok(s) => Ok(pre + s),
        Err(e) => Err(e),
    }
}

pub(crate) proof fn lemma_ext_ext(a: Seq<Seq<char>>, b: Seq<Seq<char>>, r: Result<Seq<Seq<char>>, ClimbErr>)
    ensures
        ext(a, ext(b, r)) == ext(a + b, r),
{
    match r {
        Ok(s) => {
            assert(a + (b + s) =~= (a + b) + s);
        },
        Err(e) => {},
    }
}

/// The detail text of an inconsistent ancestor chain of `id`.
pub open spec fn chain_error(id: Seq<char>, e: ClimbErr) -> MapErrorV {
    match e {
        ClimbErr::Missing(p) => MapErrorV::Inconsistent {
            detail: "节点 "@ + id + " 的祖先 "@ + p + " 不存在"@,
        },
        ClimbErr::Cycle => MapErrorV::Inconsistent { detail: "节点 "@ + id + " 的祖先链成环"@ },
    }
}

/// The ancestor walk of `depth_of` and `path_segments`: the ids from the node to its
/// root, bounded by the node count.
pub open spec fn walk_spec(ns: Seq<MapNode>, id: Seq<char>) -> Result<Seq<Seq<char>>, MapErrorV> {
    if idx_of(ns, id) < 0 {
        Err(MapErrorV::NodeMissing { id })
    } else {
        match ancestry(ns, id, ns.len()) {
            Ok(a) => Ok(a),
            Err(e) => Err(chain_error(id, e)),
        }
    }
}

/// The depth of a node (a top-level node has depth 1).
pub open spec fn depth_spec(ns: Seq<MapNode>, id: Seq<char>) -> Result<nat, MapErrorV> {
    match walk_spec(ns, id) {
        Ok(a) => Ok(a.len()),
        Err(e) => Err(e),
    }
}

/// The name of the node with this id.
pub open spec fn name_of(ns: Seq<MapNode>, id: Seq<char>) -> Seq<char> {
    ns[idx_of(ns, id)].name@
}

/// The folder names from the top-level ancestor down to the node itself.
pub open spec fn path_spec(ns: Seq<MapNode>, id: Seq<char>) -> Result<Seq<Seq<char>>, MapErrorV> {
    match walk_spec(ns, id) {
        Ok(a) => Ok(a.map_values(|x: Seq<char>| name_of(ns, x)).reverse()),
        Err(e) => Err(e),
    }
}

/// Case-insensitive as NTFS: `str::to_lowercase` on both sides.
pub open spec fn same_name(a: Seq<char>, b: Seq<char>) -> bool {
    spec_to_lowercase(a) == spec_to_lowercase(b)
}

/// What `str::to_lowercase` returns (full Unicode lowercase mapping).
pub uninterp spec fn spec_to_lowercase(s: Seq<char>) -> Seq<char>;

/// Unicode lowercase of a string: std's `str::to_lowercase`. The result is named, not
/// restated: it depends on the string alone.
#[verifier::external_body]
fn to_lowercase(s: &str) -> (r: String)
    ensures
        r@ == spec_to_lowercase(s@),
{
    s.to_lowercase()
}

/// Whether two names clash on NTFS.
pub fn names_clash(a: &str, b: &str) -> (r: bool)
    ensures
        r == same_name(a@, b@),
{
    let x = to_lowercase(a);
    let y = to_lowercase(b);
    x == y
}

/// Top-level nodes, in `nodes` order.
pub open spec fn top_level(ns: Seq<MapNode>) -> Seq<MapNode>
    decreases ns.len(),
{
    if ns.len() == 0 {
        Seq::empty()
    } else if ns.last().parent is None {
        top_level(ns.drop_last()).push(ns.last())
    } else {
        top_level(ns.drop_last())
    }
}

/// The nodes named by `ids` that exist, in list order.
pub open spec fn kids_of(ns: Seq<MapNode>, ids: Seq<String>) -> Seq<MapNode>
    decreases ids.len(),
{
    if ids.len() == 0 {
        Seq::empty()
    } else {
        let j = idx_of(ns, ids.last()@);
        if j >= 0 {
            kids_of(ns, ids.drop_last()).push(ns[j])
        } else {
            kids_of(ns, ids.drop_last())
        }
    }
}

/// The children of a level (`None`: the top level), in their stable order.
pub open spec fn children_spec(ns: Seq<MapNode>, parent: Option<Seq<char>>) -> Seq<MapNode> {
    match parent {
        None => top_level(ns),
        Some(p) => {
            let j = idx_of(ns, p);
            if j < 0 { Seq::empty() } else { kids_of(ns, ns[j].children@) }
        },
    }
}

/// Whether a child of `parent` other than `exclude` has a name that clashes with `name`.
pub open spec fn sibling_clash(ns: Seq<MapNode>, parent: Option<Seq<char>>, name: Seq<char>, exclude: Option<Seq<char>>) -> bool {
    exists|k: int|
        0 <= k < children_spec(ns, parent).len() && Some(#[trigger] children_spec(ns, parent)[k].id@) != exclude
            && same_name(children_spec(ns, parent)[k].name@, name)
}

/// Index of the first node in `s` whose name clashes with `name`, or -1.
pub open spec fn first_named(s: Seq<MapNode>, name: Seq<char>) -> int
    decreases s.len(),
{
    if s.len() == 0 {
        -1
    } else {
        let r = first_named(s.drop_last(), name);
        if r >= 0 {
            r
        } else if same_name(s.last().name@, name) {
            s.len() - 1
        } else {
            -1
        }
    }
}

pub(crate) proof fn lemma_first_named(s: Seq<MapNode>, name: Seq<char>)
    ensures
        -1 <= first_named(s, name) < s.len(),
        first_named(s, name) >= 0 ==> same_name(s[first_named(s, name)].name@, name),
        forall|j: int| 0 <= j < first_named(s, name) ==> !same_name((#[trigger] s[j]).name@, name),
        first_named(s, name) < 0 ==> forall|j: int| 0 <= j < s.len() ==> !same_name((#[trigger] s[j]).name@, name),
    decreases s.len(),
{
    if s.len() > 0 {
        lemma_first_named(s.drop_last(), name);
        assert forall|j: int| 0 <= j < s.len() - 1 implies #[trigger] s[j] == s.drop_last()[j] by {}
    }
}

/// Builds the detail text "节点 {id} 的祖先 {pid} 不存在".
pub(crate) fn missing_ancestor(id: &str, pid: &str) -> (r: MapError)
    ensures
        r@ == chain_error(id@, ClimbErr::Missing(pid@)),
{
    let mut d = String::new();
    push_str(&mut d, "节点 ");
    push_str(&mut d, id);
    push_str(&mut d, " 的祖先 ");
    push_str(&mut d, pid);
    push_str(&mut d, " 不存在");
    proof {
        assert(d@ =~= "节点 "@ + id@ + " 的祖先 "@ + pid@ + " 不存在"@);
    }
    MapError::Inconsistent { detail: d }
}

/// Builds the detail text "节点 {id} 的祖先链成环".
fn cyclic_ancestry(id: &str) -> (r: MapError)
    ensures
        r@ == chain_error(id@, ClimbErr::Cycle),
{
    let mut d = String::new();
    push_str(&mut d, "节点 ");
    push_str(&mut d, id);
    push_str(&mut d, " 的祖先链成环");
    proof {
        assert(d@ =~= "节点 "@ + id@ + " 的祖先链成环"@);
    }
    MapError::Inconsistent { detail: d }
}

impl FolderMap {
    /// The node with this id.
    pub fn node(&self, id: &str) -> (r: Option<&MapNode>)
        ensures
            match r {
                Some(n) => idx_of(self.nodes@, id@) >= 0 && *n == self.nodes@[idx_of(self.nodes@, id@)],
                None => idx_of(self.nodes@, id@) < 0,
            },
    {
        match self.find_index(id) {
            Some(i) => Some(&self.nodes[i]),
            None => None,
        }
    }

    /// Indices of the nodes from `id` up to its root.
    pub(crate) fn walk_up(&self, id: &str) -> (r: Result<Vec<usize>, MapError>)
        ensures
            match r {
                Ok(v) => walk_spec(self.nodes@, id@) is Ok && v@.len() == walk_spec(self.nodes@, id@)->Ok_0.len()
                    && forall|k: int| 0 <= k < v@.len() ==> {
                        &&& #[trigger] v@[k] < self.nodes@.len()
                        &&& v@[k] as int == idx_of(self.nodes@, walk_spec(self.nodes@, id@)->Ok_0[k])
                    },
                Err(e) => walk_spec(self.nodes@, id@) == Err::<Seq<Seq<char>>, MapErrorV>(e@),
            },
    {
        let ghost ns = self.nodes@;
        let len = self.nodes.len();
        let start = match self.find_index(id) {
            Some(i) => i,
            None => {
                return Err(MapError::NodeMissing { id: owned(id) });
            },
        };
        proof {
            lemma_idx_of(ns, id@);
        }
        let mut seen: Vec<usize> = Vec::new();
        seen.push(start);
        let ghost mut ids: Seq<Seq<char>> = seq![id@];
        let mut steps: usize = 0;
        while steps < len
            invariant
                ns == self.nodes@,
                len == ns.len(),
                steps <= len,
                seen@.len() == steps + 1,
                ids.len() == seen@.len(),
                forall|k: int| 0 <= k < seen@.len() ==> {
                    &&& #[trigger] seen@[k] < ns.len()
                    &&& seen@[k] as int == idx_of(ns, ids[k])
                },
                ancestry(ns, id@, len as nat) == ext(ids.drop_last(), ancestry(ns, ids.last(), (len - steps) as nat)),
                idx_of(ns, id@) >= 0,
            decreases len - steps,
        {
            let cur = seen[steps];
            let ghost cid = ids.last();
            proof {
                lemma_idx_of(ns, cid);
                assert(seen@[steps as int] == seen@.last());
            }
            match &self.nodes[cur].parent {
                None => {
                    proof {
                        assert(ancestry(ns, cid, (len - steps) as nat) == Ok::<Seq<Seq<char>>, ClimbErr>(seq![cid]));
                        assert(ids.drop_last() + seq![cid] =~= ids);
                        assert(walk_spec(ns, id@) == Ok::<Seq<Seq<char>>, MapErrorV>(ids));
                    }
                    return Ok(seen);
                },
                Some(pid) => {
                    let ghost p = pid@;
                    proof {
                        lemma_ext_ext(ids.drop_last(), seq![cid], ancestry(ns, p, (len - steps - 1) as nat));
                        assert(ids.drop_last() + seq![cid] =~= ids);
                    }
                    match self.find_index(pid.as_str()) {
                        None => {
                            return Err(missing_ancestor(id, pid.as_str()));
                        },
                        Some(j) => {
                            seen.push(j);
                            proof {
                                let old_ids = ids;
                                assert(ancestry(ns, cid, (len - steps) as nat) == ext(seq![cid], ancestry(ns, p, (len - steps - 1) as nat)));
                                ids = ids.push(p);
                                assert(ids.drop_last() =~= old_ids);
                                assert(ids.last() == p);
                                assert forall|k: int| 0 <= k < seen@.len() implies {
                                    &&& #[trigger] seen@[k] < ns.len()
                                    &&& seen@[k] as int == idx_of(ns, ids[k])
                                } by {
                                    if k < seen@.len() - 1 {
                                        assert(ids[k] == old_ids[k]);
                                    }
                                }
                            }
                        },
                    }
                },
            }
            steps = steps + 1;
        }
        proof {
            assert(ids.last() == ids[steps as int]);
            assert(seen@[steps as int] as int == idx_of(ns, ids[steps as int]));
            assert(ancestry(ns, ids.last(), 0) == Err::<Seq<Seq<char>>, ClimbErr>(ClimbErr::Cycle));
        }
        Err(cyclic_ancestry(id))
    }

    /// Depth of a node (top level = 1). A broken ancestor chain — a dangling parent or a
    /// loop — is reported as [`MapError::Inconsistent`].
    pub fn depth_of(&self, id: &str) -> (r: Result<usize, MapError>)
        ensures
            match r {
                Ok(d) => depth_spec(self.nodes@, id@) == Ok::<nat, MapErrorV>(d as nat),
                Err(e) => depth_spec(self.nodes@, id@) == Err::<nat, MapErrorV>(e@),
            },
    {
        match self.walk_up(id) {
            Ok(v) => Ok(v.len()),
            Err(e) => Err(e),
        }
    }

    /// The folder names from the top-level ancestor down to the node itself — the raw
    /// material of the node's template string.
    pub fn path_segments(&self, id: &str) -> (r: Result<Vec<String>, MapError>)
        ensures
            match r {
                Ok(v) => path_spec(self.nodes@, id@) is Ok && v@.len() == path_spec(self.nodes@, id@)->Ok_0.len()
                    && forall|k: int| 0 <= k < v@.len() ==> #[trigger] v@[k]@ == path_spec(self.nodes@, id@)->Ok_0[k],
                Err(e) => path_spec(self.nodes@, id@) == Err::<Seq<Seq<char>>, MapErrorV>(e@),
            },
    {
        let ghost ns = self.nodes@;
        let v = match self.walk_up(id) {
            Ok(v) => v,
            Err(e) => {
                return Err(e);
            },
        };
        let ghost a = walk_spec(ns, id@)->Ok_0;
        let ghost want = a.map_values(|x: Seq<char>| name_of(ns, x)).reverse();
        let mut out: Vec<String> = Vec::new();
        let mut k: usize = v.len();
        while k > 0
            invariant
                ns == self.nodes@,
                k <= v@.len(),
                v@.len() == a.len(),
                want.len() == a.len(),
                want == a.map_values(|x: Seq<char>| name_of(ns, x)).reverse(),
                forall|m: int| 0 <= m < v@.len() ==> {
                    &&& #[trigger] v@[m] < ns.len()
                    &&& v@[m] as int == idx_of(ns, a[m])
                },
                out@.len() == v@.len() - k,
                forall|m: int| 0 <= m < out@.len() ==> #[trigger] out@[m]@ == want[m],
            decreases k,
        {
            k = k - 1;
            let i = v[k];
            out.push(self.nodes[i].name.clone());
            proof {
                let m = out@.len() - 1;
                assert(want[m] == a.map_values(|x: Seq<char>| name_of(ns, x))[a.len() - 1 - m]);
                assert(a.len() - 1 - m == k);
            }
        }
        Ok(out)
    }

    /// The children of a level (`None`: the top level), in their stable order. Ids in a
    /// child list that name no node are passed over.
    pub fn children(&self, parent: Option<&str>) -> (r: Vec<&MapNode>)
        ensures
            r@.len() == children_spec(self.nodes@, match parent { Some(p) => Some(p@), None => None }).len(),
            forall|k: int| 0 <= k < r@.len() ==> *#[trigger] r@[k]
                == children_spec(self.nodes@, match parent { Some(p) => Some(p@), None => None })[k],
    {
        let ghost ns = self.nodes@;
        let mut out: Vec<&MapNode> = Vec::new();
        match parent {
            None => {
                let mut i: usize = 0;
                while i < self.nodes.len()
                    invariant
                        ns == self.nodes@,
                        i <= ns.len(),
                        out@.len() == top_level(ns.take(i as int)).len(),
                        forall|k: int| 0 <= k < out@.len() ==> *#[trigger] out@[k] == top_level(ns.take(i as int))[k],
                    decreases ns.len() - i,
                {
                    proof {
                        assert(ns.take(i + 1).drop_last() =~= ns.take(i as int));
                    }
                    if self.nodes[i].parent.is_none() {
                        out.push(&self.nodes[i]);
                    }
                    i = i + 1;
                }
                proof {
                    assert(ns.take(ns.len() as int) =~= ns);
                }
            },
            Some(pid) => {
                match self.find_index(pid) {
                    None => {},
                    Some(j) => {
                        let ids = &self.nodes[j].children;
                        let mut i: usize = 0;
                        while i < ids.len()
                            invariant
                                ns == self.nodes@,
                                j < ns.len(),
                                *ids == ns[j as int].children,
                                i <= ids@.len(),
                                out@.len() == kids_of(ns, ids@.take(i as int)).len(),
                                forall|k: int| 0 <= k < out@.len() ==> *#[trigger] out@[k] == kids_of(ns, ids@.take(i as int))[k],
                            decreases ids@.len() - i,
                        {
                            proof {
                                assert(ids@.take(i + 1).drop_last() =~= ids@.take(i as int));
                            }
                            match self.find_index(ids[i].as_str()) {
                                Some(c) => {
                                    out.push(&self.nodes[c]);
                                },
                                None => {},
                            }
                            i = i + 1;
                        }
                        proof {
                            assert(ids@.take(ids@.len() as int) =~= ids@);
                        }
                    },
                }
            },
        }
        out
    }

    /// The child of a level whose name matches `name` without regard to case.
    pub fn find_child(&self, parent: Option<&str>, name: &str) -> (r: Option<&MapNode>)
        ensures
            ({
                let kids = children_spec(self.nodes@, match parent { Some(p) => Some(p@), None => None });
                match r {
                    Some(n) => first_named(kids, name@) >= 0 && *n == kids[first_named(kids, name@)],
                    None => first_named(kids, name@) < 0,
                }
            }),
    {
        let kids = self.children(parent);
        let ghost ks = children_spec(self.nodes@, match parent { Some(p) => Some(p@), None => None });
        let mut i: usize = 0;
        while i < kids.len()
            invariant
                i <= kids@.len(),
                ks == children_spec(self.nodes@, match parent { Some(p) => Some(p@), None => None }),
                kids@.len() == ks.len(),
                forall|k: int| 0 <= k < kids@.len() ==> *#[trigger] kids@[k] == ks[k],
                forall|j: int| 0 <= j < i ==> !same_name((#[trigger] ks[j]).name@, name@),
            decreases kids@.len() - i,
        {
            let n = kids[i];
            if names_clash(n.name.as_str(), name) {
                proof {
                    lemma_first_named(ks, name@);
                    assert(ks[i as int] == *kids@[i as int]);
                    assert(same_name(ks[i as int].name@, name@));
                    let f = first_named(ks, name@);
                    if f >= 0 && f < i {
                        assert(!same_name(ks[f].name@, name@));
                    }
                    assert(f == i);
                }
                return Some(n);
            }
            i = i + 1;
        }
        proof {
            lemma_first_named(ks, name@);
            if first_named(ks, name@) >= 0 {
                let f = first_named(ks, name@);
                assert(!same_name(ks[f].name@, name@));
            }
        }
        None
    }

    /// Refuses a name that clashes with a child of `parent` other than `exclude`
    /// (renames and moves exclude the node itself).
    pub fn ensure_no_sibling(&self, parent: Option<&str>, name: &str, exclude: Option<&str>) -> (r: Result<(), MapError>)
        ensures
            match r {
                Ok(()) => !sibling_clash(self.nodes@, match parent { Some(p) => Some(p@), None => None }, name@,
                    match exclude { Some(x) => Some(x@), None => None }),
                Err(e) => sibling_clash(self.nodes@, match parent { Some(p) => Some(p@), None => None }, name@,
                    match exclude { Some(x) => Some(x@), None => None }) && e@ == (MapErrorV::DuplicateSibling { name: name@ }),
            },
    {
        let kids = self.children(parent);
        let ghost ks = children_spec(self.nodes@, match parent { Some(p) => Some(p@), None => None });
        let ghost ex = match exclude { Some(x) => Some(x@), None => None };
        let mut i: usize = 0;
        while i < kids.len()
            invariant
                i <= kids@.len(),
                ks == children_spec(self.nodes@, match parent { Some(p) => Some(p@), None => None }),
                kids@.len() == ks.len(),
                ex == match exclude { Some(x) => Some(x@), None => None },
                forall|k: int| 0 <= k < kids@.len() ==> *#[trigger] kids@[k] == ks[k],
                forall|j: int| 0 <= j < i ==> !(Some((#[trigger] ks[j]).id@) != ex && same_name(ks[j].name@, name@)),
            decreases kids@.len() - i,
        {
            let n = kids[i];
            let not_excluded = match exclude {
                Some(x) => !str_eq(n.id.as_str(), x),
                None => true,
            };
            if not_excluded && names_clash(n.name.as_str(), name) {
                proof {
                    assert(ks[i as int] == *kids@[i as int]);
                    assert(Some(ks[i as int].id@) != ex);
                    assert(same_name(ks[i as int].name@, name@));
                    assert(sibling_clash(self.nodes@, match parent { Some(p) => Some(p@), None => None }, name@, ex));
                }
                return Err(MapError::DuplicateSibling { name: owned(name) });
            }
            i = i + 1;
        }
        Ok(())
    }

    /// Empties the map, nodes and assignments alike. Nothing on disk is touched.
    pub fn clear(&mut self)
        ensures
            final(self).nodes@.len() == 0,
            final(self).assignments@.len() == 0,
            final(self).wf(),
    {
        self.nodes.clear();
        self.assignments.clear();
    }
}


/// How many entries of `ids` equal `x`.
pub open spec fn count_id(ids: Seq<String>, x: Seq<char>) -> nat
    decreases ids.len(),
{
    if ids.len() == 0 {
        0
    } else {
        count_id(ids.drop_last(), x) + if ids.last()@ == x { 1nat } else { 0nat }
    }
}

/// Every parent exists and lists the child exactly once.
pub open spec fn parents_ok(ns: Seq<MapNode>) -> bool {
    forall|i: int|
        0 <= i < ns.len() ==> match #[trigger] ns[i].parent {
            None => true,
            Some(p) => has_node(ns, p@) && count_id(ns[idx_of(ns, p@)].children@, ns[i].id@) == 1,
        }
}

/// Every listed child exists and points back at its parent.
pub open spec fn children_ok(ns: Seq<MapNode>) -> bool {
    forall|i: int, k: int|
        0 <= i < ns.len() && 0 <= k < ns[i].children@.len() ==> has_node(ns, #[trigger] ns[i].children@[k]@)
            && sv(ns[idx_of(ns, ns[i].children@[k]@)].parent) == Some(ns[i].id@)
}

/// Every name passes [`validate_node_name`].
pub open spec fn names_ok(ns: Seq<MapNode>) -> bool {
    forall|i: int| 0 <= i < ns.len() ==> name_issue(#[trigger] ns[i].name@) is None
}

/// Every node reaches a root within the depth limit (so there is no cycle).
pub open spec fn depths_ok(ns: Seq<MapNode>) -> bool {
    forall|i: int| 0 <= i < ns.len() ==> #[trigger] depth_spec(ns, ns[i].id@) is Ok && depth_spec(ns, ns[i].id@)->Ok_0 <= MAX_DEPTH
}

/// No two nodes under the same parent have clashing names.
pub open spec fn siblings_ok(ns: Seq<MapNode>) -> bool {
    forall|i: int, j: int|
        0 <= i < ns.len() && 0 <= j < ns.len() && i != j && sv(ns[i].parent) == sv(ns[j].parent) ==> !same_name(
            #[trigger] ns[i].name@,
            #[trigger] ns[j].name@,
        )
}

/// Assignment ids are unique and every assignment points at an existing node.
pub open spec fn assignments_ok(ns: Seq<MapNode>, asg: Seq<Assignment>) -> bool {
    &&& forall|a: int, b: int| 0 <= a < asg.len() && 0 <= b < asg.len() && a != b ==> #[trigger] asg[a].id@ != #[trigger] asg[b].id@
    &&& forall|a: int| 0 <= a < asg.len() ==> has_node(ns, #[trigger] asg[a].node_id@)
}

/// The structural invariant of a map: exactly what [`FolderMap::validate`] accepts.
pub open spec fn wf_parts(ns: Seq<MapNode>, asg: Seq<Assignment>) -> bool {
    &&& ids_unique(ns)
    &&& assignments_ok(ns, asg)
    &&& parents_ok(ns)
    &&& children_ok(ns)
    &&& names_ok(ns)
    &&& depths_ok(ns)
    &&& siblings_ok(ns)
}

impl FolderMap {
    /// The map invariant.
    pub open spec fn wf(&self) -> bool {
        wf_parts(self.nodes@, self.assignments@)
    }
}

pub(crate) proof fn lemma_top_level(ns: Seq<MapNode>)
    ensures
        forall|k: int| #![trigger top_level(ns)[k]] 0 <= k < top_level(ns).len() ==> exists|j: int| #![trigger ns[j]] 0 <= j < ns.len() && top_level(ns)[k] == ns[j] && ns[j].parent is None,
        forall|j: int| 0 <= j < ns.len() && (#[trigger] ns[j]).parent is None ==> exists|k: int| 0 <= k < top_level(ns).len() && #[trigger] top_level(ns)[k] == ns[j],
    decreases ns.len(),
{
    if ns.len() > 0 {
        let d = ns.drop_last();
        lemma_top_level(d);
        let t = top_level(ns);
        let td = top_level(d);
        let last = ns[ns.len() - 1];
        assert(ns.last() == last);
        if last.parent is None {
            assert(t == td.push(last));
        } else {
            assert(t == td);
        }
        assert forall|k: int| #![trigger t[k]] 0 <= k < t.len() implies exists|j: int| #![trigger ns[j]] 0 <= j < ns.len() && t[k] == ns[j] && ns[j].parent is None by {
            if k < td.len() {
                assert(t[k] == td[k]);
                let j = choose|j: int| #![trigger d[j]] 0 <= j < d.len() && td[k] == d[j] && d[j].parent is None;
                assert(d[j] == ns[j]);
            } else {
                assert(t[k] == ns[ns.len() - 1]);
            }
        }
        assert forall|j: int| 0 <= j < ns.len() && (#[trigger] ns[j]).parent is None implies exists|k: int| 0 <= k < t.len() && #[trigger] t[k] == ns[j] by {
            if j < ns.len() - 1 {
                assert(d[j] == ns[j]);
                let k = choose|k: int| 0 <= k < td.len() && #[trigger] td[k] == d[j];
                assert(t[k] == td[k]);
            } else {
                assert(t[t.len() - 1] == ns[j]);
            }
        }
    }
}

pub(crate) proof fn lemma_kids_of(ns: Seq<MapNode>, ids: Seq<String>)
    ensures
        forall|k: int| #![trigger kids_of(ns, ids)[k]] 0 <= k < kids_of(ns, ids).len() ==> exists|m: int| #![trigger ids[m]] 0 <= m < ids.len() && idx_of(ns, ids[m]@) >= 0 && kids_of(ns, ids)[k] == ns[idx_of(ns, ids[m]@)],
        forall|m: int| 0 <= m < ids.len() && idx_of(ns, (#[trigger] ids[m])@) >= 0 ==> exists|k: int| 0 <= k < kids_of(ns, ids).len() && #[trigger] kids_of(ns, ids)[k] == ns[idx_of(ns, ids[m]@)],
    decreases ids.len(),
{
    if ids.len() > 0 {
        let d = ids.drop_last();
        lemma_kids_of(ns, d);
        let t = kids_of(ns, ids);
        let td = kids_of(ns, d);
        let lj = idx_of(ns, ids.last()@);
        if lj >= 0 {
            assert(t == td.push(ns[lj]));
        } else {
            assert(t == td);
        }
        assert forall|k: int| #![trigger t[k]] 0 <= k < t.len() implies exists|m: int| #![trigger ids[m]] 0 <= m < ids.len() && idx_of(ns, ids[m]@) >= 0 && t[k] == ns[idx_of(ns, ids[m]@)] by {
            if k < td.len() {
                assert(t[k] == td[k]);
                let m = choose|m: int| #![trigger d[m]] 0 <= m < d.len() && idx_of(ns, d[m]@) >= 0 && td[k] == ns[idx_of(ns, d[m]@)];
                assert(ids[m] == d[m]);
            } else {
                assert(ids[ids.len() - 1] == ids.last());
            }
        }
        assert forall|m: int| 0 <= m < ids.len() && idx_of(ns, (#[trigger] ids[m])@) >= 0 implies exists|k: int| 0 <= k < t.len() && #[trigger] t[k] == ns[idx_of(ns, ids[m]@)] by {
            if m < ids.len() - 1 {
                assert(d[m] == ids[m]);
                let k = choose|k: int| 0 <= k < td.len() && #[trigger] td[k] == ns[idx_of(ns, d[m]@)];
                assert(t[k] == td[k]);
            } else {
                assert(ids[m] == ids.last());
                assert(t[t.len() - 1] == ns[idx_of(ns, ids[m]@)]);
            }
        }
    }
}

/// A count of one means the id is listed.
pub(crate) proof fn lemma_count_pos(ids: Seq<String>, x: Seq<char>)
    requires
        count_id(ids, x) > 0,
    ensures
        exists|m: int| 0 <= m < ids.len() && (#[trigger] ids[m])@ == x,
    decreases ids.len(),
{
    if ids.last()@ == x {
        assert(ids[ids.len() - 1]@ == x);
    } else {
        lemma_count_pos(ids.drop_last(), x);
        let m = choose|m: int| 0 <= m < ids.drop_last().len() && (#[trigger] ids.drop_last()[m])@ == x;
        assert(ids[m] == ids.drop_last()[m]);
    }
}

/// The same-parent form of a sibling clash.
pub open spec fn clash_by_parent(ns: Seq<MapNode>, par: Option<Seq<char>>, name: Seq<char>, ex: Option<Seq<char>>) -> bool {
    exists|j: int| 0 <= j < ns.len() && sv(ns[j].parent) == par && Some((#[trigger] ns[j]).id@) != ex && same_name(ns[j].name@, name)
}

proof fn lemma_clash_top(ns: Seq<MapNode>, name: Seq<char>, ex: Option<Seq<char>>)
    ensures
        sibling_clash(ns, None, name, ex) == clash_by_parent(ns, None, name, ex),
{
    let kids = children_spec(ns, None);
    lemma_top_level(ns);
    if sibling_clash(ns, None, name, ex) {
        let k = choose|k: int| 0 <= k < kids.len() && Some(#[trigger] kids[k].id@) != ex && same_name(kids[k].name@, name);
        let j = choose|j: int| #![trigger ns[j]] 0 <= j < ns.len() && top_level(ns)[k] == ns[j] && ns[j].parent is None;
        assert(sv(ns[j].parent) == None::<Seq<char>>);
    }
    if clash_by_parent(ns, None, name, ex) {
        let j = choose|j: int| 0 <= j < ns.len() && sv(ns[j].parent) == None::<Seq<char>> && Some((#[trigger] ns[j]).id@) != ex && same_name(ns[j].name@, name);
        assert(ns[j].parent is None);
        let k = choose|k: int| 0 <= k < top_level(ns).len() && #[trigger] top_level(ns)[k] == ns[j];
        assert(Some(kids[k].id@) != ex && same_name(kids[k].name@, name));
    }
}

/// The node behind the `k`-th entry of `kids_of`.
pub(crate) proof fn lemma_kid_at(ns: Seq<MapNode>, ids: Seq<String>, k: int) -> (m: int)
    requires
        0 <= k < kids_of(ns, ids).len(),
    ensures
        0 <= m < ids.len(),
        idx_of(ns, ids[m]@) >= 0,
        kids_of(ns, ids)[k] == ns[idx_of(ns, ids[m]@)],
{
    lemma_kids_of(ns, ids);
    choose|m: int| #![trigger ids[m]] 0 <= m < ids.len() && idx_of(ns, ids[m]@) >= 0 && kids_of(ns, ids)[k] == ns[idx_of(ns, ids[m]@)]
}

/// Where the node of a listed, existing id stands in `kids_of`.
pub(crate) proof fn lemma_kid_in(ns: Seq<MapNode>, ids: Seq<String>, m: int) -> (k: int)
    requires
        0 <= m < ids.len(),
        idx_of(ns, ids[m]@) >= 0,
    ensures
        0 <= k < kids_of(ns, ids).len(),
        kids_of(ns, ids)[k] == ns[idx_of(ns, ids[m]@)],
{
    lemma_kids_of(ns, ids);
    assert(idx_of(ns, ids[m]@) >= 0);
    choose|k: int| 0 <= k < kids_of(ns, ids).len() && #[trigger] kids_of(ns, ids)[k] == ns[idx_of(ns, ids[m]@)]
}

/// One instance of `children_ok`.
pub(crate) proof fn lemma_child_back(ns: Seq<MapNode>, i: int, m: int)
    requires
        children_ok(ns),
        0 <= i < ns.len(),
        0 <= m < ns[i].children@.len(),
    ensures
        has_node(ns, ns[i].children@[m]@),
        sv(ns[idx_of(ns, ns[i].children@[m]@)].parent) == Some(ns[i].id@),
{
}

/// One instance of `parents_ok`.
pub(crate) proof fn lemma_parent_lists(ns: Seq<MapNode>, j: int)
    requires
        parents_ok(ns),
        0 <= j < ns.len(),
        ns[j].parent is Some,
    ensures
        has_node(ns, ns[j].parent->Some_0@),
        count_id(ns[idx_of(ns, ns[j].parent->Some_0@)].children@, ns[j].id@) == 1,
{
    assert(match ns[j].parent {
        None => true,
        Some(p) => has_node(ns, p@) && count_id(ns[idx_of(ns, p@)].children@, ns[j].id@) == 1,
    });
}

proof fn lemma_clash_under_fwd(ns: Seq<MapNode>, p: Seq<char>, name: Seq<char>, ex: Option<Seq<char>>)
    requires
        children_ok(ns),
        sibling_clash(ns, Some(p), name, ex),
    ensures
        clash_by_parent(ns, Some(p), name, ex),
{
    let kids = children_spec(ns, Some(p));
    let jp = idx_of(ns, p);
    lemma_idx_of(ns, p);
    let k = choose|k: int| 0 <= k < kids.len() && Some(#[trigger] kids[k].id@) != ex && same_name(kids[k].name@, name);
    assert(jp >= 0);
    let ch = ns[jp].children@;
    assert(kids == kids_of(ns, ch));
    let m = lemma_kid_at(ns, ch, k);
    lemma_child_back(ns, jp, m);
    let j = idx_of(ns, ch[m]@);
    lemma_idx_of(ns, ch[m]@);
    assert(sv(ns[j].parent) == Some(p) && Some(ns[j].id@) != ex && same_name(ns[j].name@, name));
}

proof fn lemma_clash_under_bwd(ns: Seq<MapNode>, p: Seq<char>, name: Seq<char>, ex: Option<Seq<char>>)
    requires
        ids_unique(ns),
        parents_ok(ns),
        clash_by_parent(ns, Some(p), name, ex),
    ensures
        sibling_clash(ns, Some(p), name, ex),
{
    let kids = children_spec(ns, Some(p));
    let j = choose|j: int| 0 <= j < ns.len() && sv(ns[j].parent) == Some(p) && Some((#[trigger] ns[j]).id@) != ex && same_name(ns[j].name@, name);
    lemma_parent_lists(ns, j);
    let jp = idx_of(ns, p);
    lemma_idx_of(ns, p);
    let ch = ns[jp].children@;
    lemma_count_pos(ch, ns[j].id@);
    let m = choose|m: int| 0 <= m < ch.len() && (#[trigger] ch[m])@ == ns[j].id@;
    lemma_idx_of_unique(ns, ns[j].id@, j);
    let k = lemma_kid_in(ns, ch, m);
    assert(kids[k] == ns[j]);
    assert(Some(kids[k].id@) != ex && same_name(kids[k].name@, name));
}

proof fn lemma_clash_under(ns: Seq<MapNode>, p: Seq<char>, name: Seq<char>, ex: Option<Seq<char>>)
    requires
        ids_unique(ns),
        parents_ok(ns),
        children_ok(ns),
    ensures
        sibling_clash(ns, Some(p), name, ex) == clash_by_parent(ns, Some(p), name, ex),
{
    if sibling_clash(ns, Some(p), name, ex) {
        lemma_clash_under_fwd(ns, p, name, ex);
    }
    if clash_by_parent(ns, Some(p), name, ex) {
        lemma_clash_under_bwd(ns, p, name, ex);
    }
}

/// For a well-linked tree, the sibling check that walks child lists agrees with
/// "same parent".
pub proof fn lemma_clash_same_parent(ns: Seq<MapNode>, par: Option<Seq<char>>, name: Seq<char>, ex: Option<Seq<char>>)
    requires
        ids_unique(ns),
        parents_ok(ns),
        children_ok(ns),
    ensures
        sibling_clash(ns, par, name, ex) == clash_by_parent(ns, par, name, ex),
{
    match par {
        None => lemma_clash_top(ns, name, ex),
        Some(p) => lemma_clash_under(ns, p, name, ex),
    }
}

/// Counts how often `x` is listed.
fn count_listed(ids: &Vec<String>, x: &str) -> (r: usize)
    ensures
        r as nat == count_id(ids@, x@),
{
    let mut c: usize = 0;
    let mut i: usize = 0;
    while i < ids.len()
        invariant
            i <= ids@.len(),
            c as nat == count_id(ids@.take(i as int), x@),
            c <= i,
        decreases ids@.len() - i,
    {
        proof {
            assert(ids@.take(i + 1).drop_last() =~= ids@.take(i as int));
        }
        if str_eq(ids[i].as_str(), x) {
            c = c + 1;
        }
        i = i + 1;
    }
    proof {
        assert(ids@.take(ids@.len() as int) =~= ids@);
    }
    c
}

/// Builds an `Inconsistent` error from three or five text pieces.
fn inconsistent(parts: &[&str]) -> (r: MapError)
    ensures
        r@ is Inconsistent,
{
    let mut d = String::new();
    let mut i: usize = 0;
    while i < parts.len()
        decreases parts@.len() - i,
    {
        push_str(&mut d, parts[i]);
        i = i + 1;
    }
    MapError::Inconsistent { detail: d }
}

impl FolderMap {
    /// The full check of the whole tree: a safety net for a configuration edited by
    /// hand. Every edit path already checks as it goes. `Ok` exactly when the map
    /// satisfies its invariant.
    pub fn validate(&self) -> (r: Result<(), MapError>)
        ensures
            r is Ok <==> self.wf(),
            r matches Err(e) ==> (e@ is Inconsistent || e@ is TooDeep || e@ is DuplicateSibling || e@ is NodeMissing
                || name_issue_kind(e@)),
    {
        let ghost ns = self.nodes@;
        let ghost asg = self.assignments@;
        let n = self.nodes.len();
        // Ids are unique.
        let mut i: usize = 0;
        while i < n
            invariant
                ns == self.nodes@,
                n == ns.len(),
                i <= n,
                forall|a: int, b: int| 0 <= a < i && 0 <= b < n && a != b ==> #[trigger] ns[a].id@ != #[trigger] ns[b].id@,
            decreases n - i,
        {
            let mut m: usize = i + 1;
            while m < n
                invariant
                    ns == self.nodes@,
                    n == ns.len(),
                    i < n,
                    i + 1 <= m <= n,
                    forall|a: int, b: int| 0 <= a < i && 0 <= b < n && a != b ==> #[trigger] ns[a].id@ != #[trigger] ns[b].id@,
                    forall|b: int| i < b < m ==> #[trigger] ns[b].id@ != ns[i as int].id@,
                decreases n - m,
            {
                if str_eq(self.nodes[m].id.as_str(), self.nodes[i].id.as_str()) {
                    return Err(inconsistent(&["节点 id 重复：", self.nodes[i].id.as_str()]));
                }
                m = m + 1;
            }
            proof {
                assert forall|a: int, b: int| 0 <= a < i + 1 && 0 <= b < n && a != b implies #[trigger] ns[a].id@ != #[trigger] ns[b].id@ by {
                    if a == i && b < i {
                        assert(ns[b].id@ != ns[a].id@);
                    }
                }
            }
            i = i + 1;
        }
        assert(ids_unique(ns));
        // Assignments: unique ids, existing nodes.
        let na = self.assignments.len();
        let mut a: usize = 0;
        while a < na
            invariant
                ns == self.nodes@,
                asg == self.assignments@,
                na == asg.len(),
                a <= na,
                forall|x: int, y: int| 0 <= x < a && 0 <= y < na && x != y ==> #[trigger] asg[x].id@ != #[trigger] asg[y].id@,
                forall|x: int| 0 <= x < a ==> has_node(ns, #[trigger] asg[x].node_id@),
            decreases na - a,
        {
            let mut b: usize = a + 1;
            while b < na
                invariant
                    asg == self.assignments@,
                    na == asg.len(),
                    a < na,
                    a + 1 <= b <= na,
                    forall|x: int, y: int| 0 <= x < a && 0 <= y < na && x != y ==> #[trigger] asg[x].id@ != #[trigger] asg[y].id@,
                    forall|y: int| a < y < b ==> #[trigger] asg[y].id@ != asg[a as int].id@,
                decreases na - b,
            {
                if str_eq(self.assignments[b].id.as_str(), self.assignments[a].id.as_str()) {
                    return Err(inconsistent(&["落位 id 重复：", self.assignments[a].id.as_str()]));
                }
                b = b + 1;
            }
            if self.find_index(self.assignments[a].node_id.as_str()).is_none() {
                return Err(inconsistent(&["落位 ", self.assignments[a].id.as_str(), " 指向不存在的节点 ",
                    self.assignments[a].node_id.as_str()]));
            }
            proof {
                assert forall|x: int, y: int| 0 <= x < a + 1 && 0 <= y < na && x != y implies #[trigger] asg[x].id@ != #[trigger] asg[y].id@ by {
                    if x == a && y < a {
                        assert(asg[y].id@ != asg[x].id@);
                    }
                }
            }
            a = a + 1;
        }
        assert(assignments_ok(ns, asg));
        // Parent and child pointers agree.
        let mut i: usize = 0;
        while i < n
            invariant
                ns == self.nodes@,
                n == ns.len(),
                i <= n,
                ids_unique(ns),
                forall|x: int| 0 <= x < i ==> match #[trigger] ns[x].parent {
                    None => true,
                    Some(p) => has_node(ns, p@) && count_id(ns[idx_of(ns, p@)].children@, ns[x].id@) == 1,
                },
                forall|x: int, k: int| 0 <= x < i && 0 <= k < ns[x].children@.len() ==> has_node(ns, #[trigger] ns[x].children@[k]@)
                    && sv(ns[idx_of(ns, ns[x].children@[k]@)].parent) == Some(ns[x].id@),
            decreases n - i,
        {
            let node = &self.nodes[i];
            match &node.parent {
                Some(pid) => {
                    match self.find_index(pid.as_str()) {
                        None => {
                            return Err(inconsistent(&["节点 ", node.id.as_str(), " 的父节点 ", pid.as_str(), " 不存在"]));
                        },
                        Some(pi) => {
                            if count_listed(&self.nodes[pi].children, node.id.as_str()) != 1 {
                                return Err(inconsistent(&["节点 ", pid.as_str(), " 的子表与 ", node.id.as_str(), " 的父指针不一致"]));
                            }
                        },
                    }
                },
                None => {},
            }
            let nc = node.children.len();
            let mut k: usize = 0;
            while k < nc
                invariant
                    ns == self.nodes@,
                    n == ns.len(),
                    i < n,
                    *node == ns[i as int],
                    nc == ns[i as int].children@.len(),
                    k <= nc,
                    forall|q: int| 0 <= q < k ==> has_node(ns, #[trigger] ns[i as int].children@[q]@)
                        && sv(ns[idx_of(ns, ns[i as int].children@[q]@)].parent) == Some(ns[i as int].id@),
                decreases nc - k,
            {
                let c = &node.children[k];
                match self.find_index(c.as_str()) {
                    None => {
                        return Err(inconsistent(&["节点 ", node.id.as_str(), " 的子节点 ", c.as_str(), " 不存在"]));
                    },
                    Some(ci) => {
                        let back = match &self.nodes[ci].parent {
                            Some(q) => str_eq(q.as_str(), node.id.as_str()),
                            None => false,
                        };
                        if !back {
                            return Err(inconsistent(&["节点 ", c.as_str(), " 的父指针没有指回 ", node.id.as_str()]));
                        }
                    },
                }
                k = k + 1;
            }
            i = i + 1;
        }
        assert(parents_ok(ns));
        assert(children_ok(ns));
        // Names, depth, siblings.
        let mut i: usize = 0;
        while i < n
            invariant
                ns == self.nodes@,
                n == ns.len(),
                i <= n,
                ids_unique(ns),
                parents_ok(ns),
                children_ok(ns),
                forall|x: int| 0 <= x < i ==> name_issue(#[trigger] ns[x].name@) is None,
                forall|x: int| 0 <= x < i ==> #[trigger] depth_spec(ns, ns[x].id@) is Ok && depth_spec(ns, ns[x].id@)->Ok_0 <= MAX_DEPTH,
                forall|x: int| 0 <= x < i ==> !sibling_clash(ns, sv(#[trigger] ns[x].parent), ns[x].name@, Some(ns[x].id@)),
            decreases n - i,
        {
            let node = &self.nodes[i];
            validate_node_name(node.name.as_str())?;
            let depth = self.depth_of(node.id.as_str())?;
            if depth > MAX_DEPTH {
                return Err(MapError::TooDeep { max: MAX_DEPTH });
            }
            let par: Option<&str> = match &node.parent {
                Some(p) => Some(p.as_str()),
                None => None,
            };
            proof {
                assert(match par { Some(p) => Some(p@), None => None } == sv(ns[i as int].parent));
            }
            match self.ensure_no_sibling(par, node.name.as_str(), Some(node.id.as_str())) {
                Err(e) => {
                    proof {
                        let par_v = sv(ns[i as int].parent);
                        lemma_clash_same_parent(ns, par_v, ns[i as int].name@, Some(ns[i as int].id@));
                        let j = choose|j: int| 0 <= j < ns.len() && sv(ns[j].parent) == par_v && Some((#[trigger] ns[j]).id@) != Some(ns[i as int].id@) && same_name(ns[j].name@, ns[i as int].name@);
                        assert(j != i);
                        lemma_same_name_sym(ns[j].name@, ns[i as int].name@);
                        assert(!siblings_ok(ns));
                    }
                    return Err(e);
                },
                Ok(()) => {},
            }
            i = i + 1;
        }
        proof {
            assert forall|x: int, y: int|
                0 <= x < ns.len() && 0 <= y < ns.len() && x != y && sv(ns[x].parent) == sv(ns[y].parent) implies !same_name(
                #[trigger] ns[x].name@,
                #[trigger] ns[y].name@,
            ) by {
                lemma_clash_same_parent(ns, sv(ns[x].parent), ns[x].name@, Some(ns[x].id@));
                lemma_same_name_sym(ns[x].name@, ns[y].name@);
                if same_name(ns[y].name@, ns[x].name@) {
                    assert(Some(ns[y].id@) != Some(ns[x].id@));
                    assert(clash_by_parent(ns, sv(ns[x].parent), ns[x].name@, Some(ns[x].id@)));
                }
            }
        }
        Ok(())
    }
}

/// Name clashes are symmetric.
pub proof fn lemma_same_name_sym(a: Seq<char>, b: Seq<char>)
    ensures
        same_name(a, b) == same_name(b, a),
{
}

/// Whether an error is one of the node-name refusals.
pub open spec fn name_issue_kind(e: MapErrorV) -> bool {
    e is EmptyName || e is NameTooLong || e is IllegalCharacter || e is PaddedName || e is ReservedName
        || e is BadPlaceholder
}


/// A copy of a template error.
pub fn copy_template_error(e: &TemplateError) -> (r: TemplateError)
    ensures
        r@ == e@,
{
    match e {
        TemplateError::EmptyTemplate => TemplateError::EmptyTemplate,
        TemplateError::UnclosedBrace => TemplateError::UnclosedBrace,
        TemplateError::UnopenedBrace => TemplateError::UnopenedBrace,
        TemplateError::EmptyPlaceholder => TemplateError::EmptyPlaceholder,
        TemplateError::UnknownPlaceholder(s) => TemplateError::UnknownPlaceholder(s.clone()),
        TemplateError::MissingRequiredPlaceholder => TemplateError::MissingRequiredPlaceholder,
    }
}

/// A copy of a map error.
pub fn copy_map_error(e: &MapError) -> (r: MapError)
    ensures
        r@ == e@,
{
    match e {
        MapError::EmptyName => MapError::EmptyName,
        MapError::NameTooLong { name, max, actual } => MapError::NameTooLong { name: name.clone(), max: *max, actual: *actual },
        MapError::IllegalCharacter { name } => MapError::IllegalCharacter { name: name.clone() },
        MapError::ReservedName { name } => MapError::ReservedName { name: name.clone() },
        MapError::PaddedName { name } => MapError::PaddedName { name: name.clone() },
        MapError::BadPlaceholder { name, reason } => MapError::BadPlaceholder { name: name.clone(), reason: copy_template_error(reason) },
        MapError::DuplicateSibling { name } => MapError::DuplicateSibling { name: name.clone() },
        MapError::TooDeep { max } => MapError::TooDeep { max: *max },
        MapError::NodeMissing { id } => MapError::NodeMissing { id: id.clone() },
        MapError::WouldCycle { name } => MapError::WouldCycle { name: name.clone() },
        MapError::AssignmentMissing { id } => MapError::AssignmentMissing { id: id.clone() },
        MapError::DuplicateAssignment { device_name, node_name } => MapError::DuplicateAssignment { device_name: device_name.clone(), node_name: node_name.clone() },
        MapError::SourceOffline { device_name } => MapError::SourceOffline { device_name: device_name.clone() },
        MapError::NotAChain { at, branches } => MapError::NotAChain { at: match at { Some(x) => Some(x.clone()), None => None }, branches: *branches },
        MapError::EmptyMap => MapError::EmptyMap,
        MapError::BadTemplateString { template, reason } => MapError::BadTemplateString { template: template.clone(), reason: copy_template_error(reason) },
        MapError::Inconsistent { detail } => MapError::Inconsistent { detail: detail.clone() },
        MapError::Unreadable { path, reason } => MapError::Unreadable { path: path.clone(), reason: reason.clone() },
    }
}

/// A climb that succeeds starts at the node itself, steps each time to the parent of
/// the node before, and stops at a top-level node.
proof fn lemma_ancestry_shape(ns: Seq<MapNode>, id: Seq<char>, k: nat)
    requires
        ancestry(ns, id, k) is Ok,
    ensures
        ({
            let a = ancestry(ns, id, k)->Ok_0;
            &&& a.len() >= 1
            &&& a[0] == id
            &&& forall|j: int| 0 <= j < a.len() ==> #[trigger] idx_of(ns, a[j]) >= 0
            &&& forall|j: int| 0 <= j < a.len() - 1 ==> sv(ns[idx_of(ns, #[trigger] a[j])].parent) == Some(a[j + 1])
            &&& ns[idx_of(ns, a.last())].parent is None
        }),
    decreases k,
{
    let i = idx_of(ns, id);
    match ns[i].parent {
        None => {},
        Some(p) => {
            lemma_ancestry_shape(ns, p@, (k - 1) as nat);
            let b = ancestry(ns, p@, (k - 1) as nat)->Ok_0;
            let a = ancestry(ns, id, k)->Ok_0;
            assert(a == seq![id] + b);
            assert forall|j: int| 0 <= j < a.len() implies #[trigger] idx_of(ns, a[j]) >= 0 by {
                if j > 0 {
                    assert(a[j] == b[j - 1]);
                }
            }
            assert forall|j: int| 0 <= j < a.len() - 1 implies sv(ns[idx_of(ns, #[trigger] a[j])].parent) == Some(a[j + 1]) by {
                if j > 0 {
                    assert(a[j] == b[j - 1]);
                    assert(a[j + 1] == b[j]);
                }
            }
            assert(a.last() == b.last());
        },
    }
}

/// What `path_segments` and `depth_of` give for a node of a well-formed map (they return
/// `path_spec` and `depth_spec`): as many names as the node is deep, the top-level
/// ancestor's name first and the node's own name last, and each name that of the parent
/// of the node named after it (`a` is the walk from the node up to its top-level
/// ancestor, so the name at `j` is that of `a[len - 1 - j]`, whose parent, for `j > 0`,
/// is `a[len - j]`).
pub proof fn lemma_path_shape(ns: Seq<MapNode>, asg: Seq<Assignment>, id: Seq<char>)
    requires
        wf_parts(ns, asg),
        has_node(ns, id),
    ensures
        walk_spec(ns, id) is Ok,
        path_spec(ns, id) is Ok,
        ({
            let a = walk_spec(ns, id)->Ok_0;
            let s = path_spec(ns, id)->Ok_0;
            &&& depth_spec(ns, id) == Ok::<nat, MapErrorV>(s.len())
            &&& 1 <= s.len() <= MAX_DEPTH
            &&& s.last() == name_of(ns, id)
            &&& s[0] == name_of(ns, a.last())
            &&& ns[idx_of(ns, a.last())].parent is None
            &&& forall|j: int| 0 <= j < s.len() ==> #[trigger] s[j] == name_of(ns, a[s.len() - 1 - j])
            &&& forall|j: int| 0 < j < s.len() ==> sv(ns[idx_of(ns, a[s.len() - 1 - j])].parent) == Some(#[trigger] a[s.len() - j])
            &&& forall|j: int| 0 <= j < s.len() - 1 ==> #[trigger] s[j] == name_of(ns, sv(ns[idx_of(ns, a[s.len() - 2 - j])].parent)->Some_0)
        }),
{
    lemma_idx_of(ns, id);
    let i = idx_of(ns, id);
    assert(depth_spec(ns, ns[i].id@) is Ok);
    let a = ancestry(ns, id, ns.len())->Ok_0;
    lemma_ancestry_shape(ns, id, ns.len());
    let s = path_spec(ns, id)->Ok_0;
    let f = |x: Seq<char>| name_of(ns, x);
    assert(s == a.map_values(f).reverse());
    assert forall|j: int| 0 <= j < s.len() implies #[trigger] s[j] == name_of(ns, a[s.len() - 1 - j]) by {}
    assert forall|j: int| 0 < j < s.len() implies sv(ns[idx_of(ns, a[s.len() - 1 - j])].parent) == Some(#[trigger] a[s.len() - j]) by {
        let t = s.len() - 1 - j;
        assert(0 <= t < a.len() - 1);
        assert(sv(ns[idx_of(ns, a[t])].parent) == Some(a[t + 1]));
    }
}

/// One map follows another by an edit that keeps the invariant. Each edit of a map
/// (adding, renaming, moving and removing a node, adding and removing an assignment,
/// clearing) states this of its map before and after, whether it is refused or not.
pub open spec fn edit_keeps(before: FolderMap, after: FolderMap) -> bool {
    before.wf() ==> after.wf()
}

/// A map that starts empty and then goes through any sequence of edits stays well
/// formed after every one of them, so its full check (`validate`) always passes.
pub proof fn lemma_edit_sequence(ms: Seq<FolderMap>)
    requires
        ms.len() >= 1,
        ms[0].nodes@.len() == 0,
        ms[0].assignments@.len() == 0,
        forall|i: int| 0 <= i < ms.len() - 1 ==> edit_keeps(ms[i], #[trigger] ms[i + 1]),
    ensures
        forall|i: int| 0 <= i < ms.len() ==> #[trigger] ms[i].wf(),
    decreases ms.len(),
{
    if ms.len() > 1 {
        let d = ms.drop_last();
        assert forall|i: int| 0 <= i < d.len() - 1 implies edit_keeps(d[i], #[trigger] d[i + 1]) by {
            assert(d[i] == ms[i] && d[i + 1] == ms[i + 1]);
            assert(edit_keeps(ms[i], ms[i + 1]));
        }
        lemma_edit_sequence(d);
        assert forall|i: int| 0 <= i < ms.len() implies #[trigger] ms[i].wf() by {
            if i < d.len() {
                assert(d[i] == ms[i]);
            } else {
                let j = i - 1;
                assert(d[j] == ms[j]);
                assert(edit_keeps(ms[j], ms[j + 1]));
            }
        }
    }
}

/// The links of a map hold together: ids tell nodes apart, each parent lists each of
/// its children once, each listed child points back to its parent, and every node lies
/// within the depth limit (so no chain of parents loops). A well-formed map has all of
/// this; names, siblings and assignments may be anything.
pub open spec fn links_ok(ns: Seq<MapNode>) -> bool {
    &&& ids_unique(ns)
    &&& parents_ok(ns)
    &&& children_ok(ns)
    &&& depths_ok(ns)
}

/// A name clashes with a sibling as soon as any child of the parent, other than the
/// excluded one, has the same name without regard to case, whatever its position.
pub proof fn lemma_clash_anywhere(ns: Seq<MapNode>, parent: Option<Seq<char>>, name: Seq<char>, exclude: Option<Seq<char>>, k: int)
    requires
        0 <= k < children_spec(ns, parent).len(),
    ensures
        Some(children_spec(ns, parent)[k].id@) != exclude && same_name(children_spec(ns, parent)[k].name@, name)
            ==> sibling_clash(ns, parent, name, exclude),
        sibling_clash(ns, parent, name, exclude) ==> exists|j: int| 0 <= j < children_spec(ns, parent).len()
            && Some(#[trigger] children_spec(ns, parent)[j].id@) != exclude && same_name(children_spec(ns, parent)[j].name@, name),
{
}

} // verus!
