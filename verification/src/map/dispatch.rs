//! Assignments: the lines drawn from a device to a node.
//!
//! A card may be connected to several nodes and a node may receive several cards;
//! only the very same device–node pair is refused a second time, since it would send
//! out two identical tasks.

use vstd::prelude::*;
use crate::config::model::new_id;
use crate::map::model::{
    has_node, idx_of, lemma_idx_of, Assignment, FolderMap, MapError, MapErrorV,
};
use crate::text::{chars_of, owned, push_char, str_eq};

verus! {

/// Where a device's source volume is mounted at dispatch time, as the caller found it
/// in the device registry.
#[derive(Debug, Clone)]
pub struct DispatchSource {
    pub device_id: String,
    pub source_root: String,
}

/// An assignment that was not dispatched, with the reason.
#[derive(Debug, Clone)]
pub struct MapRejection {
    pub assignment_id: String,
    pub device_name: String,
    pub reason: MapError,
}

/// Whether some assignment already joins this device to this node.
pub open spec fn pair_taken(asg: Seq<Assignment>, device_id: Seq<char>, node_id: Seq<char>) -> bool {
    exists|k: int| 0 <= k < asg.len() && (#[trigger] asg[k]).device_id@ == device_id && asg[k].node_id@ == node_id
}

/// Why adding an assignment is refused: a missing node, then the same pair twice.
pub open spec fn assign_check(ns: Seq<crate::map::model::MapNode>, asg: Seq<Assignment>, device_id: Seq<char>, device_name: Seq<char>, node_id: Seq<char>) -> Option<MapErrorV> {
    if !has_node(ns, node_id) {
        Some(MapErrorV::NodeMissing { id: node_id })
    } else if pair_taken(asg, device_id, node_id) {
        Some(MapErrorV::DuplicateAssignment { device_name, node_name: ns[idx_of(ns, node_id)].name@ })
    } else {
        None
    }
}

/// Whether an assignment has this id.
pub open spec fn has_assignment(asg: Seq<Assignment>, id: Seq<char>) -> bool {
    exists|k: int| 0 <= k < asg.len() && (#[trigger] asg[k]).id@ == id
}

/// Index of the first assignment with this id, or -1.
pub open spec fn assignment_idx(asg: Seq<Assignment>, id: Seq<char>) -> int
    decreases asg.len(),
{
    if asg.len() == 0 {
        -1
    } else {
        let r = assignment_idx(asg.drop_last(), id);
        if r >= 0 {
            r
        } else if asg.last().id@ == id {
            asg.len() - 1
        } else {
            -1
        }
    }
}

proof fn lemma_assignment_idx(asg: Seq<Assignment>, id: Seq<char>)
    ensures
        -1 <= assignment_idx(asg, id) < asg.len(),
        assignment_idx(asg, id) >= 0 ==> asg[assignment_idx(asg, id)].id@ == id,
        forall|j: int| 0 <= j < assignment_idx(asg, id) ==> (#[trigger] asg[j]).id@ != id,
        assignment_idx(asg, id) < 0 ==> forall|j: int| 0 <= j < asg.len() ==> (#[trigger] asg[j]).id@ != id,
    decreases asg.len(),
{
    if asg.len() > 0 {
        lemma_assignment_idx(asg.drop_last(), id);
        assert forall|j: int| 0 <= j < asg.len() - 1 implies #[trigger] asg[j] == asg.drop_last()[j] by {}
    }
}

impl FolderMap {
    /// An assignment id that none has: a new `lnk-…` id, lengthened with `-` in the
    /// unlikely case that it is taken.
    fn fresh_assignment_id(&self) -> (r: String)
        ensures
            !has_assignment(self.assignments@, r@),
    {
        let ghost asg = self.assignments@;
        let mut longest: usize = 0;
        let mut i: usize = 0;
        while i < self.assignments.len()
            invariant
                asg == self.assignments@,
                i <= asg.len(),
                forall|k: int| 0 <= k < i ==> (#[trigger] asg[k]).id@.len() <= longest,
            decreases asg.len() - i,
        {
            let l = chars_of(self.assignments[i].id.as_str()).len();
            if l > longest {
                longest = l;
            }
            i = i + 1;
        }
        let mut id = new_id("lnk");
        while self.assignment_index(id.as_str()).is_some()
            invariant
                asg == self.assignments@,
                forall|k: int| 0 <= k < asg.len() ==> (#[trigger] asg[k]).id@.len() <= longest,
            decreases longest + 1 - id@.len(),
        {
            proof {
                lemma_assignment_idx(asg, id@);
                assert(asg[assignment_idx(asg, id@)].id@.len() <= longest);
            }
            push_char(&mut id, '-');
        }
        proof {
            lemma_assignment_idx(asg, id@);
        }
        id
    }

    /// Position of the first assignment with this id.
    fn assignment_index(&self, id: &str) -> (r: Option<usize>)
        ensures
            match r {
                Some(i) => i < self.assignments@.len() && i as int == assignment_idx(self.assignments@, id@),
                None => assignment_idx(self.assignments@, id@) < 0,
            },
    {
        let mut i: usize = 0;
        while i < self.assignments.len()
            invariant
                i <= self.assignments@.len(),
                forall|j: int| 0 <= j < i ==> (#[trigger] self.assignments@[j]).id@ != id@,
            decreases self.assignments@.len() - i,
        {
            if str_eq(self.assignments[i].id.as_str(), id) {
                proof {
                    lemma_assignment_idx(self.assignments@, id@);
                    let r = assignment_idx(self.assignments@, id@);
                    if r >= 0 && r < i {
                        assert(self.assignments@[r].id@ != id@);
                    }
                    if r < 0 {
                        assert(self.assignments@[i as int].id@ != id@);
                    }
                }
                return Some(i);
            }
            i = i + 1;
        }
        proof {
            lemma_assignment_idx(self.assignments@, id@);
            let r = assignment_idx(self.assignments@, id@);
            if r >= 0 {
                assert(self.assignments@[r].id@ != id@);
            }
        }
        None
    }

    /// Draws a line from device `device_id` to node `node_id` and returns the new
    /// assignment's id. Refused when the node does not exist, or when this very
    /// device–node pair is already drawn; a refused add changes nothing.
    pub fn add_assignment(&mut self, device_id: &str, device_name: &str, node_id: &str) -> (r: Result<String, MapError>)
        ensures
            final(self).nodes == old(self).nodes,
            match r {
                Ok(id) => {
                    &&& assign_check(old(self).nodes@, old(self).assignments@, device_id@, device_name@, node_id@) is None
                    &&& !has_assignment(old(self).assignments@, id@)
                    &&& final(self).assignments@.len() == old(self).assignments@.len() + 1
                    &&& final(self).assignments@.drop_last() == old(self).assignments@
                    &&& final(self).assignments@.last().id@ == id@
                    &&& final(self).assignments@.last().device_id@ == device_id@
                    &&& final(self).assignments@.last().device_name@ == device_name@
                    &&& final(self).assignments@.last().node_id@ == node_id@
                },
                Err(e) => {
                    &&& assign_check(old(self).nodes@, old(self).assignments@, device_id@, device_name@, node_id@) == Some(e@)
                    &&& final(self).assignments == old(self).assignments
                },
            },
            old(self).wf() ==> final(self).wf(),
    {
        let j = match self.find_index(node_id) {
            Some(j) => j,
            None => {
                return Err(MapError::NodeMissing { id: owned(node_id) });
            },
        };
        let ghost asg = self.assignments@;
        let mut k: usize = 0;
        while k < self.assignments.len()
            invariant
                asg == self.assignments@,
                k <= asg.len(),
                j < self.nodes@.len(),
                j as int == idx_of(self.nodes@, node_id@),
                forall|t: int| 0 <= t < k ==> !((#[trigger] asg[t]).device_id@ == device_id@ && asg[t].node_id@ == node_id@),
            decreases asg.len() - k,
        {
            if str_eq(self.assignments[k].device_id.as_str(), device_id) && str_eq(self.assignments[k].node_id.as_str(), node_id) {
                proof {
                    assert(asg[k as int].device_id@ == device_id@ && asg[k as int].node_id@ == node_id@);
                    assert(pair_taken(asg, device_id@, node_id@));
                    lemma_idx_of(self.nodes@, node_id@);
                }
                return Err(MapError::DuplicateAssignment {
                    device_name: owned(device_name),
                    node_name: self.nodes[j].name.clone(),
                });
            }
            k = k + 1;
        }
        let id = self.fresh_assignment_id();
        self.assignments.push(Assignment {
            id: id.clone(),
            device_id: owned(device_id),
            device_name: owned(device_name),
            node_id: owned(node_id),
        });
        proof {
            assert(self.assignments@.drop_last() =~= asg);
            if old(self).wf() {
                let a2 = self.assignments@;
                assert forall|a: int, b: int| 0 <= a < a2.len() && 0 <= b < a2.len() && a != b implies #[trigger] a2[a].id@ != #[trigger] a2[b].id@ by {
                    if a < asg.len() && b < asg.len() {
                        assert(asg[a].id@ != asg[b].id@);
                    } else if a < asg.len() {
                        assert(asg[a].id@ != id@);
                    } else {
                        assert(asg[b].id@ != id@);
                    }
                }
                assert forall|a: int| 0 <= a < a2.len() implies has_node(self.nodes@, #[trigger] a2[a].node_id@) by {
                    if a < asg.len() {
                        assert(a2[a] == asg[a]);
                    }
                }
            }
        }
        Ok(id)
    }

    /// Takes away the first assignment with this id and hands it back, so the caller
    /// can tell the user what was removed.
    pub fn remove_assignment(&mut self, assignment_id: &str) -> (r: Result<Assignment, MapError>)
        ensures
            final(self).nodes == old(self).nodes,
            match r {
                Ok(a) => {
                    let k = assignment_idx(old(self).assignments@, assignment_id@);
                    &&& k >= 0
                    &&& a == old(self).assignments@[k]
                    &&& final(self).assignments@ == old(self).assignments@.remove(k)
                },
                Err(e) => {
                    &&& assignment_idx(old(self).assignments@, assignment_id@) < 0
                    &&& e@ == (MapErrorV::AssignmentMissing { id: assignment_id@ })
                    &&& final(self).assignments == old(self).assignments
                },
            },
            old(self).wf() ==> final(self).wf(),
    {
        let ghost asg = self.assignments@;
        match self.assignment_index(assignment_id) {
            None => Err(MapError::AssignmentMissing { id: owned(assignment_id) }),
            Some(k) => {
                let a = self.assignments.remove(k);
                proof {
                    if old(self).wf() {
                        let a2 = self.assignments@;
                        assert forall|x: int, y: int| 0 <= x < a2.len() && 0 <= y < a2.len() && x != y implies #[trigger] a2[x].id@ != #[trigger] a2[y].id@ by {
                            let ox = if x < k { x } else { x + 1 };
                            let oy = if y < k { y } else { y + 1 };
                            assert(a2[x] == asg[ox] && a2[y] == asg[oy]);
                        }
                        assert forall|x: int| 0 <= x < a2.len() implies has_node(self.nodes@, #[trigger] a2[x].node_id@) by {
                            let ox = if x < k { x } else { x + 1 };
                            assert(a2[x] == asg[ox]);
                        }
                    }
                }
                Ok(a)
            },
        }
    }
}

/// Whether a task came from the copy map: it carries the node path it was drawn to.
/// Such tasks never suggest saving the run as a preset, since a preset could not
/// reproduce where each card landed on the map.
pub fn is_map_origin(node_path: Option<&str>) -> (r: bool)
    ensures
        r == node_path is Some,
{
    node_path.is_some()
}

/// A device is already assigned to a node as soon as any assignment, whatever its
/// position, joins the two; and only then.
pub proof fn lemma_pair_anywhere(asg: Seq<Assignment>, device_id: Seq<char>, node_id: Seq<char>, k: int)
    requires
        0 <= k < asg.len(),
    ensures
        asg[k].device_id@ == device_id && asg[k].node_id@ == node_id ==> pair_taken(asg, device_id, node_id),
        pair_taken(asg, device_id, node_id) ==> exists|j: int| 0 <= j < asg.len()
            && (#[trigger] asg[j]).device_id@ == device_id && asg[j].node_id@ == node_id,
{
}

} // verus!
