//! The tri-state selection engine: bulk and scoped state changes over the
//! assembled tree, upward propagation to a fixpoint, and the bottom-up
//! recomputation used after a selection import.

use vstd::prelude::*;

use crate::model::{Check, FileId, FileNode};
use crate::pathutil::parent_spec;
use crate::tree::Tree;

verus! {

/// How many entries of `s` are `false`.
pub open spec fn count_false(s: Seq<bool>) -> int
    decreases s.len(),
{
    if s.len() == 0 {
        0
    } else {
        count_false(s.drop_last()) + if s.last() {
            0int
        } else {
            1int
        }
    }
}

proof fn lemma_count_false_bounds(s: Seq<bool>)
    ensures
        0 <= count_false(s) <= s.len(),
    decreases s.len(),
{
    if s.len() > 0 {
        lemma_count_false_bounds(s.drop_last());
    }
}

proof fn lemma_count_false_update(s: Seq<bool>, i: int)
    requires
        0 <= i < s.len(),
        s[i] == false,
    ensures
        count_false(s.update(i, true)) == count_false(s) - 1,
    decreases s.len(),
{
    let t = s.update(i, true);
    if i == s.len() - 1 {
        assert(t.drop_last() =~= s.drop_last());
    } else {
        assert(t.drop_last() =~= s.drop_last().update(i, true));
        lemma_count_false_update(s.drop_last(), i);
    }
}

impl Tree {
    /// Whether node `i` has some child in state `st`.
    pub open spec fn has_child_state(self, i: int, st: Check) -> bool {
        exists|k: int|
            0 <= k < self.children_at(i).len() && self.nodes@[#[trigger] self.children_at(i)[k] as int].state
                == st
    }

    /// The check state a parent derives from its children: leaves and
    /// childless nodes keep their own state; any `Partial` child, or a mix of
    /// `Checked` and `Unchecked` children, gives `Partial`; otherwise the
    /// children's common state wins.
    pub open spec fn derived_state(self, i: int) -> Check {
        if !(0 <= i < self.nodes@.len()) {
            Check::Unchecked
        } else if !self.nodes@[i].info.is_dir || self.children_at(i).len() == 0 {
            self.nodes@[i].state
        } else if self.has_child_state(i, Check::Partial) {
            Check::Partial
        } else if self.has_child_state(i, Check::Checked) && self.has_child_state(
            i,
            Check::Unchecked,
        ) {
            Check::Partial
        } else if self.has_child_state(i, Check::Checked) {
            Check::Checked
        } else {
            Check::Unchecked
        }
    }

    /// Node `i` obeys the tri-state rule: a directory with children holds
    /// exactly the state its children derive.
    pub open spec fn consistent_at(self, i: int) -> bool {
        (0 <= i < self.nodes@.len() && self.nodes@[i].info.is_dir && self.children_at(i).len() > 0)
            ==> self.nodes@[i].state == self.derived_state(i)
    }

    /// The tri-state invariant holds at every directory with children.
    pub open spec fn tri_ok(self) -> bool {
        forall|i: int| #[trigger] self.consistent_at(i)
    }

    /// The tri-state invariant holds everywhere except possibly at nodes
    /// holding path `p`.
    pub open spec fn tri_ok_except(self, p: Seq<u8>) -> bool {
        forall|i: int|
            0 <= i < self.nodes@.len() && self.path_at(i) != p ==> #[trigger] self.consistent_at(i)
    }

    /// Structure (everything but check states and expansion flags) is
    /// unchanged between `self` and `other`.
    pub open spec fn same_structure(self, other: Tree) -> bool {
        &&& other.nodes@.len() == self.nodes@.len()
        &&& forall|i: int|
            0 <= i < self.nodes@.len() ==> (#[trigger] other.nodes@[i]).info == self.nodes@[i].info
                && other.nodes@[i].children@ == self.nodes@[i].children@
        &&& other.orphans@ == self.orphans@
        &&& other.root_id == self.root_id
        &&& other.root_path == self.root_path
    }

    /// Calculates the correct check state for `parent_id` from its children,
    /// mirroring `derived_state`. An invalid id yields `Unchecked`.
    pub fn calculate_parent_check_state(&self, parent_id: FileId) -> (r: Check)
        requires
            self.wf(),
        ensures
            r == self.derived_state(parent_id as int),
    {
        if parent_id >= self.nodes.len() {
            return Check::Unchecked;
        }
        let node = &self.nodes[parent_id];
        if !node.info.is_dir || node.children.len() == 0 {
            return node.state;
        }
        let m = node.children.len();
        let mut has_checked = false;
        let mut has_unchecked = false;
        let mut has_partial = false;
        let mut k: usize = 0;
        while k < m
            invariant
                self.wf(),
                parent_id < self.nodes@.len(),
                m == self.children_at(parent_id as int).len(),
                k <= m,
                has_partial == exists|k2: int|
                    0 <= k2 < k && self.nodes@[#[trigger] self.children_at(parent_id as int)[k2] as int].state
                        == Check::Partial,
                has_checked == exists|k2: int|
                    0 <= k2 < k && self.nodes@[#[trigger] self.children_at(parent_id as int)[k2] as int].state
                        == Check::Checked,
                has_unchecked == exists|k2: int|
                    0 <= k2 < k && self.nodes@[#[trigger] self.children_at(parent_id as int)[k2] as int].state
                        == Check::Unchecked,
            decreases m - k,
        {
            proof {
                assert(self.child_ok(parent_id as int, k as int));
            }
            let c = self.nodes[parent_id].children[k];
            match self.nodes[c].state {
                Check::Checked => {
                    has_checked = true;
                },
                Check::Unchecked => {
                    has_unchecked = true;
                },
                Check::Partial => {
                    has_partial = true;
                },
            }
            k = k + 1;
        }
        if has_partial {
            Check::Partial
        } else if has_checked && has_unchecked {
            Check::Partial
        } else if has_checked {
            Check::Checked
        } else {
            Check::Unchecked
        }
    }

    /// The relation `set_node_state_recursive` establishes: `s` is the set of
    /// nodes visited from `node_id` through directory children, and exactly
    /// those nodes carry the new state, everything else being untouched.
    pub open spec fn set_state_rel(
        pre: Tree,
        post: Tree,
        node_id: FileId,
        st: Check,
        s: Set<FileId>,
    ) -> bool {
        &&& pre.same_structure(post)
        &&& (node_id < pre.nodes@.len() ==> s.contains(node_id))
        &&& (node_id >= pre.nodes@.len() ==> s =~= Set::<FileId>::empty())
        &&& forall|c: FileId| #[trigger] s.contains(c) ==> c < pre.nodes@.len()
        &&& forall|c: FileId| #[trigger]
            s.contains(c) ==> c == node_id || exists|x: FileId|
                s.contains(x) && pre.nodes@[x as int].info.is_dir && pre.children_at(
                    x as int,
                ).contains(c)
        &&& forall|x: FileId, k: int|
            #![trigger s.contains(x), pre.children_at(x as int)[k]]
            s.contains(x) && pre.nodes@[x as int].info.is_dir && 0 <= k < pre.children_at(
                x as int,
            ).len() && pre.children_at(x as int)[k] < pre.nodes@.len() ==> s.contains(
                pre.children_at(x as int)[k],
            )
        &&& forall|c: FileId| #[trigger]
            s.contains(c) ==> post.nodes@[c as int].state == st
        &&& forall|i: int|
            0 <= i < pre.nodes@.len() ==> (#[trigger] post.nodes@[i]).is_expanded
                == pre.nodes@[i].is_expanded
        &&& forall|i: int|
            0 <= i < pre.nodes@.len() && !s.contains(i as FileId) ==> (#[trigger] post.nodes@[i])
                == pre.nodes@[i]
    }

    /// Sets the check state of `node_id` and every descendant reached
    /// through directory children. The subtree is found iteratively (no
    /// native recursion, so arbitrarily deep trees are no concern): marks
    /// spread from `node_id` through directory child lists until a sweep adds
    /// nothing, then every marked node takes the new state.
    #[verifier::loop_isolation(false)]
    #[verifier::rlimit(100)]
    pub fn set_node_state_recursive(&mut self, node_id: FileId, state: Check)
        requires
            old(self).wf(),
        ensures
            final(self).wf(),
            old(self).same_structure(*final(self)),
            exists|s: Set<FileId>|
                Tree::set_state_rel(*old(self), *final(self), node_id, state, s),
            node_id < old(self).nodes@.len() ==> final(self).nodes@[node_id as int].state == state,
    {
        let ghost pre = *self;
        let n = self.nodes.len();
        let visited = mark_subtree(&self.nodes, node_id);
        let mut i: usize = 0;
        while i < n
            invariant
                i <= n,
                self.nodes@.len() == n,
                forall|j: int|
                    0 <= j < i && visited@[j] ==> (#[trigger] self.nodes@[j]).state == state
                        && self.nodes@[j].info == pre.nodes@[j].info && self.nodes@[j].children@
                        == pre.nodes@[j].children@ && self.nodes@[j].is_expanded
                        == pre.nodes@[j].is_expanded,
                forall|j: int|
                    0 <= j < n && !(i <= j < n) && !visited@[j] ==> (#[trigger] self.nodes@[j])
                        == pre.nodes@[j],
                forall|j: int| i <= j < n ==> (#[trigger] self.nodes@[j]) == pre.nodes@[j],
                self.orphans@ == pre.orphans@,
                self.root_id == pre.root_id,
                self.root_path == pre.root_path,
            decreases n - i,
        {
            if visited[i] {
                let slot = &mut self.nodes[i];
                slot.state = state;
            }
            i = i + 1;
        }
        proof {
            assert forall|j: int| 0 <= j < n implies (#[trigger] self.nodes@[j]).info
                == pre.nodes@[j].info && self.nodes@[j].children@ == pre.nodes@[j].children@
                && self.nodes@[j].is_expanded == pre.nodes@[j].is_expanded by {
                if visited@[j] {
                } else {
                }
            }
            assert(pre.same_structure(*self));
            let s = Set::new(|c: FileId| c < n && visited@[c as int]);
            assert(Tree::set_state_rel(pre, *self, node_id, state, s)) by {
                if node_id >= n {
                    assert(s =~= Set::<FileId>::empty());
                }
                assert forall|c: FileId| #[trigger]
                    s.contains(c) implies c == node_id || exists|x: FileId|
                    s.contains(x) && pre.nodes@[x as int].info.is_dir && pre.children_at(
                        x as int,
                    ).contains(c) by {
                    if c != node_id {
                        let x = choose|x: int|
                            0 <= x < n && visited@[x] && pre.nodes@[x].info.is_dir
                                && pre.children_at(x).contains(c);
                        assert(s.contains(x as FileId));
                    }
                }
                assert forall|x: FileId, k: int|
                    #![trigger s.contains(x), pre.children_at(x as int)[k]]
                    s.contains(x) && pre.nodes@[x as int].info.is_dir && 0 <= k < pre.children_at(
                        x as int,
                    ).len() && pre.children_at(x as int)[k] < pre.nodes@.len() implies s.contains(
                    pre.children_at(x as int)[k],
                ) by {
                    assert(visited@[pre.children_at(x as int)[k] as int]);
                }
            }
            lemma_same_structure_wf(pre, *self);
        }
    }


    /// The relation `set_node_expansion_recursive` establishes: every
    /// directory visited from `node_id` through directory children carries
    /// the new expansion flag; nothing else changes.
    pub open spec fn set_expansion_rel(
        pre: Tree,
        post: Tree,
        node_id: FileId,
        expand: bool,
        s: Set<FileId>,
    ) -> bool {
        &&& pre.same_structure(post)
        &&& (node_id < pre.nodes@.len() ==> s.contains(node_id))
        &&& (node_id >= pre.nodes@.len() ==> s =~= Set::<FileId>::empty())
        &&& forall|c: FileId| #[trigger] s.contains(c) ==> c < pre.nodes@.len()
        &&& forall|c: FileId| #[trigger]
            s.contains(c) ==> c == node_id || exists|x: FileId|
                s.contains(x) && pre.nodes@[x as int].info.is_dir && pre.children_at(
                    x as int,
                ).contains(c)
        &&& forall|x: FileId, k: int|
            #![trigger s.contains(x), pre.children_at(x as int)[k]]
            s.contains(x) && pre.nodes@[x as int].info.is_dir && 0 <= k < pre.children_at(
                x as int,
            ).len() && pre.children_at(x as int)[k] < pre.nodes@.len() ==> s.contains(
                pre.children_at(x as int)[k],
            )
        &&& forall|c: FileId|
            #![trigger s.contains(c)]
            s.contains(c) && pre.nodes@[c as int].info.is_dir ==> post.nodes@[c as int].is_expanded
                == expand
        &&& forall|i: int|
            0 <= i < pre.nodes@.len() ==> (#[trigger] post.nodes@[i]).state == pre.nodes@[i].state
        &&& forall|i: int|
            0 <= i < pre.nodes@.len() && (!s.contains(i as FileId) || !pre.nodes@[i].info.is_dir)
                ==> (#[trigger] post.nodes@[i]) == pre.nodes@[i]
    }

    /// Sets the expansion flag of `node_id` and every descendant directory,
    /// iteratively, by the same mark-and-sweep as the state setter.
    #[verifier::loop_isolation(false)]
    #[verifier::rlimit(100)]
    pub fn set_node_expansion_recursive(&mut self, node_id: FileId, expand: bool)
        requires
            old(self).wf(),
        ensures
            final(self).wf(),
            old(self).same_structure(*final(self)),
            exists|s: Set<FileId>|
                Tree::set_expansion_rel(*old(self), *final(self), node_id, expand, s),
    {
        let ghost pre = *self;
        let n = self.nodes.len();
        let visited = mark_subtree(&self.nodes, node_id);
        let mut i: usize = 0;
        while i < n
            invariant
                i <= n,
                self.nodes@.len() == n,
                forall|j: int|
                    0 <= j < i && visited@[j] && pre.nodes@[j].info.is_dir ==> (
                    #[trigger] self.nodes@[j]).is_expanded == expand
                        && self.nodes@[j].info == pre.nodes@[j].info && self.nodes@[j].children@
                        == pre.nodes@[j].children@ && self.nodes@[j].state
                        == pre.nodes@[j].state,
                forall|j: int|
                    0 <= j < i && !(visited@[j] && pre.nodes@[j].info.is_dir) ==> (
                    #[trigger] self.nodes@[j]) == pre.nodes@[j],
                forall|j: int| i <= j < n ==> (#[trigger] self.nodes@[j]) == pre.nodes@[j],
                self.orphans@ == pre.orphans@,
                self.root_id == pre.root_id,
                self.root_path == pre.root_path,
            decreases n - i,
        {
            if visited[i] && self.nodes[i].info.is_dir {
                let slot = &mut self.nodes[i];
                slot.is_expanded = expand;
            }
            i = i + 1;
        }
        proof {
            assert forall|j: int| 0 <= j < n implies (#[trigger] self.nodes@[j]).info
                == pre.nodes@[j].info && self.nodes@[j].children@ == pre.nodes@[j].children@
                && self.nodes@[j].state == pre.nodes@[j].state by {
                if visited@[j] && pre.nodes@[j].info.is_dir {
                } else {
                }
            }
            assert(pre.same_structure(*self));
            let s = Set::new(|c: FileId| c < n && visited@[c as int]);
            assert(Tree::set_expansion_rel(pre, *self, node_id, expand, s)) by {
                if node_id >= n {
                    assert(s =~= Set::<FileId>::empty());
                }
                assert forall|c: FileId| #[trigger]
                    s.contains(c) implies c == node_id || exists|x: FileId|
                    s.contains(x) && pre.nodes@[x as int].info.is_dir && pre.children_at(
                        x as int,
                    ).contains(c) by {
                    if c != node_id {
                        let x = choose|x: int|
                            0 <= x < n && visited@[x] && pre.nodes@[x].info.is_dir
                                && pre.children_at(x).contains(c);
                        assert(s.contains(x as FileId));
                    }
                }
                assert forall|x: FileId, k: int|
                    #![trigger s.contains(x), pre.children_at(x as int)[k]]
                    s.contains(x) && pre.nodes@[x as int].info.is_dir && 0 <= k < pre.children_at(
                        x as int,
                    ).len() && pre.children_at(x as int)[k] < pre.nodes@.len() implies s.contains(
                    pre.children_at(x as int)[k],
                ) by {
                    assert(visited@[pre.children_at(x as int)[k] as int]);
                }
            }
            lemma_same_structure_wf(pre, *self);
        }
    }

    /// The id of the node holding the parent path of `child_id`'s path, if
    /// any node holds it.
    pub fn find_parent_id(&self, child_id: FileId) -> (r: Option<FileId>)
        ensures
            match r {
                Some(p) => child_id < self.nodes@.len() && p < self.nodes@.len() && parent_spec(
                    self.path_at(child_id as int),
                ) == Some(self.path_at(p as int)),
                None => child_id >= self.nodes@.len() || parent_spec(
                    self.path_at(child_id as int),
                ) is None || !self.has_path(parent_spec(self.path_at(child_id as int))->Some_0),
            },
    {
        if child_id >= self.nodes.len() {
            return None;
        }
        match crate::pathutil::parent_of(&self.nodes[child_id].info.path) {
            None => None,
            Some(pp) => self.path_to_id(pp.as_slice()),
        }
    }

    /// Recomputes ancestor states upward from `start_node_id`'s parent,
    /// stopping at the first fixpoint (an ancestor whose recomputed state is
    /// unchanged), at the root, or at a missing parent. If the tri-state
    /// invariant held everywhere except possibly at the parent of the start
    /// node, it holds everywhere afterwards.
    #[verifier::loop_isolation(false)]
    #[verifier::rlimit(100)]
    pub fn update_parent_states(&mut self, start_node_id: FileId)
        requires
            old(self).wf(),
        ensures
            final(self).wf(),
            old(self).same_structure(*final(self)),
            forall|i: int|
                0 <= i < old(self).nodes@.len() ==> (#[trigger] final(self).nodes@[i]).is_expanded
                    == old(self).nodes@[i].is_expanded,
            forall|i: int|
                0 <= i < old(self).nodes@.len() && final(self).nodes@[i] != old(self).nodes@[i]
                    ==> (#[trigger] final(self).nodes@[i]).state == final(self).derived_state(i)
                    && final(self).nodes@[i].info.is_dir && final(self).children_at(i).len() > 0
                    && start_node_id < old(self).nodes@.len() && old(self).path_at(i).len() < old(
                    self,
                ).path_at(start_node_id as int).len(),
            old(self).propagate_precondition(start_node_id) ==> final(self).tri_ok(),
    {
        let ghost pre = *self;
        let mut current = start_node_id;
        let mut done = false;
        while !done
            invariant
                self.nodes@.len() == pre.nodes@.len(),
                pre.same_structure(*self),
                self.wf(),
                forall|i: int|
                    0 <= i < pre.nodes@.len() ==> (#[trigger] self.nodes@[i]).is_expanded
                        == pre.nodes@[i].is_expanded,
                forall|i: int|
                    0 <= i < pre.nodes@.len() && self.nodes@[i] != pre.nodes@[i] ==> (
                    #[trigger] self.nodes@[i]).state == self.derived_state(i) && start_node_id
                        < pre.nodes@.len() && pre.path_at(i).len() < pre.path_at(
                        start_node_id as int,
                    ).len() && self.nodes@[i].info.is_dir && self.children_at(i).len() > 0,
                !done ==> (current == start_node_id || (current < pre.nodes@.len()
                    && start_node_id < pre.nodes@.len() && pre.path_at(current as int).len()
                    <= pre.path_at(start_node_id as int).len())),
                !done ==> forall|i: int|
                    0 <= i < pre.nodes@.len() && self.nodes@[i] != pre.nodes@[i]
                        ==> pre.path_at(current as int).len() <= #[trigger] pre.path_at(i).len(),
                pre.propagate_precondition(start_node_id) && !done ==> (forall|i: int|
                    0 <= i < self.nodes@.len() && !(current < self.nodes@.len() && parent_spec(
                        self.path_at(current as int),
                    ) == Some(self.path_at(i))) ==> #[trigger] self.consistent_at(i)),
                pre.propagate_precondition(start_node_id) && done ==> self.tri_ok(),
            decreases (if done {
                0int
            } else {
                self.path_at(current as int).len() as int + 1
            }),
        {
            match self.find_parent_id(current) {
                None => {
                    proof {
                        if pre.propagate_precondition(start_node_id) {
                            assert forall|i: int| #[trigger] self.consistent_at(i) by {
                                if 0 <= i < self.nodes@.len() {
                                    if current < self.nodes@.len() && parent_spec(
                                        self.path_at(current as int),
                                    ) == Some(self.path_at(i)) {
                                        assert(self.has_path(
                                            parent_spec(self.path_at(current as int))->Some_0,
                                        ));
                                    }
                                }
                            }
                        }
                    }
                    done = true;
                },
                Some(pid) => {
                    let new_state = self.calculate_parent_check_state(pid);
                    let ghost before = *self;
                    if self.nodes[pid].state == new_state {
                        proof {
                            if pre.propagate_precondition(start_node_id) {
                                assert forall|i: int| #[trigger] self.consistent_at(i) by {
                                    if 0 <= i < self.nodes@.len() {
                                        if current < self.nodes@.len() && parent_spec(
                                            self.path_at(current as int),
                                        ) == Some(self.path_at(i)) {
                                            assert(self.path_at(pid as int) == self.path_at(i));
                                            if i != pid as int {
                                                if i < pid as int {
                                                    assert(self.path_at(i) != self.path_at(
                                                        pid as int,
                                                    ));
                                                } else {
                                                    assert(self.path_at(pid as int)
                                                        != self.path_at(i));
                                                }
                                            }
                                            assert(self.consistent_at(pid as int));
                                        }
                                    }
                                }
                            }
                        }
                        done = true;
                    } else {
                        proof {
                            crate::pathutil::lemma_parent_shorter(self.path_at(current as int));
                            assert(pre.path_at(pid as int).len() < pre.path_at(
                                current as int,
                            ).len());
                        }
                        proof {
                            assert(before.nodes@[pid as int].info.is_dir && before.children_at(
                                pid as int,
                            ).len() > 0) by {
                                if !(before.nodes@[pid as int].info.is_dir && before.children_at(
                                    pid as int,
                                ).len() > 0) {
                                    assert(before.derived_state(pid as int)
                                        == before.nodes@[pid as int].state);
                                }
                            }
                        }
                        let slot = &mut self.nodes[pid];
                        slot.state = new_state;
                        proof {
                            lemma_state_update_wf(before, *self, pid);
                            assert forall|k: int|
                                0 <= k < before.children_at(pid as int).len() implies (
                            #[trigger] before.children_at(pid as int)[k]) != pid
                                && before.children_at(pid as int)[k] < before.nodes@.len() by {
                                assert(before.child_ok(pid as int, k));
                                crate::pathutil::lemma_parent_shorter(
                                    before.path_at(before.children_at(pid as int)[k] as int),
                                );
                            }
                            lemma_derived_one_changed(before, *self, pid as int, pid as int);
                            assert(self.nodes@[pid as int].state == self.derived_state(
                                pid as int,
                            ));
                            assert forall|i: int|
                                0 <= i < pre.nodes@.len() && i != pid as int && self.nodes@[i]
                                    != pre.nodes@[i] implies (#[trigger] self.nodes@[i]).state
                                == self.derived_state(i) && self.consistent_at(i) by {
                                assert(before.nodes@[i] != pre.nodes@[i]);
                                assert(pre.path_at(pid as int).len() < pre.path_at(i).len());
                                assert forall|k: int|
                                    0 <= k < before.children_at(i).len() implies (
                                #[trigger] before.children_at(i)[k]) != pid && before.children_at(
                                    i,
                                )[k] < before.nodes@.len() by {
                                    assert(before.child_ok(i, k));
                                    crate::pathutil::lemma_parent_shorter(
                                        before.path_at(before.children_at(i)[k] as int),
                                    );
                                }
                                lemma_derived_one_changed(before, *self, i, pid as int);
                            }
                            if pre.propagate_precondition(start_node_id) {
                                assert forall|i: int|
                                    0 <= i < self.nodes@.len() && !(pid < self.nodes@.len()
                                        && parent_spec(self.path_at(pid as int)) == Some(
                                        self.path_at(i),
                                    )) implies #[trigger] self.consistent_at(i) by {
                                    if i == pid as int {
                                    } else if current < self.nodes@.len() && parent_spec(
                                        before.path_at(current as int),
                                    ) == Some(before.path_at(i)) {
                                        assert(before.path_at(pid as int) == before.path_at(i));
                                        if i < pid as int {
                                            assert(before.path_at(i) != before.path_at(pid as int));
                                        } else if i > pid as int {
                                            assert(before.path_at(pid as int) != before.path_at(i));
                                        }
                                    } else {
                                        assert(before.consistent_at(i));
                                        assert forall|k: int|
                                            0 <= k < before.children_at(i).len() implies (
                                        #[trigger] before.children_at(i)[k]) != pid
                                            && before.children_at(i)[k] < before.nodes@.len() by {
                                            assert(before.child_ok(i, k));
                                            if before.children_at(i)[k] == pid {
                                                assert(parent_spec(before.path_at(pid as int))
                                                    == Some(before.path_at(i)));
                                            }
                                        }
                                        lemma_derived_one_changed(before, *self, i, pid as int);
                                        if self.nodes@[i].info.is_dir && self.children_at(i).len()
                                            > 0 {
                                            assert(self.nodes@[i].state == before.nodes@[i].state);
                                        }
                                    }
                                }
                            }
                        }
                        current = pid;
                    }
                },
            }
        }
    }

    /// The state a toggle assigns: `Checked` and `Partial` turn the subtree
    /// `Unchecked`; `Unchecked` turns it `Checked`.
    pub open spec fn toggled(st: Check) -> Check {
        if st is Unchecked {
            Check::Checked
        } else {
            Check::Unchecked
        }
    }

    /// Toggles the check state of `node_id`: the whole subtree takes the
    /// toggled state (in a settled tree, every node below `node_id` with
    /// it), and ancestor states are recomputed up to a fixpoint. An invalid
    /// id is a no-op. A tree obeying the tri-state rule still obeys it
    /// afterwards.
    pub fn toggle_check_state(&mut self, node_id: FileId)
        requires
            old(self).wf(),
        ensures
            final(self).wf(),
            old(self).same_structure(*final(self)),
            forall|i: int|
                0 <= i < old(self).nodes@.len() ==> (#[trigger] final(self).nodes@[i]).is_expanded
                    == old(self).nodes@[i].is_expanded,
            node_id < old(self).nodes@.len() ==> final(self).nodes@[node_id as int].state
                == Tree::toggled(old(self).nodes@[node_id as int].state),
            node_id >= old(self).nodes@.len() ==> final(self).nodes@ == old(self).nodes@,
            old(self).settled() && node_id < old(self).nodes@.len() ==> forall|i: int|
                0 <= i < old(self).nodes@.len() && old(self).desc_rel(node_id, i) ==> (
                #[trigger] final(self).nodes@[i]).state == Tree::toggled(
                    old(self).nodes@[node_id as int].state,
                ),
            old(self).tri_ok() ==> final(self).tri_ok(),
    {
        let ghost pre = *self;
        let len_bound = self.nodes.len();
        proof {
            assert(self.nodes@.len() == len_bound);
        }
        if node_id >= self.nodes.len() {
            return ;
        }
        let new_state = match self.nodes[node_id].state {
            Check::Checked => Check::Unchecked,
            Check::Partial => Check::Unchecked,
            Check::Unchecked => Check::Checked,
        };
        self.set_node_state_recursive(node_id, new_state);
        proof {
            let s = choose|s: Set<FileId>|
                Tree::set_state_rel(pre, *self, node_id, new_state, s);
            if pre.tri_ok() {
                lemma_uniform_subtree_almost_ok(pre, *self, node_id, new_state, s);
            }
            if pre.settled() {
                assert forall|i: int|
                    0 <= i < pre.nodes@.len() && pre.desc_rel(node_id, i) implies (
                #[trigger] self.nodes@[i]).state == new_state by {
                    lemma_subtree_reached(pre, s, node_id, i as FileId);
                }
            }
        }
        let ghost mid = *self;
        self.update_parent_states(node_id);
        proof {
            assert(final(self).nodes@[node_id as int].state == new_state) by {
                if self.nodes@[node_id as int] != mid.nodes@[node_id as int] {
                    assert(mid.path_at(node_id as int).len() < mid.path_at(
                        node_id as int,
                    ).len());
                }
            }
            if pre.settled() {
                assert forall|i: int|
                    0 <= i < pre.nodes@.len() && pre.desc_rel(node_id, i) implies (
                #[trigger] self.nodes@[i]).state == new_state by {
                    assert(mid.nodes@[i].state == new_state);
                    crate::pathutil::lemma_descendant_len(
                        pre.path_at(node_id as int),
                        pre.path_at(i),
                    );
                    if self.nodes@[i] != mid.nodes@[i] {
                        assert(mid.path_at(i).len() < mid.path_at(node_id as int).len());
                    }
                }
            }
        }
    }

    /// Flips the expansion flag of `node_id`, if it is a directory; files
    /// and invalid ids are left alone.
    pub fn toggle_expand_state(&mut self, node_id: FileId)
        requires
            old(self).wf(),
        ensures
            final(self).wf(),
            old(self).same_structure(*final(self)),
            forall|i: int|
                0 <= i < old(self).nodes@.len() ==> (#[trigger] final(self).nodes@[i]).state
                    == old(self).nodes@[i].state,
            forall|i: int|
                0 <= i < old(self).nodes@.len() ==> (#[trigger] final(self).nodes@[i]).is_expanded
                    == (if i == node_id as int && old(self).nodes@[i].info.is_dir {
                    !old(self).nodes@[i].is_expanded
                } else {
                    old(self).nodes@[i].is_expanded
                }),
    {
        let ghost pre = *self;
        if node_id >= self.nodes.len() {
            return ;
        }
        if !self.nodes[node_id].info.is_dir {
            return ;
        }
        let was = self.nodes[node_id].is_expanded;
        let slot = &mut self.nodes[node_id];
        slot.is_expanded = !was;
        proof {
            assert forall|i: int| 0 <= i < pre.nodes@.len() implies (#[trigger] self.nodes@[i]).info
                == pre.nodes@[i].info && self.nodes@[i].children@ == pre.nodes@[i].children@ by {
                if i == node_id as int {
                } else {
                }
            }
            assert(pre.same_structure(*self));
            lemma_same_structure_wf(pre, *self);
        }
    }

    /// Sets every node in the tree to `Checked`, from the root: in a settled
    /// tree no node escapes. A tree without a root is left untouched.
    pub fn select_all_nodes(&mut self)
        requires
            old(self).wf(),
        ensures
            final(self).wf(),
            old(self).same_structure(*final(self)),
            forall|i: int|
                0 <= i < old(self).nodes@.len() ==> (#[trigger] final(self).nodes@[i]).is_expanded
                    == old(self).nodes@[i].is_expanded,
            old(self).root_id is None ==> final(self).nodes@ == old(self).nodes@,
            old(self).settled() ==> forall|i: int|
                0 <= i < old(self).nodes@.len() ==> (#[trigger] final(self).nodes@[i]).state
                    == Check::Checked,
            old(self).bulk_precondition() ==> final(self).tri_ok(),
    {
        self.set_whole_tree_state(Check::Checked);
    }

    /// Sets every node in the tree to `Unchecked`, from the root: in a
    /// settled tree no node escapes. A tree without a root is left untouched.
    pub fn deselect_all_nodes(&mut self)
        requires
            old(self).wf(),
        ensures
            final(self).wf(),
            old(self).same_structure(*final(self)),
            forall|i: int|
                0 <= i < old(self).nodes@.len() ==> (#[trigger] final(self).nodes@[i]).is_expanded
                    == old(self).nodes@[i].is_expanded,
            old(self).root_id is None ==> final(self).nodes@ == old(self).nodes@,
            old(self).settled() ==> forall|i: int|
                0 <= i < old(self).nodes@.len() ==> (#[trigger] final(self).nodes@[i]).state
                    == Check::Unchecked,
            old(self).bulk_precondition() ==> final(self).tri_ok(),
    {
        self.set_whole_tree_state(Check::Unchecked);
    }

    /// The common body of the whole-tree bulk state setters.
    fn set_whole_tree_state(&mut self, state: Check)
        requires
            old(self).wf(),
        ensures
            final(self).wf(),
            old(self).same_structure(*final(self)),
            forall|i: int|
                0 <= i < old(self).nodes@.len() ==> (#[trigger] final(self).nodes@[i]).is_expanded
                    == old(self).nodes@[i].is_expanded,
            old(self).root_id is None ==> final(self).nodes@ == old(self).nodes@,
            old(self).settled() ==> forall|i: int|
                0 <= i < old(self).nodes@.len() ==> (#[trigger] final(self).nodes@[i]).state
                    == state,
            old(self).bulk_precondition() && (state is Checked || state is Unchecked)
                ==> final(self).tri_ok(),
    {
        let r = match self.root_id {
            Some(r) => r,
            None => {
                return ;
            },
        };
        let len_bound = self.nodes.len();
        proof {
            assert(self.nodes@.len() == len_bound);
        }
        let ghost pre = *self;
        self.set_node_state_recursive(r, state);
        proof {
            lemma_bulk_tri_ok(pre, *self, r, state);
            let s = choose|s: Set<FileId>| Tree::set_state_rel(pre, *self, r, state, s);
            assert(forall|i: int|
                0 <= i < pre.nodes@.len() ==> (#[trigger] self.nodes@[i]).is_expanded
                    == pre.nodes@[i].is_expanded);
            if pre.settled() {
                assert(r < pre.nodes@.len());
                assert(pre.path_at(r as int) == pre.root_path@);
                assert forall|i: int|
                    0 <= i < pre.nodes@.len() implies (#[trigger] self.nodes@[i]).state
                    == state by {
                    assert(crate::pathutil::is_descendant_path(pre.root_path@, pre.path_at(i)));
                    lemma_subtree_reached(pre, s, r, i as FileId);
                }
            }
        }
    }

    /// What a whole-tree bulk operation needs in order to leave the
    /// tri-state invariant intact: a root is set, and no node lies above it.
    pub open spec fn bulk_precondition(self) -> bool {
        &&& self.tri_ok()
        &&& self.root_id is Some
        &&& parent_spec(self.root_path@) is Some ==> !self.has_path(
            parent_spec(self.root_path@)->Some_0,
        )
    }

    /// A settled scan: the root is set, nothing is left buffered, every node
    /// lies under the scan root and (root apart) hangs off a parent, and
    /// only directories have children. A completed scan of a real directory
    /// tree has this shape, and on it the bulk and scoped operations reach
    /// the whole subtree they aim at.
    pub open spec fn settled(self) -> bool {
        &&& self.root_id is Some
        &&& self.orphans@.len() == 0
        &&& self.fully_attached()
        &&& forall|i: int|
            0 <= i < self.nodes@.len() ==> crate::pathutil::is_descendant_path(
                self.root_path@,
                #[trigger] self.path_at(i),
            )
        &&& forall|i: int|
            0 <= i < self.nodes@.len() && !(#[trigger] self.nodes@[i]).info.is_dir
                ==> self.children_at(i).len() == 0
    }

    /// Expands every directory, from the root: in a settled tree every
    /// directory ends expanded, and files are untouched.
    pub fn expand_all_nodes(&mut self)
        requires
            old(self).wf(),
        ensures
            final(self).wf(),
            old(self).same_structure(*final(self)),
            forall|i: int|
                0 <= i < old(self).nodes@.len() ==> (#[trigger] final(self).nodes@[i]).state == old(
                    self,
                ).nodes@[i].state,
            old(self).root_id is None ==> final(self).nodes@ == old(self).nodes@,
            forall|i: int|
                0 <= i < old(self).nodes@.len() && !old(self).nodes@[i].info.is_dir ==> (
                #[trigger] final(self).nodes@[i]) == old(self).nodes@[i],
            old(self).settled() ==> forall|i: int|
                0 <= i < old(self).nodes@.len() && old(self).nodes@[i].info.is_dir ==> (
                #[trigger] final(self).nodes@[i]).is_expanded,
            old(self).tri_ok() ==> final(self).tri_ok(),
    {
        let r = match self.root_id {
            Some(r) => r,
            None => {
                return ;
            },
        };
        let len_bound = self.nodes.len();
        proof {
            assert(self.nodes@.len() == len_bound);
        }
        let ghost pre = *self;
        self.set_node_expansion_recursive(r, true);
        proof {
            let s = choose|s: Set<FileId>| Tree::set_expansion_rel(pre, *self, r, true, s);
            assert forall|i: int|
                0 <= i < pre.nodes@.len() && !pre.nodes@[i].info.is_dir implies (
            #[trigger] self.nodes@[i]) == pre.nodes@[i] by {}
            if pre.settled() {
                assert(r < pre.nodes@.len());
                assert(pre.path_at(r as int) == pre.root_path@);
                assert forall|i: int|
                    0 <= i < pre.nodes@.len() && pre.nodes@[i].info.is_dir implies (
                #[trigger] self.nodes@[i]).is_expanded by {
                    assert(crate::pathutil::is_descendant_path(pre.root_path@, pre.path_at(i)));
                    lemma_subtree_reached(pre, s, r, i as FileId);
                }
            }
            if pre.tri_ok() {
                lemma_states_equal_tri_ok(pre, *self);
            }
        }
    }

    /// Collapses every directory, keeping the root itself expanded: in a
    /// settled tree every directory but the root ends collapsed.
    pub fn collapse_all_nodes(&mut self)
        requires
            old(self).wf(),
        ensures
            final(self).wf(),
            old(self).same_structure(*final(self)),
            forall|i: int|
                0 <= i < old(self).nodes@.len() ==> (#[trigger] final(self).nodes@[i]).state == old(
                    self,
                ).nodes@[i].state,
            old(self).root_id is None ==> final(self).nodes@ == old(self).nodes@,
            old(self).root_id is Some ==> final(self).nodes@[old(self).root_id->Some_0 as int].is_expanded,
            old(self).settled() ==> forall|i: int|
                0 <= i < old(self).nodes@.len() && old(self).nodes@[i].info.is_dir && old(
                    self,
                ).root_id != Some(i as FileId) ==> !(#[trigger] final(self).nodes@[i]).is_expanded,
            old(self).tri_ok() ==> final(self).tri_ok(),
    {
        let r = match self.root_id {
            Some(r) => r,
            None => {
                return ;
            },
        };
        let len_bound = self.nodes.len();
        proof {
            assert(self.nodes@.len() == len_bound);
        }
        let ghost pre = *self;
        self.set_node_expansion_recursive(r, false);
        let ghost mid = *self;
        proof {
            let s = choose|s: Set<FileId>| Tree::set_expansion_rel(pre, *self, r, false, s);
            if pre.settled() {
                assert(r < pre.nodes@.len());
                assert(pre.path_at(r as int) == pre.root_path@);
                assert forall|i: int|
                    0 <= i < pre.nodes@.len() && pre.nodes@[i].info.is_dir implies !(
                #[trigger] mid.nodes@[i]).is_expanded by {
                    assert(crate::pathutil::is_descendant_path(pre.root_path@, pre.path_at(i)));
                    lemma_subtree_reached(pre, s, r, i as FileId);
                }
            }
        }
        if r < self.nodes.len() {
            let slot = &mut self.nodes[r];
            slot.is_expanded = true;
        }
        proof {
            assert forall|i: int| 0 <= i < mid.nodes@.len() implies (#[trigger] self.nodes@[i]).info
                == mid.nodes@[i].info && self.nodes@[i].children@ == mid.nodes@[i].children@
                && self.nodes@[i].state == mid.nodes@[i].state by {
                if i == r as int {
                } else {
                }
            }
            assert(mid.same_structure(*self));
            lemma_same_structure_wf(mid, *self);
            assert forall|i: int| 0 <= i < pre.nodes@.len() implies (
            #[trigger] self.nodes@[i]).state == pre.nodes@[i].state by {
                assert(mid.nodes@[i].state == pre.nodes@[i].state);
            }
            if pre.settled() {
                assert forall|i: int|
                    0 <= i < pre.nodes@.len() && pre.nodes@[i].info.is_dir && pre.root_id != Some(
                        i as FileId,
                    ) implies !(#[trigger] self.nodes@[i]).is_expanded by {
                    assert(i != r as int);
                    assert(self.nodes@[i] == mid.nodes@[i]);
                }
            }
            if pre.tri_ok() {
                lemma_states_equal_tri_ok(pre, *self);
            }
        }
    }

    /// Whether node `i` lies in the subtree of some direct child of
    /// `node_id`.
    pub open spec fn in_child_subtree(self, node_id: FileId, i: int) -> bool {
        exists|k: int|
            0 <= k < self.children_at(node_id as int).len() && self.desc_rel(
                #[trigger] self.children_at(node_id as int)[k],
                i,
            )
    }

    /// Sets the whole subtree of each direct child of `node_id` (a
    /// directory) to `state`, recomputes `node_id`'s own state from its
    /// children, and recomputes its ancestors upward. In a settled tree
    /// every node of every child's subtree takes the state, `node_id`
    /// itself derives it when it has a child, and the tri-state invariant
    /// is preserved. A file or an invalid id is left alone.
    #[verifier::rlimit(100)]
    pub fn set_all_children_states(&mut self, node_id: FileId, state: Check)
        requires
            old(self).wf(),
        ensures
            final(self).wf(),
            old(self).same_structure(*final(self)),
            forall|i: int|
                0 <= i < old(self).nodes@.len() ==> (#[trigger] final(self).nodes@[i]).is_expanded
                    == old(self).nodes@[i].is_expanded,
            (node_id >= old(self).nodes@.len() || !old(self).nodes@[node_id as int].info.is_dir)
                ==> final(self).nodes@ == old(self).nodes@,
            old(self).settled() && node_id < old(self).nodes@.len() && old(
                self,
            ).nodes@[node_id as int].info.is_dir ==> forall|i: int|
                0 <= i < old(self).nodes@.len() && old(self).in_child_subtree(node_id, i) ==> (
                #[trigger] final(self).nodes@[i]).state == state,
            old(self).settled() && node_id < old(self).nodes@.len() && old(
                self,
            ).nodes@[node_id as int].info.is_dir && old(self).children_at(node_id as int).len() > 0
                ==> final(self).nodes@[node_id as int].state == state,
            old(self).settled() && old(self).tri_ok() ==> final(self).tri_ok(),
    {
        let ghost pre = *self;
        let len_bound = self.nodes.len();
        proof {
            assert(self.nodes@.len() == len_bound);
        }
        if node_id >= self.nodes.len() {
            return ;
        }
        if !self.nodes[node_id].info.is_dir {
            return ;
        }
        let m = self.nodes[node_id].children.len();
        let mut k: usize = 0;
        while k < m
            invariant
                self.wf(),
                node_id < pre.nodes@.len(),
                pre.wf(),
                pre.nodes@.len() <= usize::MAX as nat,
                pre.nodes@[node_id as int].info.is_dir,
                k <= m,
                m == pre.children_at(node_id as int).len(),
                pre.same_structure(*self),
                forall|i: int|
                    0 <= i < pre.nodes@.len() ==> (#[trigger] self.nodes@[i]).is_expanded
                        == pre.nodes@[i].is_expanded,
                pre.settled() ==> forall|i: int|
                    0 <= i < pre.nodes@.len() && (exists|k2: int|
                        0 <= k2 < k && pre.desc_rel(
                            #[trigger] pre.children_at(node_id as int)[k2],
                            i,
                        )) ==> (#[trigger] self.nodes@[i]).state == state,
                pre.settled() && pre.tri_ok() ==> self.tri_ok_except(pre.path_at(node_id as int)),
            decreases m - k,
        {
            proof {
                assert(self.child_ok(node_id as int, k as int));
                assert(pre.child_ok(node_id as int, k as int));
            }
            let c = self.nodes[node_id].children[k];
            let ghost step_pre = *self;
            self.set_node_state_recursive(c, state);
            proof {
                let s = choose|s: Set<FileId>|
                    Tree::set_state_rel(step_pre, *self, c, state, s);
                assert(pre.same_structure(*self)) by {
                    assert(step_pre.same_structure(*self));
                }
                assert(pre.children_at(node_id as int)[k as int] == c);
                assert(step_pre.nodes@.len() == pre.nodes@.len());
                if pre.settled() {
                    lemma_same_structure_settled(pre, step_pre);
                    assert forall|i: int|
                        0 <= i < pre.nodes@.len() && (exists|k2: int|
                            0 <= k2 < k + 1 && pre.desc_rel(
                                #[trigger] pre.children_at(node_id as int)[k2],
                                i,
                            )) implies (#[trigger] self.nodes@[i]).state == state by {
                        let k2 = choose|k2: int|
                            0 <= k2 < k + 1 && pre.desc_rel(pre.children_at(node_id as int)[k2], i);
                        if k2 == k as int {
                            assert(pre.desc_rel(c, i));
                            assert(step_pre.path_at(c as int) == pre.path_at(c as int));
                            assert(step_pre.path_at(i) == pre.path_at(i));
                            assert(c < step_pre.nodes@.len());
                            assert(crate::pathutil::is_descendant_path(
                                step_pre.path_at(c as int),
                                step_pre.path_at(i),
                            ));
                            lemma_subtree_reached(step_pre, s, c, i as FileId);
                        } else {
                            assert(0 <= k2 < k && pre.desc_rel(
                                pre.children_at(node_id as int)[k2],
                                i,
                            ));
                            assert(step_pre.nodes@[i].state == state);
                            if s.contains(i as FileId) {
                            } else {
                                assert(self.nodes@[i] == step_pre.nodes@[i]);
                            }
                        }
                    }
                    if pre.tri_ok() {
                        assert(parent_spec(step_pre.path_at(c as int)) == Some(
                            pre.path_at(node_id as int),
                        ));
                        lemma_uniform_subtree_keeps_except(
                            step_pre,
                            *self,
                            c,
                            state,
                            s,
                            pre.path_at(node_id as int),
                        );
                    }
                }
            }
            k = k + 1;
        }
        // bring the scoped node itself in line with its children
        let st2 = self.calculate_parent_check_state(node_id);
        let ghost before2 = *self;
        {
            let slot = &mut self.nodes[node_id];
            slot.state = st2;
        }
        proof {
            lemma_state_update_wf(before2, *self, node_id);
            assert(pre.same_structure(*self));
            assert forall|kk: int|
                0 <= kk < before2.children_at(node_id as int).len() implies (
            #[trigger] before2.children_at(node_id as int)[kk]) != node_id
                && before2.children_at(node_id as int)[kk] < before2.nodes@.len() by {
                assert(before2.child_ok(node_id as int, kk));
                crate::pathutil::lemma_parent_shorter(
                    before2.path_at(before2.children_at(node_id as int)[kk] as int),
                );
            }
            lemma_derived_one_changed(before2, *self, node_id as int, node_id as int);
            assert(self.nodes@[node_id as int].state == self.derived_state(node_id as int));
            if pre.settled() {
                // the scoped node lies in no child's subtree: child paths are longer
                assert forall|i: int|
                    0 <= i < pre.nodes@.len() && (exists|k2: int|
                        0 <= k2 < m && pre.desc_rel(
                            #[trigger] pre.children_at(node_id as int)[k2],
                            i,
                        )) implies (#[trigger] self.nodes@[i]).state == state by {
                    let k2 = choose|k2: int|
                        0 <= k2 < m && pre.desc_rel(pre.children_at(node_id as int)[k2], i);
                    let c2 = pre.children_at(node_id as int)[k2];
                    assert(pre.child_ok(node_id as int, k2));
                    crate::pathutil::lemma_descendant_len(
                        pre.path_at(c2 as int),
                        pre.path_at(i),
                    );
                    crate::pathutil::lemma_parent_shorter(pre.path_at(c2 as int));
                    assert(i != node_id as int);
                    assert(self.nodes@[i] == before2.nodes@[i]);
                }
                if m > 0 {
                    // uniform children force the derived state
                    assert(before2.has_child_state(node_id as int, state)) by {
                        assert(pre.child_ok(node_id as int, 0));
                        let c0 = pre.children_at(node_id as int)[0];
                        assert(pre.desc_rel(c0, c0 as int));
                        assert(before2.nodes@[c0 as int].state == state);
                    }
                    assert forall|st2x: Check| st2x != state implies !before2.has_child_state(
                        node_id as int,
                        st2x,
                    ) by {
                        if before2.has_child_state(node_id as int, st2x) {
                            let kk = choose|kk: int|
                                0 <= kk < before2.children_at(node_id as int).len()
                                    && before2.nodes@[#[trigger] before2.children_at(
                                    node_id as int,
                                )[kk] as int].state == st2x;
                            let cc = pre.children_at(node_id as int)[kk];
                            assert(pre.child_ok(node_id as int, kk));
                            assert(pre.desc_rel(cc, cc as int));
                            assert(before2.nodes@[cc as int].state == state);
                        }
                    }
                    assert(st2 == state);
                }
                if pre.tri_ok() {
                    // only the parent of the scoped node can now be unsettled
                    assert forall|i: int|
                        0 <= i < self.nodes@.len() && !(node_id < self.nodes@.len() && parent_spec(
                            self.path_at(node_id as int),
                        ) == Some(self.path_at(i))) implies #[trigger] self.consistent_at(i) by {
                        if i == node_id as int {
                        } else {
                            assert(before2.path_at(i) != pre.path_at(node_id as int)) by {
                                if i < node_id as int {
                                    assert(pre.path_at(i) != pre.path_at(node_id as int));
                                } else {
                                    assert(pre.path_at(node_id as int) != pre.path_at(i));
                                }
                            }
                            assert(before2.consistent_at(i));
                            assert forall|kk: int|
                                0 <= kk < before2.children_at(i).len() implies (
                            #[trigger] before2.children_at(i)[kk]) != node_id
                                && before2.children_at(i)[kk] < before2.nodes@.len() by {
                                assert(before2.child_ok(i, kk));
                                if before2.children_at(i)[kk] == node_id {
                                    assert(parent_spec(before2.path_at(node_id as int)) == Some(
                                        before2.path_at(i),
                                    ));
                                }
                            }
                            lemma_derived_one_changed(before2, *self, i, node_id as int);
                            if self.nodes@[i].info.is_dir && self.children_at(i).len() > 0 {
                                assert(self.nodes@[i].state == before2.nodes@[i].state);
                            }
                        }
                    }
                    assert(self.propagate_precondition(node_id));
                }
            }
        }
        let ghost before_up = *self;
        self.update_parent_states(node_id);
        proof {
            assert(pre.same_structure(*self)) by {
                assert(before_up.same_structure(*self));
            }
            if pre.settled() {
                assert forall|i: int|
                    0 <= i < pre.nodes@.len() && pre.in_child_subtree(node_id, i) implies (
                #[trigger] self.nodes@[i]).state == state by {
                    let k2 = choose|k2: int|
                        0 <= k2 < pre.children_at(node_id as int).len() && pre.desc_rel(
                            pre.children_at(node_id as int)[k2],
                            i,
                        );
                    let c2 = pre.children_at(node_id as int)[k2];
                    assert(pre.child_ok(node_id as int, k2));
                    crate::pathutil::lemma_descendant_len(pre.path_at(c2 as int), pre.path_at(i));
                    crate::pathutil::lemma_parent_shorter(pre.path_at(c2 as int));
                    assert(before_up.nodes@[i].state == state);
                    if self.nodes@[i] != before_up.nodes@[i] {
                        assert(before_up.path_at(i).len() < before_up.path_at(
                            node_id as int,
                        ).len());
                    }
                }
                assert(m > 0 ==> self.nodes@[node_id as int].state == state) by {
                    if m > 0 && self.nodes@[node_id as int] != before_up.nodes@[node_id as int] {
                        assert(before_up.path_at(node_id as int).len() < before_up.path_at(
                            node_id as int,
                        ).len());
                    }
                }
            }
        }
    }

    /// Selects all direct children of `node_id` with their subtrees, then
    /// recomputes `node_id` and its ancestors: in a settled tree every node
    /// of every child's subtree ends `Checked`, `node_id` itself included
    /// when it has a child, and the tri-state invariant is preserved.
    pub fn select_all_children(&mut self, node_id: FileId)
        requires
            old(self).wf(),
        ensures
            final(self).wf(),
            old(self).same_structure(*final(self)),
            forall|i: int|
                0 <= i < old(self).nodes@.len() ==> (#[trigger] final(self).nodes@[i]).is_expanded
                    == old(self).nodes@[i].is_expanded,
            (node_id >= old(self).nodes@.len() || !old(self).nodes@[node_id as int].info.is_dir)
                ==> final(self).nodes@ == old(self).nodes@,
            old(self).settled() && node_id < old(self).nodes@.len() && old(
                self,
            ).nodes@[node_id as int].info.is_dir ==> forall|i: int|
                0 <= i < old(self).nodes@.len() && old(self).in_child_subtree(node_id, i) ==> (
                #[trigger] final(self).nodes@[i]).state == Check::Checked,
            old(self).settled() && node_id < old(self).nodes@.len() && old(
                self,
            ).nodes@[node_id as int].info.is_dir && old(self).children_at(node_id as int).len() > 0
                ==> final(self).nodes@[node_id as int].state == Check::Checked,
            old(self).settled() && old(self).tri_ok() ==> final(self).tri_ok(),
    {
        self.set_all_children_states(node_id, Check::Checked);
    }

    /// Deselects all direct children of `node_id` with their subtrees, then
    /// recomputes `node_id` and its ancestors: in a settled tree every node
    /// of every child's subtree ends `Unchecked`, `node_id` itself included
    /// when it has a child, and the tri-state invariant is preserved.
    pub fn deselect_all_children(&mut self, node_id: FileId)
        requires
            old(self).wf(),
        ensures
            final(self).wf(),
            old(self).same_structure(*final(self)),
            forall|i: int|
                0 <= i < old(self).nodes@.len() ==> (#[trigger] final(self).nodes@[i]).is_expanded
                    == old(self).nodes@[i].is_expanded,
            (node_id >= old(self).nodes@.len() || !old(self).nodes@[node_id as int].info.is_dir)
                ==> final(self).nodes@ == old(self).nodes@,
            old(self).settled() && node_id < old(self).nodes@.len() && old(
                self,
            ).nodes@[node_id as int].info.is_dir ==> forall|i: int|
                0 <= i < old(self).nodes@.len() && old(self).in_child_subtree(node_id, i) ==> (
                #[trigger] final(self).nodes@[i]).state == Check::Unchecked,
            old(self).settled() && node_id < old(self).nodes@.len() && old(
                self,
            ).nodes@[node_id as int].info.is_dir && old(self).children_at(node_id as int).len() > 0
                ==> final(self).nodes@[node_id as int].state == Check::Unchecked,
            old(self).settled() && old(self).tri_ok() ==> final(self).tri_ok(),
    {
        self.set_all_children_states(node_id, Check::Unchecked);
    }

    /// Whether node `i` lies in the subtree of node `a`, judged by the
    /// parent-path chain.
    pub open spec fn desc_rel(self, a: FileId, i: int) -> bool {
        a < self.nodes@.len() && crate::pathutil::is_descendant_path(
            self.path_at(a as int),
            self.path_at(i),
        )
    }

    /// How `recalculate_all_parent_states` changes the tree: every directory
    /// with children in the subtree of `node_id` takes exactly the state its
    /// children derive (bottom-up, so against the final tree); every other
    /// node is untouched.
    pub open spec fn recalc_rel(pre: Tree, post: Tree, node_id: FileId) -> bool {
        &&& pre.same_structure(post)
        &&& forall|i: int|
            0 <= i < pre.nodes@.len() ==> (#[trigger] post.nodes@[i]).is_expanded
                == pre.nodes@[i].is_expanded
        &&& forall|i: int|
            0 <= i < pre.nodes@.len() && !pre.desc_rel(node_id, i) ==> (#[trigger] post.nodes@[i])
                == pre.nodes@[i]
        &&& forall|i: int|
            0 <= i < pre.nodes@.len() && pre.desc_rel(node_id, i) && !(pre.nodes@[i].info.is_dir
                && pre.children_at(i).len() > 0) ==> (#[trigger] post.nodes@[i]) == pre.nodes@[i]
        &&& forall|i: int|
            0 <= i < pre.nodes@.len() && pre.desc_rel(node_id, i) && pre.nodes@[i].info.is_dir
                && pre.children_at(i).len() > 0 ==> (#[trigger] post.nodes@[i]).state
                == post.derived_state(i)
    }

    /// Recomputes the state of `node_id` and of every descendant directory,
    /// bottom-up: nodes are processed in order of decreasing path depth, so
    /// each directory is recomputed only after all its children hold their
    /// final state. Needed after a bulk selection import, which overwrites
    /// only explicitly named nodes and leaves ancestors stale.
    #[verifier::rlimit(100)]
    pub fn recalculate_all_parent_states(&mut self, node_id: FileId)
        requires
            old(self).wf(),
        ensures
            final(self).wf(),
            Tree::recalc_rel(*old(self), *final(self), node_id),
    {
        let ghost pre = *self;
        let n = self.nodes.len();
        if node_id >= n {
            proof {
                assert(Tree::recalc_rel(pre, *self, node_id));
            }
            return ;
        }
        let mut maxlen: usize = 0;
        let mut i: usize = 0;
        while i < n
            invariant
                i <= n,
                n == self.nodes@.len(),
                maxlen as int == Tree::max_plen_upto(self.nodes@, i as int),
            decreases n - i,
        {
            let pl = self.nodes[i].info.path.len();
            if pl > maxlen {
                maxlen = pl;
            }
            i = i + 1;
        }
        proof {
            Tree::lemma_max_plen(self.nodes@, n as int);
        }
        let mut desc: Vec<bool> = Vec::new();
        let mut di: usize = 0;
        while di < n
            invariant
                di <= n,
                desc@.len() == di,
                node_id < n,
                n == self.nodes@.len(),
                forall|j: int|
                    0 <= j < di ==> #[trigger] desc@[j] == self.desc_rel(node_id, j),
            decreases n - di,
        {
            let d = crate::pathutil::is_descendant_of(
                &self.nodes[node_id].info.path,
                &self.nodes[di].info.path,
            );
            desc.push(d);
            di = di + 1;
        }
        let mut lev: usize = maxlen;
        loop
            invariant_except_break
                lev <= maxlen,
                n == self.nodes@.len(),
                node_id < n,
                desc@.len() == n,
                forall|j: int| 0 <= j < n ==> #[trigger] desc@[j] == pre.desc_rel(node_id, j),
                self.wf(),
                pre.same_structure(*self),
                forall|i2: int|
                    0 <= i2 < n ==> (#[trigger] self.nodes@[i2]).is_expanded
                        == pre.nodes@[i2].is_expanded,
                forall|i2: int|
                    0 <= i2 < n && !pre.desc_rel(node_id, i2) ==> (#[trigger] self.nodes@[i2])
                        == pre.nodes@[i2],
                forall|i2: int|
                    0 <= i2 < n && pre.desc_rel(node_id, i2) && !(pre.nodes@[i2].info.is_dir
                        && pre.children_at(i2).len() > 0) ==> (#[trigger] self.nodes@[i2])
                        == pre.nodes@[i2],
                forall|i2: int|
                    0 <= i2 < n && pre.desc_rel(node_id, i2) && pre.nodes@[i2].info.is_dir
                        && pre.children_at(i2).len() > 0 && pre.path_at(i2).len() > lev ==> (
                    #[trigger] self.nodes@[i2]).state == self.derived_state(i2),
                forall|i2: int|
                    0 <= i2 < n && pre.desc_rel(node_id, i2) && pre.nodes@[i2].info.is_dir
                        && pre.children_at(i2).len() > 0 && pre.path_at(i2).len() <= lev ==> (
                    #[trigger] self.nodes@[i2]) == pre.nodes@[i2],
            ensures
                n == self.nodes@.len(),
                self.wf(),
                pre.same_structure(*self),
                Tree::recalc_rel(pre, *self, node_id),
            decreases lev,
        {
            let ghost level_start = *self;
            let mut i2: usize = 0;
            while i2 < n
                invariant
                    i2 <= n,
                    n == self.nodes@.len(),
                    self.wf(),
                    pre.same_structure(*self),
                    desc@.len() == n,
                    forall|j: int|
                        0 <= j < n ==> #[trigger] desc@[j] == pre.desc_rel(node_id, j),
                    forall|j: int|
                        0 <= j < n ==> (#[trigger] self.nodes@[j]).is_expanded
                            == pre.nodes@[j].is_expanded,
                    forall|j: int|
                        0 <= j < n && !pre.desc_rel(node_id, j) ==> (#[trigger] self.nodes@[j])
                            == pre.nodes@[j],
                    forall|j: int|
                        0 <= j < n && pre.desc_rel(node_id, j) && !(pre.nodes@[j].info.is_dir
                            && pre.children_at(j).len() > 0) ==> (#[trigger] self.nodes@[j])
                            == pre.nodes@[j],
                    forall|j: int|
                        0 <= j < n && pre.desc_rel(node_id, j) && pre.nodes@[j].info.is_dir
                            && pre.children_at(j).len() > 0 && (pre.path_at(j).len() > lev || (
                        pre.path_at(j).len() == lev && j < i2)) ==> (
                        #[trigger] self.nodes@[j]).state == self.derived_state(j),
                    forall|j: int|
                        0 <= j < n && pre.desc_rel(node_id, j) && pre.nodes@[j].info.is_dir
                            && pre.children_at(j).len() > 0 && (pre.path_at(j).len() < lev || (
                        pre.path_at(j).len() == lev && j >= i2)) ==> (#[trigger] self.nodes@[j])
                            == pre.nodes@[j],
                decreases n - i2,
            {
                let is_level = self.nodes[i2].info.path.len() == lev;
                if is_level && desc[i2] && self.nodes[i2].info.is_dir
                    && self.nodes[i2].children.len() > 0 {
                    let st = self.calculate_parent_check_state(i2);
                    let ghost before = *self;
                    let slot = &mut self.nodes[i2];
                    slot.state = st;
                    proof {
                        lemma_state_update_wf(before, *self, i2);
                        assert forall|k: int|
                            0 <= k < before.children_at(i2 as int).len() implies (
                        #[trigger] before.children_at(i2 as int)[k]) as int != i2 as int
                            && before.children_at(i2 as int)[k] < before.nodes@.len() by {
                            assert(before.child_ok(i2 as int, k));
                            crate::pathutil::lemma_parent_shorter(
                                before.path_at(before.children_at(i2 as int)[k] as int),
                            );
                        }
                        lemma_derived_one_changed(before, *self, i2 as int, i2 as int);
                        assert(self.nodes@[i2 as int].state == self.derived_state(i2 as int));
                        assert forall|j: int|
                            0 <= j < n && j != i2 as int && pre.desc_rel(node_id, j)
                                && pre.nodes@[j].info.is_dir && pre.children_at(j).len() > 0 && (
                            pre.path_at(j).len() > lev || (pre.path_at(j).len() == lev && j
                                < i2 as int)) implies (#[trigger] self.nodes@[j]).state
                            == self.derived_state(j) by {
                            assert forall|k: int|
                                0 <= k < before.children_at(j).len() implies (
                            #[trigger] before.children_at(j)[k]) as int != i2 as int
                                && before.children_at(j)[k] < before.nodes@.len() by {
                                assert(before.child_ok(j, k));
                                let c = before.children_at(j)[k];
                                crate::pathutil::lemma_parent_shorter(
                                    before.path_at(c as int),
                                );
                                assert(pre.path_at(c as int).len() > pre.path_at(j).len());
                            }
                            lemma_derived_one_changed(before, *self, j, i2 as int);
                        }
                    }
                }
                i2 = i2 + 1;
            }
            if lev == 0 {
                proof {
                    assert(Tree::recalc_rel(pre, *self, node_id));
                }
                break ;
            }
            lev = lev - 1;
        }
    }

    /// How many of the first `n` nodes are files, and how many of those are
    /// checked.
    pub open spec fn count_files_upto(s: Seq<FileNode>, n: int) -> (int, int)
        decreases n,
    {
        if n <= 0 {
            (0, 0)
        } else {
            let (t, sel) = Self::count_files_upto(s, n - 1);
            if !s[n - 1].info.is_dir {
                (t + 1, sel + if s[n - 1].state == Check::Checked {
                    1int
                } else {
                    0int
                })
            } else {
                (t, sel)
            }
        }
    }

    /// Counts the total number of files and the number of checked files.
    pub fn count_files(&self) -> (r: (usize, usize))
        ensures
            (r.0 as int, r.1 as int) == Tree::count_files_upto(
                self.nodes@,
                self.nodes@.len() as int,
            ),
    {
        let mut total: usize = 0;
        let mut selected: usize = 0;
        let mut i: usize = 0;
        proof {
            Self::lemma_count_files_bounds(self.nodes@, 0);
        }
        while i < self.nodes.len()
            invariant
                i <= self.nodes@.len(),
                (total as int, selected as int) == Tree::count_files_upto(self.nodes@, i as int),
                selected <= total <= i,
            decreases self.nodes@.len() - i,
        {
            if !self.nodes[i].info.is_dir {
                total = total + 1;
                if matches!(self.nodes[i].state, Check::Checked) {
                    selected = selected + 1;
                }
            }
            i = i + 1;
        }
        (total, selected)
    }

    /// The counts stay within the prefix length.
    pub proof fn lemma_count_files_bounds(s: Seq<FileNode>, n: int)
        requires
            0 <= n,
        ensures
            Self::count_files_upto(s, n).1 <= Self::count_files_upto(s, n).0 <= n,
            0 <= Self::count_files_upto(s, n).1,
        decreases n,
    {
        if n > 0 {
            Self::lemma_count_files_bounds(s, n - 1);
        }
    }

    /// The shape of tree on which upward propagation restores the tri-state
    /// invariant everywhere: it already holds except possibly at the parent
    /// of the start node.
    pub open spec fn propagate_precondition(self, start: FileId) -> bool {
        forall|i: int|
            0 <= i < self.nodes@.len() && !(start < self.nodes@.len() && parent_spec(
                self.path_at(start as int),
            ) == Some(self.path_at(i))) ==> #[trigger] self.consistent_at(i)
    }
}

/// Changing one node's check state keeps the tree well-formed.
pub proof fn lemma_state_update_wf(pre: Tree, post: Tree, pid: FileId)
    requires
        pre.wf(),
        pid < pre.nodes@.len(),
        post.nodes@.len() == pre.nodes@.len(),
        forall|i: int|
            0 <= i < pre.nodes@.len() && i != pid as int ==> (#[trigger] post.nodes@[i])
                == pre.nodes@[i],
        post.nodes@[pid as int].info == pre.nodes@[pid as int].info,
        post.nodes@[pid as int].children@ == pre.nodes@[pid as int].children@,
        post.nodes@[pid as int].is_expanded == pre.nodes@[pid as int].is_expanded,
        post.orphans@ == pre.orphans@,
        post.root_id == pre.root_id,
        post.root_path == pre.root_path,
    ensures
        post.wf(),
        pre.same_structure(post),
{
    assert forall|i: int| 0 <= i < pre.nodes@.len() implies (#[trigger] post.nodes@[i]).info
        == pre.nodes@[i].info && post.nodes@[i].children@ == pre.nodes@[i].children@ by {
        if i == pid as int {
        } else {
        }
    }
    assert(pre.same_structure(post));
    lemma_same_structure_wf(pre, post);
}

/// If only node `e`'s check state differs between two same-structure trees,
/// and `e` is not among node `i`'s children, then `i` derives the same state
/// in both.
proof fn lemma_derived_one_changed(pre: Tree, post: Tree, i: int, e: int)
    requires
        pre.same_structure(post),
        forall|j: int|
            0 <= j < pre.nodes@.len() && j != e ==> (#[trigger] post.nodes@[j]).state
                == pre.nodes@[j].state,
        forall|k: int|
            0 <= k < pre.children_at(i).len() ==> (#[trigger] pre.children_at(i)[k]) as int != e
                && pre.children_at(i)[k] < pre.nodes@.len(),
    ensures
        (0 <= i < pre.nodes@.len() && pre.nodes@[i].info.is_dir && pre.children_at(i).len() > 0)
            ==> post.derived_state(i) == pre.derived_state(i),
{
    if 0 <= i < pre.nodes@.len() && pre.nodes@[i].info.is_dir && pre.children_at(i).len() > 0 {
        assert(post.children_at(i) == pre.children_at(i));
        assert forall|st: Check| #[trigger]
            post.has_child_state(i, st) == pre.has_child_state(i, st) by {
            if pre.has_child_state(i, st) {
                let k = choose|k: int|
                    0 <= k < pre.children_at(i).len() && pre.nodes@[#[trigger] pre.children_at(
                        i,
                    )[k] as int].state == st;
                assert(post.nodes@[post.children_at(i)[k] as int].state == st);
            }
            if post.has_child_state(i, st) {
                let k = choose|k: int|
                    0 <= k < post.children_at(i).len() && post.nodes@[#[trigger] post.children_at(
                        i,
                    )[k] as int].state == st;
                assert(pre.nodes@[pre.children_at(i)[k] as int].state == st);
            }
        }
    }
}



/// Marks `root` and every node reached from it through directory child
/// lists: a sweep pass propagates marks from marked directories to their
/// children, and repeats until a pass adds nothing.
#[verifier::loop_isolation(false)]
fn mark_subtree(nodes: &Vec<FileNode>, root: FileId) -> (visited: Vec<bool>)
    ensures
        visited@.len() == nodes@.len(),
        root < nodes@.len() ==> visited@[root as int],
        forall|c: int|
            0 <= c < nodes@.len() && #[trigger] visited@[c] ==> c == root as int || exists|x: int|
                0 <= x < nodes@.len() && visited@[x] && nodes@[x].info.is_dir
                    && nodes@[x].children@.contains(c as FileId),
        forall|x: int, k: int|
            #![trigger visited@[x], nodes@[x].children@[k]]
            0 <= x < nodes@.len() && visited@[x] && nodes@[x].info.is_dir && 0 <= k
                < nodes@[x].children@.len() && nodes@[x].children@[k] < nodes@.len()
                ==> visited@[nodes@[x].children@[k] as int],
        forall|c: int| 0 <= c < nodes@.len() && !visited@[c] ==> c != root as int,
        root >= nodes@.len() ==> forall|j: int| 0 <= j < visited@.len() ==> !visited@[j],
{
    let n = nodes.len();
    let mut visited: Vec<bool> = Vec::new();
    let mut vi: usize = 0;
    while vi < n
        invariant
            vi <= n,
            visited@.len() == vi,
            forall|j: int| 0 <= j < vi ==> #[trigger] visited@[j] == false,
        decreases n - vi,
    {
        visited.push(false);
        vi = vi + 1;
    }
    if root < n {
        let slot = &mut visited[root];
        *slot = true;
    }
    let mut more = true;
    while more
        invariant
            visited@.len() == n,
            root < n ==> visited@[root as int],
            forall|c: int|
                0 <= c < n && #[trigger] visited@[c] ==> c == root as int || exists|x: int|
                    0 <= x < n && visited@[x] && nodes@[x].info.is_dir && nodes@[x].children@.contains(
                        c as FileId,
                    ),
            !more ==> forall|x: int, k: int|
                #![trigger visited@[x], nodes@[x].children@[k]]
                0 <= x < n && visited@[x] && nodes@[x].info.is_dir && 0 <= k
                    < nodes@[x].children@.len() && nodes@[x].children@[k] < n ==> visited@[nodes@[x].children@[k] as int],
            root >= n ==> forall|j: int| 0 <= j < n ==> !visited@[j],
        decreases count_false(visited@) + if more {
            1int
        } else {
            0int
        },
    {
        let ghost pass_start = visited@;
        proof {
            lemma_count_false_bounds(visited@);
        }
        let mut changed = false;
        let mut i: usize = 0;
        while i < n
            invariant
                visited@.len() == n,
                i <= n,
                root < n ==> visited@[root as int],
                forall|j: int| 0 <= j < n && pass_start[j] ==> #[trigger] visited@[j],
                changed ==> count_false(visited@) < count_false(pass_start),
                !changed ==> visited@ == pass_start,
                forall|c: int|
                    0 <= c < n && #[trigger] visited@[c] ==> c == root as int || exists|x: int|
                        0 <= x < n && visited@[x] && nodes@[x].info.is_dir
                            && nodes@[x].children@.contains(c as FileId),
                !changed ==> forall|x: int, k: int|
                    #![trigger visited@[x], nodes@[x].children@[k]]
                    0 <= x < i && visited@[x] && nodes@[x].info.is_dir && 0 <= k
                        < nodes@[x].children@.len() && nodes@[x].children@[k] < n ==> visited@[nodes@[x].children@[k] as int],
                root >= n ==> forall|j: int| 0 <= j < n ==> !visited@[j],
            decreases n - i,
        {
            if visited[i] && nodes[i].info.is_dir {
                let m = nodes[i].children.len();
                let mut k: usize = 0;
                while k < m
                    invariant
                        visited@.len() == n,
                        i < n,
                        k <= m,
                        m == nodes@[i as int].children@.len(),
                        visited@[i as int],
                        nodes@[i as int].info.is_dir,
                        root < n ==> visited@[root as int],
                        forall|j: int| 0 <= j < n && pass_start[j] ==> #[trigger] visited@[j],
                        changed ==> count_false(visited@) < count_false(pass_start),
                        !changed ==> visited@ == pass_start,
                        forall|c: int|
                            0 <= c < n && #[trigger] visited@[c] ==> c == root as int || exists|x: int|
                                0 <= x < n && visited@[x] && nodes@[x].info.is_dir
                                    && nodes@[x].children@.contains(c as FileId),
                        !changed ==> forall|x: int, kk: int|
                            #![trigger visited@[x], nodes@[x].children@[kk]]
                            0 <= x < i && visited@[x] && nodes@[x].info.is_dir && 0 <= kk
                                < nodes@[x].children@.len() && nodes@[x].children@[kk] < n
                                ==> visited@[nodes@[x].children@[kk] as int],
                        !changed ==> forall|kk: int|
                            0 <= kk < k && nodes@[i as int].children@[kk] < n
                                ==> visited@[#[trigger] nodes@[i as int].children@[kk] as int],
                        root < n,
                    decreases m - k,
                {
                    let c = nodes[i].children[k];
                    if c < n {
                        let already = visited[c];
                        if !already {
                            proof {
                                lemma_count_false_update(visited@, c as int);
                                lemma_count_false_monotone(pass_start, visited@);
                            }
                            let ghost vb = visited@;
                            let slot = &mut visited[c];
                            *slot = true;
                            changed = true;
                            proof {
                                assert(nodes@[i as int].children@[k as int] == c);
                                assert(nodes@[i as int].children@.contains(c));
                                assert forall|cc: int|
                                    0 <= cc < n && #[trigger] visited@[cc] implies cc
                                    == root as int || exists|x: int|
                                    0 <= x < n && visited@[x] && nodes@[x].info.is_dir
                                        && nodes@[x].children@.contains(cc as FileId) by {
                                    if cc == c as int {
                                        assert(visited@[i as int] && nodes@[i as int].info.is_dir
                                            && nodes@[i as int].children@.contains(cc as FileId));
                                    } else {
                                        assert(vb[cc]);
                                        if cc != root as int {
                                            let x = choose|x: int|
                                                0 <= x < n && vb[x] && nodes@[x].info.is_dir
                                                    && nodes@[x].children@.contains(cc as FileId);
                                            assert(visited@[x]);
                                        }
                                    }
                                }
                            }
                        }
                    }
                    k = k + 1;
                }
            }
            i = i + 1;
        }
        proof {
            lemma_count_false_bounds(visited@);
            if changed {
                assert(count_false(visited@) < count_false(pass_start));
            } else {
                assert(visited@ == pass_start);
            }
            assert(count_false(visited@) + (if changed {
                1int
            } else {
                0int
            }) < count_false(pass_start) + 1);
        }
        more = changed;
    }
    visited
}

/// A pointwise-larger mark vector has no larger false count.
proof fn lemma_count_false_monotone(a: Seq<bool>, b: Seq<bool>)
    requires
        a.len() == b.len(),
        forall|j: int| 0 <= j < a.len() && a[j] ==> #[trigger] b[j],
    ensures
        count_false(b) <= count_false(a),
    decreases a.len(),
{
    if a.len() > 0 {
        lemma_count_false_monotone(a.drop_last(), b.drop_last());
    }
}

/// Well-formedness does not depend on check states: trees with the same
/// structure share it.
pub proof fn lemma_same_structure_wf(pre: Tree, post: Tree)
    requires
        pre.wf(),
        pre.same_structure(post),
    ensures
        post.wf(),
{
    assert forall|i: int, k: int|
        0 <= i < post.nodes@.len() && 0 <= k < post.children_at(i).len() implies #[trigger] post
        .child_ok(i, k) by {
        assert(pre.child_ok(i, k));
    }
    assert forall|i: int, k1: int, k2: int|
        0 <= i < post.nodes@.len() && 0 <= k1 < k2 < post.children_at(i).len() implies post
        .children_at(i)[k1] != post.children_at(i)[k2] by {
        assert(pre.children_at(i)[k1] != pre.children_at(i)[k2]);
    }
    assert forall|i: int, j: int|
        0 <= i < j < post.nodes@.len() implies post.path_at(i) != post.path_at(j) by {
        assert(pre.path_at(i) != pre.path_at(j));
    }
    assert(post.wf_root()) by {
        match post.root_id {
            Some(r) => {
                assert(pre.path_at(r as int) == pre.root_path@);
            },
            None => {
                assert forall|i: int| 0 <= i < post.nodes@.len() implies post.path_at(i)
                    != post.root_path@ by {
                    assert(pre.path_at(i) != pre.root_path@);
                }
            },
        }
    }
    assert forall|j: int, k: int|
        0 <= j < post.orphans@.len() && 0 <= k < post.orphans@[j].1@.len() implies #[trigger] post
        .orphan_ok(j, k) by {
        assert(pre.orphan_ok(j, k));
    }
    assert forall|c: FileId| #[trigger] post.occurs_child(c) implies pre.occurs_child(c) by {
        let i = choose|i: int|
            0 <= i < post.nodes@.len() && post.children_at(i).contains(c);
        assert(pre.children_at(i).contains(c));
    }
    assert forall|c: FileId| pre.occurs_child(c) implies #[trigger] post.occurs_child(c) by {
        let i = choose|i: int|
            0 <= i < pre.nodes@.len() && pre.children_at(i).contains(c);
        assert(post.children_at(i).contains(c));
    }
    assert(forall|c: FileId| #[trigger] post.occurs_orphan(c) == pre.occurs_orphan(c));
    assert forall|c: FileId|
        !(#[trigger] post.occurs_child(c) && #[trigger] post.occurs_orphan(c)) by {
        if post.occurs_child(c) {
            assert(pre.occurs_child(c));
            assert(!pre.occurs_orphan(c));
        }
    }
}


/// Being settled is a property of the structure alone: check states and
/// expansion flags play no part in it.
pub proof fn lemma_same_structure_settled(pre: Tree, post: Tree)
    requires
        pre.settled(),
        pre.same_structure(post),
    ensures
        post.settled(),
{
    assert(forall|i: int| 0 <= i < post.nodes@.len() ==> #[trigger] post.path_at(i) == pre.path_at(
        i,
    ));
    assert forall|c: FileId|
        0 <= c < post.nodes@.len() && post.root_id != Some(c) && parent_spec(
            post.path_at(c as int),
        ) is Some implies #[trigger] post.occurs_child(c) || #[trigger] post.occurs_orphan(c) by {
        assert(pre.occurs_child(c) || pre.occurs_orphan(c));
        if pre.occurs_child(c) {
            let i = choose|i: int|
                0 <= i < pre.nodes@.len() && pre.children_at(i).contains(c);
            assert(post.children_at(i).contains(c));
            assert(post.occurs_child(c));
        } else {
            let j = choose|j: int|
                0 <= j < pre.orphans@.len() && pre.orphans@[j].1@.contains(c);
            assert(false);
        }
    }
    assert forall|i: int|
        0 <= i < post.nodes@.len() implies crate::pathutil::is_descendant_path(
        post.root_path@,
        #[trigger] post.path_at(i),
    ) by {
        assert(crate::pathutil::is_descendant_path(pre.root_path@, pre.path_at(i)));
    }
}

/// In a settled tree, a set holding node `a` and closed under the children
/// of its directory members holds `a`'s whole subtree: every node whose
/// path lies under `a`'s path is reached.
proof fn lemma_subtree_reached(t: Tree, s: Set<FileId>, a: FileId, c: FileId)
    requires
        t.wf(),
        t.settled(),
        t.nodes@.len() <= usize::MAX as nat,
        a < t.nodes@.len(),
        s.contains(a),
        forall|x: FileId, k: int|
            #![trigger s.contains(x), t.children_at(x as int)[k]]
            s.contains(x) && t.nodes@[x as int].info.is_dir && 0 <= k < t.children_at(
                x as int,
            ).len() && t.children_at(x as int)[k] < t.nodes@.len() ==> s.contains(
                t.children_at(x as int)[k],
            ),
        c < t.nodes@.len(),
        crate::pathutil::is_descendant_path(t.path_at(a as int), t.path_at(c as int)),
    ensures
        s.contains(c),
    decreases t.path_at(c as int).len(),
{
    let pa = t.path_at(a as int);
    let pc = t.path_at(c as int);
    if pa == pc {
        assert(a == c) by {
            if a != c {
                if (a as int) < c as int {
                    assert(t.path_at(a as int) != t.path_at(c as int));
                } else {
                    assert(t.path_at(c as int) != t.path_at(a as int));
                }
            }
        }
    } else {
        crate::pathutil::lemma_descendant_unfold(pa, pc);
        assert(parent_spec(pc) is Some);
        crate::pathutil::lemma_parent_shorter(pc);
        assert(t.root_id != Some(c)) by {
            if t.root_id == Some(c) {
                assert(pc == t.root_path@);
                assert(crate::pathutil::is_descendant_path(t.root_path@, pa));
                crate::pathutil::lemma_descendant_len(t.root_path@, pa);
                crate::pathutil::lemma_descendant_len(pa, parent_spec(pc)->Some_0);
            }
        }
        assert(t.occurs_child(c) || t.occurs_orphan(c));
        assert(!t.occurs_orphan(c)) by {
            if t.occurs_orphan(c) {
                let j = choose|j: int|
                    0 <= j < t.orphans@.len() && t.orphans@[j].1@.contains(c);
                assert(false);
            }
        }
        let i = choose|i: int|
            0 <= i < t.nodes@.len() && t.children_at(i).contains(c);
        let k = choose|k: int| 0 <= k < t.children_at(i).len() && t.children_at(i)[k] == c;
        assert(t.child_ok(i, k));
        assert(parent_spec(pc) == Some(t.path_at(i)));
        assert(t.nodes@[i].info.is_dir) by {
            if !t.nodes@[i].info.is_dir {
                assert(t.children_at(i).len() == 0);
            }
        }
        assert(crate::pathutil::is_descendant_path(pa, t.path_at(i)));
        assert((i as FileId) as int == i);
        lemma_subtree_reached(t, s, a, i as FileId);
        assert(s.contains(t.children_at(i)[k]));
    }
}

/// Setting a whole subtree to one state leaves every directory consistent
/// except possibly the parent of the subtree's top node.
proof fn lemma_uniform_subtree_almost_ok(
    pre: Tree,
    post: Tree,
    node_id: FileId,
    st: Check,
    s: Set<FileId>,
)
    requires
        pre.wf(),
        pre.tri_ok(),
        pre.nodes@.len() <= usize::MAX as nat,
        Tree::set_state_rel(pre, post, node_id, st, s),
    ensures
        post.propagate_precondition(node_id),
{
    assert forall|i: int|
        0 <= i < post.nodes@.len() && !(node_id < post.nodes@.len() && parent_spec(
            post.path_at(node_id as int),
        ) == Some(post.path_at(i))) implies #[trigger] post.consistent_at(i) by {
        if post.nodes@[i].info.is_dir && post.children_at(i).len() > 0 {
            if s.contains(i as FileId) {
                lemma_uniform_consistent_from_rel(pre, post, i, st, s, node_id);
            } else {
                assert forall|k: int|
                    0 <= k < pre.children_at(i).len() implies pre.children_at(i)[k]
                        < pre.nodes@.len() && (#[trigger] post.nodes@[pre.children_at(
                        i,
                    )[k] as int]).state == pre.nodes@[pre.children_at(i)[k] as int].state by {
                    assert(pre.child_ok(i, k));
                    let c = pre.children_at(i)[k];
                    if s.contains(c) {
                        if c == node_id {
                            assert(parent_spec(pre.path_at(c as int)) == Some(pre.path_at(i)));
                            assert(false);
                        } else {
                            let x = choose|x: FileId|
                                s.contains(x) && pre.nodes@[x as int].info.is_dir
                                    && pre.children_at(x as int).contains(c);
                            let kk = choose|kk: int|
                                0 <= kk < pre.children_at(x as int).len() && pre.children_at(
                                    x as int,
                                )[kk] == c;
                            assert(pre.child_ok(x as int, kk));
                            assert(parent_spec(pre.path_at(c as int)) == Some(
                                pre.path_at(x as int),
                            ));
                            assert(pre.path_at(x as int) == pre.path_at(i));
                            if x as int != i {
                                if (x as int) < i {
                                    assert(pre.path_at(x as int) != pre.path_at(i));
                                } else {
                                    assert(pre.path_at(i) != pre.path_at(x as int));
                                }
                            }
                            assert(s.contains(i as FileId));
                            assert(false);
                        }
                    }
                }
                lemma_derived_states_equal(pre, post, i);
                assert(pre.consistent_at(i));
                assert(post.nodes@[i] == pre.nodes@[i]);
            }
        }
    }
}

/// Setting a whole subtree to one state keeps consistency everywhere but at
/// the nodes holding path `pp`, when the subtree's top node hangs directly
/// under `pp`: the one directory a uniform subtree can unsettle is the
/// subtree's own parent.
proof fn lemma_uniform_subtree_keeps_except(
    pre: Tree,
    post: Tree,
    node_id: FileId,
    st: Check,
    s: Set<FileId>,
    pp: Seq<u8>,
)
    requires
        pre.wf(),
        pre.nodes@.len() <= usize::MAX as nat,
        pre.tri_ok_except(pp),
        Tree::set_state_rel(pre, post, node_id, st, s),
        node_id < pre.nodes@.len() ==> parent_spec(pre.path_at(node_id as int)) == Some(pp),
    ensures
        post.tri_ok_except(pp),
{
    assert forall|i: int|
        0 <= i < post.nodes@.len() && post.path_at(i) != pp implies #[trigger] post.consistent_at(
        i,
    ) by {
        if post.nodes@[i].info.is_dir && post.children_at(i).len() > 0 {
            if s.contains(i as FileId) {
                lemma_uniform_consistent_from_rel(pre, post, i, st, s, node_id);
            } else {
                assert forall|k: int|
                    0 <= k < pre.children_at(i).len() implies pre.children_at(i)[k]
                        < pre.nodes@.len() && (#[trigger] post.nodes@[pre.children_at(
                        i,
                    )[k] as int]).state == pre.nodes@[pre.children_at(i)[k] as int].state by {
                    assert(pre.child_ok(i, k));
                    let c = pre.children_at(i)[k];
                    if s.contains(c) {
                        if c == node_id {
                            assert(parent_spec(pre.path_at(c as int)) == Some(pre.path_at(i)));
                            assert(pre.path_at(i) == pp);
                            assert(false);
                        } else {
                            let x = choose|x: FileId|
                                s.contains(x) && pre.nodes@[x as int].info.is_dir
                                    && pre.children_at(x as int).contains(c);
                            let kk = choose|kk: int|
                                0 <= kk < pre.children_at(x as int).len() && pre.children_at(
                                    x as int,
                                )[kk] == c;
                            assert(pre.child_ok(x as int, kk));
                            assert(parent_spec(pre.path_at(c as int)) == Some(
                                pre.path_at(x as int),
                            ));
                            assert(pre.path_at(x as int) == pre.path_at(i));
                            if x as int != i {
                                if (x as int) < i {
                                    assert(pre.path_at(x as int) != pre.path_at(i));
                                } else {
                                    assert(pre.path_at(i) != pre.path_at(x as int));
                                }
                            }
                            assert(s.contains(i as FileId));
                            assert(false);
                        }
                    }
                }
                lemma_derived_states_equal(pre, post, i);
                assert(pre.consistent_at(i));
                assert(post.nodes@[i] == pre.nodes@[i]);
            }
        }
    }
}

/// A directory whose subtree was just set uniformly is consistent.
proof fn lemma_uniform_consistent(pre: Tree, post: Tree, i: int, st: Check, s: Set<FileId>)
    requires
        pre.wf(),
        pre.same_structure(post),
        0 <= i < pre.nodes@.len(),
        pre.nodes@[i].info.is_dir,
        pre.children_at(i).len() > 0,
        post.nodes@[i].state == st,
        forall|k: int|
            0 <= k < pre.children_at(i).len() ==> pre.children_at(i)[k] < pre.nodes@.len() && (
            #[trigger] post.nodes@[pre.children_at(i)[k] as int]).state == st,
    ensures
        post.consistent_at(i),
{
    assert(post.children_at(i) == pre.children_at(i));
    assert(post.has_child_state(i, st)) by {
        assert(post.nodes@[post.children_at(i)[0] as int].state == st);
    }
    assert forall|st2: Check| st2 != st implies !post.has_child_state(i, st2) by {
        if post.has_child_state(i, st2) {
            let k = choose|k: int|
                0 <= k < post.children_at(i).len() && post.nodes@[#[trigger] post.children_at(
                    i,
                )[k] as int].state == st2;
            assert(post.nodes@[pre.children_at(i)[k] as int].state == st);
        }
    }
    assert(post.derived_state(i) == st);
}

/// Two same-structure trees whose children states agree at node `i` derive
/// the same state for it.
proof fn lemma_derived_states_equal(pre: Tree, post: Tree, i: int)
    requires
        pre.same_structure(post),
        forall|k: int|
            0 <= k < pre.children_at(i).len() ==> pre.children_at(i)[k] < pre.nodes@.len() && (
            #[trigger] post.nodes@[pre.children_at(i)[k] as int]).state
                == pre.nodes@[pre.children_at(i)[k] as int].state,
    ensures
        (0 <= i < pre.nodes@.len() && pre.nodes@[i].info.is_dir && pre.children_at(i).len() > 0)
            ==> post.derived_state(i) == pre.derived_state(i),
{
    if 0 <= i < pre.nodes@.len() && pre.nodes@[i].info.is_dir && pre.children_at(i).len() > 0 {
        assert(post.children_at(i) == pre.children_at(i));
        assert forall|st: Check| #[trigger]
            post.has_child_state(i, st) == pre.has_child_state(i, st) by {
            if pre.has_child_state(i, st) {
                let k = choose|k: int|
                    0 <= k < pre.children_at(i).len() && pre.nodes@[#[trigger] pre.children_at(
                        i,
                    )[k] as int].state == st;
                assert(post.nodes@[post.children_at(i)[k] as int].state == st);
            }
            if post.has_child_state(i, st) {
                let k = choose|k: int|
                    0 <= k < post.children_at(i).len() && post.nodes@[#[trigger] post.children_at(
                        i,
                    )[k] as int].state == st;
                assert(pre.nodes@[pre.children_at(i)[k] as int].state == st);
            }
        }
    }
}

/// Two same-structure trees with equal check states everywhere are equally
/// consistent.
proof fn lemma_states_equal_tri_ok(pre: Tree, post: Tree)
    requires
        pre.wf(),
        pre.tri_ok(),
        pre.same_structure(post),
        forall|i: int|
            0 <= i < pre.nodes@.len() ==> (#[trigger] post.nodes@[i]).state
                == pre.nodes@[i].state,
    ensures
        post.tri_ok(),
{
    assert forall|i: int| #[trigger] post.consistent_at(i) by {
        if 0 <= i < post.nodes@.len() && post.nodes@[i].info.is_dir && post.children_at(i).len()
            > 0 {
            assert(pre.consistent_at(i));
            assert forall|k: int|
                0 <= k < pre.children_at(i).len() implies pre.children_at(i)[k]
                    < pre.nodes@.len() && (#[trigger] post.nodes@[pre.children_at(
                i,
            )[k] as int]).state == pre.nodes@[pre.children_at(i)[k] as int].state by {
                assert(pre.child_ok(i, k));
            }
            lemma_derived_states_equal(pre, post, i);
        }
    }
}

/// A whole-tree bulk set from the root leaves the tree consistent when
/// nothing lies above the root.
proof fn lemma_bulk_tri_ok(pre: Tree, post: Tree, r: FileId, st: Check)
    requires
        pre.wf(),
        pre.root_id == Some(r),
        pre.nodes@.len() <= usize::MAX as nat,
        exists|s: Set<FileId>| Tree::set_state_rel(pre, post, r, st, s),
    ensures
        pre.bulk_precondition() ==> post.tri_ok(),
{
    if pre.bulk_precondition() {
        let s = choose|s: Set<FileId>| Tree::set_state_rel(pre, post, r, st, s);
        assert forall|i: int| #[trigger] post.consistent_at(i) by {
            if 0 <= i < post.nodes@.len() && post.nodes@[i].info.is_dir && post.children_at(
                i,
            ).len() > 0 {
                if s.contains(i as FileId) {
                    lemma_uniform_consistent_from_rel(pre, post, i, st, s, r);
                } else {
                    assert forall|k: int|
                        0 <= k < pre.children_at(i).len() implies pre.children_at(i)[k]
                            < pre.nodes@.len() && (#[trigger] post.nodes@[pre.children_at(
                        i,
                    )[k] as int]).state == pre.nodes@[pre.children_at(i)[k] as int].state by {
                        assert(pre.child_ok(i, k));
                        let c = pre.children_at(i)[k];
                        if s.contains(c) {
                            if c == r {
                                assert(parent_spec(pre.path_at(c as int)) == Some(pre.path_at(i)));
                                assert(pre.path_at(r as int) == pre.root_path@);
                                assert(pre.has_path(parent_spec(pre.root_path@)->Some_0)) by {
                                    assert(pre.path_at(i) == parent_spec(pre.root_path@)->Some_0);
                                }
                                assert(false);
                            } else {
                                let x = choose|x: FileId|
                                    s.contains(x) && pre.nodes@[x as int].info.is_dir
                                        && pre.children_at(x as int).contains(c);
                                let kk = choose|kk: int|
                                    0 <= kk < pre.children_at(x as int).len() && pre.children_at(
                                        x as int,
                                    )[kk] == c;
                                assert(pre.child_ok(x as int, kk));
                                assert(pre.path_at(x as int) == pre.path_at(i));
                                if x as int != i {
                                    if (x as int) < i {
                                        assert(pre.path_at(x as int) != pre.path_at(i));
                                    } else {
                                        assert(pre.path_at(i) != pre.path_at(x as int));
                                    }
                                }
                                assert(s.contains(i as FileId));
                                assert(false);
                            }
                        }
                    }
                    lemma_derived_states_equal(pre, post, i);
                    assert(pre.consistent_at(i));
                    assert(post.nodes@[i] == pre.nodes@[i]);
                }
            }
        }
    }
}

/// A member of the uniformly-set subtree is consistent afterwards.
proof fn lemma_uniform_consistent_from_rel(
    pre: Tree,
    post: Tree,
    i: int,
    st: Check,
    s: Set<FileId>,
    top: FileId,
)
    requires
        pre.wf(),
        pre.nodes@.len() <= usize::MAX as nat,
        Tree::set_state_rel(pre, post, top, st, s),
        s.contains(i as FileId),
        0 <= i < pre.nodes@.len(),
        pre.nodes@[i].info.is_dir,
        pre.children_at(i).len() > 0,
    ensures
        post.consistent_at(i),
{
    let x: FileId = i as FileId;
    assert(x as int == i);
    assert(s.contains(x));
    assert(post.nodes@[x as int].state == st);
    assert forall|k: int|
        0 <= k < pre.children_at(i).len() implies pre.children_at(i)[k] < pre.nodes@.len() && (
    #[trigger] post.nodes@[pre.children_at(i)[k] as int]).state == st by {
        assert(pre.child_ok(i, k));
        assert(pre.children_at(x as int)[k] == pre.children_at(i)[k]);
        assert(s.contains(pre.children_at(x as int)[k]));
    }
    lemma_uniform_consistent(pre, post, i, st, s);
}


/// Bottom-up recomputation is idempotent: running it twice in a row from the
/// same node leaves the second run with nothing to change.
pub proof fn lemma_recalc_idempotent(t0: Tree, t1: Tree, t2: Tree, node_id: FileId)
    requires
        t0.wf(),
        Tree::recalc_rel(t0, t1, node_id),
        Tree::recalc_rel(t1, t2, node_id),
    ensures
        t2.nodes@.len() == t1.nodes@.len(),
        forall|i: int|
            0 <= i < t1.nodes@.len() ==> (#[trigger] t2.nodes@[i]).state == t1.nodes@[i].state
                && t2.nodes@[i].info == t1.nodes@[i].info && t2.nodes@[i].children@
                == t1.nodes@[i].children@ && t2.nodes@[i].is_expanded == t1.nodes@[i].is_expanded,
        t2.orphans@ == t1.orphans@,
        t2.root_id == t1.root_id,
{
    let n = t0.nodes@.len() as int;
    assert forall|i: int|
        0 <= i < n implies (#[trigger] t2.nodes@[i]).state == t1.nodes@[i].state by {
        Tree::lemma_max_plen(t0.nodes@, n);
        lemma_recalc_node_pinned(t0, t1, t2, node_id, i);
    }
}

/// One node of the second run's result equals the first run's, by strong
/// induction downward on path depth.
proof fn lemma_recalc_node_pinned(t0: Tree, t1: Tree, t2: Tree, node_id: FileId, i: int)
    requires
        t0.wf(),
        Tree::recalc_rel(t0, t1, node_id),
        Tree::recalc_rel(t1, t2, node_id),
        0 <= i < t0.nodes@.len(),
        forall|j: int|
            0 <= j < t0.nodes@.len() ==> (#[trigger] t0.nodes@[j].info.path@.len())
                <= Tree::max_plen_upto(t0.nodes@, t0.nodes@.len() as int),
    ensures
        t2.nodes@[i].state == t1.nodes@[i].state,
    decreases Tree::max_plen_upto(t0.nodes@, t0.nodes@.len() as int) - t0.path_at(i).len(),
{
    assert(t1.path_at(i) == t0.path_at(i));
    assert(t1.desc_rel(node_id, i) == t0.desc_rel(node_id, i));
    if !t0.desc_rel(node_id, i) {
        assert(t2.nodes@[i] == t1.nodes@[i]);
    } else if !(t0.nodes@[i].info.is_dir && t0.children_at(i).len() > 0) {
        assert(t1.nodes@[i].info == t0.nodes@[i].info);
        assert(t1.children_at(i) == t0.children_at(i));
        assert(t1.desc_rel(node_id, i));
        assert(t2.nodes@[i] == t1.nodes@[i]);
    } else {
        assert(t1.nodes@[i].state == t1.derived_state(i));
        assert(t2.nodes@[i].state == t2.derived_state(i));
        assert forall|k: int|
            0 <= k < t1.children_at(i).len() implies t1.children_at(i)[k] < t1.nodes@.len() && (
        #[trigger] t2.nodes@[t1.children_at(i)[k] as int]).state == t1.nodes@[t1.children_at(
            i,
        )[k] as int].state by {
            assert(t0.child_ok(i, k));
            let c = t0.children_at(i)[k] as int;
            crate::pathutil::lemma_parent_shorter(t0.path_at(c));
            lemma_recalc_node_pinned(t0, t1, t2, node_id, c);
        }
        lemma_derived_states_equal(t1, t2, i);
        assert(t1.nodes@[i].info.is_dir && t1.children_at(i).len() > 0);
        assert(t2.nodes@[i].state == t1.nodes@[i].state);
    }
}

/// When every inconsistency lies inside the recomputed subtree and nothing
/// sits above its top node, bottom-up recomputation restores the tri-state
/// invariant everywhere.
pub proof fn lemma_recalc_tri_ok(pre: Tree, post: Tree, node_id: FileId)
    requires
        pre.wf(),
        Tree::recalc_rel(pre, post, node_id),
        forall|i: int|
            0 <= i < pre.nodes@.len() && !pre.desc_rel(node_id, i) ==> #[trigger] pre.consistent_at(
                i,
            ),
        node_id < pre.nodes@.len() && parent_spec(pre.path_at(node_id as int)) is Some
            ==> !pre.has_path(parent_spec(pre.path_at(node_id as int))->Some_0),
    ensures
        post.tri_ok(),
{
    assert forall|i: int| #[trigger] post.consistent_at(i) by {
        if 0 <= i < post.nodes@.len() && post.nodes@[i].info.is_dir && post.children_at(i).len()
            > 0 {
            assert(post.nodes@[i].info == pre.nodes@[i].info);
            assert(post.children_at(i) == pre.children_at(i));
            if pre.desc_rel(node_id, i) {
                assert(post.nodes@[i].state == post.derived_state(i));
            } else {
                assert(pre.consistent_at(i));
                assert forall|k: int|
                    0 <= k < pre.children_at(i).len() implies pre.children_at(i)[k]
                        < pre.nodes@.len() && (#[trigger] post.nodes@[pre.children_at(
                    i,
                )[k] as int]).state == pre.nodes@[pre.children_at(i)[k] as int].state by {
                    assert(pre.child_ok(i, k));
                    let c = pre.children_at(i)[k] as int;
                    assert(!pre.desc_rel(node_id, c)) by {
                        if pre.desc_rel(node_id, c) {
                            crate::pathutil::lemma_descendant_unfold(
                                pre.path_at(node_id as int),
                                pre.path_at(c),
                            );
                            if pre.path_at(node_id as int) == pre.path_at(c) {
                                assert(pre.has_path(
                                    parent_spec(pre.path_at(node_id as int))->Some_0,
                                )) by {
                                    assert(parent_spec(pre.path_at(c)) == Some(pre.path_at(i)));
                                }
                            } else {
                                assert(parent_spec(pre.path_at(c)) == Some(pre.path_at(i)));
                                assert(pre.desc_rel(node_id, i));
                            }
                        }
                    }
                    assert(post.nodes@[c] == pre.nodes@[c]);
                }
                lemma_derived_states_equal(pre, post, i);
                assert(post.nodes@[i].state == pre.nodes@[i].state);
            }
        }
    }
}

/// Toggling a node whose state is `Checked` or `Unchecked` twice, with no
/// intervening change, returns it to its original state: only those two
/// states are reachable by toggling, so a childless node round-trips.
pub proof fn lemma_toggle_twice_restores(t0: Tree, t1: Tree, t2: Tree, id: FileId)
    requires
        id < t0.nodes@.len(),
        t0.nodes@[id as int].children@.len() == 0,
        t0.nodes@[id as int].state != Check::Partial,
        t1.nodes@[id as int].state == Tree::toggled(t0.nodes@[id as int].state),
        t2.nodes@[id as int].state == Tree::toggled(t1.nodes@[id as int].state),
    ensures
        t2.nodes@[id as int].state == t0.nodes@[id as int].state,
{
}


/// File counts depend only on each node's kind and state.
pub proof fn lemma_count_files_same(a: Seq<FileNode>, b: Seq<FileNode>, n: int)
    requires
        forall|i: int|
            0 <= i < n ==> (#[trigger] b[i]).info.is_dir == a[i].info.is_dir && b[i].state
                == a[i].state,
    ensures
        Tree::count_files_upto(b, n) == Tree::count_files_upto(a, n),
    decreases n,
{
    if n > 0 {
        lemma_count_files_same(a, b, n - 1);
    }
}

} // verus!
