//! Saving and restoring the tree's selection state: nodes are identified by
//! their path relative to the scan root (the root itself is never a key).
//! Reading and writing the selection file is the platform layer's business;
//! this module only maps between the tree and the saved record.

use vstd::prelude::*;

use crate::model::{Check, FileId};
use crate::pathutil::{is_descendant_path, strip_len, under_root, SLASH};
use crate::tree::Tree;

verus! {

/// A saved selection: version and timestamp of the writing application, the
/// absolute scan root it was taken from, and the state of each node keyed by
/// its relative path.
pub struct SavedSelection {
    pub app_version: String,
    pub timestamp: String,
    pub root_path: Vec<u8>,
    pub selection: Vec<(Vec<u8>, Check)>,
}

impl Tree {
    /// Whether node `i` gets a key in a saved selection: any node below the
    /// scan root, the root itself excluded. A root that is empty or already
    /// ends with a slash contributes no extra joining slash, so its children
    /// keep their whole name in the key.
    pub open spec fn sel_included(self, i: int) -> bool {
        &&& 0 <= i < self.nodes@.len()
        &&& self.root_id != Some(i as FileId)
        &&& is_descendant_path(self.root_path@, self.path_at(i))
        &&& under_root(self.root_path@, self.path_at(i))
    }

    /// Node `i`'s relative path: its path with the root prefix and the
    /// joining slash (where the root calls for one) removed.
    pub open spec fn rel_of(self, i: int) -> Seq<u8> {
        self.path_at(i).subrange(strip_len(self.root_path@), self.path_at(i).len() as int)
    }

    /// The saved pairs for the first `n` nodes, in arena order.
    pub open spec fn collect_spec(self, n: int) -> Seq<(Seq<u8>, Check)>
        decreases n,
    {
        if n <= 0 {
            Seq::empty()
        } else if self.sel_included(n - 1) {
            self.collect_spec(n - 1).push((self.rel_of(n - 1), self.nodes@[n - 1].state))
        } else {
            self.collect_spec(n - 1)
        }
    }

    /// The path map pairs for the first `n` nodes, in arena order.
    pub open spec fn path_map_spec(self, n: int) -> Seq<(Seq<u8>, FileId)>
        decreases n,
    {
        if n <= 0 {
            Seq::empty()
        } else if self.sel_included(n - 1) {
            self.path_map_spec(n - 1).push((self.rel_of(n - 1), (n - 1) as FileId))
        } else {
            self.path_map_spec(n - 1)
        }
    }

    /// Collects the selection state of every node below the root, keyed by
    /// relative path.
    pub fn collect_selection(&self) -> (r: Vec<(Vec<u8>, Check)>)
        ensures
            r@.map_values(|p: (Vec<u8>, Check)| (p.0@, p.1)) == self.collect_spec(
                self.nodes@.len() as int,
            ),
    {
        let n = self.nodes.len();
        let mut r: Vec<(Vec<u8>, Check)> = Vec::new();
        let mut i: usize = 0;
        while i < n
            invariant
                i <= n,
                n == self.nodes@.len(),
                r@.map_values(|p: (Vec<u8>, Check)| (p.0@, p.1)) == self.collect_spec(i as int),
            decreases n - i,
        {
            let ghost r0 = r@;
            if self.node_sel_included(i) {
                let rel = self.rel_path_of(i);
                let st = self.nodes[i].state;
                r.push((rel, st));
                proof {
                    assert(r@.map_values(|p: (Vec<u8>, Check)| (p.0@, p.1)) =~= r0.map_values(
                        |p: (Vec<u8>, Check)| (p.0@, p.1),
                    ).push((self.rel_of(i as int), st)));
                }
            }
            i = i + 1;
        }
        r
    }

    /// Builds the relative-path-to-id map of the current tree.
    pub fn build_path_map(&self) -> (r: Vec<(Vec<u8>, FileId)>)
        ensures
            r@.map_values(|p: (Vec<u8>, FileId)| (p.0@, p.1)) == self.path_map_spec(
                self.nodes@.len() as int,
            ),
    {
        let n = self.nodes.len();
        let mut r: Vec<(Vec<u8>, FileId)> = Vec::new();
        let mut i: usize = 0;
        while i < n
            invariant
                i <= n,
                n == self.nodes@.len(),
                r@.map_values(|p: (Vec<u8>, FileId)| (p.0@, p.1)) == self.path_map_spec(i as int),
            decreases n - i,
        {
            let ghost r0 = r@;
            if self.node_sel_included(i) {
                let rel = self.rel_path_of(i);
                r.push((rel, i));
                proof {
                    assert(r@.map_values(|p: (Vec<u8>, FileId)| (p.0@, p.1)) =~= r0.map_values(
                        |p: (Vec<u8>, FileId)| (p.0@, p.1),
                    ).push((self.rel_of(i as int), i as FileId)));
                }
            }
            i = i + 1;
        }
        r
    }

    /// Whether node `i` gets a selection key, mirroring `sel_included`.
    fn node_sel_included(&self, i: usize) -> (r: bool)
        requires
            i < self.nodes@.len(),
        ensures
            r == self.sel_included(i as int),
    {
        let is_root = match self.root_id {
            Some(rr) => rr == i,
            None => false,
        };
        if is_root {
            return false;
        }
        if !crate::pathutil::is_under_root(&self.root_path, &self.nodes[i].info.path) {
            return false;
        }
        crate::pathutil::is_descendant_of(&self.root_path, &self.nodes[i].info.path)
    }

    /// Node `i`'s relative path, mirroring `rel_of`.
    fn rel_path_of(&self, i: usize) -> (r: Vec<u8>)
        requires
            i < self.nodes@.len(),
            self.path_at(i as int).len() > strip_len(self.root_path@),
        ensures
            r@ == self.rel_of(i as int),
    {
        let p = &self.nodes[i].info.path;
        let rl = self.root_path.len();
        let pl = p.len();
        proof {
            assert(rl as int <= strip_len(self.root_path@) < pl);
        }
        let start: usize = if rl == 0 || self.root_path[rl - 1] == SLASH {
            rl
        } else {
            rl + 1
        };
        let mut v: Vec<u8> = Vec::new();
        let mut k: usize = start;
        while k < p.len()
            invariant
                start <= k <= p@.len(),
                start as int == strip_len(self.root_path@),
                p == &self.nodes@[i as int].info.path,
                v@ =~= p@.subrange(start as int, k as int),
            decreases p@.len() - k,
        {
            v.push(p[k]);
            k = k + 1;
        }
        proof {
            assert(v@ =~= self.rel_of(i as int));
        }
        v
    }

    /// The full path a saved key names: the root, a joining slash where the
    /// root calls for one, and the relative path.
    pub open spec fn full_path_of(self, rel: Seq<u8>) -> Seq<u8> {
        if self.root_path@.len() == 0 || self.root_path@[self.root_path@.len() - 1] == SLASH {
            self.root_path@ + rel
        } else {
            self.root_path@ + seq![SLASH] + rel
        }
    }

    /// The state node `i` holds after the first `k` saved pairs are applied
    /// over `t0`: the last pair whose key names `i`'s path wins; nodes no
    /// pair names keep their state.
    pub open spec fn applied_state(t0: Tree, entries: Seq<(Seq<u8>, Check)>, i: int) -> Check
        decreases entries.len(),
    {
        if entries.len() == 0 {
            t0.nodes@[i].state
        } else if t0.full_path_of(entries.last().0) == t0.path_at(i) {
            entries.last().1
        } else {
            Tree::applied_state(t0, entries.drop_last(), i)
        }
    }

    /// How many of the saved pairs name a node of `t0`.
    pub open spec fn matched_count(t0: Tree, entries: Seq<(Seq<u8>, Check)>) -> int
        decreases entries.len(),
    {
        if entries.len() == 0 {
            0
        } else {
            Tree::matched_count(t0, entries.drop_last()) + if t0.has_path(
                t0.full_path_of(entries.last().0),
            ) {
                1int
            } else {
                0int
            }
        }
    }

    /// Applies a saved selection: each pair overwrites the state of the node
    /// its relative path names, if the current tree has it; unmatched pairs
    /// are counted and reported. Ancestor states are left as they are — the
    /// caller must recompute them bottom-up from the root afterwards.
    pub fn apply_selection(&mut self, entries: &Vec<(Vec<u8>, Check)>) -> (counts: (usize, usize))
        requires
            old(self).wf(),
            entries@.len() <= usize::MAX,
        ensures
            final(self).wf(),
            old(self).same_structure(*final(self)),
            forall|i: int|
                0 <= i < old(self).nodes@.len() ==> (#[trigger] final(self).nodes@[i]).state
                    == Tree::applied_state(
                    *old(self),
                    entries@.map_values(|e: (Vec<u8>, Check)| (e.0@, e.1)),
                    i,
                ),
            forall|i: int|
                0 <= i < old(self).nodes@.len() ==> (#[trigger] final(self).nodes@[i]).is_expanded
                    == old(self).nodes@[i].is_expanded,
            counts.0 as int == Tree::matched_count(
                *old(self),
                entries@.map_values(|e: (Vec<u8>, Check)| (e.0@, e.1)),
            ),
            counts.0 + counts.1 == entries@.len(),
    {
        let ghost pre = *self;
        let ghost es = entries@.map_values(|e: (Vec<u8>, Check)| (e.0@, e.1));
        let mut applied: usize = 0;
        let mut k: usize = 0;
        proof {
            Tree::lemma_matched_count_bounds(pre, es.subrange(0, 0));
        }
        while k < entries.len()
            invariant
                k <= entries@.len(),
                entries@.len() <= usize::MAX,
                es == entries@.map_values(|e: (Vec<u8>, Check)| (e.0@, e.1)),
                pre.wf(),
                self.wf(),
                pre.same_structure(*self),
                self.nodes@.len() == pre.nodes@.len(),
                forall|i: int|
                    0 <= i < pre.nodes@.len() ==> (#[trigger] self.nodes@[i]).state
                        == Tree::applied_state(pre, es.subrange(0, k as int), i),
                forall|i: int|
                    0 <= i < pre.nodes@.len() ==> (#[trigger] self.nodes@[i]).is_expanded
                        == pre.nodes@[i].is_expanded,
                applied as int == Tree::matched_count(pre, es.subrange(0, k as int)),
                applied <= k,
            decreases entries@.len() - k,
        {
            let ghost es_k = es.subrange(0, k as int);
            let ghost es_k1 = es.subrange(0, k as int + 1);
            proof {
                assert(es_k1.drop_last() =~= es_k);
                assert(es_k1.last() == es[k as int]);
                Tree::lemma_matched_count_bounds(pre, es_k);
            }
            let full = self.full_path_exec(&entries[k].0);
            let st = entries[k].1;
            let found = self.path_to_id(full.as_slice());
            match found {
                Some(id) => {
                    let ghost before = *self;
                    let slot = &mut self.nodes[id];
                    slot.state = st;
                    applied = applied + 1;
                    proof {
                        crate::engine::lemma_state_update_wf(before, *self, id);
                        assert(pre.has_path(pre.full_path_of(es[k as int].0))) by {
                            assert(pre.path_at(id as int) == pre.full_path_of(es[k as int].0));
                        }
                        assert forall|i: int|
                            0 <= i < pre.nodes@.len() implies (#[trigger] self.nodes@[i]).state
                            == Tree::applied_state(pre, es_k1, i) by {
                            if i == id as int {
                                assert(pre.full_path_of(es_k1.last().0) == pre.path_at(i));
                            } else {
                                assert(pre.full_path_of(es_k1.last().0) != pre.path_at(i)) by {
                                    if pre.full_path_of(es_k1.last().0) == pre.path_at(i) {
                                        if i < id as int {
                                            assert(pre.path_at(i) != pre.path_at(id as int));
                                        } else {
                                            assert(pre.path_at(id as int) != pre.path_at(i));
                                        }
                                    }
                                }
                                assert(self.nodes@[i].state == before.nodes@[i].state);
                            }
                        }
                    }
                },
                None => {
                    proof {
                        assert(!pre.has_path(pre.full_path_of(es[k as int].0))) by {
                            if pre.has_path(pre.full_path_of(es[k as int].0)) {
                                let i = pre.spec_id_of(pre.full_path_of(es[k as int].0));
                                assert(self.path_at(i) == pre.path_at(i));
                                assert(self.has_path(full@));
                            }
                        }
                        assert forall|i: int|
                            0 <= i < pre.nodes@.len() implies (#[trigger] self.nodes@[i]).state
                            == Tree::applied_state(pre, es_k1, i) by {
                            assert(pre.full_path_of(es_k1.last().0) != pre.path_at(i));
                        }
                    }
                },
            }
            k = k + 1;
        }
        proof {
            assert(es.subrange(0, entries@.len() as int) =~= es);
        }
        (applied, entries.len() - applied)
    }

    /// The matched count never exceeds the number of pairs.
    pub proof fn lemma_matched_count_bounds(t0: Tree, entries: Seq<(Seq<u8>, Check)>)
        ensures
            0 <= Tree::matched_count(t0, entries) <= entries.len(),
        decreases entries.len(),
    {
        if entries.len() > 0 {
            Tree::lemma_matched_count_bounds(t0, entries.drop_last());
        }
    }

    /// The full path a saved key names, mirroring `full_path_of`.
    fn full_path_exec(&self, rel: &Vec<u8>) -> (r: Vec<u8>)
        ensures
            r@ == self.full_path_of(rel@),
    {
        let mut v = crate::pathutil::clone_bytes(&self.root_path);
        let rl = self.root_path.len();
        let needs_slash = !(rl == 0 || self.root_path[rl - 1] == SLASH);
        if needs_slash {
            v.push(SLASH);
        }
        let ghost head = v@;
        let mut k: usize = 0;
        while k < rel.len()
            invariant
                k <= rel@.len(),
                v@ =~= head + rel@.subrange(0, k as int),
            decreases rel@.len() - k,
        {
            v.push(rel[k]);
            k = k + 1;
        }
        proof {
            assert(v@ =~= self.full_path_of(rel@));
        }
        v
    }
}

} // verus!
