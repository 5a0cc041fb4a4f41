//! The tree assembler: an append-only node arena plus an orphan buffer that
//! together turn an unordered stream of entry discoveries into a consistent
//! tree, whatever the arrival order.

use vstd::prelude::*;

use crate::model::{FileId, FileNode};
use crate::pathutil::{eq_bytes, parent_of, parent_spec};

verus! {

/// Whether an orphan-buffer sequence holds an entry keyed by `p`.
pub open spec fn okey_has(s: Seq<(Vec<u8>, Vec<FileId>)>, p: Seq<u8>) -> bool {
    exists|j: int| 0 <= j < s.len() && s[j].0@ == p
}

/// The position of the entry keyed by `p` (meaningful only under `okey_has`).
pub open spec fn okey_at(s: Seq<(Vec<u8>, Vec<FileId>)>, p: Seq<u8>) -> int {
    choose|j: int| 0 <= j < s.len() && s[j].0@ == p
}

/// Whether `c` sits in some entry of an orphan-buffer sequence.
pub open spec fn occurs_in(s: Seq<(Vec<u8>, Vec<FileId>)>, c: FileId) -> bool {
    exists|j: int| 0 <= j < s.len() && s[j].1@.contains(c)
}

/// The assembled tree. Node identity is the index into `nodes`, which is
/// append-only: ids are never reused. The arena itself serves as the path
/// index (paths are unique), and `orphans` buffers children whose parent has
/// not arrived yet, keyed by the missing parent path.
pub struct Tree {
    pub nodes: Vec<FileNode>,
    pub root_path: Vec<u8>,
    pub root_id: Option<FileId>,
    pub orphans: Vec<(Vec<u8>, Vec<FileId>)>,
}

impl Tree {
    /// The path of node `i`.
    pub open spec fn path_at(self, i: int) -> Seq<u8> {
        self.nodes@[i].info.path@
    }

    /// The children ids of node `i`.
    pub open spec fn children_at(self, i: int) -> Seq<FileId> {
        self.nodes@[i].children@
    }

    /// Whether some node holds path `p`.
    pub open spec fn has_path(self, p: Seq<u8>) -> bool {
        exists|i: int| 0 <= i < self.nodes@.len() && self.path_at(i) == p
    }

    /// The id of the node holding path `p` (meaningful only when `has_path`).
    pub open spec fn spec_id_of(self, p: Seq<u8>) -> int {
        choose|i: int| 0 <= i < self.nodes@.len() && self.path_at(i) == p
    }

    /// Whether `c` stands in some node's child list.
    pub open spec fn occurs_child(self, c: FileId) -> bool {
        exists|i: int| 0 <= i < self.nodes@.len() && self.children_at(i).contains(c)
    }

    /// Whether `c` waits in the orphan buffer.
    pub open spec fn occurs_orphan(self, c: FileId) -> bool {
        exists|j: int| 0 <= j < self.orphans@.len() && self.orphans@[j].1@.contains(c)
    }

    /// Child entry `k` of node `i` is a valid id whose path lies directly
    /// under node `i`'s path.
    pub open spec fn child_ok(self, i: int, k: int) -> bool {
        let c = self.children_at(i)[k] as int;
        &&& 0 <= c < self.nodes@.len()
        &&& parent_spec(self.path_at(c)) == Some(self.path_at(i))
    }

    /// Every child entry is valid and path-coherent, and no child list
    /// repeats an id.
    pub open spec fn wf_children(self) -> bool {
        &&& forall|i: int, k: int|
            0 <= i < self.nodes@.len() && 0 <= k < self.children_at(i).len() ==> #[trigger] self
                .child_ok(i, k)
        &&& forall|i: int, k1: int, k2: int|
            0 <= i < self.nodes@.len() && 0 <= k1 < k2 < self.children_at(i).len()
                ==> #[trigger] self.children_at(i)[k1] != #[trigger] self.children_at(i)[k2]
    }

    /// No two nodes hold the same path.
    pub open spec fn wf_paths_unique(self) -> bool {
        forall|i: int, j: int|
            0 <= i < j < self.nodes@.len() ==> #[trigger] self.path_at(i) != #[trigger] self.path_at(
                j,
            )
    }

    /// The root id, when set, names the node holding the scan root path; when
    /// unset, no node holds it yet.
    pub open spec fn wf_root(self) -> bool {
        match self.root_id {
            Some(r) => r < self.nodes@.len() && self.path_at(r as int) == self.root_path@,
            None => forall|i: int|
                0 <= i < self.nodes@.len() ==> #[trigger] self.path_at(i) != self.root_path@,
        }
    }

    /// Orphan entry `j`, member `k` is a valid id whose parent path is the
    /// entry's key.
    pub open spec fn orphan_ok(self, j: int, k: int) -> bool {
        let c = self.orphans@[j].1@[k] as int;
        &&& 0 <= c < self.nodes@.len()
        &&& parent_spec(self.path_at(c)) == Some(self.orphans@[j].0@)
    }

    /// Orphan entries have distinct keys, and each entry lists valid,
    /// distinct ids keyed by their common missing parent path.
    pub open spec fn wf_orphans(self) -> bool {
        &&& forall|j: int, k: int|
            0 <= j < self.orphans@.len() && 0 <= k < self.orphans@[j].1@.len()
                ==> #[trigger] self.orphan_ok(j, k)
        &&& forall|j1: int, j2: int|
            0 <= j1 < j2 < self.orphans@.len() ==> #[trigger] self.orphans@[j1].0@
                != #[trigger] self.orphans@[j2].0@
        &&& forall|j: int, k1: int, k2: int|
            0 <= j < self.orphans@.len() && 0 <= k1 < k2 < self.orphans@[j].1@.len()
                ==> #[trigger] self.orphans@[j].1@[k1] != #[trigger] self.orphans@[j].1@[k2]
    }

    /// No id is both attached to a parent and buffered as an orphan, and
    /// every occurring id is a valid index.
    pub open spec fn wf_attached(self) -> bool {
        &&& forall|c: FileId|
            !(#[trigger] self.occurs_child(c) && #[trigger] self.occurs_orphan(c))
        &&& forall|c: FileId| #[trigger] self.occurs_child(c) ==> c < self.nodes@.len()
        &&& forall|c: FileId| #[trigger] self.occurs_orphan(c) ==> c < self.nodes@.len()
    }

    /// During assembly, every node is attached to a parent or buffered as an
    /// orphan; only the root, and nodes whose path has no parent, may stand
    /// free. Discarding leftover orphans at scan completion gives this up.
    pub open spec fn fully_attached(self) -> bool {
        forall|c: FileId|
            0 <= c < self.nodes@.len() && self.root_id != Some(c) && parent_spec(
                self.path_at(c as int),
            ) is Some ==> #[trigger] self.occurs_child(c) || #[trigger] self.occurs_orphan(c)
    }

    /// The tree's well-formedness invariant.
    pub open spec fn wf(self) -> bool {
        &&& self.wf_children()
        &&& self.wf_paths_unique()
        &&& self.wf_root()
        &&& self.wf_orphans()
        &&& self.wf_attached()
    }

    /// The longest path length among the first `n` nodes.
    pub open spec fn max_plen_upto(s: Seq<FileNode>, n: int) -> int
        decreases n,
    {
        if n <= 0 {
            0
        } else if s[n - 1].info.path@.len() > Self::max_plen_upto(s, n - 1) {
            s[n - 1].info.path@.len() as int
        } else {
            Self::max_plen_upto(s, n - 1)
        }
    }

    /// Every node's path length is bounded by the maximum.
    pub proof fn lemma_max_plen(s: Seq<FileNode>, n: int)
        ensures
            forall|i: int|
                0 <= i < n ==> (#[trigger] s[i].info.path@.len()) <= Self::max_plen_upto(s, n),
            0 <= Self::max_plen_upto(s, n),
        decreases n,
    {
        if n > 0 {
            Self::lemma_max_plen(s, n - 1);
        }
    }

    /// A fresh, empty tree for a scan rooted at `root_path`.
    pub fn new(root_path: Vec<u8>) -> (r: Self)
        ensures
            r.wf(),
            r.fully_attached(),
            r.nodes@.len() == 0,
            r.orphans@.len() == 0,
            r.root_id is None,
            r.root_path == root_path,
    {
        Tree { nodes: Vec::new(), root_path, root_id: None, orphans: Vec::new() }
    }

    /// Looks the path `p` up in the arena, returning the id of the node that
    /// holds it.
    pub fn path_to_id(&self, p: &[u8]) -> (r: Option<FileId>)
        ensures
            match r {
                Some(id) => id < self.nodes@.len() && self.path_at(id as int) == p@,
                None => !self.has_path(p@),
            },
    {
        let mut i: usize = 0;
        while i < self.nodes.len()
            invariant
                i <= self.nodes@.len(),
                forall|j: int| 0 <= j < i ==> #[trigger] self.path_at(j) != p@,
            decreases self.nodes@.len() - i,
        {
            if eq_bytes(self.nodes[i].info.path.as_slice(), p) {
                return Some(i);
            }
            i = i + 1;
        }
        None
    }

    /// Whether the orphan buffer holds an entry keyed by `p`.
    pub open spec fn has_orphan_key(self, p: Seq<u8>) -> bool {
        okey_has(self.orphans@, p)
    }

    /// The position of the orphan-buffer entry keyed by `p` (meaningful only
    /// when `has_orphan_key`).
    pub open spec fn orphan_key_at(self, p: Seq<u8>) -> int {
        okey_at(self.orphans@, p)
    }

    /// The ids buffered under the missing parent path `p`.
    pub open spec fn orphan_ids_for(self, p: Seq<u8>) -> Seq<FileId> {
        if self.has_orphan_key(p) {
            self.orphans@[self.orphan_key_at(p)].1@
        } else {
            Seq::empty()
        }
    }

    /// Whether the node described by `node.info.path` would be attached on
    /// arrival: its parent path exists and is already indexed.
    pub open spec fn parent_present(self, p: Seq<u8>) -> bool {
        parent_spec(p) is Some && self.has_path(parent_spec(p)->Some_0)
    }

    /// The orphan buffer after the entry keyed by the arriving path `p` (if
    /// any) has been removed.
    pub open spec fn orphans_less(self, p: Seq<u8>) -> Seq<(Vec<u8>, Vec<FileId>)> {
        if okey_has(self.orphans@, p) {
            self.orphans@.remove(okey_at(self.orphans@, p))
        } else {
            self.orphans@
        }
    }

    /// How one discovery changes the assembler: `post` is `pre` after a node
    /// with record `node` arrives. A fresh id is appended; the root is set
    /// when the path matches the scan root; any orphans buffered under the
    /// arriving path become its children (the path is indexed from this
    /// moment, so its waiting children are adopted whatever else holds); the
    /// node is attached to its parent when that parent is indexed, and
    /// buffered under its parent path otherwise.
    pub open spec fn add_effect(pre: Tree, post: Tree, node: FileNode) -> bool {
        let n = pre.nodes@.len() as int;
        let p = node.info.path@;
        let became_root = pre.root_id is None && p == pre.root_path@;
        let pf = pre.parent_present(p);
        let pid = pre.spec_id_of(parent_spec(p)->Some_0);
        let spliced = pre.orphan_ids_for(p);
        let buffered = !pf && !became_root && parent_spec(p) is Some;
        let bpp = parent_spec(p)->Some_0;
        let without = pre.orphans_less(p);
        let bj = okey_at(without, bpp);
        &&& 0 <= n < usize::MAX as int
        &&& post.root_path == pre.root_path
        &&& post.nodes@.len() == n + 1
        &&& post.nodes@[n].info == node.info
        &&& post.nodes@[n].state == node.state
        &&& post.nodes@[n].is_expanded == (node.is_expanded || became_root)
        &&& post.nodes@[n].children@ == spliced
        &&& post.root_id == (if became_root {
            Some(n as FileId)
        } else {
            pre.root_id
        })
        &&& forall|i: int|
            0 <= i < n ==> (#[trigger] post.nodes@[i]).info == pre.nodes@[i].info
                && post.nodes@[i].state == pre.nodes@[i].state && post.nodes@[i].is_expanded
                == pre.nodes@[i].is_expanded
        &&& forall|i: int|
            0 <= i < n && !(pf && i == pid) ==> (#[trigger] post.nodes@[i]).children@
                == pre.nodes@[i].children@
        &&& pf ==> post.nodes@[pid].children@ == pre.nodes@[pid].children@.push(n as FileId)
        &&& if buffered {
            if okey_has(without, bpp) {
                &&& post.orphans@.len() == without.len()
                &&& forall|j: int|
                    0 <= j < without.len() && j != bj ==> #[trigger] post.orphans@[j] == without[j]
                &&& post.orphans@[bj].0 == without[bj].0
                &&& post.orphans@[bj].1@ == without[bj].1@.push(n as FileId)
            } else {
                &&& post.orphans@.len() == without.len() + 1
                &&& forall|j: int|
                    0 <= j < without.len() ==> #[trigger] post.orphans@[j] == without[j]
                &&& post.orphans@[without.len() as int].0@ == bpp
                &&& post.orphans@[without.len() as int].1@ == seq![n as FileId]
            }
        } else {
            post.orphans@ == without
        }
    }

    /// Finds the orphan-buffer entry keyed by `p`.
    fn find_orphan_entry(&self, p: &[u8]) -> (r: Option<usize>)
        ensures
            match r {
                Some(j) => j < self.orphans@.len() && self.orphans@[j as int].0@ == p@,
                None => forall|j: int|
                    0 <= j < self.orphans@.len() ==> #[trigger] self.orphans@[j].0@ != p@,
            },
    {
        let mut j: usize = 0;
        while j < self.orphans.len()
            invariant
                j <= self.orphans@.len(),
                forall|k: int| 0 <= k < j ==> #[trigger] self.orphans@[k].0@ != p@,
            decreases self.orphans@.len() - j,
        {
            if eq_bytes(self.orphans[j].0.as_slice(), p) {
                return Some(j);
            }
            j = j + 1;
        }
        None
    }

    /// Processes one discovery, mirroring the assembler step: append the node
    /// to the arena; mark it as root if it carries the scan root path; adopt
    /// any orphans buffered under its path as its children (its path is
    /// indexed from this moment, so its waiting children are spliced in
    /// whether or not its own parent has arrived); attach it to its parent
    /// when the parent is already indexed, and buffer it under its missing
    /// parent path otherwise. An entry whose path is already present is
    /// discarded, and the call reports whether the node was added: the walker
    /// never repeats a path within one scan, so the arena stays append-only
    /// in practice, and a repeat would break path uniqueness.
    #[verifier::rlimit(100)]
    #[verifier::spinoff_prover]
    pub fn add_single_node(&mut self, node: FileNode) -> (added: bool)
        requires
            old(self).wf(),
            old(self).fully_attached(),
            node.children@.len() == 0,
        ensures
            final(self).wf(),
            final(self).fully_attached(),
            added == !old(self).has_path(node.info.path@),
            !added ==> final(self).nodes@ == old(self).nodes@ && final(self).orphans@ == old(self).orphans@ && final(self).root_id == old(self).root_id && final(self).root_path == old(self).root_path,
            added ==> Tree::add_effect(*old(self), *final(self), node),
    {
        let p = crate::pathutil::clone_bytes(&node.info.path);
        if self.path_to_id(p.as_slice()).is_some() {
            return false;
        }
        let ghost pre = *self;
        let id = self.nodes.len();
        let is_root_path = eq_bytes(p.as_slice(), self.root_path.as_slice());
        let became_root = self.root_id.is_none() && is_root_path;
        self.nodes.push(node);
        let len_after = self.nodes.len();
        proof {
            assert(id < usize::MAX) by {
                assert(len_after as int == id as int + 1);
            }
            assert(node.children@ =~= Seq::<FileId>::empty());
        }
        if became_root {
            self.root_id = Some(id);
            let slot = &mut self.nodes[id];
            slot.is_expanded = true;
        }
        proof {
            assert(forall|i: int|
                0 <= i < pre.nodes@.len() ==> #[trigger] self.nodes@[i] == pre.nodes@[i]);
        }
        // adopt any orphans buffered under the arriving path
        if let Some(j) = self.find_orphan_entry(p.as_slice()) {
            proof {
                assert(pre.has_orphan_key(p@));
                assert(j as int == pre.orphan_key_at(p@)) by {
                    let c = pre.orphan_key_at(p@);
                    if c != j as int {
                        if c < j as int {
                            assert(pre.orphans@[c].0@ != pre.orphans@[j as int].0@);
                        } else {
                            assert(pre.orphans@[j as int].0@ != pre.orphans@[c].0@);
                        }
                    }
                }
            }
            let entry = self.orphans.remove(j);
            let ids = entry.1;
            let ghost mid = *self;
            let mut k: usize = 0;
            while k < ids.len()
                invariant
                    k <= ids.len(),
                    id < self.nodes@.len(),
                    self.nodes@.len() == mid.nodes@.len(),
                    self.nodes@[id as int].info == mid.nodes@[id as int].info,
                    self.nodes@[id as int].state == mid.nodes@[id as int].state,
                    self.nodes@[id as int].is_expanded == mid.nodes@[id as int].is_expanded,
                    self.nodes@[id as int].children@ =~= mid.nodes@[id as int].children@
                        + ids@.subrange(0, k as int),
                    forall|i: int|
                        0 <= i < self.nodes@.len() && i != id ==> #[trigger] self.nodes@[i]
                            == mid.nodes@[i],
                    self.orphans@ == mid.orphans@,
                    self.root_id == mid.root_id,
                    self.root_path == mid.root_path,
                decreases ids.len() - k,
            {
                let c = ids[k];
                let slot = &mut self.nodes[id];
                slot.children.push(c);
                k = k + 1;
                proof {
                    assert(ids@.subrange(0, k as int) =~= ids@.subrange(
                        0,
                        k - 1,
                    ).push(ids@[k - 1]));
                }
            }
            proof {
                assert(ids@.subrange(0, ids@.len() as int) =~= ids@);
                assert(self.nodes@[id as int].children@ =~= ids@);
            }
        } else {
            proof {
                assert(self.orphans@ == pre.orphans@);
                assert(!pre.has_orphan_key(p@)) by {
                    if pre.has_orphan_key(p@) {
                        let j = okey_at(pre.orphans@, p@);
                        assert(0 <= j < pre.orphans@.len() && pre.orphans@[j].0@ == p@);
                        assert(self.orphans@[j].0@ != p@);
                    }
                }
            }
        }
        proof {
            assert(self.orphans@ == pre.orphans_less(p@));
            assert(self.nodes@[id as int].children@ == pre.orphan_ids_for(p@));
            // the remaining entries keep their distinct keys
            assert forall|j1: int, j2: int|
                0 <= j1 < j2 < self.orphans@.len() implies (#[trigger] self.orphans@[j1]).0@ != (
            #[trigger] self.orphans@[j2]).0@ by {
                if pre.has_orphan_key(p@) {
                    let oj = okey_at(pre.orphans@, p@);
                    let a = if j1 < oj {
                        j1
                    } else {
                        j1 + 1
                    };
                    let b = if j2 < oj {
                        j2
                    } else {
                        j2 + 1
                    };
                    assert(self.orphans@[j1] == pre.orphans@[a]);
                    assert(self.orphans@[j2] == pre.orphans@[b]);
                    assert(pre.orphans@[a].0@ != pre.orphans@[b].0@);
                } else {
                    assert(pre.orphans@[j1].0@ != pre.orphans@[j2].0@);
                }
            }
        }
        let ghost without = self.orphans@;
        let pp_opt = parent_of(&p);
        let mut parent_found = false;
        if let Some(pp) = &pp_opt {
            proof {
                crate::pathutil::lemma_parent_shorter(p@);
            }
            if let Some(parent_id) = self.path_to_id(pp.as_slice()) {
                proof {
                    assert(parent_id != id);
                    assert(pre.path_at(parent_id as int) == pp@);
                    assert(pre.has_path(pp@));
                    assert(parent_id as int == pre.spec_id_of(pp@)) by {
                        let c = pre.spec_id_of(pp@);
                        if c != parent_id as int {
                            if c < parent_id as int {
                                assert(pre.path_at(c) != pre.path_at(parent_id as int));
                            } else {
                                assert(pre.path_at(parent_id as int) != pre.path_at(c));
                            }
                        }
                    }
                }
                let slot = &mut self.nodes[parent_id];
                slot.children.push(id);
                parent_found = true;
            } else {
                proof {
                    assert(!pre.has_path(pp@)) by {
                        if pre.has_path(pp@) {
                            let c = pre.spec_id_of(pp@);
                            assert(self.path_at(c) == pp@);
                            assert(self.has_path(pp@));
                        }
                    }
                }
            }
        }
        if !parent_found && !became_root {
            if let Some(pp) = pp_opt {
                if let Some(j) = self.find_orphan_entry(pp.as_slice()) {
                    proof {
                        assert(okey_has(without, pp@));
                        assert(j as int == okey_at(without, pp@)) by {
                            let c = okey_at(without, pp@);
                            if c != j as int {
                                if c < j as int {
                                    assert(self.orphans@[c].0@ != self.orphans@[j as int].0@);
                                } else {
                                    assert(self.orphans@[j as int].0@ != self.orphans@[c].0@);
                                }
                            }
                        }
                    }
                    let ghost before = self.orphans@;
                    let mut entry = self.orphans.remove(j);
                    entry.1.push(id);
                    self.orphans.insert(j, entry);
                    proof {
                        assert(forall|k: int|
                            0 <= k < before.len() && k != j ==> #[trigger] self.orphans@[k]
                                == before[k]);
                    }
                } else {
                    proof {
                        assert(!okey_has(without, pp@));
                    }
                    let mut single: Vec<FileId> = Vec::new();
                    single.push(id);
                    self.orphans.push((pp, single));
                    proof {
                        assert(single@ =~= seq![id]);
                    }
                }
            }
        }
        proof {
            assert(Tree::add_effect(pre, *self, node));
            lemma_add_preserves_wf(pre, *self, node);
        }
        true
    }
}

/// Ids sit in at most one orphan-buffer entry: entries are keyed by the
/// common parent path of their members, and keys are distinct.
proof fn lemma_orphan_entries_disjoint(t: Tree, j1: int, j2: int, k1: int, k2: int)
    requires
        t.wf_orphans(),
        0 <= j1 < t.orphans@.len(),
        0 <= j2 < t.orphans@.len(),
        0 <= k1 < t.orphans@[j1].1@.len(),
        0 <= k2 < t.orphans@[j2].1@.len(),
        t.orphans@[j1].1@[k1] == t.orphans@[j2].1@[k2],
    ensures
        j1 == j2,
{
    assert(t.orphan_ok(j1, k1));
    assert(t.orphan_ok(j2, k2));
    if j1 != j2 {
        if j1 < j2 {
            assert(t.orphans@[j1].0@ != t.orphans@[j2].0@);
        } else {
            assert(t.orphans@[j2].0@ != t.orphans@[j1].0@);
        }
    }
}

/// One discovery step keeps the assembler well-formed.
proof fn lemma_add_preserves_wf(pre: Tree, post: Tree, node: FileNode)
    requires
        pre.wf(),
        !pre.has_path(node.info.path@),
        Tree::add_effect(pre, post, node),
        pre.fully_attached(),
    ensures
        post.wf(),
        post.fully_attached(),
{
    let n = pre.nodes@.len() as int;
    let p = node.info.path@;
    let became_root = pre.root_id is None && p == pre.root_path@;
    let pf = pre.parent_present(p);
    let bpp = parent_spec(p)->Some_0;
    let pid = pre.spec_id_of(bpp);
    let spliced = pre.orphan_ids_for(p);
    let buffered = !pf && !became_root && parent_spec(p) is Some;
    let splicing = pre.has_orphan_key(p);
    let oj = okey_at(pre.orphans@, p);
    let without = pre.orphans_less(p);
    let bj = okey_at(without, bpp);
    assert(0 <= n < usize::MAX as int);

    assert(forall|i: int| 0 <= i < n ==> #[trigger] post.path_at(i) == pre.path_at(i));
    assert(post.path_at(n) == p);
    if pf {
        assert(0 <= pid < n && pre.path_at(pid) == bpp);
    }
    if splicing {
        assert(0 <= oj < pre.orphans@.len() && pre.orphans@[oj].0@ == p);
        assert(forall|k: int| 0 <= k < spliced.len() ==> #[trigger] pre.orphan_ok(oj, k));
    }
    if buffered && okey_has(without, bpp) {
        assert(0 <= bj < without.len() && without[bj].0@ == bpp);
    }

    // facts about the buffer once the entry keyed by the arriving path left
    assert forall|j: int, k: int|
        0 <= j < without.len() && 0 <= k < without[j].1@.len() implies 0 <= #[trigger] without[j].1@[k]
        < n && parent_spec(pre.path_at(without[j].1@[k] as int)) == Some(without[j].0@) by {
        let jj = if splicing && j >= oj {
            j + 1
        } else {
            j
        };
        assert(without[j] == pre.orphans@[jj]);
        assert(pre.orphan_ok(jj, k));
    }
    assert forall|j1: int, j2: int|
        0 <= j1 < j2 < without.len() implies (#[trigger] without[j1]).0@ != (
    #[trigger] without[j2]).0@ by {
        let a = if splicing && j1 >= oj {
            j1 + 1
        } else {
            j1
        };
        let b = if splicing && j2 >= oj {
            j2 + 1
        } else {
            j2
        };
        assert(without[j1] == pre.orphans@[a]);
        assert(without[j2] == pre.orphans@[b]);
        assert(pre.orphans@[a].0@ != pre.orphans@[b].0@);
    }
    assert forall|j: int, k1: int, k2: int|
        0 <= j < without.len() && 0 <= k1 < k2 < without[j].1@.len() implies without[j].1@[k1]
        != without[j].1@[k2] by {
        let jj = if splicing && j >= oj {
            j + 1
        } else {
            j
        };
        assert(without[j] == pre.orphans@[jj]);
        assert(pre.orphans@[jj].1@[k1] != pre.orphans@[jj].1@[k2]);
    }

    // wf_children
    assert forall|i: int, k: int|
        0 <= i < post.nodes@.len() && 0 <= k < post.children_at(i).len() implies #[trigger] post
        .child_ok(i, k) by {
        if i == n {
            assert(splicing);
            assert(pre.orphan_ok(oj, k));
            let c = spliced[k] as int;
            assert(parent_spec(pre.path_at(c)) == Some(p));
        } else if pf && i == pid && k == pre.children_at(i).len() {
            assert(post.children_at(i)[k] == n as FileId);
            assert(parent_spec(post.path_at(n)) == Some(pre.path_at(pid)));
        } else {
            assert(pre.child_ok(i, k));
        }
    }
    assert forall|i: int, k1: int, k2: int|
        0 <= i < post.nodes@.len() && 0 <= k1 < k2 < post.children_at(i).len() implies post
        .children_at(i)[k1] != post.children_at(i)[k2] by {
        if i == n {
            assert(splicing);
            assert(pre.orphans@[oj].1@[k1] != pre.orphans@[oj].1@[k2]);
        } else if pf && i == pid && k2 == pre.children_at(i).len() {
            assert(pre.child_ok(i, k1));
            assert(pre.children_at(i)[k1] < n);
        } else {
            assert(pre.children_at(i)[k1] != pre.children_at(i)[k2]);
        }
    }

    // wf_paths_unique
    assert forall|i: int, j: int|
        0 <= i < j < post.nodes@.len() implies post.path_at(i) != post.path_at(j) by {
        if j == n {
            if post.path_at(i) == p {
                assert(pre.has_path(p));
            }
        } else {
            assert(pre.path_at(i) != pre.path_at(j));
        }
    }

    // wf_root
    if became_root {
        assert(post.wf_root());
    } else {
        match pre.root_id {
            Some(r) => {
                assert(post.wf_root());
            },
            None => {
                assert forall|i: int| 0 <= i < post.nodes@.len() implies post.path_at(i)
                    != post.root_path@ by {
                    if i < n {
                        assert(pre.path_at(i) != pre.root_path@);
                    }
                }
            },
        }
    }

    // wf_orphans
    assert forall|j: int, k: int|
        0 <= j < post.orphans@.len() && 0 <= k < post.orphans@[j].1@.len() implies #[trigger] post
        .orphan_ok(j, k) by {
        if buffered && okey_has(without, bpp) {
            if j == bj && k == without[bj].1@.len() {
                assert(post.orphans@[j].1@[k] == n as FileId);
                assert(post.orphans@[j].0@ == bpp);
                assert(parent_spec(post.path_at(n)) == Some(bpp));
            } else if j == bj {
                assert(post.orphans@[j].1@[k] == without[j].1@[k]);
                assert(post.orphans@[j].0@ == without[j].0@);
            } else {
                assert(post.orphans@[j] == without[j]);
            }
        } else if buffered {
            if j == without.len() {
                assert(post.orphans@[j].1@[k] == n as FileId);
                assert(parent_spec(post.path_at(n)) == Some(bpp));
            } else {
                assert(post.orphans@[j] == without[j]);
            }
        } else {
            assert(post.orphans@[j] == without[j]);
        }
    }
    assert forall|j1: int, j2: int|
        0 <= j1 < j2 < post.orphans@.len() implies post.orphans@[j1].0@ != post.orphans@[j2].0@ by {
        if buffered && !okey_has(without, bpp) && j2 == without.len() {
            assert(post.orphans@[j2].0@ == bpp);
            assert(post.orphans@[j1].0@ == without[j1].0@);
            assert(without[j1].0@ != bpp) by {
                if without[j1].0@ == bpp {
                    assert(okey_has(without, bpp));
                }
            }
        } else {
            assert(post.orphans@[j1].0@ == without[j1].0@);
            assert(post.orphans@[j2].0@ == without[j2].0@);
        }
    }
    assert forall|j: int, k1: int, k2: int|
        0 <= j < post.orphans@.len() && 0 <= k1 < k2 < post.orphans@[j].1@.len() implies post
        .orphans@[j].1@[k1] != post.orphans@[j].1@[k2] by {
        if buffered && okey_has(without, bpp) && j == bj {
            if k2 == without[bj].1@.len() {
                assert(post.orphans@[j].1@[k1] == without[j].1@[k1]);
                assert(without[j].1@[k1] < n);
                assert(post.orphans@[j].1@[k2] == n as FileId);
            } else {
                assert(post.orphans@[j].1@[k1] == without[j].1@[k1]);
                assert(post.orphans@[j].1@[k2] == without[j].1@[k2]);
            }
        } else if buffered && !okey_has(without, bpp) && j == without.len() {
            assert(post.orphans@[j].1@.len() == 1);
        } else {
            assert(post.orphans@[j] == without[j]);
        }
    }

    lemma_add_attached(pre, post, node);
}

/// The attachment half of `lemma_add_preserves_wf`.
proof fn lemma_add_attached(pre: Tree, post: Tree, node: FileNode)
    requires
        pre.wf(),
        pre.fully_attached(),
        !pre.has_path(node.info.path@),
        Tree::add_effect(pre, post, node),
        post.wf_orphans(),
    ensures
        post.wf_attached(),
        post.fully_attached(),
{
    let n = pre.nodes@.len() as int;
    let p = node.info.path@;
    let became_root = pre.root_id is None && p == pre.root_path@;
    let pf = pre.parent_present(p);
    let bpp = parent_spec(p)->Some_0;
    let pid = pre.spec_id_of(bpp);
    let spliced = pre.orphan_ids_for(p);
    let buffered = !pf && !became_root && parent_spec(p) is Some;
    let splicing = pre.has_orphan_key(p);
    let oj = okey_at(pre.orphans@, p);
    let without = pre.orphans_less(p);
    let bj = okey_at(without, bpp);
    assert(0 <= n < usize::MAX as int);
    if splicing {
        assert(0 <= oj < pre.orphans@.len() && pre.orphans@[oj].0@ == p);
        assert(spliced == pre.orphans@[oj].1@);
    }
    if buffered && okey_has(without, bpp) {
        assert(0 <= bj < without.len() && without[bj].0@ == bpp);
    }

    // Characterize child occurrence after the step.
    assert forall|c: FileId| #[trigger]
        post.occurs_child(c) implies pre.occurs_child(c) || (pf && c == n as FileId)
        || spliced.contains(c) by {
        let i = choose|i: int|
            0 <= i < post.nodes@.len() && post.children_at(i).contains(c);
        if i == n {
            assert(spliced.contains(c));
        } else if pf && i == pid {
            let k = choose|k: int| 0 <= k < post.children_at(i).len() && post.children_at(i)[k] == c;
            if k < pre.children_at(i).len() {
                assert(pre.children_at(i).contains(c));
                assert(pre.occurs_child(c));
            } else {
                assert(c == n as FileId);
            }
        } else {
            assert(pre.children_at(i).contains(c));
            assert(pre.occurs_child(c));
        }
    }
    assert forall|c: FileId|
        pre.occurs_child(c) || (pf && c == n as FileId) || spliced.contains(c) implies #[trigger]
    post.occurs_child(c) by {
        if pre.occurs_child(c) {
            let i = choose|i: int|
                0 <= i < pre.nodes@.len() && pre.children_at(i).contains(c);
            let k = choose|k: int| 0 <= k < pre.children_at(i).len() && pre.children_at(i)[k] == c;
            assert(post.children_at(i)[k] == c);
            assert(post.children_at(i).contains(c));
        } else if pf && c == n as FileId {
            assert(post.children_at(pid).contains(c)) by {
                assert(post.children_at(pid)[pre.children_at(pid).len() as int] == c);
            }
        } else {
            let k = choose|k: int| 0 <= k < spliced.len() && spliced[k] == c;
            assert(post.children_at(n).contains(c)) by {
                assert(post.children_at(n)[k] == c);
            }
        }
    }

    // Characterize orphan occurrence after the step, through the buffer with
    // the arriving path's entry removed.
    assert forall|c: FileId| #[trigger]
        occurs_in(without, c) implies pre.occurs_orphan(c) && !(splicing && spliced.contains(c))
        by {
        let j = choose|j: int| 0 <= j < without.len() && without[j].1@.contains(c);
        let jj = if splicing && j >= oj {
            j + 1
        } else {
            j
        };
        assert(without[j] == pre.orphans@[jj]);
        assert(pre.orphans@[jj].1@.contains(c));
        assert(pre.occurs_orphan(c));
        if splicing && spliced.contains(c) {
            let k = choose|k: int| 0 <= k < without[j].1@.len() && without[j].1@[k] == c;
            let k2 = choose|k2: int| 0 <= k2 < spliced.len() && spliced[k2] == c;
            lemma_orphan_entries_disjoint(pre, jj, oj, k, k2);
            assert(false);
        }
    }
    assert forall|c: FileId|
        pre.occurs_orphan(c) && !(splicing && spliced.contains(c)) implies #[trigger] occurs_in(
        without,
        c,
    ) by {
        let j = choose|j: int|
            0 <= j < pre.orphans@.len() && pre.orphans@[j].1@.contains(c);
        if splicing {
            assert(j != oj) by {
                if j == oj {
                    assert(spliced.contains(c));
                }
            }
            let jj = if j < oj {
                j
            } else {
                j - 1
            };
            assert(without[jj] == pre.orphans@[j]);
            assert(without[jj].1@.contains(c));
        } else {
            assert(without[j].1@.contains(c));
        }
    }
    assert forall|c: FileId| #[trigger]
        post.occurs_orphan(c) implies occurs_in(without, c) || (buffered && c == n as FileId) by {
        let j = choose|j: int|
            0 <= j < post.orphans@.len() && post.orphans@[j].1@.contains(c);
        let k = choose|k: int| 0 <= k < post.orphans@[j].1@.len() && post.orphans@[j].1@[k] == c;
        if buffered && okey_has(without, bpp) {
            if j == bj && k == without[bj].1@.len() {
                assert(c == n as FileId);
            } else if j == bj {
                assert(without[bj].1@[k] == c);
                assert(without[bj].1@.contains(c));
            } else {
                assert(post.orphans@[j] == without[j]);
                assert(without[j].1@.contains(c));
            }
        } else if buffered {
            if j == without.len() {
                assert(c == n as FileId);
            } else {
                assert(post.orphans@[j] == without[j]);
                assert(without[j].1@.contains(c));
            }
        } else {
            assert(post.orphans@ == without);
            assert(without[j].1@.contains(c));
        }
    }
    assert forall|c: FileId|
        occurs_in(without, c) || (buffered && c == n as FileId) implies #[trigger] post
        .occurs_orphan(c) by {
        if occurs_in(without, c) {
            let j = choose|j: int| 0 <= j < without.len() && without[j].1@.contains(c);
            let k = choose|k: int| 0 <= k < without[j].1@.len() && without[j].1@[k] == c;
            if buffered && okey_has(without, bpp) && j == bj {
                assert(post.orphans@[j].1@[k] == c);
                assert(post.orphans@[j].1@.contains(c));
            } else {
                assert(post.orphans@[j] == without[j]);
                assert(post.orphans@[j].1@.contains(c));
            }
        } else {
            if okey_has(without, bpp) {
                assert(post.orphans@[bj].1@[without[bj].1@.len() as int] == c);
                assert(post.orphans@[bj].1@.contains(c));
            } else {
                assert(post.orphans@[without.len() as int].1@[0] == c);
                assert(post.orphans@[without.len() as int].1@.contains(c));
            }
        }
    }
    assert(forall|c: FileId| #[trigger]
        post.occurs_orphan(c) ==> (pre.occurs_orphan(c) && !(splicing && spliced.contains(c)))
            || (buffered && c == n as FileId));
    assert(forall|c: FileId|
        (pre.occurs_orphan(c) && !(splicing && spliced.contains(c))) || (buffered && c
            == n as FileId) ==> #[trigger] post.occurs_orphan(c));

    // Old ids are smaller than the fresh one.
    assert forall|c: FileId| #[trigger] pre.occurs_child(c) implies c < n by {
        let i = choose|i: int|
            0 <= i < pre.nodes@.len() && pre.children_at(i).contains(c);
        let k = choose|k: int| 0 <= k < pre.children_at(i).len() && pre.children_at(i)[k] == c;
        assert(pre.child_ok(i, k));
    }
    assert forall|c: FileId| #[trigger] pre.occurs_orphan(c) implies c < n by {
        let j = choose|j: int|
            0 <= j < pre.orphans@.len() && pre.orphans@[j].1@.contains(c);
        let k = choose|k: int| 0 <= k < pre.orphans@[j].1@.len() && pre.orphans@[j].1@[k] == c;
        assert(pre.orphan_ok(j, k));
    }
    assert(forall|c: FileId| spliced.contains(c) ==> #[trigger] pre.occurs_orphan(c));

    // Every occurring id is a valid index.
    assert forall|c: FileId| #[trigger] post.occurs_child(c) implies c < post.nodes@.len() by {
        if pre.occurs_child(c) {
        } else if pf && c == n as FileId {
        } else {
            assert(spliced.contains(c));
            assert(pre.occurs_orphan(c));
        }
    }
    assert forall|c: FileId| #[trigger] post.occurs_orphan(c) implies c < post.nodes@.len() by {
        if pre.occurs_orphan(c) {
        } else {
            assert(buffered && c == n as FileId);
        }
    }

    // Exclusivity.
    assert forall|c: FileId|
        !(#[trigger] post.occurs_child(c) && #[trigger] post.occurs_orphan(c)) by {
        if post.occurs_child(c) && post.occurs_orphan(c) {
            assert((pre.occurs_orphan(c) && !(splicing && spliced.contains(c))) || (buffered && c
                == n as FileId));
            assert(pre.occurs_child(c) || (pf && c == n as FileId) || spliced.contains(c));
            if pre.occurs_child(c) {
                assert(!pre.occurs_orphan(c));
                assert(c < n);
                assert(false);
            } else if pf && c == n as FileId {
                assert(pre.occurs_orphan(c) ==> c < n);
                assert(!buffered);
                assert(false);
            } else {
                assert(spliced.contains(c));
                assert(pre.occurs_orphan(c));
                assert(c < n);
                assert(splicing);
                assert(false);
            }
        }
    }

    // Totality.
    assert forall|c: FileId|
        0 <= c < post.nodes@.len() && post.root_id != Some(c) && parent_spec(
            post.path_at(c as int),
        ) is Some implies #[trigger] post.occurs_child(c) || #[trigger] post.occurs_orphan(c) by {
        if c < n {
            assert(post.path_at(c as int) == pre.path_at(c as int));
            assert(pre.root_id != Some(c)) by {
                if became_root {
                    assert(pre.root_id is None);
                }
            }
            assert(pre.occurs_child(c) || pre.occurs_orphan(c));
            if pre.occurs_child(c) {
                assert(post.occurs_child(c));
            } else if splicing && spliced.contains(c) {
                assert(post.occurs_child(c));
            } else {
                assert(post.occurs_orphan(c));
            }
        } else {
            assert(!became_root);
            if pf {
                assert(post.occurs_child(c));
            } else {
                assert(buffered);
                assert(post.occurs_orphan(c));
            }
        }
    }
}


impl Tree {
    /// All of a completed scan's guarantees: well-formed, nothing left in the
    /// orphan buffer, and every child list sorted.
    pub open spec fn finished(self) -> bool {
        &&& self.wf()
        &&& self.orphans@.len() == 0
        &&& forall|i: int|
            0 <= i < self.nodes@.len() ==> crate::order::sorted_by_key(
                self.nodes@,
                #[trigger] self.children_at(i),
            )
    }

    /// Whether completing the scan auto-expands the tree: a positive limit
    /// that the total file count does not exceed.
    pub open spec fn auto_expand_applies(self, auto_expand_limit: usize) -> bool {
        auto_expand_limit > 0 && Tree::count_files_upto(self.nodes@, self.nodes@.len() as int).0
            <= auto_expand_limit as int
    }

    /// Everything `finish` does: orphans handed back, child lists sorted in
    /// place, states and records untouched, directories force-expanded when
    /// the auto-expand limit applies, attachment kept when nothing was
    /// dropped.
    pub open spec fn finish_rel(
        pre: Tree,
        post: Tree,
        auto_expand_limit: usize,
        dropped: Seq<(Vec<u8>, Vec<FileId>)>,
    ) -> bool {
        &&& post.finished()
        &&& dropped == pre.orphans@
        &&& post.nodes@.len() == pre.nodes@.len()
        &&& post.root_id == pre.root_id
        &&& post.root_path == pre.root_path
        &&& forall|i: int|
            0 <= i < pre.nodes@.len() ==> (#[trigger] post.nodes@[i]).info == pre.nodes@[i].info
                && post.nodes@[i].state == pre.nodes@[i].state
        &&& forall|i: int|
            0 <= i < pre.nodes@.len() ==> (#[trigger] post.nodes@[i]).children@.len()
                == pre.nodes@[i].children@.len() && (forall|c: FileId|
                post.nodes@[i].children@.contains(c) == pre.nodes@[i].children@.contains(c))
        &&& forall|i: int|
            0 <= i < pre.nodes@.len() ==> (#[trigger] post.nodes@[i]).is_expanded == (
            pre.nodes@[i].is_expanded || (pre.auto_expand_applies(auto_expand_limit)
                && pre.nodes@[i].info.is_dir))
        &&& (pre.orphans@.len() == 0 && pre.fully_attached()) ==> post.fully_attached()
    }

    /// Completes the scan: discards (and returns) any orphans whose parent
    /// never arrived, sorts every directory's child list stably (directories
    /// before files, case-insensitive name order, ties keeping arrival
    /// order), and, when the total file count lies within a positive
    /// `auto_expand_limit`, force-expands every directory.
    #[verifier::loop_isolation(false)]
    #[verifier::rlimit(100)]
    pub fn finish(&mut self, auto_expand_limit: usize) -> (dropped: Vec<(Vec<u8>, Vec<FileId>)>)
        requires
            old(self).wf(),
        ensures
            final(self).finished(),
            dropped@ == old(self).orphans@,
            final(self).nodes@.len() == old(self).nodes@.len(),
            final(self).root_id == old(self).root_id,
            final(self).root_path == old(self).root_path,
            forall|i: int|
                0 <= i < old(self).nodes@.len() ==> (#[trigger] final(self).nodes@[i]).info == old(self).nodes@[i].info && final(self).nodes@[i].state == old(self).nodes@[i].state,
            forall|i: int|
                0 <= i < old(self).nodes@.len() ==> (#[trigger] final(self).nodes@[i]).children@.len()
                    == old(self).nodes@[i].children@.len() && (forall|c: FileId|
                    final(self).nodes@[i].children@.contains(c) == old(self).nodes@[i].children@.contains(c)),
            forall|i: int|
                0 <= i < old(self).nodes@.len() ==> (#[trigger] final(self).nodes@[i]).is_expanded
                    == (old(self).nodes@[i].is_expanded || (old(self).auto_expand_applies(
                    auto_expand_limit,
                ) && old(self).nodes@[i].info.is_dir)),
            (old(self).orphans@.len() == 0 && old(self).fully_attached()) ==> final(self).fully_attached(),
            Tree::finish_rel(*old(self), *final(self), auto_expand_limit, dropped@),
            forall|i: int, k1: int, k2: int|
                #![trigger final(self).nodes@[i].children@[k1], final(self).nodes@[i].children@[k2]]
                0 <= i < old(self).nodes@.len() && 0 <= k1 < k2 < final(self).nodes@[i].children@.len()
                    && crate::order::key_le(
                    final(self).nodes@,
                    final(self).nodes@[i].children@[k2],
                    final(self).nodes@[i].children@[k1],
                ) ==> crate::order::pos_of(
                    old(self).nodes@[i].children@,
                    final(self).nodes@[i].children@[k1],
                ) < crate::order::pos_of(
                    old(self).nodes@[i].children@,
                    final(self).nodes@[i].children@[k2],
                ),
    {
        let ghost pre = *self;
        let mut dropped: Vec<(Vec<u8>, Vec<FileId>)> = Vec::new();
        core::mem::swap(&mut dropped, &mut self.orphans);
        let n = self.nodes.len();
        let mut i: usize = 0;
        while i < n
            invariant
                i <= n,
                n == self.nodes@.len(),
                pre.wf(),
                self.orphans@.len() == 0,
                self.root_id == pre.root_id,
                self.root_path == pre.root_path,
                forall|j: int|
                    0 <= j < n ==> (#[trigger] self.nodes@[j]).info == pre.nodes@[j].info
                        && self.nodes@[j].state == pre.nodes@[j].state && self.nodes@[j].is_expanded
                        == pre.nodes@[j].is_expanded,
                forall|j: int| i <= j < n ==> (#[trigger] self.nodes@[j]).children@
                    == pre.nodes@[j].children@,
                forall|j: int|
                    0 <= j < i ==> (#[trigger] self.nodes@[j]).children@.len()
                        == pre.nodes@[j].children@.len() && (forall|c: FileId|
                        self.nodes@[j].children@.contains(c) == pre.nodes@[j].children@.contains(
                            c,
                        )) && crate::order::sorted_by_key(self.nodes@, self.nodes@[j].children@)
                        && (forall|k1: int, k2: int|
                        0 <= k1 < k2 < self.nodes@[j].children@.len()
                            ==> self.nodes@[j].children@[k1] != self.nodes@[j].children@[k2]) && (
                        forall|k: int|
                            0 <= k < self.nodes@[j].children@.len()
                                ==> #[trigger] self.nodes@[j].children@[k] < n),
                forall|j: int, k1: int, k2: int|
                    #![trigger self.nodes@[j].children@[k1], self.nodes@[j].children@[k2]]
                    0 <= j < i && 0 <= k1 < k2 < self.nodes@[j].children@.len()
                        && crate::order::key_le(
                        self.nodes@,
                        self.nodes@[j].children@[k2],
                        self.nodes@[j].children@[k1],
                    ) ==> crate::order::pos_of(
                        pre.nodes@[j].children@,
                        self.nodes@[j].children@[k1],
                    ) < crate::order::pos_of(
                        pre.nodes@[j].children@,
                        self.nodes@[j].children@[k2],
                    ),
            decreases n - i,
        {
            proof {
                assert forall|k: int|
                    0 <= k < self.nodes@[i as int].children@.len() implies (
                #[trigger] self.nodes@[i as int].children@[k]) < self.nodes@.len() by {
                    assert(pre.child_ok(i as int, k));
                }
                assert(forall|k1: int, k2: int|
                    0 <= k1 < k2 < pre.children_at(i as int).len() ==> #[trigger] pre.children_at(
                        i as int,
                    )[k1] != #[trigger] pre.children_at(i as int)[k2]);
            }
            let ids = copy_ids(&self.nodes[i].children);
            proof {
                assert(ids@ == pre.nodes@[i as int].children@);
                assert forall|k: int| 0 <= k < ids@.len() implies (#[trigger] ids@[k])
                    < self.nodes@.len() by {
                    assert(pre.child_ok(i as int, k));
                }
                assert forall|k1: int, k2: int|
                    0 <= k1 < k2 < ids@.len() implies ids@[k1] != ids@[k2] by {
                    assert(pre.children_at(i as int)[k1] != pre.children_at(i as int)[k2]);
                }
            }
            let sorted = crate::order::sort_ids(&self.nodes, &ids);
            let ghost keys_before = self.nodes@;
            let slot = &mut self.nodes[i];
            slot.children = sorted;
            proof {
                // sort keys depend only on info, which is untouched
                assert forall|j: int|
                    0 <= j < i + 1 implies crate::order::sorted_by_key(
                    self.nodes@,
                    (#[trigger] self.nodes@[j]).children@,
                ) by {
                    assert forall|k1: int, k2: int|
                        0 <= k1 < k2 < self.nodes@[j].children@.len() implies crate::order::key_le(
                        self.nodes@,
                        self.nodes@[j].children@[k1],
                        self.nodes@[j].children@[k2],
                    ) by {
                        let a = self.nodes@[j].children@[k1];
                        let b = self.nodes@[j].children@[k2];
                        assert(crate::order::key_le(keys_before, a, b));
                        assert(a < n && b < n);
                        assert(self.nodes@[a as int].info == keys_before[a as int].info);
                        assert(self.nodes@[b as int].info == keys_before[b as int].info);
                    }
                }
                // so does stability: equal-key children keep arrival order
                assert forall|j: int, k1: int, k2: int|
                    #![trigger self.nodes@[j].children@[k1], self.nodes@[j].children@[k2]]
                    0 <= j < i + 1 && 0 <= k1 < k2 < self.nodes@[j].children@.len()
                        && crate::order::key_le(
                        self.nodes@,
                        self.nodes@[j].children@[k2],
                        self.nodes@[j].children@[k1],
                    ) implies crate::order::pos_of(
                    pre.nodes@[j].children@,
                    self.nodes@[j].children@[k1],
                ) < crate::order::pos_of(
                    pre.nodes@[j].children@,
                    self.nodes@[j].children@[k2],
                ) by {
                    let c1 = self.nodes@[j].children@[k1];
                    let c2 = self.nodes@[j].children@[k2];
                    if j == i as int {
                        assert(self.nodes@[j].children@ == sorted@);
                        assert(c1 < n && c2 < n);
                        assert(self.nodes@[c1 as int].info == keys_before[c1 as int].info);
                        assert(self.nodes@[c2 as int].info == keys_before[c2 as int].info);
                        assert(crate::order::key_le(keys_before, c2, c1));
                    } else {
                        assert(self.nodes@[j].children@ == keys_before[j].children@);
                        assert(c1 < n && c2 < n);
                        assert(self.nodes@[c1 as int].info == keys_before[c1 as int].info);
                        assert(self.nodes@[c2 as int].info == keys_before[c2 as int].info);
                        assert(crate::order::key_le(keys_before, c2, c1));
                    }
                }
            }
            i = i + 1;
        }
        let ghost sorted_tree = *self;
        proof {
            lemma_finish_wf(pre, *self);
        }
        let counts = self.count_files();
        let do_expand = auto_expand_limit > 0 && counts.0 <= auto_expand_limit;
        if do_expand {
            let mut k: usize = 0;
            while k < n
                invariant
                    k <= n,
                    n == self.nodes@.len(),
                    self.orphans@.len() == 0,
                    self.root_id == sorted_tree.root_id,
                    self.root_path == sorted_tree.root_path,
                    forall|j: int|
                        0 <= j < n ==> (#[trigger] self.nodes@[j]).info
                            == sorted_tree.nodes@[j].info && self.nodes@[j].state
                            == sorted_tree.nodes@[j].state && self.nodes@[j].children@
                            == sorted_tree.nodes@[j].children@,
                    forall|j: int|
                        0 <= j < k ==> (#[trigger] self.nodes@[j]).is_expanded == (
                        sorted_tree.nodes@[j].is_expanded || sorted_tree.nodes@[j].info.is_dir),
                    forall|j: int|
                        k <= j < n ==> (#[trigger] self.nodes@[j]).is_expanded
                            == sorted_tree.nodes@[j].is_expanded,
                decreases n - k,
            {
                if self.nodes[k].info.is_dir {
                    let slot = &mut self.nodes[k];
                    slot.is_expanded = true;
                }
                k = k + 1;
            }
        }
        proof {
            assert forall|j: int| 0 <= j < n implies (#[trigger] self.nodes@[j]).info
                == sorted_tree.nodes@[j].info && self.nodes@[j].children@
                == sorted_tree.nodes@[j].children@ by {}
            assert(self.orphans@ =~= sorted_tree.orphans@);
            assert(sorted_tree.same_structure(*self));
            crate::engine::lemma_same_structure_wf(sorted_tree, *self);
            assert forall|j: int|
                0 <= j < n implies crate::order::sorted_by_key(
                self.nodes@,
                #[trigger] self.children_at(j),
            ) by {
                assert(crate::order::sorted_by_key(sorted_tree.nodes@, sorted_tree.children_at(j)));
                assert forall|k1: int, k2: int|
                    0 <= k1 < k2 < self.children_at(j).len() implies crate::order::key_le(
                    self.nodes@,
                    self.children_at(j)[k1],
                    self.children_at(j)[k2],
                ) by {
                    let a = self.children_at(j)[k1];
                    let b = self.children_at(j)[k2];
                    assert(crate::order::key_le(sorted_tree.nodes@, a, b));
                    assert(sorted_tree.child_ok(j, k1));
                    assert(sorted_tree.child_ok(j, k2));
                    assert(a < n && b < n);
                    assert(self.nodes@[a as int].info == sorted_tree.nodes@[a as int].info);
                    assert(self.nodes@[b as int].info == sorted_tree.nodes@[b as int].info);
                }
            }
            assert forall|i2: int, k1: int, k2: int|
                #![trigger self.nodes@[i2].children@[k1], self.nodes@[i2].children@[k2]]
                0 <= i2 < n && 0 <= k1 < k2 < self.nodes@[i2].children@.len()
                    && crate::order::key_le(
                    self.nodes@,
                    self.nodes@[i2].children@[k2],
                    self.nodes@[i2].children@[k1],
                ) implies crate::order::pos_of(
                pre.nodes@[i2].children@,
                self.nodes@[i2].children@[k1],
            ) < crate::order::pos_of(pre.nodes@[i2].children@, self.nodes@[i2].children@[k2]) by {
                let c1 = self.nodes@[i2].children@[k1];
                let c2 = self.nodes@[i2].children@[k2];
                assert(self.nodes@[i2].children@ == sorted_tree.nodes@[i2].children@);
                assert(sorted_tree.child_ok(i2, k1));
                assert(sorted_tree.child_ok(i2, k2));
                assert(c1 < n && c2 < n);
                assert(self.nodes@[c1 as int].info == sorted_tree.nodes@[c1 as int].info);
                assert(self.nodes@[c2 as int].info == sorted_tree.nodes@[c2 as int].info);
                assert(crate::order::key_le(sorted_tree.nodes@, c2, c1));
            }
            crate::engine::lemma_count_files_same(pre.nodes@, sorted_tree.nodes@, n as int);
            assert(do_expand == pre.auto_expand_applies(auto_expand_limit));
            assert forall|i2: int|
                0 <= i2 < n implies (#[trigger] self.nodes@[i2]).is_expanded == (
            pre.nodes@[i2].is_expanded || (pre.auto_expand_applies(auto_expand_limit)
                && pre.nodes@[i2].info.is_dir)) by {
                if do_expand {
                    assert(self.nodes@[i2].is_expanded == (sorted_tree.nodes@[i2].is_expanded
                        || sorted_tree.nodes@[i2].info.is_dir));
                    assert(sorted_tree.nodes@[i2].info == pre.nodes@[i2].info);
                } else {
                    assert(self.nodes@[i2].is_expanded == sorted_tree.nodes@[i2].is_expanded);
                }
            }
            if pre.orphans@.len() == 0 && pre.fully_attached() {
                assert forall|c: FileId|
                    0 <= c < self.nodes@.len() && self.root_id != Some(c) && parent_spec(
                        self.path_at(c as int),
                    ) is Some implies #[trigger] self.occurs_child(c) || #[trigger] self.occurs_orphan(
                    c,
                ) by {
                    assert(pre.occurs_child(c) || pre.occurs_orphan(c));
                    if pre.occurs_orphan(c) {
                        let j = choose|j: int|
                            0 <= j < pre.orphans@.len() && pre.orphans@[j].1@.contains(c);
                        assert(false);
                    }
                    let i2 = choose|i2: int|
                        0 <= i2 < pre.nodes@.len() && pre.children_at(i2).contains(c);
                    assert(self.children_at(i2).contains(c));
                    assert(self.occurs_child(c));
                }
            }
        }
        dropped
    }
}

/// A fresh copy of an id list.
fn copy_ids(a: &Vec<FileId>) -> (r: Vec<FileId>)
    ensures
        r@ == a@,
{
    let mut v: Vec<FileId> = Vec::new();
    let mut i: usize = 0;
    while i < a.len()
        invariant
            i <= a.len(),
            v@ =~= a@.subrange(0, i as int),
        decreases a.len() - i,
    {
        v.push(a[i]);
        i = i + 1;
    }
    proof {
        assert(v@ =~= a@);
    }
    v
}

/// Sorting each child list in place (same members, no duplicates) and
/// emptying the orphan buffer keeps the tree well-formed.
proof fn lemma_finish_wf(pre: Tree, post: Tree)
    requires
        pre.wf(),
        post.nodes@.len() == pre.nodes@.len(),
        post.orphans@.len() == 0,
        post.root_id == pre.root_id,
        post.root_path == pre.root_path,
        forall|j: int|
            0 <= j < pre.nodes@.len() ==> (#[trigger] post.nodes@[j]).info == pre.nodes@[j].info,
        forall|j: int|
            0 <= j < pre.nodes@.len() ==> (forall|c: FileId|
                (#[trigger] post.nodes@[j]).children@.contains(c) == pre.nodes@[j].children@.contains(
                    c,
                )),
        forall|j: int, k1: int, k2: int|
            0 <= j < post.nodes@.len() && 0 <= k1 < k2 < post.nodes@[j].children@.len()
                ==> #[trigger] post.nodes@[j].children@[k1] != #[trigger] post.nodes@[j].children@[k2],
    ensures
        post.wf(),
{
    assert forall|i: int, k: int|
        0 <= i < post.nodes@.len() && 0 <= k < post.children_at(i).len() implies #[trigger] post
        .child_ok(i, k) by {
        let c = post.children_at(i)[k];
        assert(post.children_at(i).contains(c));
        assert(pre.children_at(i).contains(c));
        let kk = choose|kk: int| 0 <= kk < pre.children_at(i).len() && pre.children_at(i)[kk] == c;
        assert(pre.child_ok(i, kk));
        assert(post.path_at(c as int) == pre.path_at(c as int));
        assert(post.path_at(i) == pre.path_at(i));
    }
    assert forall|i: int, j: int|
        0 <= i < j < post.nodes@.len() implies post.path_at(i) != post.path_at(j) by {
        assert(pre.path_at(i) != pre.path_at(j));
    }
    assert(post.wf_root()) by {
        match post.root_id {
            Some(r) => {
                assert(pre.path_at(r as int) == pre.root_path@);
            },
            None => {
                assert forall|i: int| 0 <= i < post.nodes@.len() implies post.path_at(i)
                    != post.root_path@ by {
                    assert(pre.path_at(i) != pre.root_path@);
                }
            },
        }
    }
    assert forall|c: FileId| #[trigger] post.occurs_child(c) implies c < post.nodes@.len() by {
        let i = choose|i: int|
            0 <= i < post.nodes@.len() && post.children_at(i).contains(c);
        assert(pre.children_at(i).contains(c));
        let kk = choose|kk: int| 0 <= kk < pre.children_at(i).len() && pre.children_at(i)[kk] == c;
        assert(pre.child_ok(i, kk));
    }
}

/// A child buffered before its parent arrives is adopted as soon as the
/// parent is processed, whatever else holds of the parent: it stands in the
/// arriving node's child list exactly once, and its buffer entry is gone.
pub proof fn lemma_orphan_adopted(pre: Tree, post: Tree, node: FileNode, c: FileId)
    requires
        pre.wf(),
        Tree::add_effect(pre, post, node),
        pre.orphan_ids_for(node.info.path@).contains(c),
    ensures
        post.children_at(pre.nodes@.len() as int).contains(c),
        forall|k1: int, k2: int|
            0 <= k1 < k2 < post.children_at(pre.nodes@.len() as int).len() ==> post.children_at(
                pre.nodes@.len() as int,
            )[k1] != post.children_at(pre.nodes@.len() as int)[k2],
        !post.has_orphan_key(node.info.path@),
{
    let n = pre.nodes@.len() as int;
    let p = node.info.path@;
    let spliced = pre.orphan_ids_for(p);
    let splicing = pre.has_orphan_key(p);
    let oj = okey_at(pre.orphans@, p);
    let without = pre.orphans_less(p);
    let bpp = parent_spec(p)->Some_0;
    assert(splicing);
    assert(0 <= oj < pre.orphans@.len() && pre.orphans@[oj].0@ == p);
    assert(post.children_at(n) == spliced);
    assert forall|k1: int, k2: int|
        0 <= k1 < k2 < spliced.len() implies spliced[k1] != spliced[k2] by {
        assert(pre.orphans@[oj].1@[k1] != pre.orphans@[oj].1@[k2]);
    }
    // the entry keyed by the arriving path is gone, and buffering the node
    // itself files it under its strictly shorter parent path, never under `p`
    assert(!okey_has(without, p)) by {
        if okey_has(without, p) {
            let j = okey_at(without, p);
            assert(0 <= j < without.len() && without[j].0@ == p);
            let jj = if j >= oj {
                j + 1
            } else {
                j
            };
            assert(without[j] == pre.orphans@[jj]);
            assert(jj != oj);
            if jj < oj {
                assert(pre.orphans@[jj].0@ != pre.orphans@[oj].0@);
            } else {
                assert(pre.orphans@[oj].0@ != pre.orphans@[jj].0@);
            }
        }
    }
    crate::pathutil::lemma_parent_shorter(p);
    assert(parent_spec(p) is Some ==> bpp != p) by {
        if parent_spec(p) is Some && bpp == p {
            assert(bpp.len() < p.len());
        }
    }
    assert forall|j: int| 0 <= j < post.orphans@.len() implies (#[trigger] post.orphans@[j]).0@
        != p by {
        let pf = pre.parent_present(p);
        let became_root = pre.root_id is None && p == pre.root_path@;
        let buffered = !pf && !became_root && parent_spec(p) is Some;
        let bj = okey_at(without, bpp);
        if buffered && okey_has(without, bpp) {
            assert(post.orphans@[j].0@ == without[j].0@);
            if post.orphans@[j].0@ == p {
                assert(okey_has(without, p));
            }
        } else if buffered {
            if j == without.len() {
                assert(post.orphans@[j].0@ == bpp);
            } else {
                assert(post.orphans@[j] == without[j]);
                if post.orphans@[j].0@ == p {
                    assert(okey_has(without, p));
                }
            }
        } else {
            assert(post.orphans@[j] == without[j]);
            if post.orphans@[j].0@ == p {
                assert(okey_has(without, p));
            }
        }
    }
}

/// In a completed, fully attached tree with nothing above the scan root, a
/// node's children are exactly the nodes whose parent path is its path:
/// every non-root node stands in its parent's child list, exactly once.
pub proof fn lemma_children_exact(t: Tree, d: int, c: FileId)
    requires
        t.wf(),
        t.fully_attached(),
        t.orphans@.len() == 0,
        parent_spec(t.root_path@) is Some ==> !t.has_path(parent_spec(t.root_path@)->Some_0),
        0 <= d < t.nodes@.len(),
        c < t.nodes@.len(),
    ensures
        t.children_at(d).contains(c) <==> (t.root_id != Some(c) && parent_spec(
            t.path_at(c as int),
        ) == Some(t.path_at(d))),
{
    if t.children_at(d).contains(c) {
        let k = choose|k: int| 0 <= k < t.children_at(d).len() && t.children_at(d)[k] == c;
        assert(t.child_ok(d, k));
        if t.root_id == Some(c) {
            assert(t.path_at(c as int) == t.root_path@);
            assert(t.has_path(parent_spec(t.root_path@)->Some_0)) by {
                assert(parent_spec(t.path_at(c as int)) == Some(t.path_at(d)));
            }
        }
    }
    if t.root_id != Some(c) && parent_spec(t.path_at(c as int)) == Some(t.path_at(d)) {
        assert(t.occurs_child(c) || t.occurs_orphan(c));
        if t.occurs_orphan(c) {
            let j = choose|j: int|
                0 <= j < t.orphans@.len() && t.orphans@[j].1@.contains(c);
            assert(false);
        }
        let i = choose|i: int|
            0 <= i < t.nodes@.len() && t.children_at(i).contains(c);
        let k = choose|k: int| 0 <= k < t.children_at(i).len() && t.children_at(i)[k] == c;
        assert(t.child_ok(i, k));
        assert(t.path_at(i) == t.path_at(d));
        if i != d {
            if i < d {
                assert(t.path_at(i) != t.path_at(d));
            } else {
                assert(t.path_at(d) != t.path_at(i));
            }
        }
    }
}


/// The path-level sort key of node `c`: whether it is a file, and its
/// lowered name. The child order compares exactly these.
pub open spec fn pkey_file(t: Tree, c: FileId) -> bool {
    !t.nodes@[c as int].info.is_dir
}

/// The lowered-name half of the sort key.
pub open spec fn pkey_name(t: Tree, c: FileId) -> Seq<u8> {
    crate::pathutil::lower_seq(crate::pathutil::name_spec(t.path_at(c as int)))
}

/// The path-level key order: files after directories, then lowered names
/// lexicographically.
pub open spec fn pkle(f1: bool, n1: Seq<u8>, f2: bool, n2: Seq<u8>) -> bool {
    if f1 != f2 {
        f2
    } else {
        crate::order::lex_le(n1, n2)
    }
}

/// Two sorted listings of the same set of paths, with strictly distinct
/// keys and kinds agreeing per path, are identical.
#[verifier::rlimit(100)]
proof fn lemma_sorted_paths_agree(
    pa: Seq<Seq<u8>>,
    fa: Seq<bool>,
    pb: Seq<Seq<u8>>,
    fb: Seq<bool>,
)
    requires
        fa.len() == pa.len(),
        fb.len() == pb.len(),
        forall|k1: int, k2: int|
            0 <= k1 < k2 < pa.len() ==> pkle(
                fa[k1],
                crate::pathutil::lower_seq(crate::pathutil::name_spec(#[trigger] pa[k1])),
                fa[k2],
                crate::pathutil::lower_seq(crate::pathutil::name_spec(#[trigger] pa[k2])),
            ),
        forall|k1: int, k2: int|
            0 <= k1 < k2 < pb.len() ==> pkle(
                fb[k1],
                crate::pathutil::lower_seq(crate::pathutil::name_spec(#[trigger] pb[k1])),
                fb[k2],
                crate::pathutil::lower_seq(crate::pathutil::name_spec(#[trigger] pb[k2])),
            ),
        forall|k1: int, k2: int|
            0 <= k1 < k2 < pa.len() ==> !(fa[k1] == fa[k2] && crate::pathutil::lower_seq(
                crate::pathutil::name_spec(#[trigger] pa[k1]),
            ) == crate::pathutil::lower_seq(crate::pathutil::name_spec(#[trigger] pa[k2]))),
        forall|k1: int, k2: int|
            0 <= k1 < k2 < pb.len() ==> !(fb[k1] == fb[k2] && crate::pathutil::lower_seq(
                crate::pathutil::name_spec(#[trigger] pb[k1]),
            ) == crate::pathutil::lower_seq(crate::pathutil::name_spec(#[trigger] pb[k2]))),
        forall|k: int, m: int|
            0 <= k < pa.len() && 0 <= m < pb.len() && #[trigger] pa[k] == #[trigger] pb[m]
                ==> fa[k] == fb[m],
        forall|k: int| 0 <= k < pa.len() ==> pb.contains(#[trigger] pa[k]),
        forall|m: int| 0 <= m < pb.len() ==> pa.contains(#[trigger] pb[m]),
    ensures
        pa == pb,
        fa == fb,
    decreases pa.len(),
{
    if pa.len() == 0 {
        assert(pb.len() == 0) by {
            if pb.len() > 0 {
                assert(pa.contains(pb[0]));
            }
        }
        assert(pa =~= pb);
        assert(fa =~= fb);
    } else {
        assert(pb.len() > 0) by {
            assert(pb.contains(pa[0]));
        }
        assert(pa[0] == pb[0]) by {
            if pa[0] != pb[0] {
                assert(pa.contains(pb[0]));
                let k = choose|k: int| 0 <= k < pa.len() && pa[k] == pb[0];
                assert(pb.contains(pa[0]));
                let m = choose|m: int| 0 <= m < pb.len() && pb[m] == pa[0];
                assert(k != 0 && m != 0);
                let n0 = crate::pathutil::lower_seq(crate::pathutil::name_spec(pa[0]));
                let nk = crate::pathutil::lower_seq(crate::pathutil::name_spec(pa[k]));
                assert(pkle(fa[0], n0, fa[k], nk));
                assert(pkle(fb[0], nk, fb[m], n0)) by {
                    assert(crate::pathutil::lower_seq(crate::pathutil::name_spec(pb[0])) == nk);
                    assert(crate::pathutil::lower_seq(crate::pathutil::name_spec(pb[m])) == n0);
                }
                assert(fb[0] == fa[k]);
                assert(fb[m] == fa[0]);
                if fa[0] == fa[k] {
                    crate::order::lemma_lex_le_antisym(n0, nk);
                    assert(false);
                } else {
                    assert(false);
                }
            }
        }
        assert(fa[0] == fb[0]);
        let ra = pa.subrange(1, pa.len() as int);
        let ga = fa.subrange(1, fa.len() as int);
        let rb = pb.subrange(1, pb.len() as int);
        let gb = fb.subrange(1, fb.len() as int);
        assert forall|k: int| 0 <= k < ra.len() implies rb.contains(#[trigger] ra[k]) by {
            assert(ra[k] == pa[k + 1]);
            assert(pb.contains(pa[k + 1]));
            let m = choose|m: int| 0 <= m < pb.len() && pb[m] == pa[k + 1];
            assert(m != 0) by {
                if m == 0 {
                    assert(pa[k + 1] == pa[0]);
                }
            }
            assert(rb[m - 1] == ra[k]);
        }
        assert forall|m: int| 0 <= m < rb.len() implies ra.contains(#[trigger] rb[m]) by {
            assert(rb[m] == pb[m + 1]);
            assert(pa.contains(pb[m + 1]));
            let k = choose|k: int| 0 <= k < pa.len() && pa[k] == pb[m + 1];
            assert(k != 0) by {
                if k == 0 {
                    assert(pb[m + 1] == pb[0]);
                }
            }
            assert(ra[k - 1] == rb[m]);
        }
        lemma_sorted_paths_agree(ra, ga, rb, gb);
        assert(ra == rb && ga == gb);
        assert(pa.len() == pb.len() && fa.len() == fb.len());
        assert forall|k: int| 0 <= k < pa.len() implies pa[k] == pb[k] && fa[k] == fb[k] by {
            if k > 0 {
                assert(pa[k] == ra[k - 1]);
                assert(pb[k] == rb[k - 1]);
                assert(fa[k] == ga[k - 1]);
                assert(fb[k] == gb[k - 1]);
            }
        }
        assert(pa =~= pb);
        assert(fa =~= fb);
    }
}

/// Feeding the assembler the same entries in any order yields an isomorphic
/// tree for a fixed root: in two completed scans (nothing left in either
/// orphan buffer, nothing above the scan root, sibling names distinct after
/// case folding) that discovered the same paths with the same kinds, any two
/// nodes holding the same path list the same child paths in the same order,
/// whatever their ids.
#[verifier::rlimit(100)]
#[verifier::spinoff_prover]
pub proof fn lemma_assembly_order_independent(t1: Tree, t2: Tree, d1: int, d2: int)
    requires
        t1.nodes@.len() <= usize::MAX as nat,
        t2.nodes@.len() <= usize::MAX as nat,
        t1.finished(),
        t1.fully_attached(),
        t2.finished(),
        t2.fully_attached(),
        t1.root_path@ == t2.root_path@,
        parent_spec(t1.root_path@) is Some ==> !t1.has_path(parent_spec(t1.root_path@)->Some_0),
        forall|p: Seq<u8>| #[trigger] t1.has_path(p) <==> #[trigger] t2.has_path(p),
        forall|i: int, j: int|
            0 <= i < t1.nodes@.len() && 0 <= j < t2.nodes@.len() && t1.path_at(i) == t2.path_at(j)
                ==> t1.nodes@[i].info.is_dir == t2.nodes@[j].info.is_dir,
        forall|i: int, j: int|
            0 <= i < t1.nodes@.len() && 0 <= j < t1.nodes@.len() && i != j && parent_spec(
                t1.path_at(i),
            ) == parent_spec(t1.path_at(j)) && parent_spec(t1.path_at(i)) is Some
                ==> crate::pathutil::lower_seq(crate::pathutil::name_spec(t1.path_at(i)))
                != crate::pathutil::lower_seq(crate::pathutil::name_spec(t1.path_at(j))),
        forall|i: int, j: int|
            0 <= i < t2.nodes@.len() && 0 <= j < t2.nodes@.len() && i != j && parent_spec(
                t2.path_at(i),
            ) == parent_spec(t2.path_at(j)) && parent_spec(t2.path_at(i)) is Some
                ==> crate::pathutil::lower_seq(crate::pathutil::name_spec(t2.path_at(i)))
                != crate::pathutil::lower_seq(crate::pathutil::name_spec(t2.path_at(j))),
        0 <= d1 < t1.nodes@.len(),
        0 <= d2 < t2.nodes@.len(),
        t1.path_at(d1) == t2.path_at(d2),
    ensures
        t1.children_at(d1).map_values(|c: FileId| t1.path_at(c as int)) == t2.children_at(
            d2,
        ).map_values(|c: FileId| t2.path_at(c as int)),
{
    let c1 = t1.children_at(d1);
    let c2 = t2.children_at(d2);
    assert(parent_spec(t2.root_path@) is Some ==> !t2.has_path(
        parent_spec(t2.root_path@)->Some_0,
    )) by {
        if parent_spec(t2.root_path@) is Some && t2.has_path(parent_spec(t2.root_path@)->Some_0) {
            assert(t1.has_path(parent_spec(t1.root_path@)->Some_0));
        }
    }
    assert forall|k: int| 0 <= k < c1.len() implies (#[trigger] c1[k]) < t1.nodes@.len() by {
        assert(t1.child_ok(d1, k));
    }
    assert forall|k: int| 0 <= k < c2.len() implies (#[trigger] c2[k]) < t2.nodes@.len() by {
        assert(t2.child_ok(d2, k));
    }
    // a child path is never the root path
    assert forall|k: int|
        0 <= k < c1.len() implies t1.path_at(#[trigger] c1[k] as int) != t1.root_path@
        && parent_spec(t1.path_at(c1[k] as int)) == Some(t1.path_at(d1)) by {
        assert(t1.child_ok(d1, k));
        lemma_children_exact(t1, d1, c1[k]);
        assert(c1.contains(c1[k]));
        if t1.path_at(c1[k] as int) == t1.root_path@ {
            match t1.root_id {
                Some(r) => {
                    if c1[k] != r {
                        if (c1[k] as int) < r as int {
                            assert(t1.path_at(c1[k] as int) != t1.path_at(r as int));
                        } else {
                            assert(t1.path_at(r as int) != t1.path_at(c1[k] as int));
                        }
                    }
                    assert(t1.root_id != Some(c1[k]));
                    assert(false);
                },
                None => {
                    assert(t1.path_at(c1[k] as int) != t1.root_path@);
                },
            }
        }
    }
    assert forall|k: int|
        0 <= k < c2.len() implies t2.path_at(#[trigger] c2[k] as int) != t2.root_path@
        && parent_spec(t2.path_at(c2[k] as int)) == Some(t2.path_at(d2)) by {
        assert(t2.child_ok(d2, k));
        lemma_children_exact(t2, d2, c2[k]);
        assert(c2.contains(c2[k]));
        if t2.path_at(c2[k] as int) == t2.root_path@ {
            match t2.root_id {
                Some(r) => {
                    if c2[k] != r {
                        if (c2[k] as int) < r as int {
                            assert(t2.path_at(c2[k] as int) != t2.path_at(r as int));
                        } else {
                            assert(t2.path_at(r as int) != t2.path_at(c2[k] as int));
                        }
                    }
                    assert(t2.root_id != Some(c2[k]));
                    assert(false);
                },
                None => {},
            }
        }
    }
    // set equality of the child paths
    assert forall|k: int|
        0 <= k < c1.len() implies exists|m: int|
        0 <= m < c2.len() && t2.path_at(#[trigger] c2[m] as int) == t1.path_at(
            #[trigger] c1[k] as int,
        ) by {
        let q = t1.path_at(c1[k] as int);
        assert(t1.has_path(q)) by {
            assert(t1.child_ok(d1, k));
        }
        assert(t2.has_path(q));
        let j = t2.spec_id_of(q);
        assert(0 <= j < t2.nodes@.len() && t2.path_at(j) == q);
        assert(t2.root_id != Some(j as FileId)) by {
            if t2.root_id == Some(j as FileId) {
                assert(t2.path_at(j) == t2.root_path@);
                assert(q == t1.root_path@);
            }
        }
        lemma_children_exact(t2, d2, j as FileId);
        assert(parent_spec(t2.path_at(j)) == Some(t2.path_at(d2)));
        assert(t2.children_at(d2).contains(j as FileId));
        let m = choose|m: int| 0 <= m < c2.len() && c2[m] == j as FileId;
        assert(t2.path_at(c2[m] as int) == q);
    }
    assert forall|m: int|
        0 <= m < c2.len() implies exists|k: int|
        0 <= k < c1.len() && t1.path_at(#[trigger] c1[k] as int) == t2.path_at(
            #[trigger] c2[m] as int,
        ) by {
        let q = t2.path_at(c2[m] as int);
        assert(t2.has_path(q)) by {
            assert(t2.child_ok(d2, m));
        }
        assert(t1.has_path(q));
        let j = t1.spec_id_of(q);
        assert(0 <= j < t1.nodes@.len() && t1.path_at(j) == q);
        assert(t1.root_id != Some(j as FileId)) by {
            if t1.root_id == Some(j as FileId) {
                assert(t1.path_at(j) == t1.root_path@);
            }
        }
        lemma_children_exact(t1, d1, j as FileId);
        assert(parent_spec(t1.path_at(j)) == Some(t1.path_at(d1)));
        assert(t1.children_at(d1).contains(j as FileId));
        let k = choose|k: int| 0 <= k < c1.len() && c1[k] == j as FileId;
        assert(t1.path_at(c1[k] as int) == q);
    }
    // distinct paths and keys within each list
    assert forall|k1: int, k2: int|
        0 <= k1 < k2 < c1.len() implies t1.path_at(#[trigger] c1[k1] as int) != t1.path_at(
        #[trigger] c1[k2] as int,
    ) && !(pkey_file(t1, c1[k1]) == pkey_file(t1, c1[k2]) && pkey_name(t1, c1[k1]) == pkey_name(
        t1,
        c1[k2],
    )) by {
        assert(t1.child_ok(d1, k1));
        assert(t1.child_ok(d1, k2));
        assert(c1[k1] != c1[k2]);
        if (c1[k1] as int) < c1[k2] as int {
            assert(t1.path_at(c1[k1] as int) != t1.path_at(c1[k2] as int));
        } else {
            assert(t1.path_at(c1[k2] as int) != t1.path_at(c1[k1] as int));
        }
        assert(pkey_name(t1, c1[k1]) != pkey_name(t1, c1[k2]));
    }
    assert forall|k1: int, k2: int|
        0 <= k1 < k2 < c2.len() implies t2.path_at(#[trigger] c2[k1] as int) != t2.path_at(
        #[trigger] c2[k2] as int,
    ) && !(pkey_file(t2, c2[k1]) == pkey_file(t2, c2[k2]) && pkey_name(t2, c2[k1]) == pkey_name(
        t2,
        c2[k2],
    )) by {
        assert(t2.child_ok(d2, k1));
        assert(t2.child_ok(d2, k2));
        assert(c2[k1] != c2[k2]);
        if (c2[k1] as int) < c2[k2] as int {
            assert(t2.path_at(c2[k1] as int) != t2.path_at(c2[k2] as int));
        } else {
            assert(t2.path_at(c2[k2] as int) != t2.path_at(c2[k1] as int));
        }
        assert(pkey_name(t2, c2[k1]) != pkey_name(t2, c2[k2]));
    }
    let pa = c1.map_values(|c: FileId| t1.path_at(c as int));
    let fa = c1.map_values(|c: FileId| !t1.nodes@[c as int].info.is_dir);
    let pb = c2.map_values(|c: FileId| t2.path_at(c as int));
    let fb = c2.map_values(|c: FileId| !t2.nodes@[c as int].info.is_dir);
    assert forall|k1: int, k2: int|
        0 <= k1 < k2 < pa.len() implies pkle(
        fa[k1],
        crate::pathutil::lower_seq(crate::pathutil::name_spec(#[trigger] pa[k1])),
        fa[k2],
        crate::pathutil::lower_seq(crate::pathutil::name_spec(#[trigger] pa[k2])),
    ) by {
        assert(crate::order::key_le(t1.nodes@, c1[k1], c1[k2]));
    }
    assert forall|k1: int, k2: int|
        0 <= k1 < k2 < pb.len() implies pkle(
        fb[k1],
        crate::pathutil::lower_seq(crate::pathutil::name_spec(#[trigger] pb[k1])),
        fb[k2],
        crate::pathutil::lower_seq(crate::pathutil::name_spec(#[trigger] pb[k2])),
    ) by {
        assert(crate::order::key_le(t2.nodes@, c2[k1], c2[k2]));
    }
    assert forall|k1: int, k2: int|
        0 <= k1 < k2 < pa.len() implies !(fa[k1] == fa[k2] && crate::pathutil::lower_seq(
        crate::pathutil::name_spec(#[trigger] pa[k1]),
    ) == crate::pathutil::lower_seq(crate::pathutil::name_spec(#[trigger] pa[k2]))) by {
        assert(pkey_name(t1, c1[k1]) != pkey_name(t1, c1[k2]));
    }
    assert forall|k1: int, k2: int|
        0 <= k1 < k2 < pb.len() implies !(fb[k1] == fb[k2] && crate::pathutil::lower_seq(
        crate::pathutil::name_spec(#[trigger] pb[k1]),
    ) == crate::pathutil::lower_seq(crate::pathutil::name_spec(#[trigger] pb[k2]))) by {
        assert(pkey_name(t2, c2[k1]) != pkey_name(t2, c2[k2]));
    }
    assert forall|k: int, m: int|
        0 <= k < pa.len() && 0 <= m < pb.len() && #[trigger] pa[k] == #[trigger] pb[m] implies fa[k]
        == fb[m] by {
        assert(t1.path_at(c1[k] as int) == t2.path_at(c2[m] as int));
    }
    assert forall|k: int| 0 <= k < pa.len() implies pb.contains(#[trigger] pa[k]) by {
        let m = choose|m: int|
            0 <= m < c2.len() && t2.path_at(c2[m] as int) == t1.path_at(c1[k] as int);
        assert(pb[m] == pa[k]);
    }
    assert forall|m: int| 0 <= m < pb.len() implies pa.contains(#[trigger] pb[m]) by {
        let k = choose|k: int|
            0 <= k < c1.len() && t1.path_at(c1[k] as int) == t2.path_at(c2[m] as int);
        assert(pa[k] == pb[m]);
    }
    lemma_sorted_paths_agree(pa, fa, pb, fb);
}

} // verus!
