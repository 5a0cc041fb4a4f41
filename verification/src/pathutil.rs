//! Byte-string paths and their component structure.
//!
//! Paths are slash-separated byte strings (`Vec<u8>`), as handed over by the
//! platform layer. The parent of a path is everything before its last slash;
//! the name is everything after it. `"/"` and the empty path have no parent.

use vstd::prelude::*;

verus! {

/// The byte value of `'/'`.
pub const SLASH: u8 = 47;

/// Index of the last slash in `p`, or -1 if `p` holds none.
pub open spec fn last_slash_at(p: Seq<u8>) -> int
    decreases p.len(),
{
    if p.len() == 0 {
        -1
    } else if p[p.len() - 1] == SLASH {
        p.len() - 1
    } else {
        last_slash_at(p.drop_last())
    }
}

pub proof fn lemma_last_slash_at_bounds(p: Seq<u8>)
    ensures
        -1 <= last_slash_at(p) < p.len(),
        last_slash_at(p) >= 0 ==> p[last_slash_at(p)] == SLASH,
        forall|i: int| last_slash_at(p) < i < p.len() ==> p[i] != SLASH,
    decreases p.len(),
{
    if p.len() > 0 && p[p.len() - 1] != SLASH {
        lemma_last_slash_at_bounds(p.drop_last());
        assert(forall|i: int| 0 <= i < p.len() - 1 ==> p.drop_last()[i] == p[i]);
    }
}

/// The parent of a path: everything before the last slash. The empty path and
/// `"/"` have none; a path with no slash has the empty parent; `"/x"` has the
/// parent `"/"`.
pub open spec fn parent_spec(p: Seq<u8>) -> Option<Seq<u8>> {
    if p.len() == 0 || p =~= seq![SLASH] {
        None
    } else if last_slash_at(p) <= 0 {
        if last_slash_at(p) < 0 {
            Some(Seq::empty())
        } else {
            Some(seq![SLASH])
        }
    } else {
        Some(p.subrange(0, last_slash_at(p)))
    }
}

/// The name of a path: everything after the last slash.
pub open spec fn name_spec(p: Seq<u8>) -> Seq<u8> {
    p.subrange(last_slash_at(p) + 1, p.len() as int)
}

/// A parent is strictly shorter than its child.
pub proof fn lemma_parent_shorter(p: Seq<u8>)
    ensures
        parent_spec(p) is Some ==> parent_spec(p)->Some_0.len() < p.len(),
{
    lemma_last_slash_at_bounds(p);
}

/// Finds the index of the last slash in `p`, mirroring `last_slash_at`.
pub fn find_last_slash(p: &Vec<u8>) -> (r: Option<usize>)
    ensures
        match r {
            Some(i) => last_slash_at(p@) == i as int && (i as int) < p@.len(),
            None => last_slash_at(p@) == -1,
        },
{
    proof {
        lemma_last_slash_at_bounds(p@);
        assert(p@.subrange(0, p@.len() as int) =~= p@);
    }
    let mut i: usize = p.len();
    while i > 0
        invariant
            i <= p.len(),
            last_slash_at(p@) == last_slash_at(p@.subrange(0, i as int)),
        decreases i,
    {
        proof {
            assert(p@.subrange(0, i as int).drop_last() =~= p@.subrange(0, i - 1));
        }
        if p[i - 1] == SLASH {
            proof {
                assert(p@.subrange(0, i as int).last() == p@[i - 1]);
            }
            return Some(i - 1);
        }
        i = i - 1;
    }
    proof {
        assert(p@.subrange(0, 0) =~= Seq::<u8>::empty());
    }
    None
}

/// The parent path of `p`, as a fresh vector, mirroring `parent_spec`.
pub fn parent_of(p: &Vec<u8>) -> (r: Option<Vec<u8>>)
    ensures
        match r {
            Some(q) => parent_spec(p@) == Some(q@),
            None => parent_spec(p@) is None,
        },
{
    if p.len() == 0 {
        return None;
    }
    match find_last_slash(p) {
        None => Some(Vec::new()),
        Some(k) => {
            if k == 0 {
                if p.len() == 1 {
                    proof {
                        lemma_last_slash_at_bounds(p@);
                        assert(p@ =~= seq![SLASH]);
                    }
                    None
                } else {
                    let mut v: Vec<u8> = Vec::new();
                    v.push(SLASH);
                    proof {
                        assert(v@ =~= seq![SLASH]);
                        assert(!(p@ =~= seq![SLASH]));
                    }
                    Some(v)
                }
            } else {
                proof {
                    lemma_last_slash_at_bounds(p@);
                    assert(!(p@ =~= seq![SLASH])) by {
                        if p@ =~= seq![SLASH] {
                            assert(last_slash_at(p@) == 0);
                        }
                    }
                }
                let mut v: Vec<u8> = Vec::new();
                let mut i: usize = 0;
                while i < k
                    invariant
                        0 <= i <= k < p.len(),
                        v@ =~= p@.subrange(0, i as int),
                    decreases k - i,
                {
                    v.push(p[i]);
                    i = i + 1;
                }
                Some(v)
            }
        },
    }
}

/// The name component of `p` (everything after the last slash).
pub fn name_of(p: &Vec<u8>) -> (r: Vec<u8>)
    ensures
        r@ == name_spec(p@),
{
    let n = p.len();
    let start: usize = match find_last_slash(p) {
        Some(k) => {
            proof {
                assert(k < n);
            }
            k + 1
        },
        None => 0,
    };
    proof {
        lemma_last_slash_at_bounds(p@);
    }
    let mut v: Vec<u8> = Vec::new();
    let mut i: usize = start;
    while i < p.len()
        invariant
            start <= i <= p.len(),
            start as int == last_slash_at(p@) + 1,
            v@ =~= p@.subrange(start as int, i as int),
        decreases p.len() - i,
    {
        v.push(p[i]);
        i = i + 1;
    }
    proof {
        assert(v@ =~= name_spec(p@));
    }
    v
}

/// Byte-wise equality of two byte strings.
pub fn eq_bytes(a: &[u8], b: &[u8]) -> (r: bool)
    ensures
        r == (a@ == b@),
{
    if a.len() != b.len() {
        proof {
            assert(a@ != b@) by {
                if a@ == b@ {
                    assert(a@.len() == b@.len());
                }
            }
        }
        return false;
    }
    let mut i: usize = 0;
    while i < a.len()
        invariant
            i <= a.len(),
            a@.len() == b@.len(),
            forall|j: int| 0 <= j < i ==> a@[j] == b@[j],
        decreases a.len() - i,
    {
        if a[i] != b[i] {
            return false;
        }
        i = i + 1;
    }
    proof {
        assert(a@ =~= b@);
    }
    true
}

/// Whether `b` lies in the subtree rooted at `a`: `b` equals `a`, or `a` is
/// reached from `b` by taking parents.
pub open spec fn is_descendant_path(a: Seq<u8>, b: Seq<u8>) -> bool
    decreases b.len(),
{
    if a == b {
        true
    } else if parent_spec(b) is Some {
        is_descendant_path_helper(a, b)
    } else {
        false
    }
}

/// The recursive step of `is_descendant_path`, guarded so that the
/// recursion visibly shortens the path.
pub open spec fn is_descendant_path_helper(a: Seq<u8>, b: Seq<u8>) -> bool
    recommends
        parent_spec(b) is Some,
    decreases b.len(), 0int,
    when parent_spec(b) is Some && parent_spec(b)->Some_0.len() < b.len()
{
    is_descendant_path(a, parent_spec(b)->Some_0)
}

/// The helper's `when` clause always holds for a path with a parent.
pub proof fn lemma_descendant_unfold(a: Seq<u8>, b: Seq<u8>)
    ensures
        is_descendant_path(a, b) == (a == b || (parent_spec(b) is Some && is_descendant_path(
            a,
            parent_spec(b)->Some_0,
        ))),
{
    lemma_parent_shorter(b);
}

/// Tests the descendant relation by walking parents of `b` until `a` or a
/// parentless path is reached.
pub fn is_descendant_of(a: &Vec<u8>, b: &Vec<u8>) -> (r: bool)
    ensures
        r == is_descendant_path(a@, b@),
{
    let mut cur = clone_bytes(b);
    loop
        invariant
            is_descendant_path(a@, b@) == is_descendant_path(a@, cur@),
        decreases cur@.len(),
    {
        proof {
            lemma_descendant_unfold(a@, cur@);
        }
        if eq_bytes(cur.as_slice(), a.as_slice()) {
            return true;
        }
        match parent_of(&cur) {
            None => {
                return false;
            },
            Some(p) => {
                proof {
                    lemma_parent_shorter(cur@);
                }
                cur = p;
            },
        }
    }
}

/// A fresh copy of a byte string.
pub fn clone_bytes(a: &Vec<u8>) -> (r: Vec<u8>)
    ensures
        r@ == a@,
{
    let mut v: Vec<u8> = Vec::new();
    let mut i: usize = 0;
    while i < a.len()
        invariant
            i <= a.len(),
            v@ =~= a@.subrange(0, i as int),
        decreases a.len() - i,
    {
        v.push(a[i]);
        i = i + 1;
    }
    proof {
        assert(v@ =~= a@);
    }
    v
}

/// A descendant is never shorter than its ancestor.
pub proof fn lemma_descendant_len(a: Seq<u8>, b: Seq<u8>)
    requires
        is_descendant_path(a, b),
    ensures
        a.len() <= b.len(),
    decreases b.len(),
{
    lemma_descendant_unfold(a, b);
    if a != b {
        lemma_parent_shorter(b);
        lemma_descendant_len(a, parent_spec(b)->Some_0);
    }
}

/// How many leading bytes joining under `root` occupies: the root and one
/// joining slash, unless the root is empty or already ends with a slash.
pub open spec fn strip_len(root: Seq<u8>) -> int {
    if root.len() == 0 || root[root.len() - 1] == SLASH {
        root.len() as int
    } else {
        root.len() as int + 1
    }
}

/// Whether `p` textually lies strictly under `root`: the root, a joining
/// slash where one is needed, and a non-empty remainder.
pub open spec fn under_root(root: Seq<u8>, p: Seq<u8>) -> bool {
    &&& p.len() > strip_len(root)
    &&& p.subrange(0, root.len() as int) == root
    &&& (root.len() > 0 && root[root.len() - 1] != SLASH ==> p[root.len() as int] == SLASH)
}

/// `p` with the root prefix and the joining slash removed, when `p` lies
/// strictly under `root`; otherwise `p` unchanged.
pub open spec fn rel_to_root_spec(root: Seq<u8>, p: Seq<u8>) -> Seq<u8> {
    if under_root(root, p) {
        p.subrange(strip_len(root), p.len() as int)
    } else {
        p
    }
}

/// Whether `p` textually lies strictly under `root`, mirroring `under_root`.
pub fn is_under_root(root: &Vec<u8>, p: &Vec<u8>) -> (r: bool)
    ensures
        r == under_root(root@, p@),
{
    let rl = root.len();
    if p.len() <= rl {
        proof {
            assert(strip_len(root@) >= rl as int);
        }
        return false;
    }
    let sep = if rl == 0 || root[rl - 1] == SLASH {
        rl
    } else {
        rl + 1
    };
    if p.len() <= sep {
        return false;
    }
    let mut i: usize = 0;
    while i < rl
        invariant
            i <= rl,
            rl == root@.len(),
            rl <= sep < p@.len(),
            forall|j: int| 0 <= j < i ==> p@[j] == root@[j],
        decreases rl - i,
    {
        if p[i] != root[i] {
            proof {
                assert(p@.subrange(0, rl as int) != root@) by {
                    if p@.subrange(0, rl as int) == root@ {
                        assert(p@.subrange(0, rl as int)[i as int] == root@[i as int]);
                    }
                }
            }
            return false;
        }
        i = i + 1;
    }
    proof {
        assert(p@.subrange(0, rl as int) =~= root@);
    }
    if rl > 0 && root[rl - 1] != SLASH {
        p[rl] == SLASH
    } else {
        true
    }
}

/// `p` made relative to `root`, mirroring `rel_to_root_spec`.
pub fn rel_to_root(root: &Vec<u8>, p: &Vec<u8>) -> (r: Vec<u8>)
    ensures
        r@ == rel_to_root_spec(root@, p@),
{
    let start: usize = if is_under_root(root, p) {
        let pl = p.len();
        proof {
            assert(p@.len() > strip_len(root@));
            assert(pl == p@.len());
        }
        if root.len() == 0 || root[root.len() - 1] == SLASH {
            root.len()
        } else {
            root.len() + 1
        }
    } else {
        0
    };
    let mut v: Vec<u8> = Vec::new();
    let mut k: usize = start;
    while k < p.len()
        invariant
            start <= k <= p@.len(),
            v@ =~= p@.subrange(start as int, k as int),
        decreases p@.len() - k,
    {
        v.push(p[k]);
        k = k + 1;
    }
    proof {
        assert(v@ =~= p@.subrange(start as int, p@.len() as int));
        if !under_root(root@, p@) {
            assert(v@ =~= p@);
        }
    }
    v
}

/// ASCII lower-casing of one byte.
pub open spec fn lower_byte(b: u8) -> u8 {
    if 65 <= b <= 90 {
        (b + 32) as u8
    } else {
        b
    }
}

/// ASCII lower-casing of a byte string.
pub open spec fn lower_seq(s: Seq<u8>) -> Seq<u8> {
    s.map_values(|b: u8| lower_byte(b))
}

} // verus!
