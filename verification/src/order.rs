//! The deterministic child ordering applied at scan completion:
//! directories before files, then case-insensitive (ASCII) name order.

use vstd::prelude::*;

use crate::model::{FileId, FileNode};
use crate::pathutil::{lower_byte, lower_seq, name_spec};

verus! {

/// Lexicographic order on byte strings.
pub open spec fn lex_le(x: Seq<u8>, y: Seq<u8>) -> bool
    decreases x.len(),
{
    if x.len() == 0 {
        true
    } else if y.len() == 0 {
        false
    } else if x[0] < y[0] {
        true
    } else if x[0] > y[0] {
        false
    } else {
        lex_le(x.subrange(1, x.len() as int), y.subrange(1, y.len() as int))
    }
}

/// The order is total.
pub proof fn lemma_lex_le_total(x: Seq<u8>, y: Seq<u8>)
    ensures
        lex_le(x, y) || lex_le(y, x),
    decreases x.len(),
{
    if x.len() > 0 && y.len() > 0 && x[0] == y[0] {
        lemma_lex_le_total(x.subrange(1, x.len() as int), y.subrange(1, y.len() as int));
    }
}

/// The order is transitive.
pub proof fn lemma_lex_le_trans(x: Seq<u8>, y: Seq<u8>, z: Seq<u8>)
    requires
        lex_le(x, y),
        lex_le(y, z),
    ensures
        lex_le(x, z),
    decreases x.len(),
{
    if x.len() > 0 && y.len() > 0 && z.len() > 0 && x[0] == y[0] && y[0] == z[0] {
        lemma_lex_le_trans(
            x.subrange(1, x.len() as int),
            y.subrange(1, y.len() as int),
            z.subrange(1, z.len() as int),
        );
    }
}

/// The order is antisymmetric.
pub proof fn lemma_lex_le_antisym(x: Seq<u8>, y: Seq<u8>)
    requires
        lex_le(x, y),
        lex_le(y, x),
    ensures
        x == y,
    decreases x.len(),
{
    if x.len() > 0 && y.len() > 0 && x[0] == y[0] {
        lemma_lex_le_antisym(x.subrange(1, x.len() as int), y.subrange(1, y.len() as int));
        assert(x =~= seq![x[0]] + x.subrange(1, x.len() as int));
        assert(y =~= seq![y[0]] + y.subrange(1, y.len() as int));
    }
}

/// The sort key order between two nodes: directories before files, then
/// ASCII-case-insensitive name order.
pub open spec fn key_le(s: Seq<FileNode>, a: FileId, b: FileId) -> bool {
    let fa = !s[a as int].info.is_dir;
    let fb = !s[b as int].info.is_dir;
    if fa != fb {
        fb
    } else {
        lex_le(lower_seq(name_spec(s[a as int].info.path@)), lower_seq(name_spec(s[b as int].info.path@)))
    }
}

/// Key order is total over valid ids.
pub proof fn lemma_key_le_total(s: Seq<FileNode>, a: FileId, b: FileId)
    ensures
        key_le(s, a, b) || key_le(s, b, a),
{
    lemma_lex_le_total(
        lower_seq(name_spec(s[a as int].info.path@)),
        lower_seq(name_spec(s[b as int].info.path@)),
    );
}

/// Key order is transitive.
pub proof fn lemma_key_le_trans(s: Seq<FileNode>, a: FileId, b: FileId, c: FileId)
    requires
        key_le(s, a, b),
        key_le(s, b, c),
    ensures
        key_le(s, a, c),
{
    let la = lower_seq(name_spec(s[a as int].info.path@));
    let lb = lower_seq(name_spec(s[b as int].info.path@));
    let lc = lower_seq(name_spec(s[c as int].info.path@));
    if !s[a as int].info.is_dir == !s[b as int].info.is_dir && !s[b as int].info.is_dir == !s[c as int].info.is_dir {
        lemma_lex_le_trans(la, lb, lc);
    }
}

/// ASCII lower-casing of one byte, mirroring `lower_byte`.
pub fn to_lower(b: u8) -> (r: u8)
    ensures
        r == lower_byte(b),
{
    if 65 <= b && b <= 90 {
        b + 32
    } else {
        b
    }
}

/// Equal lowered prefixes let the comparison start later.
proof fn lemma_lex_le_skip(x: Seq<u8>, y: Seq<u8>, i: int)
    requires
        0 <= i <= x.len(),
        i <= y.len(),
        forall|j: int| 0 <= j < i ==> x[j] == y[j],
    ensures
        lex_le(x, y) == lex_le(
            x.subrange(i, x.len() as int),
            y.subrange(i, y.len() as int),
        ),
    decreases i,
{
    if i > 0 {
        assert(x.len() > 0 && y.len() > 0 && x[0] == y[0]);
        let x1 = x.subrange(1, x.len() as int);
        let y1 = y.subrange(1, y.len() as int);
        lemma_lex_le_skip(x1, y1, i - 1);
        assert(x1.subrange(i - 1, x1.len() as int) =~= x.subrange(i, x.len() as int));
        assert(y1.subrange(i - 1, y1.len() as int) =~= y.subrange(i, y.len() as int));
    } else {
        assert(x.subrange(0, x.len() as int) =~= x);
        assert(y.subrange(0, y.len() as int) =~= y);
    }
}

/// Compares two byte strings by their ASCII-lowered form.
pub fn lex_le_lowered(x: &Vec<u8>, y: &Vec<u8>) -> (r: bool)
    ensures
        r == lex_le(lower_seq(x@), lower_seq(y@)),
{
    let ghost lx = lower_seq(x@);
    let ghost ly = lower_seq(y@);
    let mut i: usize = 0;
    loop
        invariant
            i <= x.len(),
            i <= y.len(),
            lx == lower_seq(x@),
            ly == lower_seq(y@),
            lx.len() == x@.len(),
            ly.len() == y@.len(),
            forall|j: int| 0 <= j < i ==> lx[j] == ly[j],
        decreases x@.len() - i,
    {
        proof {
            lemma_lex_le_skip(lx, ly, i as int);
        }
        if i >= x.len() {
            return true;
        }
        if i >= y.len() {
            return false;
        }
        let cx = to_lower(x[i]);
        let cy = to_lower(y[i]);
        if cx < cy {
            proof {
                assert(lx.subrange(i as int, lx.len() as int)[0] == cx);
                assert(ly.subrange(i as int, ly.len() as int)[0] == cy);
            }
            return true;
        }
        if cx > cy {
            proof {
                assert(lx.subrange(i as int, lx.len() as int)[0] == cx);
                assert(ly.subrange(i as int, ly.len() as int)[0] == cy);
            }
            return false;
        }
        proof {
            assert(lx[i as int] == cx && ly[i as int] == cy);
        }
        i = i + 1;
    }
}

/// Compares two node ids by sort key.
pub fn key_le_exec(nodes: &Vec<FileNode>, a: FileId, b: FileId) -> (r: bool)
    requires
        a < nodes@.len(),
        b < nodes@.len(),
    ensures
        r == key_le(nodes@, a, b),
{
    let fa = !nodes[a].info.is_dir;
    let fb = !nodes[b].info.is_dir;
    if fa != fb {
        fb
    } else {
        let na = crate::pathutil::name_of(&nodes[a].info.path);
        let nb = crate::pathutil::name_of(&nodes[b].info.path);
        lex_le_lowered(&na, &nb)
    }
}

/// Sorted by key.
pub open spec fn sorted_by_key(nodes: Seq<FileNode>, s: Seq<FileId>) -> bool {
    forall|k1: int, k2: int|
        0 <= k1 < k2 < s.len() ==> key_le(nodes, #[trigger] s[k1], #[trigger] s[k2])
}

/// The position of the first occurrence of `c` in `s` (the length of `s`
/// where it does not occur).
pub open spec fn pos_of(s: Seq<FileId>, c: FileId) -> int
    decreases s.len(),
{
    if s.len() == 0 {
        0
    } else if s[0] == c {
        0
    } else {
        1 + pos_of(s.drop_first(), c)
    }
}

/// In a duplicate-free list, the position of an element is its index.
proof fn lemma_pos_of_index(s: Seq<FileId>, m: int)
    requires
        0 <= m < s.len(),
        forall|k1: int, k2: int| 0 <= k1 < k2 < s.len() ==> s[k1] != s[k2],
    ensures
        pos_of(s, s[m]) == m,
    decreases s.len(),
{
    if s[0] == s[m] {
        if m != 0 {
            assert(s[0] != s[m]);
        }
    } else {
        let r = s.drop_first();
        assert forall|k1: int, k2: int| 0 <= k1 < k2 < r.len() implies r[k1] != r[k2] by {
            assert(r[k1] == s[k1 + 1]);
            assert(r[k2] == s[k2 + 1]);
        }
        assert(r[m - 1] == s[m]);
        lemma_pos_of_index(r, m - 1);
    }
}

/// Sorts a list of distinct, valid node ids by key: stable insertion into
/// position, preserving membership and distinctness. Stability is part of
/// the contract: ids whose keys are equal keep their input order, so the
/// result is fully determined by the input.
#[verifier::loop_isolation(false)]
#[verifier::rlimit(100)]
pub fn sort_ids(nodes: &Vec<FileNode>, ids: &Vec<FileId>) -> (out: Vec<FileId>)
    requires
        forall|k: int| 0 <= k < ids@.len() ==> #[trigger] ids@[k] < nodes@.len(),
        forall|k1: int, k2: int| 0 <= k1 < k2 < ids@.len() ==> ids@[k1] != ids@[k2],
    ensures
        out@.len() == ids@.len(),
        forall|c: FileId| out@.contains(c) == ids@.contains(c),
        forall|k1: int, k2: int| 0 <= k1 < k2 < out@.len() ==> out@[k1] != out@[k2],
        sorted_by_key(nodes@, out@),
        forall|k: int| 0 <= k < out@.len() ==> #[trigger] out@[k] < nodes@.len(),
        forall|k1: int, k2: int|
            0 <= k1 < k2 < out@.len() && key_le(nodes@, #[trigger] out@[k2], #[trigger] out@[k1])
                ==> pos_of(ids@, out@[k1]) < pos_of(ids@, out@[k2]),
{
    let n = ids.len();
    let mut out: Vec<FileId> = Vec::new();
    let mut i: usize = 0;
    while i < n
        invariant
            i <= n,
            out@.len() == i,
            forall|c: FileId| out@.contains(c) == ids@.subrange(0, i as int).contains(c),
            forall|k1: int, k2: int| 0 <= k1 < k2 < out@.len() ==> out@[k1] != out@[k2],
            sorted_by_key(nodes@, out@),
            forall|k: int| 0 <= k < out@.len() ==> #[trigger] out@[k] < nodes@.len(),
            forall|k: int| 0 <= k < out@.len() ==> 0 <= pos_of(ids@, #[trigger] out@[k]) < i,
            forall|k1: int, k2: int|
                0 <= k1 < k2 < out@.len() && key_le(
                    nodes@,
                    #[trigger] out@[k2],
                    #[trigger] out@[k1],
                ) ==> pos_of(ids@, out@[k1]) < pos_of(ids@, out@[k2]),
        decreases n - i,
    {
        let id = ids[i];
        let mut pos: usize = 0;
        while pos < out.len() && key_le_exec(nodes, out[pos], id)
            invariant
                pos <= out@.len(),
                forall|k: int| 0 <= k < pos ==> key_le(nodes@, #[trigger] out@[k], id),
            decreases out@.len() - pos,
        {
            pos = pos + 1;
        }
        proof {
            assert(pos == out@.len() || !key_le(nodes@, out@[pos as int], id));
        }
        let ghost before = out@;
        proof {
            if pos < out@.len() {
                lemma_key_le_total(nodes@, out@[pos as int], id);
                assert(key_le(nodes@, id, out@[pos as int]));
            }
        }
        out.insert(pos, id);
        proof {
            assert(out@ == before.insert(pos as int, id));
            assert(forall|k: int| 0 <= k < pos ==> out@[k] == before[k]);
            assert(out@[pos as int] == id);
            assert(forall|k: int| pos < k < out@.len() ==> out@[k] == before[k - 1]);
            // membership
            assert forall|c: FileId| out@.contains(c) == ids@.subrange(
                0,
                i as int + 1,
            ).contains(c) by {
                let pre_sub = ids@.subrange(0, i as int);
                let new_sub = ids@.subrange(0, i as int + 1);
                assert(new_sub[i as int] == id);
                assert(forall|k: int| 0 <= k < i ==> new_sub[k] == pre_sub[k]);
                if out@.contains(c) {
                    let k = choose|k: int| 0 <= k < out@.len() && out@[k] == c;
                    if k == pos as int {
                        assert(new_sub.contains(c)) by {
                            assert(new_sub[i as int] == c);
                        }
                    } else {
                        let kk = if k < pos as int {
                            k
                        } else {
                            k - 1
                        };
                        assert(before[kk] == c);
                        assert(before.contains(c));
                        let m = choose|m: int| 0 <= m < pre_sub.len() && pre_sub[m] == c;
                        assert(new_sub[m] == c);
                        assert(new_sub.contains(c));
                    }
                }
                if new_sub.contains(c) {
                    let m = choose|m: int| 0 <= m < new_sub.len() && new_sub[m] == c;
                    if m == i as int {
                        assert(out@[pos as int] == c);
                        assert(out@.contains(c));
                    } else {
                        assert(pre_sub[m] == c);
                        assert(pre_sub.contains(c));
                        assert(before.contains(c));
                        let k = choose|k: int| 0 <= k < before.len() && before[k] == c;
                        let kk = if k < pos as int {
                            k
                        } else {
                            k + 1
                        };
                        assert(out@[kk] == c);
                        assert(out@.contains(c));
                    }
                }
            }
            // distinctness: id is not among the previous elements
            assert(!before.contains(id)) by {
                if before.contains(id) {
                    assert(ids@.subrange(0, i as int).contains(id));
                    let m = choose|m: int|
                        0 <= m < i && ids@.subrange(0, i as int)[m] == id;
                    assert(ids@[m] == id && ids@[i as int] == id);
                }
            }
            assert forall|k1: int, k2: int|
                0 <= k1 < k2 < out@.len() implies out@[k1] != out@[k2] by {
                if k1 == pos as int {
                    let kk2 = k2 - 1;
                    assert(out@[k2] == before[kk2]);
                    assert(before.contains(before[kk2]));
                } else if k2 == pos as int {
                    assert(out@[k1] == before[k1]);
                    assert(before.contains(before[k1]));
                } else {
                    let kk1 = if k1 < pos as int {
                        k1
                    } else {
                        k1 - 1
                    };
                    let kk2 = if k2 < pos as int {
                        k2
                    } else {
                        k2 - 1
                    };
                    assert(before[kk1] != before[kk2]);
                }
            }
            // sortedness
            assert forall|k1: int, k2: int|
                0 <= k1 < k2 < out@.len() implies key_le(nodes@, out@[k1], out@[k2]) by {
                if k1 == pos as int {
                    // id <= everything at and after pos
                    let kk2 = k2 - 1;
                    assert(out@[k2] == before[kk2]);
                    if kk2 == pos as int {
                    } else {
                        lemma_key_le_trans(nodes@, id, before[pos as int], before[kk2]);
                    }
                } else if k2 == pos as int {
                    assert(out@[k1] == before[k1]);
                } else {
                    let kk1 = if k1 < pos as int {
                        k1
                    } else {
                        k1 - 1
                    };
                    let kk2 = if k2 < pos as int {
                        k2
                    } else {
                        k2 - 1
                    };
                    assert(key_le(nodes@, before[kk1], before[kk2]));
                }
            }
            // every element came from the processed prefix
            assert forall|k: int|
                0 <= k < out@.len() implies 0 <= pos_of(ids@, #[trigger] out@[k]) < i + 1 by {
                if k == pos as int {
                    lemma_pos_of_index(ids@, i as int);
                } else {
                    let kk = if k < pos as int {
                        k
                    } else {
                        k - 1
                    };
                    assert(out@[k] == before[kk]);
                }
            }
            // stability: ids with equal keys keep their input order
            assert forall|k1: int, k2: int|
                0 <= k1 < k2 < out@.len() && key_le(
                    nodes@,
                    #[trigger] out@[k2],
                    #[trigger] out@[k1],
                ) implies pos_of(ids@, out@[k1]) < pos_of(ids@, out@[k2]) by {
                lemma_pos_of_index(ids@, i as int);
                if k1 == pos as int {
                    let kk2 = k2 - 1;
                    assert(out@[k2] == before[kk2]);
                    assert(key_le(nodes@, before[kk2], id));
                    if kk2 == pos as int {
                        assert(!key_le(nodes@, before[pos as int], id));
                        assert(false);
                    } else {
                        assert(key_le(nodes@, before[pos as int], before[kk2]));
                        lemma_key_le_trans(nodes@, before[pos as int], before[kk2], id);
                        assert(!key_le(nodes@, before[pos as int], id));
                        assert(false);
                    }
                } else if k2 == pos as int {
                    assert(out@[k1] == before[k1]);
                    assert(0 <= pos_of(ids@, before[k1]) < i);
                } else {
                    let kk1 = if k1 < pos as int {
                        k1
                    } else {
                        k1 - 1
                    };
                    let kk2 = if k2 < pos as int {
                        k2
                    } else {
                        k2 - 1
                    };
                    assert(out@[k1] == before[kk1]);
                    assert(out@[k2] == before[kk2]);
                }
            }
        }
        i = i + 1;
        proof {
            assert(ids@.subrange(0, i as int) == ids@.subrange(0, (i - 1) as int + 1));
        }
    }
    proof {
        assert(ids@.subrange(0, n as int) =~= ids@);
    }
    out
}

} // verus!
