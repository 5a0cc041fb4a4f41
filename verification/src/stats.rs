//! Statistics collected during a directory scan.

use vstd::prelude::*;

use crate::model::{FileInfo, LocStats};

verus! {

/// At most this many entries are kept in the largest-files list.
pub const MAX_LARGEST_FILES: usize = 10;

/// At most this many error messages are kept, plus one truncation marker.
pub const MAX_ERRORS: usize = 100;

/// Simplified information about a file, used for tracking the largest files.
#[verifier::ext_equal]
#[derive(Debug, Clone)]
pub struct FileStatInfo {
    pub path: Vec<u8>,
    pub size: u64,
    pub human_size: String,
}

/// Statistics collected during a directory scan. Counters saturate instead
/// of wrapping; line-count statistics are aggregated over all files.
#[verifier::ext_equal]
#[derive(Debug, Clone)]
pub struct ScanStats {
    pub total_files: u64,
    pub total_dirs: u64,
    pub total_size_bytes: u64,
    pub file_types: Vec<(Option<Vec<u8>>, u64)>,
    pub largest_files: Vec<FileStatInfo>,
    pub errors: Vec<String>,
    pub loc_totals: LocStats,
}

/// The view of an extension key.
pub open spec fn key_view(k: Option<Vec<u8>>) -> Option<Seq<u8>> {
    match k {
        Some(v) => Some(v@),
        None => None,
    }
}

/// Whether the extension table has an entry for `key`.
pub open spec fn has_type_key(table: Seq<(Option<Vec<u8>>, u64)>, key: Option<Seq<u8>>) -> bool {
    exists|j: int| 0 <= j < table.len() && key_view(table[j].0) == key
}

/// The largest-files list is sorted by size, largest first, and bounded.
pub open spec fn largest_ok(l: Seq<FileStatInfo>) -> bool {
    &&& l.len() <= MAX_LARGEST_FILES as int
    &&& forall|i: int, j: int| 0 <= i < j < l.len() ==> (#[trigger] l[i]).size >= (#[trigger] l[j]).size
}

/// The view of the extension table: keys and counts.
pub open spec fn types_view(t: Seq<(Option<Vec<u8>>, u64)>) -> Seq<(Option<Seq<u8>>, u64)> {
    t.map_values(|e: (Option<Vec<u8>>, u64)| (key_view(e.0), e.1))
}

/// An extension table after `count` joins `key`'s tally: the matching
/// entry's count grows (saturating), every other entry is untouched, and a
/// missing key is appended with `count`.
pub open spec fn bump_key(
    t: Seq<(Option<Seq<u8>>, u64)>,
    key: Option<Seq<u8>>,
    count: u64,
) -> Seq<(Option<Seq<u8>>, u64)> {
    if exists|j: int| 0 <= j < t.len() && (#[trigger] t[j]).0 == key {
        let j = choose|j: int| 0 <= j < t.len() && (#[trigger] t[j]).0 == key;
        t.update(j, (key, add_sat(t[j].1, count)))
    } else {
        t.push((key, count))
    }
}

/// The view of the error list.
pub open spec fn errors_view(es: Seq<String>) -> Seq<Seq<char>> {
    es.map_values(|s: String| s@)
}

/// An error list after one message is recorded: kept below the limit, one
/// truncation marker exactly at it, dropped above it.
pub open spec fn push_error(es: Seq<Seq<char>>, e: Seq<char>) -> Seq<Seq<char>> {
    if es.len() < MAX_ERRORS as int {
        es.push(e)
    } else if es.len() == MAX_ERRORS as int {
        es.push("... more errors truncated ..."@)
    } else {
        es
    }
}

/// The view of the largest-files list: path, size, rendered size.
pub open spec fn largest_view(l: Seq<FileStatInfo>) -> Seq<(Seq<u8>, u64, Seq<char>)> {
    l.map_values(|f: FileStatInfo| (f.path@, f.size, f.human_size@))
}

/// Where a candidate of `size` ranks in a list sorted largest-first: the
/// length of the prefix of entries at least as large.
pub open spec fn lrank(l: Seq<(Seq<u8>, u64, Seq<char>)>, size: u64) -> int
    decreases l.len(),
{
    if l.len() == 0 || l[0].1 < size {
        0
    } else {
        1 + lrank(l.drop_first(), size)
    }
}

/// A largest-files list after one candidate: slotted in at its rank and the
/// list trimmed to the bound, or dropped when it ranks below a full list's
/// last place.
pub open spec fn linsert(
    l: Seq<(Seq<u8>, u64, Seq<char>)>,
    e: (Seq<u8>, u64, Seq<char>),
) -> Seq<(Seq<u8>, u64, Seq<char>)> {
    let pos = lrank(l, e.1);
    if pos < MAX_LARGEST_FILES as int {
        let grown = l.insert(pos, e);
        if grown.len() > MAX_LARGEST_FILES as int {
            grown.subrange(0, MAX_LARGEST_FILES as int)
        } else {
            grown
        }
    } else {
        l
    }
}

/// The rank is pinned by the shape the insertion scan finds: everything
/// before `pos` at least as large, the entry at `pos` (if any) smaller.
proof fn lemma_lrank_pinned(l: Seq<(Seq<u8>, u64, Seq<char>)>, size: u64, pos: int)
    requires
        0 <= pos <= l.len(),
        forall|k: int| 0 <= k < pos ==> (#[trigger] l[k]).1 >= size,
        pos < l.len() ==> l[pos].1 < size,
    ensures
        lrank(l, size) == pos,
    decreases l.len(),
{
    if pos == 0 {
    } else {
        assert(l[0].1 >= size);
        let r = l.drop_first();
        assert forall|k: int| 0 <= k < pos - 1 implies (#[trigger] r[k]).1 >= size by {
            assert(r[k] == l[k + 1]);
        }
        assert(pos - 1 < r.len() ==> r[pos - 1].1 < size) by {
            if pos - 1 < r.len() {
                assert(r[pos - 1] == l[pos]);
            }
        }
        lemma_lrank_pinned(r, size, pos - 1);
    }
}

/// An error list after a whole run of messages is recorded, in order.
pub open spec fn merged_errors(pre: Seq<Seq<char>>, more: Seq<Seq<char>>) -> Seq<Seq<char>>
    decreases more.len(),
{
    if more.len() == 0 {
        pre
    } else {
        merged_errors(push_error(pre, more[0]), more.drop_first())
    }
}

/// An extension table after another table's tallies are folded in, in order.
pub open spec fn merged_types(
    pre: Seq<(Option<Seq<u8>>, u64)>,
    more: Seq<(Option<Seq<u8>>, u64)>,
) -> Seq<(Option<Seq<u8>>, u64)>
    decreases more.len(),
{
    if more.len() == 0 {
        pre
    } else {
        merged_types(bump_key(pre, more[0].0, more[0].1), more.drop_first())
    }
}

/// A largest-files list after another list's candidates, in order.
pub open spec fn merged_largest(
    pre: Seq<(Seq<u8>, u64, Seq<char>)>,
    more: Seq<(Seq<u8>, u64, Seq<char>)>,
) -> Seq<(Seq<u8>, u64, Seq<char>)>
    decreases more.len(),
{
    if more.len() == 0 {
        pre
    } else {
        merged_largest(linsert(pre, more[0]), more.drop_first())
    }
}

/// Folding one more error on the right is one `push_error`.
proof fn lemma_merged_errors_snoc(pre: Seq<Seq<char>>, more: Seq<Seq<char>>, e: Seq<char>)
    ensures
        merged_errors(pre, more.push(e)) == push_error(merged_errors(pre, more), e),
    decreases more.len(),
{
    if more.len() == 0 {
        assert(more.push(e)[0] == e);
        assert(more.push(e).drop_first() =~= Seq::<Seq<char>>::empty());
        assert(merged_errors(pre, more.push(e)) == merged_errors(
            push_error(pre, e),
            more.push(e).drop_first(),
        ));
        assert(merged_errors(push_error(pre, e), more.push(e).drop_first()) == push_error(
            pre,
            e,
        ));
    } else {
        assert(more.push(e)[0] == more[0]);
        assert(more.push(e).drop_first() =~= more.drop_first().push(e));
        lemma_merged_errors_snoc(push_error(pre, more[0]), more.drop_first(), e);
        assert(merged_errors(pre, more.push(e)) == merged_errors(
            push_error(pre, more[0]),
            more.push(e).drop_first(),
        ));
        assert(merged_errors(pre, more) == merged_errors(
            push_error(pre, more[0]),
            more.drop_first(),
        ));
    }
}

/// Folding one more tally on the right is one `bump_key`.
proof fn lemma_merged_types_snoc(
    pre: Seq<(Option<Seq<u8>>, u64)>,
    more: Seq<(Option<Seq<u8>>, u64)>,
    e: (Option<Seq<u8>>, u64),
)
    ensures
        merged_types(pre, more.push(e)) == bump_key(merged_types(pre, more), e.0, e.1),
    decreases more.len(),
{
    if more.len() == 0 {
        assert(more.push(e)[0] == e);
        assert(more.push(e).drop_first() =~= Seq::<(Option<Seq<u8>>, u64)>::empty());
        assert(merged_types(pre, more.push(e)) == merged_types(
            bump_key(pre, e.0, e.1),
            more.push(e).drop_first(),
        ));
        assert(merged_types(bump_key(pre, e.0, e.1), more.push(e).drop_first()) == bump_key(
            pre,
            e.0,
            e.1,
        ));
    } else {
        assert(more.push(e)[0] == more[0]);
        assert(more.push(e).drop_first() =~= more.drop_first().push(e));
        lemma_merged_types_snoc(bump_key(pre, more[0].0, more[0].1), more.drop_first(), e);
        assert(merged_types(pre, more.push(e)) == merged_types(
            bump_key(pre, more[0].0, more[0].1),
            more.push(e).drop_first(),
        ));
        assert(merged_types(pre, more) == merged_types(
            bump_key(pre, more[0].0, more[0].1),
            more.drop_first(),
        ));
    }
}

/// Folding one more candidate on the right is one `linsert`.
proof fn lemma_merged_largest_snoc(
    pre: Seq<(Seq<u8>, u64, Seq<char>)>,
    more: Seq<(Seq<u8>, u64, Seq<char>)>,
    e: (Seq<u8>, u64, Seq<char>),
)
    ensures
        merged_largest(pre, more.push(e)) == linsert(merged_largest(pre, more), e),
    decreases more.len(),
{
    if more.len() == 0 {
        assert(more.push(e)[0] == e);
        assert(more.push(e).drop_first() =~= Seq::<(Seq<u8>, u64, Seq<char>)>::empty());
        assert(merged_largest(pre, more.push(e)) == merged_largest(
            linsert(pre, e),
            more.push(e).drop_first(),
        ));
        assert(merged_largest(linsert(pre, e), more.push(e).drop_first()) == linsert(pre, e));
    } else {
        assert(more.push(e)[0] == more[0]);
        assert(more.push(e).drop_first() =~= more.drop_first().push(e));
        lemma_merged_largest_snoc(linsert(pre, more[0]), more.drop_first(), e);
        assert(merged_largest(pre, more.push(e)) == merged_largest(
            linsert(pre, more[0]),
            more.push(e).drop_first(),
        ));
        assert(merged_largest(pre, more) == merged_largest(
            linsert(pre, more[0]),
            more.drop_first(),
        ));
    }
}

/// How `add_file` changes the statistics: a directory bumps one counter; a
/// file bumps the counters and line totals, adds one to its extension's
/// tally, and offers (path made relative to the scan root, size, rendered
/// size) to the largest-files list.
pub open spec fn add_file_effect(pre: ScanStats, post: ScanStats, info: FileInfo, root: Seq<u8>) -> bool {
    if info.is_dir {
        post == ScanStats { total_dirs: add_sat(pre.total_dirs, 1), ..pre }
    } else {
        &&& post.total_files == add_sat(pre.total_files, 1)
        &&& post.total_dirs == pre.total_dirs
        &&& post.total_size_bytes == add_sat(pre.total_size_bytes, info.size)
        &&& post.errors@ == pre.errors@
        &&& post.loc_totals == (match info.loc_stats {
            Some(l) => LocStats {
                code: add_sat(pre.loc_totals.code, l.code),
                comments: add_sat(pre.loc_totals.comments, l.comments),
                blanks: add_sat(pre.loc_totals.blanks, l.blanks),
            },
            None => pre.loc_totals,
        })
        &&& types_view(post.file_types@) == bump_key(
            types_view(pre.file_types@),
            key_view(info.extension),
            1,
        )
        &&& largest_view(post.largest_files@) == (if info.size > 0 {
            linsert(
                largest_view(pre.largest_files@),
                (crate::pathutil::rel_to_root_spec(root, info.path@), info.size, info.human_size@),
            )
        } else {
            largest_view(pre.largest_files@)
        })
    }
}

/// How `add_error` changes the statistics: one message is recorded, within
/// the limit, and everything else stands.
pub open spec fn add_error_effect(pre: ScanStats, post: ScanStats, error: String) -> bool {
    &&& post.total_files == pre.total_files
    &&& post.total_dirs == pre.total_dirs
    &&& post.total_size_bytes == pre.total_size_bytes
    &&& post.file_types@ == pre.file_types@
    &&& post.largest_files@ == pre.largest_files@
    &&& post.loc_totals == pre.loc_totals
    &&& errors_view(post.errors@) == push_error(errors_view(pre.errors@), error@)
}

/// How `merge` changes the statistics: counters and line totals add
/// (saturating); the other run's errors, extension tallies and largest
/// files are folded in, in order.
pub open spec fn merge_effect(pre: ScanStats, post: ScanStats, other: ScanStats) -> bool {
    &&& post.total_files == add_sat(pre.total_files, other.total_files)
    &&& post.total_dirs == add_sat(pre.total_dirs, other.total_dirs)
    &&& post.total_size_bytes == add_sat(pre.total_size_bytes, other.total_size_bytes)
    &&& post.loc_totals.code == add_sat(pre.loc_totals.code, other.loc_totals.code)
    &&& post.loc_totals.comments == add_sat(pre.loc_totals.comments, other.loc_totals.comments)
    &&& post.loc_totals.blanks == add_sat(pre.loc_totals.blanks, other.loc_totals.blanks)
    &&& errors_view(post.errors@) == merged_errors(
        errors_view(pre.errors@),
        errors_view(other.errors@),
    )
    &&& types_view(post.file_types@) == merged_types(
        types_view(pre.file_types@),
        types_view(other.file_types@),
    )
    &&& largest_view(post.largest_files@) == merged_largest(
        largest_view(pre.largest_files@),
        largest_view(other.largest_files@),
    )
}

impl ScanStats {
    /// The statistics invariant: bounded, sorted largest-files list; distinct
    /// extension keys; bounded error list.
    pub open spec fn wf(self) -> bool {
        &&& largest_ok(self.largest_files@)
        &&& forall|i: int, j: int|
            0 <= i < j < self.file_types@.len() ==> key_view(#[trigger] self.file_types@[i].0)
                != key_view(#[trigger] self.file_types@[j].0)
        &&& self.errors@.len() <= MAX_ERRORS as int + 1
    }

    /// Fresh, empty statistics.
    pub fn new() -> (r: Self)
        ensures
            r.wf(),
            r.total_files == 0,
            r.total_dirs == 0,
            r.total_size_bytes == 0,
            r.file_types@.len() == 0,
            r.largest_files@.len() == 0,
            r.errors@.len() == 0,
            r.loc_totals == (LocStats { code: 0, comments: 0, blanks: 0 }),
    {
        ScanStats {
            total_files: 0,
            total_dirs: 0,
            total_size_bytes: 0,
            file_types: Vec::new(),
            largest_files: Vec::new(),
            errors: Vec::new(),
            loc_totals: LocStats { code: 0, comments: 0, blanks: 0 },
        }
    }

    /// Counts one discovered entry against the scan rooted at `root`: a
    /// directory bumps the directory count; a file bumps the file count, the
    /// total size, its extension's count, the aggregated line counts, and
    /// possibly the largest-files list (kept sorted, largest first, at most
    /// ten entries, with paths stored relative to the root).
    pub fn add_file(&mut self, info: &FileInfo, root: &Vec<u8>)
        requires
            old(self).wf(),
        ensures
            final(self).wf(),
            add_file_effect(*old(self), *final(self), *info, root@),
    {
        if info.is_dir {
            self.add_dir();
            return ;
        }
        self.total_files = saturating_add_u64(self.total_files, 1);
        self.total_size_bytes = saturating_add_u64(self.total_size_bytes, info.size);
        match &info.loc_stats {
            Some(l) => {
                self.loc_totals = LocStats {
                    code: saturating_add_u64(self.loc_totals.code, l.code),
                    comments: saturating_add_u64(self.loc_totals.comments, l.comments),
                    blanks: saturating_add_u64(self.loc_totals.blanks, l.blanks),
                };
            },
            None => {},
        }
        // extension count
        let found = find_type_key(&self.file_types, &info.extension);
        let ghost types0 = self.file_types@;
        let ghost key = key_view(info.extension);
        match found {
            Some(f) => {
                let cur = self.file_types[f].1;
                let slot = &mut self.file_types[f];
                slot.1 = saturating_add_u64(cur, 1);
                proof {
                    assert(key_view(self.file_types@[f as int].0) == key_view(info.extension));
                    assert(forall|k: int|
                        0 <= k < self.file_types@.len() ==> key_view(
                            #[trigger] self.file_types@[k].0,
                        ) == key_view(types0[k].0));
                    assert((#[trigger] types_view(types0)[f as int]).0 == key);
                    let j = choose|j: int|
                        0 <= j < types_view(types0).len() && (#[trigger] types_view(types0)[j]).0
                            == key;
                    assert(j == f as int) by {
                        if j != f as int {
                            if j < f as int {
                                assert(key_view(types0[j].0) != key_view(types0[f as int].0));
                            } else {
                                assert(key_view(types0[f as int].0) != key_view(types0[j].0));
                            }
                        }
                    }
                    assert(types_view(self.file_types@) =~= bump_key(types_view(types0), key, 1));
                }
            },
            None => {
                let new_key = match &info.extension {
                    Some(e) => Some(crate::pathutil::clone_bytes(e)),
                    None => None,
                };
                self.file_types.push((new_key, 1));
                proof {
                    assert(key_view(self.file_types@[types0.len() as int].0) == key_view(
                        info.extension,
                    ));
                    assert(forall|k: int|
                        0 <= k < types0.len() ==> key_view(#[trigger] self.file_types@[k].0)
                            == key_view(types0[k].0));
                    assert(!(exists|j: int|
                        0 <= j < types_view(types0).len() && (#[trigger] types_view(types0)[j]).0
                            == key)) by {
                        if exists|j: int|
                            0 <= j < types_view(types0).len() && (#[trigger] types_view(
                                types0,
                            )[j]).0 == key {
                            let j = choose|j: int|
                                0 <= j < types_view(types0).len() && (#[trigger] types_view(
                                    types0,
                                )[j]).0 == key;
                            assert(key_view(types0[j].0) == key);
                            assert(has_type_key(types0, key));
                        }
                    }
                    assert(types_view(self.file_types@) =~= bump_key(types_view(types0), key, 1));
                }
            },
        }
        // largest files
        let ghost l0 = largest_view(self.largest_files@);
        if info.size > 0 {
            let qualifies = self.largest_files.len() < MAX_LARGEST_FILES || {
                let last = self.largest_files.len() - 1;
                info.size > self.largest_files[last].size
            };
            if qualifies {
                let entry = FileStatInfo {
                    path: crate::pathutil::rel_to_root(root, &info.path),
                    size: info.size,
                    human_size: clone_string(&info.human_size),
                };
                self.insert_largest(entry);
            } else {
                proof {
                    assert(l0.len() == MAX_LARGEST_FILES as int);
                    assert(!(self.largest_files@[l0.len() - 1].size < info.size));
                    assert forall|k: int| 0 <= k < l0.len() implies (#[trigger] l0[k]).1
                        >= info.size by {
                        if k < l0.len() - 1 {
                            assert(self.largest_files@[k].size >= self.largest_files@[l0.len()
                                - 1].size);
                        }
                        assert(l0[k].1 == self.largest_files@[k].size);
                    }
                    lemma_lrank_pinned(l0, info.size, l0.len() as int);
                    assert(largest_view(self.largest_files@) == linsert(
                        l0,
                        (
                            crate::pathutil::rel_to_root_spec(root@, info.path@),
                            info.size,
                            info.human_size@,
                        ),
                    ));
                }
            }
        }
    }

    /// Slots one candidate into the largest-files list, keeping it sorted
    /// (largest first) and bounded; a candidate below the tenth place of a
    /// full list is dropped.
    fn insert_largest(&mut self, entry: FileStatInfo)
        requires
            largest_ok(old(self).largest_files@),
        ensures
            largest_ok(final(self).largest_files@),
            final(self).total_files == old(self).total_files,
            final(self).total_dirs == old(self).total_dirs,
            final(self).total_size_bytes == old(self).total_size_bytes,
            final(self).file_types@ == old(self).file_types@,
            final(self).errors@ == old(self).errors@,
            final(self).loc_totals == old(self).loc_totals,
            largest_view(final(self).largest_files@) == linsert(
                largest_view(old(self).largest_files@),
                (entry.path@, entry.size, entry.human_size@),
            ),
    {
        let ghost v0 = largest_view(old(self).largest_files@);
        let mut pos: usize = 0;
        while pos < self.largest_files.len() && self.largest_files[pos].size >= entry.size
            invariant
                self.largest_files@ == old(self).largest_files@,
                pos <= self.largest_files@.len(),
                forall|k: int|
                    0 <= k < pos ==> (#[trigger] self.largest_files@[k]).size >= entry.size,
            decreases self.largest_files@.len() - pos,
        {
            pos = pos + 1;
        }
        proof {
            assert forall|k: int| 0 <= k < pos implies (#[trigger] v0[k]).1 >= entry.size by {
                assert(v0[k].1 == self.largest_files@[k].size);
            }
            assert((pos as int) < v0.len() ==> v0[pos as int].1 < entry.size) by {
                if (pos as int) < v0.len() {
                    assert(v0[pos as int].1 == self.largest_files@[pos as int].size);
                }
            }
            lemma_lrank_pinned(v0, entry.size, pos as int);
        }
        if pos < MAX_LARGEST_FILES {
            let ghost l0 = self.largest_files@;
            proof {
                if pos < l0.len() {
                    assert(l0[pos as int].size < entry.size);
                }
            }
            self.largest_files.insert(pos, entry);
            proof {
                assert forall|i1: int, i2: int|
                    0 <= i1 < i2 < self.largest_files@.len() implies (
                #[trigger] self.largest_files@[i1]).size >= (
                #[trigger] self.largest_files@[i2]).size by {
                    let a = if i1 < pos as int {
                        i1
                    } else {
                        i1 - 1
                    };
                    let b = if i2 < pos as int {
                        i2
                    } else {
                        i2 - 1
                    };
                    if i1 == pos as int {
                        assert(self.largest_files@[i2] == l0[b]);
                        if b == pos as int {
                        } else {
                            assert(l0[pos as int].size >= l0[b].size);
                        }
                    } else if i2 == pos as int {
                        assert(self.largest_files@[i1] == l0[a]);
                    } else {
                        assert(self.largest_files@[i1] == l0[a]);
                        assert(self.largest_files@[i2] == l0[b]);
                    }
                }
            }
            proof {
                assert(largest_view(self.largest_files@) =~= v0.insert(
                    pos as int,
                    (entry.path@, entry.size, entry.human_size@),
                ));
            }
            if self.largest_files.len() > MAX_LARGEST_FILES {
                let ghost l1 = self.largest_files@;
                self.largest_files.truncate(MAX_LARGEST_FILES);
                proof {
                    assert(self.largest_files@ =~= l1.subrange(
                        0,
                        MAX_LARGEST_FILES as int,
                    ));
                    assert(pos < MAX_LARGEST_FILES);
                    assert(largest_view(self.largest_files@) =~= largest_view(l1).subrange(
                        0,
                        MAX_LARGEST_FILES as int,
                    ));
                }
            }
            proof {
                assert(largest_view(self.largest_files@) =~= linsert(
                    v0,
                    (entry.path@, entry.size, entry.human_size@),
                ));
            }
        } else {
            proof {
                assert(largest_view(self.largest_files@) == linsert(
                    v0,
                    (entry.path@, entry.size, entry.human_size@),
                ));
            }
        }
    }

    /// Counts one directory.
    pub fn add_dir(&mut self)
        requires
            old(self).wf(),
        ensures
            final(self).wf(),
            *final(self) == (ScanStats { total_dirs: add_sat(old(self).total_dirs, 1), ..*old(self) }),
    {
        self.total_dirs = saturating_add_u64(self.total_dirs, 1);
    }

    /// Records an error message: kept up to the limit, then one truncation
    /// marker, then dropped.
    pub fn add_error(&mut self, error: String)
        requires
            old(self).wf(),
        ensures
            final(self).wf(),
            add_error_effect(*old(self), *final(self), error),
    {
        let ghost e0 = errors_view(old(self).errors@);
        let n = self.errors.len();
        if n < MAX_ERRORS {
            self.errors.push(error);
            proof {
                assert(errors_view(self.errors@) =~= e0.push(error@));
            }
        } else if n == MAX_ERRORS {
            self.errors.push(truncation_marker());
            proof {
                assert(errors_view(self.errors@) =~= e0.push(
                    "... more errors truncated ..."@,
                ));
            }
        } else {
            proof {
                assert(errors_view(self.errors@) == push_error(e0, error@));
            }
        }
    }

    /// Merges another run's counters into this one (saturating); error lists
    /// and extension counts are combined; the largest-files list keeps its
    /// bound and order.
    pub fn merge(&mut self, other: &ScanStats)
        requires
            old(self).wf(),
        ensures
            final(self).wf(),
            merge_effect(*old(self), *final(self), *other),
    {
        self.total_files = saturating_add_u64(self.total_files, other.total_files);
        self.total_dirs = saturating_add_u64(self.total_dirs, other.total_dirs);
        self.total_size_bytes = saturating_add_u64(self.total_size_bytes, other.total_size_bytes);
        self.loc_totals = LocStats {
            code: saturating_add_u64(self.loc_totals.code, other.loc_totals.code),
            comments: saturating_add_u64(self.loc_totals.comments, other.loc_totals.comments),
            blanks: saturating_add_u64(self.loc_totals.blanks, other.loc_totals.blanks),
        };
        let ghost e0 = errors_view(old(self).errors@);
        let ghost eo = errors_view(other.errors@);
        let mut j: usize = 0;
        while j < other.errors.len()
            invariant
                self.wf(),
                self.total_files == add_sat(old(self).total_files, other.total_files),
                self.total_dirs == add_sat(old(self).total_dirs, other.total_dirs),
                self.total_size_bytes == add_sat(
                    old(self).total_size_bytes,
                    other.total_size_bytes,
                ),
                self.loc_totals.code == add_sat(old(self).loc_totals.code, other.loc_totals.code),
                self.loc_totals.comments == add_sat(
                    old(self).loc_totals.comments,
                    other.loc_totals.comments,
                ),
                self.loc_totals.blanks == add_sat(
                    old(self).loc_totals.blanks,
                    other.loc_totals.blanks,
                ),
                self.file_types@ == old(self).file_types@,
                self.largest_files@ == old(self).largest_files@,
                j <= other.errors@.len(),
                e0 == errors_view(old(self).errors@),
                eo == errors_view(other.errors@),
                errors_view(self.errors@) == merged_errors(e0, eo.subrange(0, j as int)),
            decreases other.errors@.len() - j,
        {
            let ghost before = errors_view(self.errors@);
            self.add_error(clone_string(&other.errors[j]));
            proof {
                assert(errors_view(self.errors@) == push_error(before, eo[j as int])) by {
                    assert(other.errors@[j as int]@ == eo[j as int]);
                }
                lemma_merged_errors_snoc(e0, eo.subrange(0, j as int), eo[j as int]);
                assert(eo.subrange(0, j as int).push(eo[j as int]) =~= eo.subrange(
                    0,
                    j as int + 1,
                ));
            }
            j = j + 1;
        }
        proof {
            assert(eo.subrange(0, other.errors@.len() as int) =~= eo);
        }
        let ghost t0 = types_view(old(self).file_types@);
        let ghost to = types_view(other.file_types@);
        let ghost em = errors_view(self.errors@);
        let mut k: usize = 0;
        while k < other.file_types.len()
            invariant
                self.wf(),
                self.total_files == add_sat(old(self).total_files, other.total_files),
                self.total_dirs == add_sat(old(self).total_dirs, other.total_dirs),
                self.total_size_bytes == add_sat(
                    old(self).total_size_bytes,
                    other.total_size_bytes,
                ),
                self.loc_totals.code == add_sat(old(self).loc_totals.code, other.loc_totals.code),
                self.loc_totals.comments == add_sat(
                    old(self).loc_totals.comments,
                    other.loc_totals.comments,
                ),
                self.loc_totals.blanks == add_sat(
                    old(self).loc_totals.blanks,
                    other.loc_totals.blanks,
                ),
                self.largest_files@ == old(self).largest_files@,
                errors_view(self.errors@) == em,
                k <= other.file_types@.len(),
                t0 == types_view(old(self).file_types@),
                to == types_view(other.file_types@),
                types_view(self.file_types@) == merged_types(t0, to.subrange(0, k as int)),
            decreases other.file_types@.len() - k,
        {
            let key = match &other.file_types[k].0 {
                Some(e) => Some(crate::pathutil::clone_bytes(e)),
                None => None,
            };
            let count = other.file_types[k].1;
            let ghost before = types_view(self.file_types@);
            proof {
                assert(key_view(key) == key_view(other.file_types@[k as int].0));
                assert(to[k as int] == (key_view(other.file_types@[k as int].0), count));
            }
            self.bump_type_key(key, count);
            proof {
                lemma_merged_types_snoc(t0, to.subrange(0, k as int), to[k as int]);
                assert(to.subrange(0, k as int).push(to[k as int]) =~= to.subrange(
                    0,
                    k as int + 1,
                ));
            }
            k = k + 1;
        }
        proof {
            assert(to.subrange(0, other.file_types@.len() as int) =~= to);
        }
        let ghost l0 = largest_view(old(self).largest_files@);
        let ghost lo = largest_view(other.largest_files@);
        let ghost tm = types_view(self.file_types@);
        let mut m: usize = 0;
        while m < other.largest_files.len()
            invariant
                self.wf(),
                self.total_files == add_sat(old(self).total_files, other.total_files),
                self.total_dirs == add_sat(old(self).total_dirs, other.total_dirs),
                self.total_size_bytes == add_sat(
                    old(self).total_size_bytes,
                    other.total_size_bytes,
                ),
                self.loc_totals.code == add_sat(old(self).loc_totals.code, other.loc_totals.code),
                self.loc_totals.comments == add_sat(
                    old(self).loc_totals.comments,
                    other.loc_totals.comments,
                ),
                self.loc_totals.blanks == add_sat(
                    old(self).loc_totals.blanks,
                    other.loc_totals.blanks,
                ),
                errors_view(self.errors@) == em,
                types_view(self.file_types@) == tm,
                m <= other.largest_files@.len(),
                l0 == largest_view(old(self).largest_files@),
                lo == largest_view(other.largest_files@),
                largest_view(self.largest_files@) == merged_largest(l0, lo.subrange(0, m as int)),
            decreases other.largest_files@.len() - m,
        {
            let e = &other.largest_files[m];
            let entry = FileStatInfo {
                path: crate::pathutil::clone_bytes(&e.path),
                size: e.size,
                human_size: clone_string(&e.human_size),
            };
            proof {
                assert(lo[m as int] == (entry.path@, entry.size, entry.human_size@));
            }
            self.insert_largest(entry);
            proof {
                lemma_merged_largest_snoc(l0, lo.subrange(0, m as int), lo[m as int]);
                assert(lo.subrange(0, m as int).push(lo[m as int]) =~= lo.subrange(
                    0,
                    m as int + 1,
                ));
            }
            m = m + 1;
        }
        proof {
            assert(lo.subrange(0, other.largest_files@.len() as int) =~= lo);
        }
    }

    /// Adds `count` to the extension `key`'s tally.
    fn bump_type_key(&mut self, key: Option<Vec<u8>>, count: u64)
        requires
            old(self).wf(),
        ensures
            final(self).wf(),
            final(self).total_files == old(self).total_files,
            final(self).total_dirs == old(self).total_dirs,
            final(self).total_size_bytes == old(self).total_size_bytes,
            final(self).loc_totals == old(self).loc_totals,
            final(self).errors@ == old(self).errors@,
            final(self).largest_files@ == old(self).largest_files@,
            types_view(final(self).file_types@) == bump_key(
                types_view(old(self).file_types@),
                key_view(key),
                count,
            ),
    {
        let found = find_type_key(&self.file_types, &key);
        let ghost types0 = self.file_types@;
        let ghost kv = key_view(key);
        match found {
            Some(f) => {
                let cur = self.file_types[f].1;
                let slot = &mut self.file_types[f];
                slot.1 = saturating_add_u64(cur, count);
                proof {
                    assert(forall|k: int|
                        0 <= k < self.file_types@.len() ==> key_view(
                            #[trigger] self.file_types@[k].0,
                        ) == key_view(types0[k].0));
                    assert((#[trigger] types_view(types0)[f as int]).0 == kv);
                    let j = choose|j: int|
                        0 <= j < types_view(types0).len() && (#[trigger] types_view(types0)[j]).0
                            == kv;
                    assert(j == f as int) by {
                        if j != f as int {
                            if j < f as int {
                                assert(key_view(types0[j].0) != key_view(types0[f as int].0));
                            } else {
                                assert(key_view(types0[f as int].0) != key_view(types0[j].0));
                            }
                        }
                    }
                    assert(types_view(self.file_types@) =~= bump_key(
                        types_view(types0),
                        kv,
                        count,
                    ));
                }
            },
            None => {
                self.file_types.push((key, count));
                proof {
                    assert(key_view(self.file_types@[types0.len() as int].0) == kv);
                    assert(forall|k: int|
                        0 <= k < types0.len() ==> key_view(#[trigger] self.file_types@[k].0)
                            == key_view(types0[k].0));
                    assert(!(exists|j: int|
                        0 <= j < types_view(types0).len() && (#[trigger] types_view(types0)[j]).0
                            == kv)) by {
                        if exists|j: int|
                            0 <= j < types_view(types0).len() && (#[trigger] types_view(
                                types0,
                            )[j]).0 == kv {
                            let j = choose|j: int|
                                0 <= j < types_view(types0).len() && (#[trigger] types_view(
                                    types0,
                                )[j]).0 == kv;
                            assert(key_view(types0[j].0) == kv);
                            assert(has_type_key(types0, kv));
                        }
                    }
                    assert(types_view(self.file_types@) =~= bump_key(
                        types_view(types0),
                        kv,
                        count,
                    ));
                }
            },
        }
    }

    /// Marks the statistics as final. Nothing changes.
    pub fn finalize(&mut self)
        ensures
            *final(self) == *old(self),
    {
    }

    /// The total size, rendered for humans.
    pub fn total_size_human(&self) -> (r: String)
        ensures
            r@ == human_size_of(self.total_size_bytes),
    {
        format_size_decimal(self.total_size_bytes)
    }
}

/// Finds the entry carrying `key` in an extension table.
fn find_type_key(table: &Vec<(Option<Vec<u8>>, u64)>, key: &Option<Vec<u8>>) -> (r: Option<usize>)
    ensures
        match r {
            Some(f) => f < table@.len() && key_view(table@[f as int].0) == key_view(*key),
            None => !has_type_key(table@, key_view(*key)),
        },
{
    let mut j: usize = 0;
    while j < table.len()
        invariant
            j <= table@.len(),
            forall|k: int| 0 <= k < j ==> key_view(#[trigger] table@[k].0) != key_view(*key),
        decreases table@.len() - j,
    {
        let same = match (&table[j].0, key) {
            (Some(a), Some(b)) => crate::pathutil::eq_bytes(a.as_slice(), b.as_slice()),
            (None, None) => true,
            _ => false,
        };
        if same {
            return Some(j);
        }
        j = j + 1;
    }
    None
}

/// Saturating addition on u64, as a spec value.
pub open spec fn add_sat(a: u64, b: u64) -> u64 {
    if a + b > u64::MAX {
        u64::MAX
    } else {
        (a + b) as u64
    }
}

/// Saturating addition on u64.
pub fn saturating_add_u64(a: u64, b: u64) -> (r: u64)
    ensures
        r == add_sat(a, b),
{
    if a <= u64::MAX - b {
        a + b
    } else {
        u64::MAX
    }
}

/// What `humansize::format_size` renders for a byte count in decimal units:
/// the result depends on the count alone.
pub uninterp spec fn human_size_of(n: u64) -> Seq<char>;

/// Relies on humansize::format_size with the DECIMAL options: a pure
/// rendering of the byte count.
#[verifier::external_body]
fn format_size_decimal(n: u64) -> (r: String)
    ensures
        r@ == human_size_of(n),
{
    humansize::format_size(n, humansize::DECIMAL)
}

/// The marker recorded once when the error list overflows.
fn truncation_marker() -> (r: String)
    ensures
        r@ == "... more errors truncated ..."@,
{
    let s: &str = "... more errors truncated ...";
    s.to_owned()
}

/// A fresh copy of a string.
fn clone_string(s: &String) -> (r: String)
    ensures
        r@ == s@,
{
    s.as_str().to_owned()
}

} // verus!
