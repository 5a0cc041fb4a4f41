//! The batching relay: the single consumer of the walker's raw stream. It
//! coalesces discoveries into size-bounded batches, forwards errors at once,
//! and emits exactly one terminal `Finished` marker per scan.
//!
//! The relay itself performs no I/O: each event method returns the messages
//! to send, and a ghost history records everything handed out, so the
//! protocol (one `Finished`, always last, no discovery lost, reordered or
//! duplicated) is stated over that history.

use vstd::prelude::*;

use crate::model::FileNode;
use crate::stats::ScanStats;

verus! {

/// Messages sent from the scan pipeline to its consumer.
pub enum ScanMessage {
    /// A single discovered entry.
    AddNode(FileNode),
    /// A batch of discovered entries.
    AddNodes(Vec<FileNode>),
    /// A non-fatal per-entry or per-walk failure.
    Error(String),
    /// A progress note.
    Progress(String),
    /// Partial scan statistics.
    Stats(ScanStats),
    /// Terminal marker: sent exactly once per scan, always last.
    Finished,
}

/// The nodes a message carries.
pub open spec fn nodes_of(m: ScanMessage) -> Seq<FileNode> {
    match m {
        ScanMessage::AddNode(n) => seq![n],
        ScanMessage::AddNodes(v) => v@,
        _ => Seq::empty(),
    }
}

/// The nodes a message sequence carries, in order.
pub open spec fn nodes_of_seq(ms: Seq<ScanMessage>) -> Seq<FileNode>
    decreases ms.len(),
{
    if ms.len() == 0 {
        Seq::empty()
    } else {
        nodes_of_seq(ms.drop_last()) + nodes_of(ms.last())
    }
}

/// How many `Finished` markers a message sequence holds.
pub open spec fn finished_count(ms: Seq<ScanMessage>) -> int
    decreases ms.len(),
{
    if ms.len() == 0 {
        0
    } else {
        finished_count(ms.drop_last()) + if ms.last() is Finished {
            1int
        } else {
            0int
        }
    }
}

proof fn lemma_finished_count_append(a: Seq<ScanMessage>, b: Seq<ScanMessage>)
    ensures
        finished_count(a + b) == finished_count(a) + finished_count(b),
    decreases b.len(),
{
    if b.len() == 0 {
        assert(a + b =~= a);
    } else {
        lemma_finished_count_append(a, b.drop_last());
        assert((a + b).drop_last() =~= a + b.drop_last());
    }
}

proof fn lemma_nodes_of_seq_append(a: Seq<ScanMessage>, b: Seq<ScanMessage>)
    ensures
        nodes_of_seq(a + b) == nodes_of_seq(a) + nodes_of_seq(b),
    decreases b.len(),
{
    if b.len() == 0 {
        assert(a + b =~= a);
        assert(nodes_of_seq(a) + nodes_of_seq(b) =~= nodes_of_seq(a));
    } else {
        lemma_nodes_of_seq_append(a, b.drop_last());
        assert((a + b).drop_last() =~= a + b.drop_last());
        assert(nodes_of_seq(a) + nodes_of_seq(b) =~= (nodes_of_seq(a) + nodes_of_seq(
            b.drop_last(),
        )) + nodes_of(b.last()));
    }
}

/// One message's contribution to the history measures.
proof fn lemma_single(m: ScanMessage)
    ensures
        nodes_of_seq(seq![m]) == nodes_of(m),
        finished_count(seq![m]) == (if m is Finished {
            1int
        } else {
            0int
        }),
{
    let s = seq![m];
    assert(s.drop_last() =~= Seq::<ScanMessage>::empty());
    assert(s.last() == m);
    assert(nodes_of_seq(Seq::<ScanMessage>::empty()) == Seq::<FileNode>::empty());
    assert(finished_count(Seq::<ScanMessage>::empty()) == 0);
    assert(nodes_of_seq(s) == nodes_of_seq(s.drop_last()) + nodes_of(s.last()));
    assert(nodes_of_seq(s) =~= nodes_of(m));
}

/// The relay's state: the pending batch, the batch size limit, whether the
/// terminal marker has been handed out, and ghost records of every message
/// returned and every entry accepted.
pub struct Batcher {
    pub pending: Vec<FileNode>,
    pub batch_size: usize,
    pub closed: bool,
    pub history: Ghost<Seq<ScanMessage>>,
    pub accepted: Ghost<Seq<FileNode>>,
}

impl Batcher {
    /// The messages handed out so far, in order.
    pub open spec fn spec_history(self) -> Seq<ScanMessage> {
        self.history@
    }

    /// The entries accepted so far, in order.
    pub open spec fn spec_accepted(self) -> Seq<FileNode> {
        self.accepted@
    }

    /// The entries accepted but not yet handed out, in order.
    pub open spec fn spec_pending(self) -> Seq<FileNode> {
        self.pending@
    }

    /// Whether the terminal marker has been handed out.
    pub open spec fn spec_closed(self) -> bool {
        self.closed
    }

    /// The relay's invariant: before the close, no `Finished` was handed out
    /// and the accepted entries are exactly those already handed out followed
    /// by the pending batch; after it, the one `Finished` stands last and
    /// nothing is pending.
    pub open spec fn wf(self) -> bool {
        &&& self.batch_size >= 1
        &&& self.pending@.len() < self.batch_size
        &&& nodes_of_seq(self.history@) + self.pending@ == self.accepted@
        &&& if self.closed {
            &&& finished_count(self.history@) == 1
            &&& self.history@.len() > 0 && self.history@.last() is Finished
            &&& self.pending@.len() == 0
        } else {
            finished_count(self.history@) == 0
        }
    }

    /// A fresh relay with the given batch size limit (at least 1).
    pub fn new(batch_size: usize) -> (r: Self)
        requires
            batch_size >= 1,
        ensures
            r.wf(),
            !r.spec_closed(),
            r.spec_history() == Seq::<ScanMessage>::empty(),
            r.spec_accepted() == Seq::<FileNode>::empty(),
    {
        let r = Batcher {
            pending: Vec::new(),
            batch_size,
            closed: false,
            history: Ghost(Seq::empty()),
            accepted: Ghost(Seq::empty()),
        };
        proof {
            assert(nodes_of_seq(r.history@) + r.pending@ =~= r.accepted@);
        }
        r
    }

    /// Accepts one discovered entry: it joins the pending batch, which is
    /// handed out whole, as one `AddNodes` message, exactly when it reaches
    /// the size limit.
    pub fn on_entry(&mut self, node: FileNode) -> (out: Option<ScanMessage>)
        requires
            old(self).wf(),
            !old(self).spec_closed(),
        ensures
            final(self).wf(),
            !final(self).spec_closed(),
            final(self).batch_size == old(self).batch_size,
            final(self).spec_accepted() == old(self).spec_accepted().push(node),
            match out {
                Some(m) => final(self).spec_history() == old(self).spec_history().push(m)
                    && m is AddNodes && nodes_of(m) == old(self).spec_pending().push(node)
                    && final(self).spec_pending() == Seq::<FileNode>::empty()
                    && old(self).spec_pending().len() + 1 >= old(self).batch_size,
                None => final(self).spec_history() == old(self).spec_history()
                    && final(self).spec_pending() == old(self).spec_pending().push(node)
                    && old(self).spec_pending().len() + 1 < old(self).batch_size,
            },
    {
        self.pending.push(node);
        proof {
            self.accepted@ = self.accepted@.push(node);
        }
        if self.pending.len() >= self.batch_size {
            let mut batch: Vec<FileNode> = Vec::new();
            core::mem::swap(&mut batch, &mut self.pending);
            let ghost b = batch@;
            let msg = ScanMessage::AddNodes(batch);
            proof {
                let h0 = self.history@;
                self.history@ = self.history@.push(msg);
                lemma_nodes_of_seq_append(h0, seq![msg]);
                lemma_single(msg);
                assert(self.history@ =~= h0 + seq![msg]);
                assert(nodes_of_seq(seq![msg]) =~= b);
                assert(nodes_of_seq(self.history@) + self.pending@ =~= self.accepted@);
                lemma_finished_count_append(h0, seq![msg]);
            }
            Some(msg)
        } else {
            proof {
                assert(nodes_of_seq(self.history@) + self.pending@ =~= self.accepted@);
            }
            None
        }
    }

    /// Forwards one walker failure immediately, unbatched, carrying the
    /// message as given.
    pub fn on_error(&mut self, message: String) -> (out: ScanMessage)
        requires
            old(self).wf(),
            !old(self).spec_closed(),
        ensures
            final(self).wf(),
            !final(self).spec_closed(),
            final(self).batch_size == old(self).batch_size,
            final(self).spec_accepted() == old(self).spec_accepted(),
            final(self).spec_pending() == old(self).spec_pending(),
            final(self).spec_history() == old(self).spec_history().push(out),
            out == ScanMessage::Error(message),
    {
        let msg = ScanMessage::Error(message);
        proof {
            let h0 = self.history@;
            self.history@ = self.history@.push(msg);
            lemma_finished_count_append(h0, seq![msg]);
            lemma_nodes_of_seq_append(h0, seq![msg]);
            lemma_single(msg);
            assert(self.history@ =~= h0 + seq![msg]);
            assert(nodes_of_seq(self.history@) + self.pending@ =~= self.accepted@);
        }
        msg
    }

    /// A flush timer fired: hands out the whole pending batch, if any.
    pub fn on_timer(&mut self) -> (out: Option<ScanMessage>)
        requires
            old(self).wf(),
            !old(self).spec_closed(),
        ensures
            final(self).wf(),
            !final(self).spec_closed(),
            final(self).batch_size == old(self).batch_size,
            final(self).spec_accepted() == old(self).spec_accepted(),
            match out {
                Some(m) => final(self).spec_history() == old(self).spec_history().push(m)
                    && m is AddNodes && nodes_of(m) == old(self).spec_pending()
                    && final(self).spec_pending() == Seq::<FileNode>::empty()
                    && old(self).spec_pending().len() > 0,
                None => final(self).spec_history() == old(self).spec_history()
                    && final(self).spec_pending() == old(self).spec_pending()
                    && old(self).spec_pending().len() == 0
                    && old(self).spec_accepted() == nodes_of_seq(old(self).spec_history()),
            },
    {
        if self.pending.len() == 0 {
            proof {
                assert(self.accepted@ =~= nodes_of_seq(self.history@));
            }
            return None;
        }
        let mut batch: Vec<FileNode> = Vec::new();
        core::mem::swap(&mut batch, &mut self.pending);
        let ghost b = batch@;
        let msg = ScanMessage::AddNodes(batch);
        proof {
            let h0 = self.history@;
            self.history@ = self.history@.push(msg);
            lemma_nodes_of_seq_append(h0, seq![msg]);
            lemma_finished_count_append(h0, seq![msg]);
            lemma_single(msg);
            assert(self.history@ =~= h0 + seq![msg]);
            assert(nodes_of_seq(self.history@) + self.pending@ =~= self.accepted@);
        }
        Some(msg)
    }

    /// The walker's stream closed: hands out the remainder batch, if any,
    /// followed unconditionally by the one terminal `Finished` marker. After
    /// this the relay accepts nothing more.
    pub fn close(&mut self) -> (out: Vec<ScanMessage>)
        requires
            old(self).wf(),
            !old(self).spec_closed(),
        ensures
            final(self).wf(),
            final(self).spec_closed(),
            final(self).spec_accepted() == old(self).spec_accepted(),
            final(self).spec_history() == old(self).spec_history() + out@,
            out@.len() >= 1,
            out@.last() is Finished,
            old(self).spec_pending().len() == 0 ==> out@ == seq![ScanMessage::Finished],
            old(self).spec_pending().len() > 0 ==> out@.len() == 2 && out@[0] is AddNodes
                && nodes_of(out@[0]) == old(self).spec_pending(),
            nodes_of_seq(final(self).spec_history()) == final(self).spec_accepted(),
    {
        let mut out: Vec<ScanMessage> = Vec::new();
        if self.pending.len() > 0 {
            let mut batch: Vec<FileNode> = Vec::new();
            core::mem::swap(&mut batch, &mut self.pending);
            out.push(ScanMessage::AddNodes(batch));
        }
        out.push(ScanMessage::Finished);
        self.closed = true;
        proof {
            let h0 = self.history@;
            self.history@ = self.history@ + out@;
            lemma_nodes_of_seq_append(h0, out@);
            lemma_finished_count_append(h0, out@);
            if out@.len() == 2 {
                lemma_single(out@[0]);
                lemma_single(out@[1]);
                assert(out@ =~= seq![out@[0]] + seq![out@[1]]);
                lemma_nodes_of_seq_append(seq![out@[0]], seq![out@[1]]);
                lemma_finished_count_append(seq![out@[0]], seq![out@[1]]);
                assert(finished_count(out@) == 1);
                assert(nodes_of_seq(out@) =~= nodes_of(out@[0]));
            } else {
                assert(out@ =~= seq![out@[0]]);
                lemma_single(out@[0]);
                assert(finished_count(out@) == 1);
                assert(nodes_of_seq(out@) =~= Seq::<FileNode>::empty());
                assert(out@ =~= seq![ScanMessage::Finished]);
            }
            assert(nodes_of_seq(self.history@) + self.pending@ =~= self.accepted@);
            assert(nodes_of_seq(self.history@) =~= self.accepted@);
        }
        out
    }
}

/// Exactly one `Finished` is handed out per scan, and it is always the last
/// message: this holds of every closed relay, and a relay refuses further
/// events once closed.
pub proof fn lemma_finished_once_and_last(b: Batcher)
    requires
        b.wf(),
        b.spec_closed(),
    ensures
        finished_count(b.spec_history()) == 1,
        b.spec_history().len() > 0,
        b.spec_history().last() is Finished,
        nodes_of_seq(b.spec_history()) == b.spec_accepted(),
{
    assert(nodes_of_seq(b.spec_history()) =~= b.spec_accepted());
}

/// What the traversal does with one work item. The walker consults this
/// before touching an entry: once cancellation is observed, it only ever
/// quits, so no further discoveries are produced.
pub enum WalkDecision {
    /// Stop the walk.
    Quit,
    /// Skip this entry (a symbolic link) and continue.
    Skip,
    /// Hand the entry to the extractor and continue.
    Process,
}

/// Decides a traversal step from the cancellation flag and whether the
/// entry is a symbolic link. Cancellation always wins.
pub fn walker_step(cancelled: bool, is_symlink: bool) -> (r: WalkDecision)
    ensures
        cancelled ==> r is Quit,
        !cancelled && is_symlink ==> r is Skip,
        !cancelled && !is_symlink ==> r is Process,
{
    if cancelled {
        WalkDecision::Quit
    } else if is_symlink {
        WalkDecision::Skip
    } else {
        WalkDecision::Process
    }
}


/// Every node a message carries is a fresh record, not yet linked anywhere.
pub open spec fn msg_nodes_fresh(m: ScanMessage) -> bool {
    forall|k: int| 0 <= k < nodes_of(m).len() ==> (#[trigger] nodes_of(m)[k]).children@.len() == 0
}

/// Everything the assembler holds, unchanged between two trees.
pub open spec fn tree_unchanged(a: crate::tree::Tree, b: crate::tree::Tree) -> bool {
    &&& b.nodes@ == a.nodes@
    &&& b.orphans@ == a.orphans@
    &&& b.root_id == a.root_id
    &&& b.root_path == a.root_path
}

/// One discovery applied to the tree and the statistics: the entry is
/// counted against the scan root, and a fresh path joins the arena by the
/// assembler step, while a repeated one leaves the tree as it was.
pub open spec fn add_one(
    pt: crate::tree::Tree,
    ps: ScanStats,
    qt: crate::tree::Tree,
    qs: ScanStats,
    n: FileNode,
) -> bool {
    &&& crate::stats::add_file_effect(ps, qs, n.info, pt.root_path@)
    &&& if pt.has_path(n.info.path@) {
        tree_unchanged(pt, qt)
    } else {
        crate::tree::Tree::add_effect(pt, qt, n)
    }
}

/// A run of discoveries applied to the tree and the statistics, in order.
pub open spec fn adds_rel(
    pt: crate::tree::Tree,
    ps: ScanStats,
    qt: crate::tree::Tree,
    qs: ScanStats,
    ns: Seq<FileNode>,
) -> bool
    decreases ns.len(),
{
    if ns.len() == 0 {
        qt == pt && qs == ps
    } else {
        exists|m: (crate::tree::Tree, ScanStats)|
            #[trigger] add_one(pt, ps, m.0, m.1, ns[0]) && adds_rel(m.0, m.1, qt, qs, ns.drop_first())
    }
}

/// Extending a run of discoveries by one step on the right.
proof fn lemma_adds_rel_snoc(
    pt: crate::tree::Tree,
    ps: ScanStats,
    mt: crate::tree::Tree,
    ms: ScanStats,
    qt: crate::tree::Tree,
    qs: ScanStats,
    done: Seq<FileNode>,
    n: FileNode,
)
    requires
        adds_rel(pt, ps, mt, ms, done),
        add_one(mt, ms, qt, qs, n),
    ensures
        adds_rel(pt, ps, qt, qs, done.push(n)),
    decreases done.len(),
{
    if done.len() == 0 {
        assert(mt == pt && ms == ps);
        assert(done.push(n)[0] == n);
        assert(done.push(n).drop_first() =~= Seq::<FileNode>::empty());
        let m = (qt, qs);
        assert(add_one(pt, ps, m.0, m.1, done.push(n)[0]) && adds_rel(
            m.0,
            m.1,
            qt,
            qs,
            done.push(n).drop_first(),
        ));
    } else {
        let m = choose|m: (crate::tree::Tree, ScanStats)|
            #[trigger] add_one(pt, ps, m.0, m.1, done[0]) && adds_rel(
                m.0,
                m.1,
                mt,
                ms,
                done.drop_first(),
            );
        lemma_adds_rel_snoc(m.0, m.1, mt, ms, qt, qs, done.drop_first(), n);
        assert(done.push(n)[0] == done[0]);
        assert(done.push(n).drop_first() =~= done.drop_first().push(n));
        assert(add_one(pt, ps, m.0, m.1, done.push(n)[0]) && adds_rel(
            m.0,
            m.1,
            qt,
            qs,
            done.push(n).drop_first(),
        ));
    }
}

/// Applies one pipeline message to the tree and statistics, in arrival
/// order: discoveries join the arena and the counts, one entry at a time
/// and in message order; an error is recorded; partial statistics are
/// merged; a progress note changes nothing; and the terminal `Finished`
/// marker completes the scan, returning the discarded orphans for the
/// caller to report.
pub fn apply_scan_message(
    tree: &mut crate::tree::Tree,
    stats: &mut ScanStats,
    msg: ScanMessage,
    auto_expand_limit: usize,
) -> (done: Option<Vec<(Vec<u8>, Vec<crate::model::FileId>)>>)
    requires
        old(tree).wf(),
        old(tree).fully_attached(),
        old(stats).wf(),
        msg_nodes_fresh(msg),
    ensures
        final(tree).wf(),
        final(stats).wf(),
        (done is Some) <==> (msg is Finished),
        msg is Finished ==> final(tree).finished(),
        !(msg is Finished) ==> final(tree).fully_attached(),
        match msg {
            ScanMessage::AddNode(n) => adds_rel(
                *old(tree),
                *old(stats),
                *final(tree),
                *final(stats),
                seq![n],
            ),
            ScanMessage::AddNodes(b) => adds_rel(
                *old(tree),
                *old(stats),
                *final(tree),
                *final(stats),
                b@,
            ),
            ScanMessage::Error(e) => tree_unchanged(*old(tree), *final(tree))
                && crate::stats::add_error_effect(*old(stats), *final(stats), e),
            ScanMessage::Progress(_) => tree_unchanged(*old(tree), *final(tree)) && *final(stats)
                == *old(stats),
            ScanMessage::Stats(p) => tree_unchanged(*old(tree), *final(tree))
                && crate::stats::merge_effect(*old(stats), *final(stats), p),
            ScanMessage::Finished => *final(stats) == *old(stats)
                && crate::tree::Tree::finish_rel(
                *old(tree),
                *final(tree),
                auto_expand_limit,
                done->Some_0@,
            ),
        },
{
    match msg {
        ScanMessage::AddNode(node) => {
            proof {
                assert(nodes_of(ScanMessage::AddNode(node))[0] == node);
            }
            let ghost pt = *tree;
            let ghost ps = *stats;
            stats.add_file(&node.info, &tree.root_path);
            tree.add_single_node(node);
            proof {
                assert(add_one(pt, ps, *tree, *stats, node));
                lemma_adds_rel_snoc(pt, ps, pt, ps, *tree, *stats, Seq::<FileNode>::empty(), node);
                assert(Seq::<FileNode>::empty().push(node) =~= seq![node]);
            }
            None
        },
        ScanMessage::AddNodes(mut batch) => {
            proof {
                assert(nodes_of(ScanMessage::AddNodes(batch)) == batch@);
                assert(forall|k: int|
                    0 <= k < batch@.len() ==> (#[trigger] batch@[k]).children@.len() == 0);
            }
            let ghost pt = *tree;
            let ghost ps = *stats;
            let ghost orig = batch@;
            proof {
                assert(orig.subrange(0, 0) =~= Seq::<FileNode>::empty());
                assert(batch@ =~= orig.subrange(0, orig.len() as int));
            }
            while batch.len() > 0
                invariant
                    tree.wf(),
                    tree.fully_attached(),
                    tree.root_path == pt.root_path,
                    stats.wf(),
                    batch@.len() <= orig.len(),
                    batch@ == orig.subrange(
                        orig.len() - batch@.len(),
                        orig.len() as int,
                    ),
                    forall|k: int|
                        0 <= k < orig.len() ==> (#[trigger] orig[k]).children@.len() == 0,
                    adds_rel(pt, ps, *tree, *stats, orig.subrange(0, orig.len() - batch@.len())),
                decreases batch@.len(),
            {
                let ghost done = orig.len() - batch@.len();
                let node = batch.remove(0);
                proof {
                    assert(node == orig[done]);
                    assert(batch@ =~= orig.subrange(done + 1, orig.len() as int));
                    assert(node.children@.len() == 0);
                }
                let ghost mt = *tree;
                let ghost ms = *stats;
                stats.add_file(&node.info, &tree.root_path);
                tree.add_single_node(node);
                proof {
                    assert(add_one(mt, ms, *tree, *stats, orig[done]));
                    lemma_adds_rel_snoc(
                        pt,
                        ps,
                        mt,
                        ms,
                        *tree,
                        *stats,
                        orig.subrange(0, done),
                        orig[done],
                    );
                    assert(orig.subrange(0, done).push(orig[done]) =~= orig.subrange(0, done + 1));
                }
            }
            proof {
                assert(orig.subrange(0, orig.len() as int) =~= orig);
            }
            None
        },
        ScanMessage::Error(message) => {
            stats.add_error(message);
            None
        },
        ScanMessage::Progress(_note) => {
            None
        },
        ScanMessage::Stats(partial) => {
            stats.merge(&partial);
            None
        },
        ScanMessage::Finished => {
            stats.finalize();
            let dropped = tree.finish(auto_expand_limit);
            Some(dropped)
        },
    }
}


} // verus!
