//! The client sync engine: one replica's state — the document tree, the
//! selection, the log of applied entry hashes, a buffer of remote entries
//! waiting for their causal predecessors, and a queue of locally produced
//! entries awaiting transmission.
//!
//! Duplicate delivery is detected by content hash and ignored; an entry is
//! replayed only once every entry it names as a predecessor has been
//! applied, so causal order is respected regardless of arrival order.

use vstd::prelude::*;

use crate::history::{entry_hash, ASTHistoryEntry, EntryModel};
use crate::replay::{apply_sp, doc_model, step_sp, ReplayError, ReplayErrorKind};
use crate::selection::Selection;
use crate::tree::{AST, SpecNode};

verus! {

/// Whether every predecessor of `e` is among the applied hashes.
pub open spec fn deps_met(applied: Seq<Seq<char>>, e: EntryModel) -> bool {
    forall|i: int| 0 <= i < e.previous.len() ==> applied.contains(e.previous[i])
}

/// The position of the first buffered entry whose predecessors have all
/// been applied, or -1 when none is ready.
pub open spec fn first_ready(applied: Seq<Seq<char>>, pending: Seq<EntryModel>) -> int
    decreases pending.len(),
{
    if pending.len() == 0 {
        -1
    } else if deps_met(applied, pending[0]) {
        0
    } else {
        let r = first_ready(applied, pending.drop_first());
        if r < 0 {
            -1
        } else {
            r + 1
        }
    }
}

pub proof fn lemma_first_ready_bounds(applied: Seq<Seq<char>>, pending: Seq<EntryModel>)
    ensures
        -1 <= first_ready(applied, pending) < pending.len(),
        first_ready(applied, pending) >= 0 ==> deps_met(
            applied,
            pending[first_ready(applied, pending)],
        ),
        first_ready(applied, pending) >= 0 ==> forall|j: int|
            0 <= j < first_ready(applied, pending) ==> !deps_met(applied, pending[j]),
        first_ready(applied, pending) == -1 ==> forall|j: int|
            0 <= j < pending.len() ==> !deps_met(applied, pending[j]),
    decreases pending.len(),
{
    if pending.len() > 0 && !deps_met(applied, pending[0]) {
        let rest = pending.drop_first();
        lemma_first_ready_bounds(applied, rest);
        let r = first_ready(applied, rest);
        if r >= 0 {
            assert(pending[r + 1] == rest[r]);
            assert forall|j: int| 0 <= j < r + 1 implies !deps_met(applied, pending[j]) by {
                if j > 0 {
                    assert(rest[j - 1] == pending[j]);
                }
            }
        } else {
            assert forall|j: int|
                0 <= j < pending.len() implies !deps_met(applied, pending[j]) by {
                if j > 0 {
                    assert(rest[j - 1] == pending[j]);
                }
            }
        }
    }
}

/// The exact position characterises `first_ready`.
pub proof fn lemma_first_ready_is(applied: Seq<Seq<char>>, pending: Seq<EntryModel>, i: int)
    requires
        0 <= i < pending.len(),
        deps_met(applied, pending[i]),
        forall|j: int| 0 <= j < i ==> !deps_met(applied, pending[j]),
    ensures
        first_ready(applied, pending) == i,
    decreases pending.len(),
{
    if i > 0 {
        lemma_first_ready_is(applied, pending.drop_first(), i - 1);
    }
}

/// The result of draining the buffer: repeatedly, the first ready entry is
/// removed, its hash recorded, and its operation applied — failures leave
/// the tree untouched and are collected — until no buffered entry is ready.
pub open spec fn drain_sp(
    doc: Option<SpecNode>,
    applied: Seq<Seq<char>>,
    pending: Seq<EntryModel>,
) -> (Option<SpecNode>, Seq<Seq<char>>, Seq<EntryModel>, Seq<ReplayErrorKind>)
    decreases pending.len(),
{
    let i = first_ready(applied, pending);
    if i < 0 {
        (doc, applied, pending, Seq::empty())
    } else {
        proof {
            lemma_first_ready_bounds(applied, pending);
        }
        let e = pending[i];
        let (d2, a2, p2, errs) = drain_sp(
            step_sp(doc, e),
            applied.push(entry_hash(e)),
            pending.remove(i),
        );
        (
            d2,
            a2,
            p2,
            match apply_sp(doc, e) {
                Ok(_) => errs,
                Err(k) => seq![k] + errs,
            },
        )
    }
}

/// Whether `v` holds a string whose characters are `s`.
pub fn vec_contains_str(v: &Vec<String>, s: &String) -> (r: bool)
    ensures
        r == v@.map_values(|x: String| x@).contains(s@),
{
    let ghost m = v@.map_values(|x: String| x@);
    let n = v.len();
    let mut i: usize = 0;
    while i < n
        invariant
            m == v@.map_values(|x: String| x@),
            n == v@.len(),
            m.len() == n,
            i <= n,
            forall|j: int| 0 <= j < i ==> m[j] != s@,
        decreases n - i,
    {
        proof {
            assert(m[i as int] == v@[i as int]@);
        }
        if v[i] == *s {
            proof {
                assert(m.contains(s@));
            }
            return true;
        }
        i += 1;
    }
    proof {
        assert(forall|j: int| 0 <= j < m.len() ==> m[j] != s@);
    }
    false
}

/// Whether every predecessor of `entry` is among `applied`.
pub fn deps_met_exec(applied: &Vec<String>, entry: &ASTHistoryEntry) -> (r: bool)
    ensures
        r == deps_met(applied@.map_values(|x: String| x@), entry.model()),
{
    let ghost am = applied@.map_values(|x: String| x@);
    let ghost pm = entry.model().previous;
    let n = entry.previous.len();
    let mut i: usize = 0;
    while i < n
        invariant
            am == applied@.map_values(|x: String| x@),
            pm == entry.model().previous,
            n == entry.previous@.len(),
            pm.len() == n,
            i <= n,
            forall|j: int| 0 <= j < i ==> am.contains(pm[j]),
        decreases n - i,
    {
        proof {
            assert(pm[i as int] == entry.previous@[i as int]@);
        }
        if !vec_contains_str(applied, &entry.previous[i]) {
            return false;
        }
        i += 1;
    }
    true
}

/// One replica of the shared document, with everything the client's event
/// loop decides over: the tree, the user's selection, a status line, the
/// hashes of the entries already applied, the buffer of remote entries
/// whose predecessors are still missing, and the outgoing queue.
pub struct App {
    pub ast: Option<AST>,
    pub status: String,
    pub selected: Selection,
    pub applied: Vec<String>,
    pub pending: Vec<ASTHistoryEntry>,
    pub outbox: Vec<ASTHistoryEntry>,
}

/// The model of a replica.
pub struct AppModel {
    pub doc: Option<SpecNode>,
    pub status: Seq<char>,
    pub selected: Seq<(Seq<char>, Option<int>)>,
    pub applied: Seq<Seq<char>>,
    pub pending: Seq<EntryModel>,
    pub outbox: Seq<EntryModel>,
}

impl App {
    /// The model of this replica.
    pub open spec fn model(self) -> AppModel {
        AppModel {
            doc: doc_model(self.ast),
            status: self.status@,
            selected: self.selected.model(),
            applied: self.applied@.map_values(|x: String| x@),
            pending: self.pending@.map_values(|e: ASTHistoryEntry| e.model()),
            outbox: self.outbox@.map_values(|e: ASTHistoryEntry| e.model()),
        }
    }

    /// Well-formed: the selection holds no identifier twice.
    pub open spec fn wf(self) -> bool {
        self.selected.wf()
    }

    /// A fresh, uninitialized replica.
    pub fn new() -> (r: App)
        ensures
            r.model().doc is None,
            r.model().status == Seq::<char>::empty(),
            r.model().selected == Seq::<(Seq<char>, Option<int>)>::empty(),
            r.model().applied == Seq::<Seq<char>>::empty(),
            r.model().pending == Seq::<EntryModel>::empty(),
            r.model().outbox == Seq::<EntryModel>::empty(),
            r.wf(),
    {
        let r = App {
            ast: None,
            status: String::new(),
            selected: Selection::new(),
            applied: Vec::new(),
            pending: Vec::new(),
            outbox: Vec::new(),
        };
        proof {
            assert(r.model().applied =~= Seq::<Seq<char>>::empty());
            assert(r.model().pending =~= Seq::<EntryModel>::empty());
            assert(r.model().outbox =~= Seq::<EntryModel>::empty());
        }
        r
    }

    /// Applies one history entry to this replica's tree, in place; nothing
    /// else of the replica changes.  Exactly when the operation's
    /// precondition holds the tree becomes `apply_sp`'s result; otherwise it
    /// is unchanged and the error names the failed precondition.
    pub fn apply(&mut self, history: &ASTHistoryEntry) -> (r: Result<(), ReplayError>)
        ensures
            apply_sp(old(self).model().doc, history.model()) matches Ok(d) ==> r is Ok
                && final(self).model().doc == d,
            apply_sp(old(self).model().doc, history.model()) matches Err(k) ==> {
                &&& r matches Err(e) && e.kind == k && e.entry.model() == history.model()
                &&& final(self).model().doc == old(self).model().doc
            },
            final(self).model().doc == step_sp(old(self).model().doc, history.model()),
            final(self).model().status == old(self).model().status,
            final(self).model().selected == old(self).model().selected,
            final(self).model().applied == old(self).model().applied,
            final(self).model().pending == old(self).model().pending,
            final(self).model().outbox == old(self).model().outbox,
            final(self).wf() == old(self).wf(),
    {
        crate::replay::apply_entry(&mut self.ast, history)
    }
}

impl App {
    /// Applies `entry` locally and queues it for transmission: the tree
    /// steps by the entry, its hash joins the applied log, and the entry
    /// joins the outgoing queue.  A failed operation changes nothing and is
    /// returned.
    pub fn commit_local(&mut self, entry: ASTHistoryEntry) -> (r: Result<(), ReplayError>)
        ensures
            ({
                let m0 = old(self).model();
                let em = entry.model();
                &&& (r is Ok <==> apply_sp(m0.doc, em) is Ok)
                &&& (r matches Err(e) ==> apply_sp(m0.doc, em) matches Err(k) && e.kind == k
                    && e.entry.model() == em)
                &&& (r is Ok ==> {
                    &&& final(self).model().doc == step_sp(m0.doc, em)
                    &&& final(self).model().applied == m0.applied.push(entry_hash(em))
                    &&& final(self).model().outbox == m0.outbox.push(em)
                })
                &&& (r is Err ==> final(self).model() == m0)
                &&& final(self).model().status == m0.status
                &&& final(self).model().selected == m0.selected
                &&& final(self).model().pending == m0.pending
                &&& final(self).wf() == old(self).wf()
            }),
    {
        let ghost m0 = self.model();
        let h = entry.hash();
        let r = self.apply(&entry);
        match r {
            Ok(()) => {
                self.applied.push(h);
                self.outbox.push(entry);
                proof {
                    assert(self.model().applied =~= m0.applied.push(
                        entry_hash(self.outbox@.last().model()),
                    ));
                    assert(self.model().outbox =~= m0.outbox.push(self.outbox@.last().model()));
                }
                Ok(())
            }
            Err(e) => Err(e),
        }
    }

    /// Records a remote entry unless it was already applied: duplicate
    /// delivery, detected by content hash, is ignored; a new entry joins
    /// the buffer of entries awaiting replay.
    pub fn admit_remote(&mut self, entry: &ASTHistoryEntry) -> (fresh: bool)
        ensures
            ({
                let m0 = old(self).model();
                let h = entry_hash(entry.model());
                &&& fresh == !m0.applied.contains(h)
                &&& (!fresh ==> final(self).model() == m0)
                &&& (fresh ==> {
                    &&& final(self).model().pending == m0.pending.push(entry.model())
                    &&& final(self).model().doc == m0.doc
                    &&& final(self).model().status == m0.status
                    &&& final(self).model().selected == m0.selected
                    &&& final(self).model().applied == m0.applied
                    &&& final(self).model().outbox == m0.outbox
                })
                &&& final(self).wf() == old(self).wf()
            }),
    {
        let ghost m0 = self.model();
        let h = entry.hash();
        if vec_contains_str(&self.applied, &h) {
            false
        } else {
            self.pending.push(entry.clone());
            proof {
                assert(self.model().pending =~= m0.pending.push(self.pending@.last().model()));
            }
            true
        }
    }

    /// The position of the first buffered entry whose predecessors have all
    /// been applied.
    pub fn first_ready_idx(&self) -> (r: Option<usize>)
        ensures
            r matches Some(i) ==> i == first_ready(self.model().applied, self.model().pending),
            r is None ==> first_ready(self.model().applied, self.model().pending) == -1,
    {
        let ghost am = self.model().applied;
        let ghost pm = self.model().pending;
        let n = self.pending.len();
        let mut i: usize = 0;
        while i < n
            invariant
                am == self.model().applied,
                pm == self.model().pending,
                n == self.pending@.len(),
                pm.len() == n,
                i <= n,
                forall|j: int| 0 <= j < i ==> !deps_met(am, pm[j]),
            decreases n - i,
        {
            proof {
                assert(pm[i as int] == self.pending@[i as int].model());
            }
            if deps_met_exec(&self.applied, &self.pending[i]) {
                proof {
                    lemma_first_ready_is(am, pm, i as int);
                }
                return Some(i);
            }
            i += 1;
        }
        proof {
            lemma_first_ready_bounds(am, pm);
        }
        None
    }

    /// Replays buffered entries until none is ready: repeatedly the first
    /// entry whose predecessors are all applied is removed from the buffer,
    /// its hash recorded, and its operation applied; operations whose
    /// precondition fails change nothing and are surfaced.
    pub fn drain_pending(&mut self) -> (errors: Vec<ReplayError>)
        ensures
            ({
                let m0 = old(self).model();
                let r = drain_sp(m0.doc, m0.applied, m0.pending);
                &&& final(self).model().doc == r.0
                &&& final(self).model().applied == r.1
                &&& final(self).model().pending == r.2
                &&& errors@.map_values(|x: ReplayError| x.kind) == r.3
                &&& final(self).model().status == m0.status
                &&& final(self).model().selected == m0.selected
                &&& final(self).model().outbox == m0.outbox
                &&& final(self).wf() == old(self).wf()
            }),
    {
        let ghost m0 = self.model();
        let mut errors: Vec<ReplayError> = Vec::new();
        let mut done = false;
        proof {
            assert(errors@.map_values(|x: ReplayError| x.kind) =~= Seq::<ReplayErrorKind>::empty());
        }
        while !done
            invariant
                self.model().status == m0.status,
                self.model().selected == m0.selected,
                self.model().outbox == m0.outbox,
                self.wf() == old(self).wf(),
                done ==> first_ready(self.model().applied, self.model().pending) == -1,
                drain_sp(m0.doc, m0.applied, m0.pending) == ({
                    let r = drain_sp(
                        self.model().doc,
                        self.model().applied,
                        self.model().pending,
                    );
                    (r.0, r.1, r.2, errors@.map_values(|x: ReplayError| x.kind) + r.3)
                }),
            decreases self.pending@.len() + (if done {
                0int
            } else {
                1int
            }),
        {
            let ghost cur = self.model();
            let ghost pre_errs = errors@.map_values(|x: ReplayError| x.kind);
            match self.first_ready_idx() {
                None => {
                    done = true;
                    proof {
                        assert(drain_sp(cur.doc, cur.applied, cur.pending) == (
                            cur.doc,
                            cur.applied,
                            cur.pending,
                            Seq::<ReplayErrorKind>::empty(),
                        ));
                        assert(pre_errs + Seq::<ReplayErrorKind>::empty() =~= pre_errs);
                    }
                }
                Some(i) => {
                    let ghost fi = first_ready(cur.applied, cur.pending);
                    proof {
                        lemma_first_ready_bounds(cur.applied, cur.pending);
                        assert(cur.pending[i as int] == self.pending@[i as int].model());
                    }
                    let entry = self.pending.remove(i);
                    let h = entry.hash();
                    let r = self.apply(&entry);
                    self.applied.push(h);
                    match r {
                        Ok(()) => {}
                        Err(e) => {
                            errors.push(e);
                        }
                    }
                    proof {
                        let em = entry.model();
                        assert(self.model().pending =~= cur.pending.remove(fi));
                        assert(self.model().applied =~= cur.applied.push(entry_hash(em)));
                        assert(self.model().doc == step_sp(cur.doc, em));
                        let rec = drain_sp(
                            self.model().doc,
                            self.model().applied,
                            self.model().pending,
                        );
                        assert(drain_sp(cur.doc, cur.applied, cur.pending) == (
                            rec.0,
                            rec.1,
                            rec.2,
                            match apply_sp(cur.doc, em) {
                                Ok(_) => rec.3,
                                Err(k) => seq![k] + rec.3,
                            },
                        ));
                        match apply_sp(cur.doc, em) {
                            Ok(_) => {
                                assert(errors@.map_values(|x: ReplayError| x.kind) =~= pre_errs);
                            }
                            Err(k) => {
                                assert(errors@.map_values(|x: ReplayError| x.kind) =~= pre_errs
                                    + seq![k]);
                                assert(pre_errs + (seq![k] + rec.3) =~= (pre_errs + seq![k])
                                    + rec.3);
                            }
                        }
                    }
                }
            }
        }
        proof {
            let r = drain_sp(self.model().doc, self.model().applied, self.model().pending);
            assert(r == (
                self.model().doc,
                self.model().applied,
                self.model().pending,
                Seq::<ReplayErrorKind>::empty(),
            ));
            assert(errors@.map_values(|x: ReplayError| x.kind) + Seq::<ReplayErrorKind>::empty()
                =~= errors@.map_values(|x: ReplayError| x.kind));
        }
        errors
    }

    /// Receives one remote entry: a duplicate, recognised by its content
    /// hash, is ignored; otherwise the entry joins the buffer and every
    /// buffered entry whose predecessors have been applied is replayed, in
    /// causal order.
    pub fn receive_remote(&mut self, entry: &ASTHistoryEntry) -> (errors: Vec<ReplayError>)
        ensures
            ({
                let m0 = old(self).model();
                let h = entry_hash(entry.model());
                &&& (m0.applied.contains(h) ==> final(self).model() == m0 && errors@.len() == 0)
                &&& (!m0.applied.contains(h) ==> {
                    let r = drain_sp(m0.doc, m0.applied, m0.pending.push(entry.model()));
                    &&& final(self).model().doc == r.0
                    &&& final(self).model().applied == r.1
                    &&& final(self).model().pending == r.2
                    &&& errors@.map_values(|x: ReplayError| x.kind) == r.3
                    &&& final(self).model().status == m0.status
                    &&& final(self).model().selected == m0.selected
                    &&& final(self).model().outbox == m0.outbox
                })
                &&& final(self).wf() == old(self).wf()
            }),
    {
        if self.admit_remote(entry) {
            self.drain_pending()
        } else {
            Vec::new()
        }
    }

    /// Hands the queued locally produced entries over for transmission,
    /// leaving the queue empty.
    pub fn take_outbox(&mut self) -> (r: Vec<ASTHistoryEntry>)
        ensures
            r@.map_values(|e: ASTHistoryEntry| e.model()) == old(self).model().outbox,
            final(self).model().outbox == Seq::<EntryModel>::empty(),
            final(self).model().doc == old(self).model().doc,
            final(self).model().status == old(self).model().status,
            final(self).model().selected == old(self).model().selected,
            final(self).model().applied == old(self).model().applied,
            final(self).model().pending == old(self).model().pending,
            final(self).wf() == old(self).wf(),
    {
        let mut out: Vec<ASTHistoryEntry> = Vec::new();
        core::mem::swap(&mut out, &mut self.outbox);
        proof {
            assert(self.model().outbox =~= Seq::<EntryModel>::empty());
        }
        out
    }
}

} // verus!
