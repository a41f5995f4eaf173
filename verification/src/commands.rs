//! The cursor model's commands: navigation moves the selection over the
//! tree without producing history entries; editing commands produce zero or
//! one entry per selected node, apply them all locally, and queue them for
//! transmission.

use vstd::prelude::*;

use crate::digest::generate_uuid;
use crate::history::{entry_hash, ASTHistoryEntry, ASTHistoryEntryInner, EntryModel, OpModel};
use crate::render::{i64_dec, parse_dec};
use crate::replay::apply_sp;
use crate::selection::{sel_del, sel_entry_model, sel_has, sel_put, Selection};
use crate::sync::App;
use crate::tree::{
    contains_id, has_parent, ids_of, idset, index_of_first, is_int_at, is_list_at, list_len_at,
    lookup, uniq,
    parent_of, AST, ASTInner, NodeView, SpecNode, SpecVal,
};
use vstd::string::StringExecFns;

verus! {

/// The four directional navigation commands.
pub enum NavDir {
    Up,
    Down,
    Left,
    Right,
}

/// Where one selection entry moves: down enters a list's first child or a
/// leaf's digits; up leaves the digits or moves to the parent; left and
/// right move the caret within a leaf's digits, or otherwise to the
/// previous or next sibling, stopping at the ends.
pub open spec fn nav_entry(dir: NavDir, m: SpecNode, e: (Seq<char>, Option<int>)) -> (
    Seq<char>,
    Option<int>,
) {
    match dir {
        NavDir::Down => match lookup(m, e.0) {
            Option::None => e,
            Option::Some(n) => match n.val {
                SpecVal::Int(_) => (e.0, Some(0int)),
                SpecVal::List(cs) => if cs.len() > 0 {
                    (cs[0].id, None)
                } else {
                    e
                },
            },
        },
        NavDir::Up => {
            if e.1 is Some {
                (e.0, None)
            } else {
                match parent_of(m, e.0) {
                    Option::Some(p) => (p.id, None),
                    Option::None => (e.0, None),
                }
            }
        }
        NavDir::Left => {
            if e.1 is Some && is_int_at(m, e.0) {
                let o = e.1->0;
                (
                    e.0,
                    Some(
                        if o > 0 {
                            o - 1
                        } else {
                            0
                        },
                    ),
                )
            } else {
                match parent_of(m, e.0) {
                    Option::Some(p) => {
                        let ids = ids_of(p.val->List_0);
                        let i = index_of_first(ids, e.0);
                        if i < 0 {
                            e
                        } else {
                            (
                                ids[if i > 0 {
                                    i - 1
                                } else {
                                    0
                                }],
                                None,
                            )
                        }
                    }
                    Option::None => e,
                }
            }
        }
        NavDir::Right => {
            if e.1 is Some && is_int_at(m, e.0) {
                let o = e.1->0;
                let len = i64_dec(lookup(m, e.0)->Some_0.val->Int_0).len() as int;
                (
                    e.0,
                    Some(
                        if o + 1 <= len {
                            o + 1
                        } else {
                            len
                        },
                    ),
                )
            } else {
                match parent_of(m, e.0) {
                    Option::Some(p) => {
                        let ids = ids_of(p.val->List_0);
                        let i = index_of_first(ids, e.0);
                        if i < 0 {
                            e
                        } else {
                            (
                                ids[if i + 1 < ids.len() {
                                    i + 1
                                } else {
                                    ids.len() - 1
                                }],
                                None,
                            )
                        }
                    }
                    Option::None => e,
                }
            }
        }
    }
}

/// The whole selection after one navigation command: each entry moved
/// independently, entries that land on the same node collapsing into one.
pub open spec fn nav_sel(dir: NavDir, m: SpecNode, s: Seq<(Seq<char>, Option<int>)>) -> Seq<
    (Seq<char>, Option<int>),
>
    decreases s.len(),
{
    if s.len() == 0 {
        Seq::empty()
    } else {
        sel_put(nav_sel(dir, m, s.drop_last()), nav_entry(dir, m, s.last()))
    }
}

impl App {
    /// One navigation command: pure selection movement, no history entry.
    pub fn navigate(&mut self, dir: NavDir)
        requires
            old(self).wf(),
        ensures
            final(self).wf(),
            ({
                let m0 = old(self).model();
                &&& (match m0.doc {
                    Option::Some(t) => final(self).model().selected == nav_sel(
                        dir,
                        t,
                        m0.selected,
                    ),
                    Option::None => final(self).model().selected == m0.selected,
                })
                &&& final(self).model().doc == m0.doc
                &&& final(self).model().status == m0.status
                &&& final(self).model().applied == m0.applied
                &&& final(self).model().pending == m0.pending
                &&& final(self).model().outbox == m0.outbox
            }),
    {
        let ghost m0 = self.model();
        let tree = match &self.ast {
            Option::Some(t) => t,
            Option::None => {
                return ;
            }
        };
        let ghost tm = tree.model();
        let mut new_sel = Selection::new();
        let n = self.selected.len();
        let mut i: usize = 0;
        proof {
            assert(m0.selected.take(0) =~= Seq::<(Seq<char>, Option<int>)>::empty());
        }
        while i < n
            invariant
                self.ast is Some,
                self.ast->Some_0.model() == tm,
                m0.selected == self.selected.model(),
                n == self.selected.model().len(),
                i <= n,
                new_sel.wf(),
                new_sel.model() == nav_sel(dir, tm, m0.selected.take(i as int)),
            decreases n - i,
        {
            let tree2 = match &self.ast {
                Option::Some(t) => t,
                Option::None => {
                    proof {
                        assert(false);
                    }
                    return ;
                }
            };
            proof {
                assert(tree2.model() == tm);
            }
            let (id, off) = self.selected.get(i);
            let ghost e = m0.selected[i as int];
            proof {
                assert(e == sel_entry_model((id, off)));
                crate::tree::lemma_lookup_some(tm, id@);
            }
            let target: (String, Option<usize>) = match dir {
                NavDir::Down => match tree2.view_of(&id) {
                    Option::Some(v) => match v {
                        crate::tree::NodeView::IntLeaf { .. } => (id, Some(0usize)),
                        crate::tree::NodeView::ListNode { first_child, .. } => match first_child {
                            Option::Some(f) => (f, None),
                            Option::None => (id, off),
                        },
                    },
                    Option::None => {
                        proof {
                            crate::tree::lemma_lookup_some(tm, id@);
                        }
                        (id, off)
                    }
                },
                NavDir::Up => {
                    if off.is_some() {
                        (id, None)
                    } else {
                        match tree2.siblings_of(&id) {
                            Option::Some(p) => {
                                proof {
                                    crate::tree::lemma_parent_of_some(tm, id@);
                                }
                                (p.0, None)
                            }
                            Option::None => {
                                proof {
                                    crate::tree::lemma_parent_of_some(tm, id@);
                                }
                                (id, None)
                            }
                        }
                    }
                }
                NavDir::Left => {
                    let mut digit_move: Option<usize> = None;
                    match (tree2.view_of(&id), off) {
                        (Option::Some(crate::tree::NodeView::IntLeaf { .. }), Option::Some(o)) => {
                            digit_move = Some(
                                if o > 0 {
                                    o - 1
                                } else {
                                    0
                                },
                            );
                        }
                        _ => {}
                    }
                    proof {
                        crate::tree::lemma_lookup_some(tm, id@);
                    }
                    match digit_move {
                        Option::Some(k) => (id, Some(k)),
                        Option::None => match tree2.siblings_of(&id) {
                            Option::Some(p) => {
                                let (_pid, ids, idx) = p;
                                proof {
                                    assert(ids@.map_values(|s2: String| s2@).len() == ids@.len());
                                    assert(idx < ids@.len());
                                }
                                let k = if idx > 0 {
                                    idx - 1
                                } else {
                                    0
                                };
                                proof {
                                    crate::tree::lemma_parent_of_some(tm, id@);
                                    let sids = ids_of(
                                        parent_of(tm, id@)->Some_0.val->List_0,
                                    );
                                    crate::selection::lemma_index_of_first_is(
                                        sids,
                                        id@,
                                        idx as int,
                                    );
                                    assert(ids@[k as int]@ == sids[k as int]);
                                }
                                (ids[k].clone(), None)
                            }
                            Option::None => {
                                proof {
                                    crate::tree::lemma_parent_of_some(tm, id@);
                                }
                                (id, off)
                            }
                        },
                    }
                }
                NavDir::Right => {
                    let mut digit_move: Option<usize> = None;
                    match (tree2.view_of(&id), off) {
                        (
                            Option::Some(crate::tree::NodeView::IntLeaf { value }),
                            Option::Some(o),
                        ) => {
                            let txt = crate::render::to_decimal(value);
                            let len = txt.as_str().unicode_len();
                            digit_move = Some(
                                if o < len {
                                    o + 1
                                } else {
                                    len
                                },
                            );
                        }
                        _ => {}
                    }
                    proof {
                        crate::tree::lemma_lookup_some(tm, id@);
                    }
                    match digit_move {
                        Option::Some(k) => (id, Some(k)),
                        Option::None => match tree2.siblings_of(&id) {
                            Option::Some(p) => {
                                let (_pid, ids, idx) = p;
                                proof {
                                    assert(ids@.map_values(|s2: String| s2@).len() == ids@.len());
                                    assert(idx < ids@.len());
                                }
                                let k = if idx + 1 < ids.len() {
                                    idx + 1
                                } else {
                                    ids.len() - 1
                                };
                                proof {
                                    crate::tree::lemma_parent_of_some(tm, id@);
                                    let sids = ids_of(
                                        parent_of(tm, id@)->Some_0.val->List_0,
                                    );
                                    crate::selection::lemma_index_of_first_is(
                                        sids,
                                        id@,
                                        idx as int,
                                    );
                                    assert(ids@[k as int]@ == sids[k as int]);
                                }
                                (ids[k].clone(), None)
                            }
                            Option::None => {
                                proof {
                                    crate::tree::lemma_parent_of_some(tm, id@);
                                }
                                (id, off)
                            }
                        },
                    }
                }
            };
            proof {
                match dir {
                    NavDir::Down => {
                        assert(sel_entry_model(target) == nav_entry(dir, tm, e));
                    }
                    NavDir::Up => {
                        assert(sel_entry_model(target) == nav_entry(dir, tm, e));
                    }
                    NavDir::Left => {
                        assert(sel_entry_model(target) == nav_entry(dir, tm, e));
                    }
                    NavDir::Right => {
                        assert(sel_entry_model(target) == nav_entry(dir, tm, e));
                    }
                }
            }
            new_sel.insert(target.0, target.1);
            proof {
                assert(m0.selected.take(i + 1).drop_last() =~= m0.selected.take(i as int));
                assert(m0.selected.take(i + 1).last() == e);
            }
            i += 1;
        }
        proof {
            assert(m0.selected.take(n as int) =~= m0.selected);
        }
        self.selected = new_sel;
    }
}

/// The content hashes of a sequence of entries, in order.
pub open spec fn hashes_of(es: Seq<EntryModel>) -> Seq<Seq<char>> {
    es.map_values(|e: EntryModel| entry_hash(e))
}

/// The causal references a locally produced entry carries: the hash of the
/// most recently applied entry, or nothing on a fresh replica.
pub open spec fn prev_of(applied: Seq<Seq<char>>) -> Seq<Seq<char>> {
    if applied.len() == 0 {
        Seq::empty()
    } else {
        seq![applied.last()]
    }
}

/// Committing a batch in order: each entry whose precondition holds against
/// the tree it meets is applied and queued; one whose application fails is
/// dropped and changes nothing.  The result is the final tree and exactly
/// what was queued.
pub open spec fn commit_sp(doc: Option<SpecNode>, ops: Seq<EntryModel>) -> (
    Option<SpecNode>,
    Seq<EntryModel>,
)
    decreases ops.len(),
{
    if ops.len() == 0 {
        (doc, Seq::empty())
    } else {
        let r = commit_sp(doc, ops.drop_last());
        match apply_sp(r.0, ops.last()) {
            Ok(d2) => (d2, r.1.push(ops.last())),
            Err(_) => r,
        }
    }
}

/// When the first entry of a non-empty batch applies cleanly, something is
/// queued.
pub proof fn lemma_commit_sp_first(doc: Option<SpecNode>, ops: Seq<EntryModel>)
    requires
        ops.len() > 0,
        apply_sp(doc, ops[0]) is Ok,
    ensures
        commit_sp(doc, ops).1.len() > 0,
    decreases ops.len(),
{
    if ops.len() == 1 {
        assert(ops.last() == ops[0]);
        assert(ops.drop_last().len() == 0);
        assert(commit_sp(doc, ops.drop_last()) == (doc, Seq::<EntryModel>::empty()));
    } else {
        assert(ops.drop_last()[0] == ops[0]);
        lemma_commit_sp_first(doc, ops.drop_last());
    }
}

/// The entries one wrap command produces: in selection order, exactly one
/// wrap per selected integer leaf, targeting that leaf; nothing for any
/// other selection.  The wrapper identifiers are freshly drawn, so only
/// their shape — 128 characters — is pinned.
pub open spec fn wrap_batch(
    m: SpecNode,
    sel: Seq<(Seq<char>, Option<int>)>,
    peer: Seq<char>,
    prev: Seq<Seq<char>>,
    ps: Seq<EntryModel>,
) -> bool
    decreases sel.len(),
{
    if sel.len() == 0 {
        ps.len() == 0
    } else if is_int_at(m, sel.last().0) {
        &&& ps.len() > 0
        &&& wrap_batch(m, sel.drop_last(), peer, prev, ps.drop_last())
        &&& ps.last().previous == prev
        &&& ps.last().peer == peer
        &&& (ps.last().op matches OpModel::WrapIntegerInAdd{ uuid, wrapping_uuid } && uuid == sel
            .last().0 && wrapping_uuid.len() == 128)
    } else {
        wrap_batch(m, sel.drop_last(), peer, prev, ps)
    }
}

/// Every entry of a wrap batch applies cleanly at its turn: wrapping keeps
/// every identifier in the tree, so each later target is still there.
pub proof fn lemma_wrap_batch_all_ok(
    t: SpecNode,
    sel: Seq<(Seq<char>, Option<int>)>,
    peer: Seq<char>,
    prev: Seq<Seq<char>>,
    ps: Seq<EntryModel>,
)
    requires
        wrap_batch(t, sel, peer, prev, ps),
    ensures
        commit_sp(Some(t), ps).1 == ps,
        commit_sp(Some(t), ps).0 matches Some(t2) && idset(t).subset_of(idset(t2)),
    decreases sel.len(),
{
    if sel.len() == 0 {
        assert(commit_sp(Some(t), ps).1 =~= ps);
    } else if is_int_at(t, sel.last().0) {
        lemma_wrap_batch_all_ok(t, sel.drop_last(), peer, prev, ps.drop_last());
        let t2 = commit_sp(Some(t), ps.drop_last()).0->0;
        let e = ps.last();
        let uuid = e.op->WrapIntegerInAdd_uuid;
        assert(contains_id(t, uuid)) by {
            crate::tree::lemma_lookup_some(t, uuid);
        }
        assert(contains_id(t2, uuid));
        assert(apply_sp(Some(t2), e) is Ok);
        crate::replay::lemma_wrap_idset_sup(t2, uuid, e.op->WrapIntegerInAdd_wrapping_uuid, e.peer);
        assert(ps.drop_last().push(ps.last()) =~= ps);
        assert(commit_sp(Some(t), ps).1 =~= ps);
    } else {
        lemma_wrap_batch_all_ok(t, sel.drop_last(), peer, prev, ps);
    }
}

/// A wrap batch is non-empty exactly when some selected identifier names an
/// integer leaf.
pub proof fn lemma_wrap_batch_nonempty(
    m: SpecNode,
    sel: Seq<(Seq<char>, Option<int>)>,
    peer: Seq<char>,
    prev: Seq<Seq<char>>,
    ps: Seq<EntryModel>,
)
    requires
        wrap_batch(m, sel, peer, prev, ps),
    ensures
        ps.len() > 0 <==> exists|j: int| 0 <= j < sel.len() && is_int_at(m, (#[trigger] sel[j]).0),
    decreases sel.len(),
{
    if sel.len() > 0 {
        if is_int_at(m, sel.last().0) {
            assert(sel[sel.len() - 1] == sel.last());
        } else {
            lemma_wrap_batch_nonempty(m, sel.drop_last(), peer, prev, ps);
            if ps.len() > 0 {
                let j = choose|j: int|
                    0 <= j < sel.drop_last().len() && is_int_at(m, (#[trigger] sel.drop_last()[j]).0);
                assert(sel[j] == sel.drop_last()[j]);
            }
            if exists|j: int| 0 <= j < sel.len() && is_int_at(m, (#[trigger] sel[j]).0) {
                let j = choose|j: int| 0 <= j < sel.len() && is_int_at(m, (#[trigger] sel[j]).0);
                if j < sel.len() - 1 {
                    assert(sel.drop_last()[j] == sel[j]);
                }
            }
        }
    }
}

impl App {
    /// The causal references for a locally produced entry: the hash of the
    /// most recently applied entry, or nothing on a fresh replica.
    pub fn prev_refs(&self) -> (r: Vec<String>)
        ensures
            r@.map_values(|s: String| s@) == (if self.model().applied.len() == 0 {
                Seq::<Seq<char>>::empty()
            } else {
                seq![self.model().applied.last()]
            }),
    {
        let mut r: Vec<String> = Vec::new();
        let n = self.applied.len();
        if n > 0 {
            r.push(self.applied[n - 1].clone());
            proof {
                assert(self.model().applied[n - 1] == self.applied@[n - 1]@);
                assert(r@.map_values(|s: String| s@) =~= seq![self.model().applied.last()]);
            }
        } else {
            proof {
                assert(r@.map_values(|s: String| s@) =~= Seq::<Seq<char>>::empty());
            }
        }
        r
    }

    /// Applies a batch of locally produced entries in order, queueing each
    /// applied one for transmission; an entry whose precondition fails
    /// changes nothing and is dropped.  Tree, applied log and queue follow
    /// `commit_sp` exactly.
    fn commit_batch(&mut self, ops: Vec<ASTHistoryEntry>)
        ensures
            ({
                let m0 = old(self).model();
                let m1 = final(self).model();
                let base = m0.outbox.len() as int;
                let opsm = ops@.map_values(|e: ASTHistoryEntry| e.model());
                let r = commit_sp(m0.doc, opsm);
                &&& m1.outbox.len() >= m0.outbox.len()
                &&& m1.outbox.take(base) == m0.outbox
                &&& m1.outbox.skip(base) == r.1
                &&& m1.doc == r.0
                &&& m1.applied == m0.applied + hashes_of(r.1)
                &&& m1.selected == m0.selected
                &&& m1.status == m0.status
                &&& m1.pending == m0.pending
                &&& final(self).wf() == old(self).wf()
            }),
    {
        let ghost m0 = self.model();
        let ghost base = m0.outbox.len() as int;
        let ghost opsm = ops@.map_values(|e: ASTHistoryEntry| e.model());
        let n = ops.len();
        let mut i: usize = 0;
        proof {
            assert(opsm.take(0) =~= Seq::<EntryModel>::empty());
            assert(self.model().outbox.skip(base) =~= Seq::<EntryModel>::empty());
            assert(self.model().outbox.take(base) =~= m0.outbox);
            assert(m0.applied + hashes_of(Seq::<EntryModel>::empty()) =~= m0.applied);
        }
        while i < n
            invariant
                n == ops@.len(),
                opsm == ops@.map_values(|e: ASTHistoryEntry| e.model()),
                opsm.len() == n,
                i <= n,
                m0.outbox.len() == base,
                0 <= base <= self.model().outbox.len(),
                self.model().outbox.take(base) == m0.outbox,
                self.model().outbox.skip(base) == commit_sp(m0.doc, opsm.take(i as int)).1,
                self.model().doc == commit_sp(m0.doc, opsm.take(i as int)).0,
                self.model().applied == m0.applied + hashes_of(
                    commit_sp(m0.doc, opsm.take(i as int)).1,
                ),
                self.model().selected == m0.selected,
                self.model().status == m0.status,
                self.model().pending == m0.pending,
                self.wf() == old(self).wf(),
            decreases n - i,
        {
            let ghost pre = self.model();
            let ghost suffix = pre.outbox.skip(base);
            let entry = ops[i].clone();
            let ghost em = entry.model();
            proof {
                assert(em == opsm[i as int]);
                assert(opsm.take(i + 1).drop_last() =~= opsm.take(i as int));
                assert(opsm.take(i + 1).last() == opsm[i as int]);
            }
            let r = self.commit_local(entry);
            proof {
                match r {
                    Result::Ok(_) => {
                        assert(self.model().outbox =~= pre.outbox.push(em));
                        assert(self.model().outbox.skip(base) =~= suffix.push(em));
                        assert(self.model().outbox.take(base) =~= pre.outbox.take(base));
                        assert(hashes_of(suffix.push(em)) =~= hashes_of(suffix).push(
                            entry_hash(em),
                        ));
                        assert(self.model().applied =~= m0.applied + hashes_of(suffix.push(em)));
                    }
                    Result::Err(_) => {}
                }
            }
            i += 1;
        }
        proof {
            assert(opsm.take(n as int) =~= opsm);
        }
    }

    /// The wrap command: in selection order, each selected integer leaf
    /// independently yields exactly one entry that wraps that leaf in a new
    /// list under a freshly drawn identifier; selections naming a list are
    /// refused with the status message, and other selections yield nothing.
    /// The entries are applied locally in order and queued.
    pub fn wrap_selected(&mut self, peer: &String)
        requires
            old(self).wf(),
        ensures
            final(self).wf(),
            ({
                let m0 = old(self).model();
                let m1 = final(self).model();
                let base = m0.outbox.len() as int;
                let appended = m1.outbox.skip(base);
                &&& m1.outbox.len() >= m0.outbox.len()
                &&& m1.outbox.take(base) == m0.outbox
                &&& m1.selected == m0.selected
                &&& m1.pending == m0.pending
                &&& (match m0.doc {
                    Option::Some(t) => {
                        &&& (exists|ps: Seq<EntryModel>|
                            {
                                &&& #[trigger] wrap_batch(
                                    t,
                                    m0.selected,
                                    peer@,
                                    prev_of(m0.applied),
                                    ps,
                                )
                                &&& appended == ps
                                &&& m1.doc == commit_sp(m0.doc, ps).0
                                &&& m1.applied == m0.applied + hashes_of(ps)
                            })
                        &&& m1.status == (if any_list_selected(t, m0.selected) {
                            "can't wrap + into +"@
                        } else {
                            m0.status
                        })
                    },
                    Option::None => {
                        &&& appended.len() == 0
                        &&& m1.doc == m0.doc
                        &&& m1.applied == m0.applied
                        &&& m1.status == m0.status
                    },
                })
            }),
    {
        let ghost m0 = self.model();
        if self.ast.is_none() {
            proof {
                assert(self.model().outbox.skip(m0.outbox.len() as int) =~= Seq::<
                    EntryModel,
                >::empty());
                assert(self.model().outbox.take(m0.outbox.len() as int) =~= m0.outbox);
            }
            return ;
        }
        let ghost tm = self.ast->Some_0.model();
        let ghost prev = prev_of(m0.applied);
        let mut ops: Vec<ASTHistoryEntry> = Vec::new();
        let n = self.selected.len();
        let mut i: usize = 0;
        proof {
            assert(wrap_batch(tm, m0.selected.take(0), peer@, prev, ops@.map_values(
                |e2: ASTHistoryEntry| e2.model(),
            )));
        }
        while i < n
            invariant
                old(self).wf(),
                self.ast == old(self).ast,
                self.selected == old(self).selected,
                self.applied == old(self).applied,
                self.pending == old(self).pending,
                self.outbox == old(self).outbox,
                self.status@ == (if exists|j: int|
                    0 <= j < i && is_list_at(tm, (#[trigger] m0.selected[j]).0) {
                    "can't wrap + into +"@
                } else {
                    m0.status
                }),
                self.ast is Some,
                self.ast->Some_0.model() == tm,
                m0 == old(self).model(),
                prev == prev_of(m0.applied),
                n == self.selected.model().len(),
                i <= n,
                wrap_batch(tm, m0.selected.take(i as int), peer@, prev, ops@.map_values(
                    |e2: ASTHistoryEntry| e2.model(),
                )),
                ops@.len() > 0 ==> contains_id(tm, ops@[0].model().op->WrapIntegerInAdd_uuid)
                    && ops@[0].model().op is WrapIntegerInAdd,
            decreases n - i,
        {
            let (id, _off) = self.selected.get(i);
            let ghost e = m0.selected[i as int];
            proof {
                assert(e == sel_entry_model((id, _off)));
                crate::tree::lemma_lookup_some(tm, id@);
                assert(m0.selected.take(i + 1).drop_last() =~= m0.selected.take(i as int));
                assert(m0.selected.take(i + 1).last() == e);
            }
            let view = match &self.ast {
                Option::Some(t) => t.view_of(&id),
                Option::None => None,
            };
            match view {
                Option::Some(v) => match v {
                    NodeView::IntLeaf { .. } => {
                        let entry = ASTHistoryEntry {
                            previous: self.prev_refs(),
                            peer: peer.clone(),
                            value: ASTHistoryEntryInner::WrapIntegerInAdd {
                                uuid: id,
                                wrapping_uuid: generate_uuid(),
                            },
                        };
                        let ghost em = entry.model();
                        let ghost oldops = ops@;
                        proof {
                            assert(em.previous == prev);
                            assert(em.peer == peer@);
                            assert(em.op->WrapIntegerInAdd_uuid == e.0);
                            assert(em.op->WrapIntegerInAdd_wrapping_uuid.len() == 128);
                            assert(is_int_at(tm, e.0));
                        }
                        ops.push(entry);
                        proof {
                            let newops = ops@.map_values(|e2: ASTHistoryEntry| e2.model());
                            let oldm = oldops.map_values(|e2: ASTHistoryEntry| e2.model());
                            assert(newops =~= oldm.push(em));
                            assert(newops.drop_last() =~= oldm);
                            assert(newops.last() == em);
                            assert(newops.len() > 0);
                            assert(wrap_batch(tm, m0.selected.take(i + 1), peer@, prev, newops));
                        }
                    }
                    NodeView::ListNode { .. } => {
                        self.status = String::from_str("can't wrap + into +");
                        proof {
                            assert(is_list_at(tm, e.0));
                            assert(!is_int_at(tm, e.0));
                        }
                    }
                },
                Option::None => {
                    proof {
                        assert(!is_int_at(tm, e.0));
                        assert(!is_list_at(tm, e.0));
                    }
                }
            }
            i += 1;
        }
        let ghost opsm = ops@.map_values(|e2: ASTHistoryEntry| e2.model());
        proof {
            assert(m0.selected.take(n as int) =~= m0.selected);
            lemma_wrap_batch_all_ok(tm, m0.selected, peer@, prev, opsm);
        }
        self.commit_batch(ops);
    }
}

/// An edit of an integer leaf's decimal text at the caret.
#[derive(Clone, Copy)]
pub enum TextEdit {
    InsertDigit(char),
    RemoveAt,
}

/// The value after editing the decimal text of `v` at caret `off`: a digit
/// is inserted at the caret (a caret past the digits inserts at the end), or
/// the character at the caret removed; text that no longer denotes an
/// in-range number gives nothing.
pub open spec fn edited_sp(v: i64, off: int, ed: TextEdit) -> Option<i64> {
    let txt = i64_dec(v);
    match ed {
        TextEdit::InsertDigit(c) => {
            let k = if 0 <= off <= txt.len() {
                off
            } else {
                txt.len() as int
            };
            parse_dec(txt.insert(k, c))
        }
        TextEdit::RemoveAt => {
            if 0 <= off < txt.len() {
                parse_dec(txt.remove(off))
            } else {
                None
            }
        }
    }
}

/// Applies one text edit to an integer's decimal rendering and parses the
/// result.
pub fn edited_value(v: i64, off: usize, ed: TextEdit) -> (r: Option<i64>)
    ensures
        r == edited_sp(v, off as int, ed),
{
    let txt = crate::render::to_decimal(v);
    let mut cs = crate::render::string_chars(&txt);
    match ed {
        TextEdit::InsertDigit(c) => {
            let k = if off <= cs.len() {
                off
            } else {
                cs.len()
            };
            cs.insert(k, c);
            crate::render::parse_i64_chars(&cs)
        }
        TextEdit::RemoveAt => {
            if off < cs.len() {
                cs.remove(off);
                crate::render::parse_i64_chars(&cs)
            } else {
                None
            }
        }
    }
}

/// The three text-editing commands of the cursor model.
#[derive(Clone, Copy)]
pub enum EditKind {
    Digit(char),
    Backspace,
    DeleteForward,
}

/// The entry one selection entry produces under an editing command: a digit
/// is inserted at the caret; backspace and delete-forward remove the
/// character at the caret; backspace on a whole-selected integer leaf
/// deletes the node.  A command against a list or a missing node, or an
/// edit that leaves no in-range number, produces nothing.
pub open spec fn edit_op_for(kind: EditKind, m: SpecNode, e: (Seq<char>, Option<int>)) -> Option<
    OpModel,
> {
    if !is_int_at(m, e.0) {
        None
    } else {
        let v = lookup(m, e.0)->Some_0.val->Int_0;
        match kind {
            EditKind::Digit(c) => match e.1 {
                Option::Some(o) => match edited_sp(v, o, TextEdit::InsertDigit(c)) {
                    Option::Some(v2) => Some(OpModel::SetInteger { uuid: e.0, value: v2 }),
                    Option::None => None,
                },
                Option::None => None,
            },
            EditKind::Backspace => match e.1 {
                Option::Some(o) => match edited_sp(v, o, TextEdit::RemoveAt) {
                    Option::Some(v2) => Some(OpModel::SetInteger { uuid: e.0, value: v2 }),
                    Option::None => None,
                },
                Option::None => Some(OpModel::Delete { uuid: e.0 }),
            },
            EditKind::DeleteForward => match e.1 {
                Option::Some(o) => match edited_sp(v, o, TextEdit::RemoveAt) {
                    Option::Some(v2) => Some(OpModel::SetInteger { uuid: e.0, value: v2 }),
                    Option::None => None,
                },
                Option::None => None,
            },
        }
    }
}

/// How an editing command moves one caret: inserting a digit advances it,
/// removing one retreats it (stopping at the left edge); carets on lists
/// and whole-node selections stay.
pub open spec fn bump_entry(kind: EditKind, m: SpecNode, e: (Seq<char>, Option<int>)) -> (
    Seq<char>,
    Option<int>,
) {
    if is_int_at(m, e.0) && e.1 is Some {
        let o = e.1->0;
        match kind {
            EditKind::Digit(_) => (
                e.0,
                Some(
                    if o < usize::MAX {
                        o + 1
                    } else {
                        o
                    },
                ),
            ),
            EditKind::Backspace => (
                e.0,
                Some(
                    if o > 0 {
                        o - 1
                    } else {
                        0
                    },
                ),
            ),
            EditKind::DeleteForward => (
                e.0,
                Some(
                    if o > 0 {
                        o - 1
                    } else {
                        0
                    },
                ),
            ),
        }
    } else {
        e
    }
}

/// The operations one editing command produces: in selection order, the
/// operation `edit_op_for` gives for each selected entry, skipping those
/// that give none — at most one per selected node.
pub open spec fn edit_batch(
    kind: EditKind,
    m: SpecNode,
    sel: Seq<(Seq<char>, Option<int>)>,
) -> Seq<OpModel>
    decreases sel.len(),
{
    if sel.len() == 0 {
        Seq::empty()
    } else {
        let rest = edit_batch(kind, m, sel.drop_last());
        match edit_op_for(kind, m, sel.last()) {
            Option::Some(op) => rest.push(op),
            Option::None => rest,
        }
    }
}

/// Operations wrapped as entries, all carrying the same author and causal
/// references.
pub open spec fn entries_of(ops: Seq<OpModel>, peer: Seq<char>, prev: Seq<Seq<char>>) -> Seq<
    EntryModel,
> {
    ops.map_values(|op: OpModel| EntryModel { previous: prev, peer: peer, op: op })
}

/// Whether some selected identifier names a list node.
pub open spec fn any_list_selected(m: SpecNode, sel: Seq<(Seq<char>, Option<int>)>) -> bool {
    exists|j: int| 0 <= j < sel.len() && is_list_at(m, (#[trigger] sel[j]).0)
}

impl App {
    /// One text-editing command over the whole selection: each selected
    /// integer leaf independently produces at most one entry, the carets
    /// move, and the entries are applied locally in order and queued;
    /// editing a list is a status-reported no-op for that selection.
    pub fn edit_selected(&mut self, peer: &String, kind: EditKind)
        requires
            old(self).wf(),
        ensures
            final(self).wf(),
            ({
                let m0 = old(self).model();
                let m1 = final(self).model();
                let base = m0.outbox.len() as int;
                let appended = m1.outbox.skip(base);
                &&& m1.outbox.len() >= m0.outbox.len()
                &&& m1.outbox.take(base) == m0.outbox
                &&& m1.pending == m0.pending
                &&& (match m0.doc {
                    Option::Some(t) => {
                        let r = commit_sp(
                            m0.doc,
                            entries_of(
                                edit_batch(kind, t, m0.selected),
                                peer@,
                                prev_of(m0.applied),
                            ),
                        );
                        &&& appended == r.1
                        &&& m1.doc == r.0
                        &&& m1.applied == m0.applied + hashes_of(r.1)
                        &&& m1.selected == m0.selected.map_values(
                            |e: (Seq<char>, Option<int>)| bump_entry(kind, t, e),
                        )
                        &&& m1.status == (if any_list_selected(t, m0.selected) {
                            "can't edit a +"@
                        } else {
                            m0.status
                        })
                    },
                    Option::None => {
                        &&& appended.len() == 0
                        &&& m1.doc == m0.doc
                        &&& m1.applied == m0.applied
                        &&& m1.selected == m0.selected
                        &&& m1.status == m0.status
                    },
                })
            }),
    {
        let ghost m0 = self.model();
        if self.ast.is_none() {
            proof {
                assert(self.model().outbox.skip(m0.outbox.len() as int) =~= Seq::<
                    EntryModel,
                >::empty());
                assert(self.model().outbox.take(m0.outbox.len() as int) =~= m0.outbox);
                assert(m0.applied + hashes_of(Seq::<EntryModel>::empty()) =~= m0.applied);
            }
            return ;
        }
        let ghost tm = self.ast->Some_0.model();
        let ed = match kind {
            EditKind::Digit(c) => TextEdit::InsertDigit(c),
            EditKind::Backspace => TextEdit::RemoveAt,
            EditKind::DeleteForward => TextEdit::RemoveAt,
        };
        let mut ops: Vec<ASTHistoryEntry> = Vec::new();
        let n = self.selected.len();
        let mut i: usize = 0;
        while i < n
            invariant
                old(self).wf(),
                self.ast == old(self).ast,
                self.selected == old(self).selected,
                self.applied == old(self).applied,
                self.pending == old(self).pending,
                self.outbox == old(self).outbox,
                self.status@ == (if exists|j: int|
                    0 <= j < i && is_list_at(tm, (#[trigger] m0.selected[j]).0) {
                    "can't edit a +"@
                } else {
                    m0.status
                }),
                self.ast is Some,
                self.ast->Some_0.model() == tm,
                m0 == old(self).model(),
                n == self.selected.model().len(),
                i <= n,
                ed == (match kind {
                    EditKind::Digit(c) => TextEdit::InsertDigit(c),
                    EditKind::Backspace => TextEdit::RemoveAt,
                    EditKind::DeleteForward => TextEdit::RemoveAt,
                }),
                ops@.map_values(|e2: ASTHistoryEntry| e2.model()) == entries_of(
                    edit_batch(kind, tm, m0.selected.take(i as int)),
                    peer@,
                    prev_of(m0.applied),
                ),
            decreases n - i,
        {
            let (id, off) = self.selected.get(i);
            let ghost e = m0.selected[i as int];
            proof {
                assert(e == sel_entry_model((id, off)));
                crate::tree::lemma_lookup_some(tm, id@);
            }
            let view = match &self.ast {
                Option::Some(t) => t.view_of(&id),
                Option::None => None,
            };
            let op: Option<ASTHistoryEntryInner> = match view {
                Option::Some(v) => match v {
                    NodeView::IntLeaf { value } => {
                        match (kind, off) {
                            (EditKind::Digit(_), Option::Some(o)) => {
                                match edited_value(value, o, ed) {
                                    Option::Some(v2) => Some(
                                        ASTHistoryEntryInner::SetInteger {
                                            uuid: id,
                                            value: v2,
                                        },
                                    ),
                                    Option::None => None,
                                }
                            }
                            (EditKind::Backspace, Option::Some(o)) => {
                                match edited_value(value, o, ed) {
                                    Option::Some(v2) => Some(
                                        ASTHistoryEntryInner::SetInteger {
                                            uuid: id,
                                            value: v2,
                                        },
                                    ),
                                    Option::None => None,
                                }
                            }
                            (EditKind::Backspace, Option::None) => Some(
                                ASTHistoryEntryInner::Delete { uuid: id },
                            ),
                            (EditKind::DeleteForward, Option::Some(o)) => {
                                match edited_value(value, o, ed) {
                                    Option::Some(v2) => Some(
                                        ASTHistoryEntryInner::SetInteger {
                                            uuid: id,
                                            value: v2,
                                        },
                                    ),
                                    Option::None => None,
                                }
                            }
                            _ => None,
                        }
                    }
                    NodeView::ListNode { .. } => {
                        self.status = String::from_str("can't edit a +");
                        None
                    }
                },
                Option::None => None,
            };
            proof {
                assert(m0.selected.take(i + 1).drop_last() =~= m0.selected.take(i as int));
                assert(m0.selected.take(i + 1).last() == e);
            }
            match op {
                Option::Some(inner) => {
                    let entry = ASTHistoryEntry {
                        previous: self.prev_refs(),
                        peer: peer.clone(),
                        value: inner,
                    };
                    let ghost em = entry.model();
                    let ghost oldops = ops@;
                    let ghost prev = prev_of(m0.applied);
                    let ghost batch0 = edit_batch(kind, tm, m0.selected.take(i as int));
                    let ghost batch1 = edit_batch(kind, tm, m0.selected.take(i + 1));
                    proof {
                        assert(edit_op_for(kind, tm, e) == Some(em.op));
                        assert(em.previous == prev);
                        assert(em.peer == peer@);
                        assert(batch1 == batch0.push(em.op));
                        assert(em == EntryModel { previous: prev, peer: peer@, op: em.op });
                    }
                    ops.push(entry);
                    proof {
                        let lhs = ops@.map_values(|e2: ASTHistoryEntry| e2.model());
                        let rhs = entries_of(batch1, peer@, prev);
                        assert(oldops.map_values(|e2: ASTHistoryEntry| e2.model()) == entries_of(
                            batch0,
                            peer@,
                            prev,
                        ));
                        assert(oldops.map_values(|e2: ASTHistoryEntry| e2.model()).len()
                            == oldops.len());
                        assert(entries_of(batch0, peer@, prev).len() == batch0.len());
                        assert(batch0.len() == oldops.len());
                        assert(ops@.len() == oldops.len() + 1);
                        assert(batch1.len() == batch0.len() + 1);
                        assert(ops@[oldops.len() as int].model() == em);
                        assert forall|k: int| 0 <= k < lhs.len() implies lhs[k] == rhs[k] by {
                            if k < oldops.len() {
                                assert(ops@[k] == oldops[k]);
                                assert(oldops.map_values(|e2: ASTHistoryEntry| e2.model())[k]
                                    == oldops[k].model());
                                assert(entries_of(batch0, peer@, prev)[k] == (EntryModel {
                                    previous: prev,
                                    peer: peer@,
                                    op: batch0[k],
                                }));
                                assert(batch1[k] == batch0[k]);
                            } else {
                                assert(ops@[k].model() == em);
                                assert(batch1[k] == em.op);
                            }
                        }
                        assert(lhs =~= rhs);
                    }
                }
                Option::None => {
                    proof {
                        assert(edit_op_for(kind, tm, e) is None);
                        assert(edit_batch(kind, tm, m0.selected.take(i + 1)) == edit_batch(
                            kind,
                            tm,
                            m0.selected.take(i as int),
                        ));
                    }
                }
            }
            i += 1;
        }
        proof {
            assert(m0.selected.take(n as int) =~= m0.selected);
        }
        let mut i2: usize = 0;
        while i2 < n
            invariant
                old(self).wf(),
                self.wf(),
                self.ast == old(self).ast,
                self.status@ == (if any_list_selected(tm, m0.selected) {
                    "can't edit a +"@
                } else {
                    m0.status
                }),
                self.applied == old(self).applied,
                self.pending == old(self).pending,
                self.outbox == old(self).outbox,
                self.ast is Some,
                self.ast->Some_0.model() == tm,
                m0 == old(self).model(),
                m0.selected.len() == n,
                n == self.selected.model().len(),
                i2 <= n,
                forall|j: int|
                    i2 <= j < n ==> self.selected.model()[j] == m0.selected[j],
                forall|j: int|
                    0 <= j < i2 ==> self.selected.model()[j] == bump_entry(
                        kind,
                        tm,
                        m0.selected[j],
                    ),
            decreases n - i2,
        {
            let (id, off) = self.selected.get(i2);
            let ghost e = m0.selected[i2 as int];
            proof {
                assert(e == sel_entry_model((id, off)));
                crate::tree::lemma_lookup_some(tm, id@);
            }
            let view = match &self.ast {
                Option::Some(t) => t.view_of(&id),
                Option::None => None,
            };
            match (view, off) {
                (Option::Some(NodeView::IntLeaf { .. }), Option::Some(o)) => {
                    let no: usize = match kind {
                        EditKind::Digit(_) => {
                            if o < usize::MAX {
                                o + 1
                            } else {
                                o
                            }
                        }
                        EditKind::Backspace => {
                            if o > 0 {
                                o - 1
                            } else {
                                0
                            }
                        }
                        EditKind::DeleteForward => {
                            if o > 0 {
                                o - 1
                            } else {
                                0
                            }
                        }
                    };
                    self.selected.set_offset_at(i2, Some(no));
                    proof {
                        assert(self.selected.model()[i2 as int] == bump_entry(kind, tm, e));
                    }
                }
                _ => {}
            }
            i2 += 1;
        }
        proof {
            assert(self.selected.model() =~= m0.selected.map_values(
                |e2: (Seq<char>, Option<int>)| bump_entry(kind, tm, e2),
            ));
        }
        self.commit_batch(ops);
    }
}

/// The entries one insert-sibling command produces: in selection order,
/// exactly one insertion per selected node that has a parent — into that
/// parent, at the anchor's position, just past it when inserting after —
/// of a fresh integer leaf with value one.  The new leaves' identifiers
/// are freshly drawn, so only their shape — 128 characters — is pinned.
pub open spec fn insert_batch(
    after: bool,
    m: SpecNode,
    sel: Seq<(Seq<char>, Option<int>)>,
    peer: Seq<char>,
    prev: Seq<Seq<char>>,
    ps: Seq<EntryModel>,
) -> bool
    decreases sel.len(),
{
    if sel.len() == 0 {
        ps.len() == 0
    } else if has_parent(m, sel.last().0) {
        &&& ps.len() > 0
        &&& insert_batch(after, m, sel.drop_last(), peer, prev, ps.drop_last())
        &&& ps.last().previous == prev
        &&& ps.last().peer == peer
        &&& (ps.last().op matches OpModel::InsertAtIndex{ uuid, index, ast } && {
            let pn = parent_of(m, sel.last().0)->Some_0;
            let ids = ids_of(pn.val->List_0);
            &&& uuid == pn.id
            &&& index == index_of_first(ids, sel.last().0) + (if after {
                1int
            } else {
                0int
            })
            &&& ast.val == SpecVal::Int(1)
            &&& ast.editor == Seq::<char>::empty()
            &&& ast.id.len() == 128
        })
    } else {
        insert_batch(after, m, sel.drop_last(), peer, prev, ps)
    }
}

/// An insert batch is non-empty exactly when some selected identifier has
/// a parent.
pub proof fn lemma_insert_batch_nonempty(
    after: bool,
    m: SpecNode,
    sel: Seq<(Seq<char>, Option<int>)>,
    peer: Seq<char>,
    prev: Seq<Seq<char>>,
    ps: Seq<EntryModel>,
)
    requires
        insert_batch(after, m, sel, peer, prev, ps),
    ensures
        ps.len() > 0 <==> exists|j: int|
            0 <= j < sel.len() && has_parent(m, (#[trigger] sel[j]).0),
    decreases sel.len(),
{
    if sel.len() > 0 {
        if has_parent(m, sel.last().0) {
            assert(sel[sel.len() - 1] == sel.last());
        } else {
            lemma_insert_batch_nonempty(after, m, sel.drop_last(), peer, prev, ps);
            if ps.len() > 0 {
                let j = choose|j: int|
                    0 <= j < sel.drop_last().len() && has_parent(
                        m,
                        (#[trigger] sel.drop_last()[j]).0,
                    );
                assert(sel[j] == sel.drop_last()[j]);
            }
            if exists|j: int| 0 <= j < sel.len() && has_parent(m, (#[trigger] sel[j]).0) {
                let j = choose|j: int| 0 <= j < sel.len() && has_parent(m, (#[trigger] sel[j]).0);
                if j < sel.len() - 1 {
                    assert(sel.drop_last()[j] == sel[j]);
                }
            }
        }
    }
}

/// Under uniqueness, the first entry of a non-empty insert batch applies
/// cleanly: its parent is the list the search found, and its index is
/// within that list's children.
pub proof fn lemma_insert_batch_first_ok(
    after: bool,
    t: SpecNode,
    sel: Seq<(Seq<char>, Option<int>)>,
    peer: Seq<char>,
    prev: Seq<Seq<char>>,
    ps: Seq<EntryModel>,
)
    requires
        uniq(t),
        insert_batch(after, t, sel, peer, prev, ps),
        ps.len() > 0,
    ensures
        apply_sp(Some(t), ps[0]) is Ok,
    decreases sel.len(),
{
    if sel.len() > 0 {
        if has_parent(t, sel.last().0) {
            if ps.len() > 1 {
                assert(ps.drop_last()[0] == ps[0]);
                lemma_insert_batch_first_ok(after, t, sel.drop_last(), peer, prev, ps.drop_last());
            } else {
                assert(ps[0] == ps.last());
                let anchor = sel.last().0;
                crate::tree::lemma_parent_of_some(t, anchor);
                let pn = parent_of(t, anchor)->Some_0;
                crate::tree::lemma_parent_lookup_uniq(t, anchor);
                assert(lookup(t, pn.id) == Some(pn));
                assert(is_list_at(t, pn.id));
                let ids = ids_of(pn.val->List_0);
                assert(ids.len() == pn.val->List_0.len());
                crate::tree::lemma_index_of_first(ids, anchor);
                assert(index_of_first(ids, anchor) >= 0) by {
                    let k = choose|k: int|
                        0 <= k < pn.val->List_0.len() && pn.val->List_0[k].id == anchor;
                    assert(ids[k] == anchor);
                }
                assert(list_len_at(t, pn.id) == ids.len());
            }
        } else {
            lemma_insert_batch_first_ok(after, t, sel.drop_last(), peer, prev, ps);
        }
    }
}

/// The anchors and the fresh identifiers that replace them in the
/// selection when inserting after, in selection order.
pub open spec fn insert_pairs(
    m: SpecNode,
    sel: Seq<(Seq<char>, Option<int>)>,
    ps: Seq<EntryModel>,
) -> Seq<(Seq<char>, Seq<char>)>
    decreases sel.len(),
{
    if sel.len() == 0 {
        Seq::empty()
    } else if has_parent(m, sel.last().0) {
        if ps.len() > 0 {
            insert_pairs(m, sel.drop_last(), ps.drop_last()).push(
                (sel.last().0, ps.last().op->InsertAtIndex_ast.id),
            )
        } else {
            insert_pairs(m, sel.drop_last(), ps)
        }
    } else {
        insert_pairs(m, sel.drop_last(), ps)
    }
}

/// One anchor handing its selection over to a fresh leaf.
pub open spec fn replace_anchor(
    s: Seq<(Seq<char>, Option<int>)>,
    anchor: Seq<char>,
    fresh: Seq<char>,
) -> Seq<(Seq<char>, Option<int>)> {
    sel_put(sel_del(s, anchor), (fresh, None))
}

/// The selection after each anchor, in order, hands its place to its fresh
/// leaf.
pub open spec fn sel_pairs_fold(
    s0: Seq<(Seq<char>, Option<int>)>,
    pairs: Seq<(Seq<char>, Seq<char>)>,
) -> Seq<(Seq<char>, Option<int>)>
    decreases pairs.len(),
{
    if pairs.len() == 0 {
        s0
    } else {
        replace_anchor(sel_pairs_fold(s0, pairs.drop_last()), pairs.last().0, pairs.last().1)
    }
}

impl App {
    /// The insert-sibling command: next to each selected node that has a
    /// parent, a fresh integer leaf with value one is inserted — after the
    /// node or before it.  When inserting after, the new node takes over
    /// the anchor's place in the selection.
    pub fn insert_sibling(&mut self, peer: &String, after: bool)
        requires
            old(self).wf(),
        ensures
            final(self).wf(),
            ({
                let m0 = old(self).model();
                let m1 = final(self).model();
                let base = m0.outbox.len() as int;
                let appended = m1.outbox.skip(base);
                &&& m1.outbox.len() >= m0.outbox.len()
                &&& m1.outbox.take(base) == m0.outbox
                &&& m1.pending == m0.pending
                &&& m1.status == m0.status
                &&& (match m0.doc {
                    Option::Some(t) => exists|ps: Seq<EntryModel>|
                        {
                            &&& #[trigger] insert_batch(
                                after,
                                t,
                                m0.selected,
                                peer@,
                                prev_of(m0.applied),
                                ps,
                            )
                            &&& appended == commit_sp(m0.doc, ps).1
                            &&& m1.doc == commit_sp(m0.doc, ps).0
                            &&& m1.applied == m0.applied + hashes_of(commit_sp(m0.doc, ps).1)
                            &&& m1.selected == (if after {
                                sel_pairs_fold(m0.selected, insert_pairs(t, m0.selected, ps))
                            } else {
                                m0.selected
                            })
                            &&& (uniq(t) && ps.len() > 0 ==> appended.len() > 0)
                        },
                    Option::None => {
                        &&& appended.len() == 0
                        &&& m1.doc == m0.doc
                        &&& m1.applied == m0.applied
                        &&& m1.selected == m0.selected
                    },
                })
            }),
    {
        let ghost m0 = self.model();
        if self.ast.is_none() {
            proof {
                assert(self.model().outbox.skip(m0.outbox.len() as int) =~= Seq::<
                    EntryModel,
                >::empty());
                assert(self.model().outbox.take(m0.outbox.len() as int) =~= m0.outbox);
            }
            return ;
        }
        let ghost tm = self.ast->Some_0.model();
        let ghost prev = prev_of(m0.applied);
        let mut ops: Vec<ASTHistoryEntry> = Vec::new();
        let mut pairs: Vec<(String, String)> = Vec::new();
        let n = self.selected.len();
        let mut i: usize = 0;
        proof {
            assert(insert_batch(after, tm, m0.selected.take(0), peer@, prev, ops@.map_values(
                |e2: ASTHistoryEntry| e2.model(),
            )));
            assert(pairs@.map_values(|p: (String, String)| (p.0@, p.1@)) =~= insert_pairs(
                tm,
                m0.selected.take(0),
                ops@.map_values(|e2: ASTHistoryEntry| e2.model()),
            ));
        }
        while i < n
            invariant
                old(self).wf(),
                *self == *old(self),
                self.ast is Some,
                self.ast->Some_0.model() == tm,
                m0 == old(self).model(),
                prev == prev_of(m0.applied),
                n == self.selected.model().len(),
                i <= n,
                insert_batch(after, tm, m0.selected.take(i as int), peer@, prev, ops@.map_values(
                    |e2: ASTHistoryEntry| e2.model(),
                )),
                after ==> pairs@.map_values(|p: (String, String)| (p.0@, p.1@)) == insert_pairs(
                    tm,
                    m0.selected.take(i as int),
                    ops@.map_values(|e2: ASTHistoryEntry| e2.model()),
                ),
                !after ==> pairs@.len() == 0,
            decreases n - i,
        {
            let (id, _off) = self.selected.get(i);
            let ghost e = m0.selected[i as int];
            proof {
                assert(e == sel_entry_model((id, _off)));
                crate::tree::lemma_parent_of_some(tm, id@);
                assert(m0.selected.take(i + 1).drop_last() =~= m0.selected.take(i as int));
                assert(m0.selected.take(i + 1).last() == e);
            }
            let sib = match &self.ast {
                Option::Some(t) => t.siblings_of(&id),
                Option::None => None,
            };
            match sib {
                Option::Some(p) => {
                    let (pid, ids, idx) = p;
                    let il = ids.len();
                    proof {
                        assert(ids@.map_values(|s2: String| s2@).len() == ids@.len());
                        assert(idx < il);
                        let sids = ids_of(parent_of(tm, id@)->Some_0.val->List_0);
                        crate::selection::lemma_index_of_first_is(sids, id@, idx as int);
                    }
                    let index = if after {
                        idx + 1
                    } else {
                        idx
                    };
                    let new_id = generate_uuid();
                    let node = AST {
                        uuid: new_id.clone(),
                        changed_by: String::new(),
                        value: ASTInner::Integer { value: 1 },
                    };
                    let entry = ASTHistoryEntry {
                        previous: self.prev_refs(),
                        peer: peer.clone(),
                        value: ASTHistoryEntryInner::InsertAtIndex {
                            uuid: pid,
                            index,
                            ast: node,
                        },
                    };
                    let ghost em = entry.model();
                    let ghost oldops = ops@;
                    let ghost oldpairs = pairs@;
                    proof {
                        assert(em.previous == prev);
                        assert(em.peer == peer@);
                        assert(em.op->InsertAtIndex_uuid == parent_of(tm, e.0)->Some_0.id);
                        assert(em.op->InsertAtIndex_ast.val == SpecVal::Int(1));
                        assert(em.op->InsertAtIndex_ast.editor =~= Seq::<char>::empty());
                        assert(em.op->InsertAtIndex_ast.id == new_id@);
                        assert(em.op->InsertAtIndex_ast.id.len() == 128);
                    }
                    ops.push(entry);
                    proof {
                        let newops = ops@.map_values(|e2: ASTHistoryEntry| e2.model());
                        let oldm = oldops.map_values(|e2: ASTHistoryEntry| e2.model());
                        assert(newops =~= oldm.push(em));
                        assert(newops.drop_last() =~= oldm);
                        assert(newops.last() == em);
                        assert(insert_batch(after, tm, m0.selected.take(i + 1), peer@, prev,
                        newops));
                    }
                    if after {
                        pairs.push((id, new_id));
                        proof {
                            let newops = ops@.map_values(|e2: ASTHistoryEntry| e2.model());
                            let pm = pairs@.map_values(|p2: (String, String)| (p2.0@, p2.1@));
                            let oldpm = oldpairs.map_values(
                                |p2: (String, String)| (p2.0@, p2.1@),
                            );
                            assert(pm =~= oldpm.push((e.0, em.op->InsertAtIndex_ast.id)));
                            assert(pm =~= insert_pairs(tm, m0.selected.take(i + 1), newops));
                        }
                    }
                }
                Option::None => {
                    proof {
                        assert(!has_parent(tm, e.0));
                        assert(insert_batch(after, tm, m0.selected.take(i + 1), peer@, prev, ops@
                            .map_values(|e2: ASTHistoryEntry| e2.model())));
                        if after {
                            assert(pairs@.map_values(|p2: (String, String)| (p2.0@, p2.1@))
                                =~= insert_pairs(tm, m0.selected.take(i + 1), ops@.map_values(
                                |e2: ASTHistoryEntry| e2.model(),
                            )));
                        }
                    }
                }
            }
            i += 1;
        }
        let ghost opsm = ops@.map_values(|e2: ASTHistoryEntry| e2.model());
        let ghost pairsm = pairs@.map_values(|p2: (String, String)| (p2.0@, p2.1@));
        proof {
            assert(m0.selected.take(n as int) =~= m0.selected);
            if uniq(tm) && opsm.len() > 0 {
                lemma_insert_batch_first_ok(after, tm, m0.selected, peer@, prev, opsm);
                lemma_commit_sp_first(m0.doc, opsm);
            }
        }
        if after {
            let np = pairs.len();
            let mut j: usize = 0;
            proof {
                assert(pairsm.take(0) =~= Seq::<(Seq<char>, Seq<char>)>::empty());
                assert(self.selected.model() == sel_pairs_fold(m0.selected, pairsm.take(0)));
            }
            while j < np
                invariant
                    old(self).wf(),
                    self.wf(),
                    np == pairs@.len(),
                    pairsm == pairs@.map_values(|p2: (String, String)| (p2.0@, p2.1@)),
                    pairsm.len() == np,
                    j <= np,
                    self.ast == old(self).ast,
                    self.status == old(self).status,
                    self.applied == old(self).applied,
                    self.pending == old(self).pending,
                    self.outbox == old(self).outbox,
                    m0 == old(self).model(),
                    self.selected.model() == sel_pairs_fold(m0.selected, pairsm.take(j as int)),
                decreases np - j,
            {
                let anchor = pairs[j].0.clone();
                let fresh = pairs[j].1.clone();
                proof {
                    assert(pairsm[j as int] == (anchor@, fresh@));
                    assert(pairsm.take(j + 1).drop_last() =~= pairsm.take(j as int));
                    assert(pairsm.take(j + 1).last() == pairsm[j as int]);
                }
                self.selected.remove(&anchor);
                self.selected.insert(fresh, None);
                proof {
                    assert(self.selected.model() == sel_pairs_fold(m0.selected, pairsm.take(
                        j + 1,
                    )));
                }
                j += 1;
            }
            proof {
                assert(pairsm.take(np as int) =~= pairsm);
            }
        }
        self.commit_batch(ops);
    }
}

/// The selection with entries naming missing nodes dropped, in order.
pub open spec fn sel_pruned(m: SpecNode, s: Seq<(Seq<char>, Option<int>)>) -> Seq<
    (Seq<char>, Option<int>),
>
    decreases s.len(),
{
    if s.len() == 0 {
        Seq::empty()
    } else {
        let rest = sel_pruned(m, s.drop_last());
        if contains_id(m, s.last().0) {
            rest.push(s.last())
        } else {
            rest
        }
    }
}

/// Pruning keeps no identifier the selection did not hold.
pub proof fn lemma_sel_pruned_has(m: SpecNode, s: Seq<(Seq<char>, Option<int>)>, x: Seq<char>)
    ensures
        sel_has(sel_pruned(m, s), x) ==> sel_has(s, x),
    decreases s.len(),
{
    if s.len() > 0 && sel_has(sel_pruned(m, s), x) {
        lemma_sel_pruned_has(m, s.drop_last(), x);
        let p = sel_pruned(m, s);
        let k = choose|k: int| 0 <= k < p.len() && p[k].0 == x;
        if contains_id(m, s.last().0) && k == p.len() - 1 {
            assert(s[s.len() - 1].0 == x);
        } else {
            assert(sel_pruned(m, s.drop_last())[k] == p[k]);
            assert(sel_has(sel_pruned(m, s.drop_last()), x));
            let j = choose|j: int| 0 <= j < s.drop_last().len() && s.drop_last()[j].0 == x;
            assert(s[j].0 == x);
        }
    }
}

/// Pruning keeps the selection free of duplicate identifiers.
pub proof fn lemma_sel_pruned_wf(m: SpecNode, s: Seq<(Seq<char>, Option<int>)>)
    requires
        forall|a: int, b: int| 0 <= a < b < s.len() ==> s[a].0 != s[b].0,
    ensures
        forall|a: int, b: int|
            0 <= a < b < sel_pruned(m, s).len() ==> sel_pruned(m, s)[a].0 != sel_pruned(m, s)[b].0,
    decreases s.len(),
{
    if s.len() > 0 {
        assert forall|a: int, b: int|
            0 <= a < b < s.drop_last().len() implies s.drop_last()[a].0 != s.drop_last()[b].0 by {
            assert(s.drop_last()[a] == s[a]);
            assert(s.drop_last()[b] == s[b]);
        }
        lemma_sel_pruned_wf(m, s.drop_last());
        let rest = sel_pruned(m, s.drop_last());
        if contains_id(m, s.last().0) {
            assert(!sel_has(rest, s.last().0)) by {
                lemma_sel_pruned_has(m, s.drop_last(), s.last().0);
                if sel_has(s.drop_last(), s.last().0) {
                    let j = choose|j: int|
                        0 <= j < s.drop_last().len() && s.drop_last()[j].0 == s.last().0;
                    assert(s[j].0 == s[s.len() - 1].0);
                }
            }
            let p = rest.push(s.last());
            assert forall|a: int, b: int| 0 <= a < b < p.len() implies p[a].0 != p[b].0 by {
                if b < rest.len() {
                    assert(p[a] == rest[a]);
                    assert(p[b] == rest[b]);
                } else {
                    assert(p[a] == rest[a]);
                    if p[a].0 == s.last().0 {
                        assert(sel_has(rest, s.last().0));
                    }
                }
            }
        }
    }
}

impl App {
    /// Drops selections of nodes the tree no longer holds; when nothing
    /// remains — or nothing was selected — the root is selected whole.
    /// The terminal front end runs this before each redraw.
    pub fn prune_selection(&mut self)
        requires
            old(self).wf(),
        ensures
            final(self).wf(),
            ({
                let m0 = old(self).model();
                let m1 = final(self).model();
                &&& m1.doc == m0.doc
                &&& m1.status == m0.status
                &&& m1.applied == m0.applied
                &&& m1.pending == m0.pending
                &&& m1.outbox == m0.outbox
                &&& (match m0.doc {
                    Option::Some(t) => m1.selected == (if sel_pruned(t, m0.selected).len() == 0 {
                        seq![(t.id, None::<int>)]
                    } else {
                        sel_pruned(t, m0.selected)
                    }),
                    Option::None => m1.selected == m0.selected,
                })
            }),
    {
        let ghost m0 = self.model();
        let root_id = match &self.ast {
            Option::Some(t) => t.uuid.clone(),
            Option::None => {
                return ;
            }
        };
        let ghost tm = self.ast->Some_0.model();
        let mut kept: Vec<(String, Option<usize>)> = Vec::new();
        let n = self.selected.len();
        let mut i: usize = 0;
        proof {
            assert(kept@.map_values(|p: (String, Option<usize>)| sel_entry_model(p))
                =~= sel_pruned(tm, m0.selected.take(0)));
        }
        while i < n
            invariant
                old(self).wf(),
                *self == *old(self),
                self.ast is Some,
                self.ast->Some_0.model() == tm,
                m0 == old(self).model(),
                n == self.selected.model().len(),
                i <= n,
                kept@.map_values(|p: (String, Option<usize>)| sel_entry_model(p)) == sel_pruned(
                    tm,
                    m0.selected.take(i as int),
                ),
            decreases n - i,
        {
            let (id, off) = self.selected.get(i);
            let ghost e = m0.selected[i as int];
            let ghost oldkept = kept@;
            proof {
                assert(e == sel_entry_model((id, off)));
                assert(m0.selected.take(i + 1).drop_last() =~= m0.selected.take(i as int));
                assert(m0.selected.take(i + 1).last() == e);
            }
            let keep = match &self.ast {
                Option::Some(t) => t.contains_uuid(&id),
                Option::None => false,
            };
            if keep {
                kept.push((id, off));
                proof {
                    assert(kept@.map_values(|p: (String, Option<usize>)| sel_entry_model(p))
                        =~= oldkept.map_values(
                        |p: (String, Option<usize>)| sel_entry_model(p),
                    ).push(e));
                }
            }
            i += 1;
        }
        proof {
            assert(m0.selected.take(n as int) =~= m0.selected);
        }
        if kept.len() == 0 {
            kept.push((root_id, None));
            proof {
                assert(kept@.map_values(|p: (String, Option<usize>)| sel_entry_model(p)) =~= seq![
                    (tm.id, None::<int>),
                ]);
            }
        }
        let new_sel = Selection { items: kept };
        proof {
            assert forall|a: int, b: int|
                0 <= a < b < new_sel.model().len() implies new_sel.model()[a].0 != new_sel.model()[
                b
            ].0 by {
                if new_sel.model().len() > 1 {
                    lemma_sel_pruned_wf(tm, m0.selected);
                    assert(new_sel.model() == sel_pruned(tm, m0.selected));
                }
            }
        }
        self.selected = new_sel;
    }
}

} // verus!
