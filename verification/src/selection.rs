//! The selection model: the set of node identifiers the next editing
//! command addresses, each optionally with a caret offset into the decimal
//! text of an integer leaf.

use vstd::prelude::*;

use crate::tree::index_of_first;

verus! {

/// A selection: node identifiers in insertion order, each with an optional
/// intra-leaf caret offset.  No offset means the whole node is selected.
pub struct Selection {
    pub items: Vec<(String, Option<usize>)>,
}

/// The model of an optional caret offset.
pub open spec fn off_model(o: Option<usize>) -> Option<int> {
    match o {
        Option::Some(k) => Some(k as int),
        Option::None => None,
    }
}

/// The model of one selection entry.
pub open spec fn sel_entry_model(p: (String, Option<usize>)) -> (Seq<char>, Option<int>) {
    (p.0@, off_model(p.1))
}

/// Whether a selection holds an entry for `id`.
pub open spec fn sel_has(s: Seq<(Seq<char>, Option<int>)>, id: Seq<char>) -> bool {
    exists|i: int| 0 <= i < s.len() && s[i].0 == id
}

/// The offset stored for `id`: `None` when `id` is not selected, otherwise
/// the first entry's offset.
pub open spec fn sel_offset(s: Seq<(Seq<char>, Option<int>)>, id: Seq<char>) -> Option<
    Option<int>,
>
    decreases s,
{
    if s.len() == 0 {
        None
    } else if s[0].0 == id {
        Some(s[0].1)
    } else {
        sel_offset(s.drop_first(), id)
    }
}

/// `sel_offset` finds an entry exactly when the selection holds one.
pub proof fn lemma_sel_offset_has(s: Seq<(Seq<char>, Option<int>)>, id: Seq<char>)
    ensures
        sel_offset(s, id) is Some <==> sel_has(s, id),
    decreases s,
{
    if s.len() > 0 && s[0].0 != id {
        lemma_sel_offset_has(s.drop_first(), id);
        if sel_has(s.drop_first(), id) {
            let i = choose|i: int| 0 <= i < s.drop_first().len() && s.drop_first()[i].0 == id;
            assert(s[i + 1].0 == id);
        }
        if sel_has(s, id) {
            let i = choose|i: int| 0 <= i < s.len() && s[i].0 == id;
            assert(s.drop_first()[i - 1].0 == id);
        }
    }
}

/// Entries for other identifiers do not change what `sel_offset` finds.
pub proof fn lemma_sel_offset_skip(s: Seq<(Seq<char>, Option<int>)>, id: Seq<char>, i: int)
    requires
        0 <= i <= s.len(),
        forall|j: int| 0 <= j < i ==> s[j].0 != id,
    ensures
        sel_offset(s, id) == sel_offset(s.skip(i), id),
    decreases i,
{
    if i == 0 {
        assert(s.skip(0) =~= s);
    } else {
        lemma_sel_offset_skip(s.drop_first(), id, i - 1);
        assert(s.drop_first().skip(i - 1) =~= s.skip(i));
    }
}

impl Selection {
    /// The model of this selection, in insertion order.
    pub open spec fn model(self) -> Seq<(Seq<char>, Option<int>)> {
        self.items@.map_values(|p: (String, Option<usize>)| sel_entry_model(p))
    }

    /// Well-formed: no identifier is selected twice.
    pub open spec fn wf(self) -> bool {
        forall|i: int, j: int|
            0 <= i < j < self.model().len() ==> self.model()[i].0 != self.model()[j].0
    }

    /// The empty selection.
    pub fn new() -> (r: Self)
        ensures
            r.model() == Seq::<(Seq<char>, Option<int>)>::empty(),
            r.wf(),
    {
        let r = Selection { items: Vec::new() };
        proof {
            assert(r.model() =~= Seq::<(Seq<char>, Option<int>)>::empty());
        }
        r
    }

    /// How many nodes are selected.
    pub fn len(&self) -> (r: usize)
        ensures
            r == self.model().len(),
    {
        self.items.len()
    }

    /// The entry at position `i`, in insertion order.
    pub fn get(&self, i: usize) -> (r: (String, Option<usize>))
        requires
            i < self.model().len(),
        ensures
            sel_entry_model(r) == self.model()[i as int],
    {
        let p = &self.items[i];
        (p.0.clone(), p.1)
    }

    /// The offset stored for `id`, if `id` is selected.
    pub fn lookup(&self, id: &String) -> (r: Option<Option<usize>>)
        ensures
            ({
                let o = sel_offset(self.model(), id@);
                match r {
                    Option::None => o is None,
                    Option::Some(off) => o == Some(sel_entry_model((*id, off)).1),
                }
            }),
            r is Some <==> sel_has(self.model(), id@),
    {
        let n = self.items.len();
        let mut i: usize = 0;
        while i < n
            invariant
                n == self.model().len(),
                i <= n,
                forall|j: int| 0 <= j < i ==> self.model()[j].0 != id@,
            decreases n - i,
        {
            proof {
                assert(self.model()[i as int] == sel_entry_model(self.items@[i as int]));
            }
            if self.items[i].0 == *id {
                proof {
                    lemma_sel_offset_skip(self.model(), id@, i as int);
                    assert(self.model().skip(i as int)[0] == self.model()[i as int]);
                    lemma_sel_offset_has(self.model(), id@);
                }
                return Some(self.items[i].1);
            }
            i += 1;
        }
        proof {
            lemma_sel_offset_skip(self.model(), id@, n as int);
            assert(self.model().skip(n as int) =~= Seq::<(Seq<char>, Option<int>)>::empty());
            lemma_sel_offset_has(self.model(), id@);
        }
        None
    }

    /// Selects `id` with the given offset, replacing any entry it already
    /// has; a fresh identifier is appended at the end.
    pub fn insert(&mut self, id: String, offset: Option<usize>)
        requires
            old(self).wf(),
        ensures
            final(self).wf(),
            !sel_has(old(self).model(), id@) ==> final(self).model() == old(self).model().push(
                sel_entry_model((id, offset)),
            ),
            sel_has(old(self).model(), id@) ==> exists|k: int|
                {
                    &&& 0 <= k < old(self).model().len()
                    &&& old(self).model()[k].0 == id@
                    &&& final(self).model() == old(self).model().update(
                        k,
                        sel_entry_model((id, offset)),
                    )
                },
            final(self).model() == sel_put(old(self).model(), sel_entry_model((id, offset))),
    {
        let n = self.items.len();
        let mut i: usize = 0;
        while i < n
            invariant
                old(self).wf(),
                n == self.model().len(),
                i <= n,
                *self == *old(self),
                forall|j: int| 0 <= j < i ==> old(self).model()[j].0 != id@,
            decreases n - i,
        {
            proof {
                assert(self.model()[i as int] == sel_entry_model(self.items@[i as int]));
            }
            let hit = self.items[i].0 == id;
            if hit {
                let ghost m0 = old(self).model();
                let ghost e = sel_entry_model((id, offset));
                self.items.remove(i);
                self.items.insert(i, (id, offset));
                proof {
                    assert(self.items@ =~= old(self).items@.update(i as int, (id, offset)));
                    assert(self.model() =~= m0.update(i as int, e));
                    assert(m0[i as int].0 == id@);
                    assert forall|j: int|
                        0 <= j < m0.len() implies m0.map_values(
                        |p: (Seq<char>, Option<int>)| p.0,
                    )[j] == m0[j].0 by {}
                    lemma_index_of_first_is(
                        m0.map_values(|p: (Seq<char>, Option<int>)| p.0),
                        id@,
                        i as int,
                    );
                    assert forall|a: int, b: int|
                        0 <= a < b < self.model().len() implies self.model()[a].0
                        != self.model()[b].0 by {
                        assert(self.model()[a] == m0.update(i as int, e)[a]);
                        assert(self.model()[b] == m0.update(i as int, e)[b]);
                        assert(e.0 == id@);
                        assert(self.model()[a].0 == m0[a].0);
                        assert(self.model()[b].0 == m0[b].0);
                        assert(m0[a].0 != m0[b].0);
                    }
                }
                return ;
            }
            i += 1;
        }
        self.items.push((id, offset));
        proof {
            assert(self.model() =~= old(self).model().push(sel_entry_model((id, offset))));
            let m0 = old(self).model();
            assert(forall|j: int| 0 <= j < m0.len() ==> m0[j].0 != id@);
            assert(!sel_has(m0, id@));
            let ids = m0.map_values(|p: (Seq<char>, Option<int>)| p.0);
            crate::tree::lemma_index_of_first(ids, id@);
            assert(forall|j: int| 0 <= j < ids.len() ==> ids[j] == m0[j].0);
            assert(index_of_first(ids, id@) == -1) by {
                if index_of_first(ids, id@) >= 0 {
                    assert(ids[index_of_first(ids, id@)] == id@);
                }
            }
            assert forall|a: int, b: int|
                0 <= a < b < self.model().len() implies self.model()[a].0
                != self.model()[b].0 by {
                if b < m0.len() {
                    assert(self.model()[a].0 == m0[a].0);
                    assert(self.model()[b].0 == m0[b].0);
                } else {
                    assert(self.model()[b].0 == id@);
                    assert(self.model()[a].0 == m0[a].0);
                    assert(!sel_has(m0, id@) ==> m0[a].0 != id@);
                }
            }
        }
    }
}

/// Where `Selection::insert` puts an entry: replacing the first entry with
/// the same identifier, or at the end when the identifier is fresh.
pub open spec fn sel_put(
    s: Seq<(Seq<char>, Option<int>)>,
    e: (Seq<char>, Option<int>),
) -> Seq<(Seq<char>, Option<int>)> {
    let i = index_of_first(s.map_values(|p: (Seq<char>, Option<int>)| p.0), e.0);
    if i < 0 {
        s.push(e)
    } else {
        s.update(i, e)
    }
}

/// What `Selection::remove` leaves: the first entry with the identifier
/// dropped, the rest in order.
pub open spec fn sel_del(
    s: Seq<(Seq<char>, Option<int>)>,
    id: Seq<char>,
) -> Seq<(Seq<char>, Option<int>)> {
    let i = index_of_first(s.map_values(|p: (Seq<char>, Option<int>)| p.0), id);
    if i < 0 {
        s
    } else {
        s.remove(i)
    }
}

/// The exact position characterises `index_of_first`.
pub proof fn lemma_index_of_first_is(s: Seq<Seq<char>>, x: Seq<char>, i: int)
    requires
        0 <= i < s.len(),
        s[i] == x,
        forall|j: int| 0 <= j < i ==> s[j] != x,
    ensures
        index_of_first(s, x) == i,
    decreases s.len(),
{
    if i > 0 {
        lemma_index_of_first_is(s.drop_first(), x, i - 1);
    }
}

impl Selection {
    /// Replaces the offset of the entry at position `i`.
    pub fn set_offset_at(&mut self, i: usize, offset: Option<usize>)
        requires
            i < old(self).model().len(),
        ensures
            final(self).model() == old(self).model().update(
                i as int,
                (old(self).model()[i as int].0, off_model(offset)),
            ),
            old(self).wf() ==> final(self).wf(),
    {
        let ghost m0 = self.model();
        let id = self.items[i].0.clone();
        self.items.remove(i);
        self.items.insert(i, (id, offset));
        proof {
            let e = (m0[i as int].0, off_model(offset));
            assert(self.items@ =~= old(self).items@.update(
                i as int,
                (old(self).items@[i as int].0, offset),
            ));
            assert(m0[i as int] == sel_entry_model(old(self).items@[i as int]));
            assert(self.model() =~= m0.update(i as int, e));
            if old(self).wf() {
                assert forall|a: int, b: int|
                    0 <= a < b < self.model().len() implies self.model()[a].0
                    != self.model()[b].0 by {
                    assert(self.model()[a] == m0.update(i as int, e)[a]);
                    assert(self.model()[b] == m0.update(i as int, e)[b]);
                    assert(self.model()[a].0 == m0[a].0);
                    assert(self.model()[b].0 == m0[b].0);
                    assert(m0[a].0 != m0[b].0);
                }
            }
        }
    }

    /// Drops the entry for `id`, if one exists.
    pub fn remove(&mut self, id: &String)
        ensures
            final(self).model() == sel_del(old(self).model(), id@),
            old(self).wf() ==> final(self).wf(),
    {
        let ghost m0 = self.model();
        let ghost ids = m0.map_values(|p: (Seq<char>, Option<int>)| p.0);
        let n = self.items.len();
        let mut i: usize = 0;
        while i < n
            invariant
                n == self.model().len(),
                i <= n,
                m0 == self.model(),
                ids == m0.map_values(|p: (Seq<char>, Option<int>)| p.0),
                *self == *old(self),
                forall|j: int| 0 <= j < i ==> ids[j] != id@,
            decreases n - i,
        {
            proof {
                assert(self.model()[i as int] == sel_entry_model(self.items@[i as int]));
                assert(ids[i as int] == m0[i as int].0);
            }
            let hit = self.items[i].0 == *id;
            if hit {
                self.items.remove(i);
                proof {
                    lemma_index_of_first_is(ids, id@, i as int);
                    assert(self.model() =~= m0.remove(i as int));
                    if old(self).wf() {
                        assert forall|a: int, b: int|
                            0 <= a < b < self.model().len() implies self.model()[a].0
                            != self.model()[b].0 by {
                            assert(self.model()[a] == m0.remove(i as int)[a]);
                            assert(self.model()[b] == m0.remove(i as int)[b]);
                            if a < i && b < i {
                                assert(m0[a].0 != m0[b].0);
                            } else if a < i {
                                assert(m0[a].0 != m0[b + 1].0);
                            } else {
                                assert(m0[a + 1].0 != m0[b + 1].0);
                            }
                        }
                    }
                }
                return ;
            }
            i += 1;
        }
        proof {
            crate::tree::lemma_index_of_first(ids, id@);
            assert(ids.len() == n);
            assert(index_of_first(ids, id@) == -1);
        }
    }
}

} // verus!
