//! The relay server's state: one process-wide append-only log of serialized
//! entries, each tagged with the connection that submitted it, and a send
//! cursor per connection that streams the log in order, skipping the
//! connection's own entries.

use vstd::prelude::*;

use append_only_vec::AppendOnlyVec;

verus! {

#[verifier::external_type_specification]
#[verifier::external_body]
#[verifier::reject_recursive_types(T)]
pub struct ExAppendOnlyVec<T>(AppendOnlyVec<T>);

/// What the relay's append-only vector holds: the serialized entries in
/// append order, each with the submitting connection's number.
pub uninterp spec fn log_entries(v: AppendOnlyVec<(Vec<u8>, usize)>) -> Seq<(Seq<u8>, int)>;

/// Relies on AppendOnlyVec::new of the append-only-vec crate: a fresh
/// vector holds nothing.
#[verifier::external_body]
fn aov_new() -> (r: AppendOnlyVec<(Vec<u8>, usize)>)
    ensures
        log_entries(r) == Seq::<(Seq<u8>, int)>::empty(),
{
    AppendOnlyVec::new()
}

/// Relies on AppendOnlyVec::push: the value is appended after the existing
/// entries and its index returned.
#[verifier::external_body]
fn aov_push(v: &mut AppendOnlyVec<(Vec<u8>, usize)>, bytes: Vec<u8>, conn: usize) -> (idx: usize)
    ensures
        log_entries(*final(v)) == log_entries(*old(v)).push((bytes@, conn as int)),
        idx == log_entries(*old(v)).len(),
{
    v.push((bytes, conn))
}

/// Relies on AppendOnlyVec::len: how many entries have been appended.
#[verifier::external_body]
fn aov_len(v: &AppendOnlyVec<(Vec<u8>, usize)>) -> (r: usize)
    ensures
        r == log_entries(*v).len(),
{
    v.len()
}

/// Relies on the Index impl of AppendOnlyVec: the entry at a committed
/// index, here copied out.
#[verifier::external_body]
fn aov_get(v: &AppendOnlyVec<(Vec<u8>, usize)>, i: usize) -> (r: (Vec<u8>, usize))
    requires
        i < log_entries(*v).len(),
    ensures
        (r.0@, r.1 as int) == log_entries(*v)[i as int],
{
    let e = &v[i];
    (e.0.clone(), e.1)
}

/// The relay's single, totally ordered log of serialized entries.
pub struct RelayLog {
    pub entries: AppendOnlyVec<(Vec<u8>, usize)>,
}

/// What one connection is owed from the log: every entry, in log order,
/// except those the connection submitted itself.
pub open spec fn fanout(log: Seq<(Seq<u8>, int)>, conn: int) -> Seq<Seq<u8>>
    decreases log,
{
    if log.len() == 0 {
        Seq::empty()
    } else if log[0].1 == conn {
        fanout(log.drop_first(), conn)
    } else {
        seq![log[0].0] + fanout(log.drop_first(), conn)
    }
}

/// Law: appending an entry extends every other connection's stream by
/// exactly that entry, after everything already owed, and extends the
/// submitting connection's own stream by nothing — an entry is never echoed
/// back to its submitter.
pub proof fn lemma_fanout_push(log: Seq<(Seq<u8>, int)>, bytes: Seq<u8>, from: int, conn: int)
    ensures
        fanout(log.push((bytes, from)), conn) == fanout(log, conn) + (if from == conn {
            Seq::<Seq<u8>>::empty()
        } else {
            seq![bytes]
        }),
    decreases log,
{
    if log.len() == 0 {
        assert(log.push((bytes, from)).drop_first() =~= log);
        if from == conn {
            assert(fanout(log.push((bytes, from)), conn) =~= fanout(log, conn)
                + Seq::<Seq<u8>>::empty());
        } else {
            assert(fanout(log.push((bytes, from)), conn) =~= fanout(log, conn) + seq![bytes]);
        }
    } else {
        lemma_fanout_push(log.drop_first(), bytes, from, conn);
        assert(log.push((bytes, from)).drop_first() =~= log.drop_first().push((bytes, from)));
        if from == conn {
            assert(fanout(log.push((bytes, from)), conn) =~= fanout(log, conn)
                + Seq::<Seq<u8>>::empty());
        } else {
            assert(fanout(log.push((bytes, from)), conn) =~= fanout(log, conn) + seq![bytes]);
        }
    }
}

impl RelayLog {
    /// The log's model: serialized entries with their submitters, in append
    /// order.
    pub open spec fn model(self) -> Seq<(Seq<u8>, int)> {
        log_entries(self.entries)
    }

    /// An empty log.
    pub fn new() -> (r: RelayLog)
        ensures
            r.model() == Seq::<(Seq<u8>, int)>::empty(),
    {
        RelayLog { entries: aov_new() }
    }

    /// Appends one serialized entry submitted by connection `conn`; the log
    /// only ever grows, and this entry's index is returned.
    pub fn append(&mut self, bytes: Vec<u8>, conn: usize) -> (idx: usize)
        ensures
            final(self).model() == old(self).model().push((bytes@, conn as int)),
            idx == old(self).model().len(),
    {
        aov_push(&mut self.entries, bytes, conn)
    }

    /// How many entries the log holds.
    pub fn len(&self) -> (r: usize)
        ensures
            r == self.model().len(),
    {
        aov_len(&self.entries)
    }

    /// The entry at index `i`, with its submitter.
    pub fn get(&self, i: usize) -> (r: (Vec<u8>, usize))
        requires
            i < self.model().len(),
        ensures
            (r.0@, r.1 as int) == self.model()[i as int],
    {
        aov_get(&self.entries, i)
    }
}

/// One connection's position in the relay's log: everything before
/// `last_index` has been offered to the connection already.
pub struct SendCursor {
    pub conn_id: usize,
    pub last_index: usize,
}

impl SendCursor {
    /// A cursor for a connection that has seen nothing yet.
    pub fn new(conn_id: usize) -> (r: SendCursor)
        ensures
            r.conn_id == conn_id,
            r.last_index == 0,
    {
        SendCursor { conn_id, last_index: 0 }
    }

    /// Everything the connection is now owed: the entries appended since
    /// the cursor's position, in log order, except the connection's own.
    /// The cursor advances to the end of the log, so no entry is ever
    /// offered twice and entry `n + 1` is never offered before entry `n`.
    pub fn poll(&mut self, log: &RelayLog) -> (r: Vec<Vec<u8>>)
        requires
            old(self).last_index <= log.model().len(),
        ensures
            r@.map_values(|b: Vec<u8>| b@) == fanout(
                log.model().skip(old(self).last_index as int),
                old(self).conn_id as int,
            ),
            final(self).last_index == log.model().len(),
            final(self).conn_id == old(self).conn_id,
    {
        let ghost lm = log.model();
        let ghost from = self.last_index as int;
        let ghost conn = self.conn_id as int;
        let mut r: Vec<Vec<u8>> = Vec::new();
        let n = log.len();
        let mut i: usize = self.last_index;
        proof {
            assert(lm.skip(from).take(0) =~= Seq::<(Seq<u8>, int)>::empty());
            assert(r@.map_values(|b: Vec<u8>| b@) =~= fanout(lm.skip(from).take(0), conn));
        }
        while i < n
            invariant
                lm == log.model(),
                n == lm.len(),
                0 <= from <= i <= n,
                conn == self.conn_id as int,
                r@.map_values(|b: Vec<u8>| b@) == fanout(lm.skip(from).take(i - from), conn),
            decreases n - i,
        {
            let e = log.get(i);
            proof {
                assert(lm.skip(from).take(i - from + 1) =~= lm.skip(from).take(i - from).push(
                    lm[i as int],
                ));
                lemma_fanout_push(
                    lm.skip(from).take(i - from),
                    lm[i as int].0,
                    lm[i as int].1,
                    conn,
                );
            }
            if e.1 != self.conn_id {
                r.push(e.0);
                proof {
                    assert(r@.map_values(|b: Vec<u8>| b@) =~= fanout(
                        lm.skip(from).take(i - from + 1),
                        conn,
                    ));
                }
            } else {
                proof {
                    assert(fanout(lm.skip(from).take(i - from), conn)
                        + Seq::<Seq<u8>>::empty() =~= fanout(lm.skip(from).take(i - from), conn));
                }
            }
            i += 1;
        }
        self.last_index = n;
        proof {
            assert(lm.skip(from).take(n - from) =~= lm.skip(from));
        }
        r
    }
}

} // verus!
