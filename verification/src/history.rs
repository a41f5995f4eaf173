//! The operation log's records: immutable, causally linked history entries,
//! each naming its predecessors by content hash, its author, and one of the
//! five operations.

use vstd::prelude::*;

use crate::digest::{hex_encode, hex_lower, sha3_512, sha3_512_of};
use crate::tree::{
    lemma_models_index, lemma_models_len, lemma_models_pointwise, models, AST, ASTInner, SpecNode,
    SpecVal,
};
use crate::wire::{
    lemma_str_encoded_prefix, lemma_u64_be_injective, push_str_encoded, push_u64_be, str_encoded,
    u64_be,
};

verus! {

/// One of the five operations a history entry can carry.
pub enum ASTHistoryEntryInner {
    /// Establishes the first version of the tree; valid only as the very
    /// first operation applied to a replica.
    Initial { ast: AST },
    /// Replaces the payload of an existing integer node.
    SetInteger { uuid: String, value: i64 },
    /// Replaces the target in place by a new list node, with the given
    /// identifier, whose sole child is the target.
    WrapIntegerInAdd { uuid: String, wrapping_uuid: String },
    /// Inserts a new node among the children of a list node, shifting the
    /// children at and after the index to the right.
    InsertAtIndex { uuid: String, index: usize, ast: AST },
    /// Removes the target from its parent's children.
    Delete { uuid: String },
}

/// An immutable record of one mutation: the content hashes of the entries it
/// causally depends on, the author's peer identifier, and the operation.
pub struct ASTHistoryEntry {
    pub previous: Vec<String>,
    pub peer: String,
    pub value: ASTHistoryEntryInner,
}

/// The model of an operation.
pub enum OpModel {
    Initial { ast: SpecNode },
    SetInteger { uuid: Seq<char>, value: i64 },
    WrapIntegerInAdd { uuid: Seq<char>, wrapping_uuid: Seq<char> },
    InsertAtIndex { uuid: Seq<char>, index: int, ast: SpecNode },
    Delete { uuid: Seq<char> },
}

/// The model of a history entry.
pub struct EntryModel {
    pub previous: Seq<Seq<char>>,
    pub peer: Seq<char>,
    pub op: OpModel,
}

impl ASTHistoryEntryInner {
    /// The model of this operation.
    pub open spec fn model(self) -> OpModel {
        match self {
            ASTHistoryEntryInner::Initial { ast } => OpModel::Initial { ast: ast.model() },
            ASTHistoryEntryInner::SetInteger { uuid, value } => (OpModel::SetInteger {
                uuid: uuid@,
                value: value,
            }),
            ASTHistoryEntryInner::WrapIntegerInAdd { uuid, wrapping_uuid } => (
            OpModel::WrapIntegerInAdd { uuid: uuid@, wrapping_uuid: wrapping_uuid@ }),
            ASTHistoryEntryInner::InsertAtIndex { uuid, index, ast } => (OpModel::InsertAtIndex {
                uuid: uuid@,
                index: index as int,
                ast: ast.model(),
            }),
            ASTHistoryEntryInner::Delete { uuid } => OpModel::Delete { uuid: uuid@ },
        }
    }
}

impl ASTHistoryEntry {
    /// The model of this entry.
    pub open spec fn model(self) -> EntryModel {
        EntryModel {
            previous: self.previous@.map_values(|s: String| s@),
            peer: self.peer@,
            op: self.value.model(),
        }
    }
}

impl Clone for ASTHistoryEntryInner {
    /// A clone denotes the same operation.
    fn clone(&self) -> (res: Self)
        ensures
            res.model() == self.model(),
    {
        match self {
            ASTHistoryEntryInner::Initial { ast } => (ASTHistoryEntryInner::Initial {
                ast: ast.clone(),
            }),
            ASTHistoryEntryInner::SetInteger { uuid, value } => (ASTHistoryEntryInner::SetInteger {
                uuid: uuid.clone(),
                value: *value,
            }),
            ASTHistoryEntryInner::WrapIntegerInAdd { uuid, wrapping_uuid } => (
            ASTHistoryEntryInner::WrapIntegerInAdd {
                uuid: uuid.clone(),
                wrapping_uuid: wrapping_uuid.clone(),
            }),
            ASTHistoryEntryInner::InsertAtIndex { uuid, index, ast } => (
            ASTHistoryEntryInner::InsertAtIndex {
                uuid: uuid.clone(),
                index: *index,
                ast: ast.clone(),
            }),
            ASTHistoryEntryInner::Delete { uuid } => (ASTHistoryEntryInner::Delete {
                uuid: uuid.clone(),
            }),
        }
    }
}

impl Clone for ASTHistoryEntry {
    /// A clone denotes the same entry.
    fn clone(&self) -> (res: Self)
        ensures
            res.model() == self.model(),
    {
        let mut previous: Vec<String> = Vec::new();
        let mut i: usize = 0;
        while i < self.previous.len()
            invariant
                i <= self.previous@.len(),
                previous@.len() == i,
                forall|j: int| 0 <= j < i ==> previous@[j] == self.previous@[j],
            decreases self.previous@.len() - i,
        {
            previous.push(self.previous[i].clone());
            i += 1;
        }
        proof {
            assert(previous@ =~= self.previous@);
        }
        ASTHistoryEntry { previous, peer: self.peer.clone(), value: self.value.clone() }
    }
}

/// A signed 64-bit integer as bytes: a sign byte, then the big-endian bytes
/// of the magnitude (for negatives, of `-(v + 1)`).
pub open spec fn i64_encoded(v: i64) -> Seq<u8> {
    if v >= 0 {
        seq![0u8] + u64_be(v as u64)
    } else {
        seq![1u8] + u64_be((-(v + 1)) as u64)
    }
}

/// Appends `i64_encoded(v)` to `out`.
pub fn push_i64(out: &mut Vec<u8>, v: i64)
    ensures
        final(out)@ == old(out)@ + i64_encoded(v),
{
    if v >= 0 {
        out.push(0u8);
        push_u64_be(out, v as u64);
    } else {
        out.push(1u8);
        push_u64_be(out, (-(v + 1)) as u64);
    }
    assert(out@ =~= old(out)@ + i64_encoded(v));
}

/// A node as bytes: identifier, last editor, then the payload behind a tag
/// byte; children are counted and concatenated.
pub open spec fn node_encoded(n: SpecNode) -> Seq<u8>
    decreases n,
{
    str_encoded(n.id) + str_encoded(n.editor) + match n.val {
        SpecVal::Int(v) => seq![0u8] + i64_encoded(v),
        SpecVal::List(cs) => seq![1u8] + u64_be(cs.len() as u64) + nodes_encoded(cs),
    }
}

pub open spec fn nodes_encoded(cs: Seq<SpecNode>) -> Seq<u8>
    decreases cs,
{
    if cs.len() == 0 {
        Seq::empty()
    } else {
        node_encoded(cs[0]) + nodes_encoded(cs.drop_first())
    }
}

pub proof fn lemma_nodes_encoded_push(cs: Seq<SpecNode>, x: SpecNode)
    ensures
        nodes_encoded(cs.push(x)) == nodes_encoded(cs) + node_encoded(x),
    decreases cs,
{
    if cs.len() == 0 {
        assert(cs.push(x).drop_first() =~= cs);
        assert(nodes_encoded(cs.push(x)) =~= nodes_encoded(cs) + node_encoded(x));
    } else {
        lemma_nodes_encoded_push(cs.drop_first(), x);
        assert(cs.push(x).drop_first() =~= cs.drop_first().push(x));
        assert(nodes_encoded(cs.push(x)) =~= nodes_encoded(cs) + node_encoded(x));
    }
}

/// Appends `node_encoded(t.model())` to `out`.
pub fn push_node_encoded(out: &mut Vec<u8>, t: &AST)
    ensures
        final(out)@ == old(out)@ + node_encoded(t.model()),
    decreases *t,
{
    let ghost m = t.model();
    push_str_encoded(out, &t.uuid);
    push_str_encoded(out, &t.changed_by);
    match &t.value {
        ASTInner::Integer { value } => {
            out.push(0u8);
            push_i64(out, *value);
            assert(out@ =~= old(out)@ + node_encoded(m));
        }
        ASTInner::Add { items } => {
            let ghost cs = models(t.value->Add_items@);
            proof {
                lemma_models_len(items@);
            }
            out.push(1u8);
            push_u64_be(out, items.len() as u64);
            let ghost mid = out@;
            let n = items.len();
            let mut i: usize = 0;
            while i < n
                invariant
                    t.value is Add,
                    *items == t.value->Add_items,
                    cs == models(items@),
                    n == items@.len(),
                    cs.len() == n,
                    i <= n,
                    out@ == mid + nodes_encoded(cs.take(i as int)),
                decreases n - i,
            {
                proof {
                    lemma_models_index(items@, i as int);
                    assert(decreases_to!(*t => t.value));
                    assert(decreases_to!(t.value => t.value->Add_items));
                    assert(decreases_to!(*items => items@));
                    assert(decreases_to!(items@ => items@[i as int]));
                }
                push_node_encoded(out, &items[i]);
                proof {
                    assert(cs.take(i + 1) =~= cs.take(i as int).push(cs[i as int]));
                    lemma_nodes_encoded_push(cs.take(i as int), cs[i as int]);
                    assert(out@ =~= mid + nodes_encoded(cs.take(i + 1)));
                }
                i += 1;
            }
            proof {
                assert(cs.take(n as int) =~= cs);
                assert(out@ =~= old(out)@ + node_encoded(m));
            }
        }
    }
}

/// An operation as bytes, behind a tag byte for each of the five kinds.
pub open spec fn op_encoded(op: OpModel) -> Seq<u8> {
    match op {
        OpModel::Initial { ast } => seq![0u8] + node_encoded(ast),
        OpModel::SetInteger { uuid, value } => seq![1u8] + str_encoded(uuid) + i64_encoded(value),
        OpModel::WrapIntegerInAdd { uuid, wrapping_uuid } => seq![2u8] + str_encoded(uuid)
            + str_encoded(wrapping_uuid),
        OpModel::InsertAtIndex { uuid, index, ast } => seq![3u8] + str_encoded(uuid) + u64_be(
            index as u64,
        ) + node_encoded(ast),
        OpModel::Delete { uuid } => seq![4u8] + str_encoded(uuid),
    }
}

/// Appends `op_encoded` of this operation's model to `out`.
pub fn push_op_encoded(out: &mut Vec<u8>, op: &ASTHistoryEntryInner)
    ensures
        final(out)@ == old(out)@ + op_encoded(op.model()),
{
    match op {
        ASTHistoryEntryInner::Initial { ast } => {
            out.push(0u8);
            push_node_encoded(out, ast);
        }
        ASTHistoryEntryInner::SetInteger { uuid, value } => {
            out.push(1u8);
            push_str_encoded(out, uuid);
            push_i64(out, *value);
        }
        ASTHistoryEntryInner::WrapIntegerInAdd { uuid, wrapping_uuid } => {
            out.push(2u8);
            push_str_encoded(out, uuid);
            push_str_encoded(out, wrapping_uuid);
        }
        ASTHistoryEntryInner::InsertAtIndex { uuid, index, ast } => {
            out.push(3u8);
            push_str_encoded(out, uuid);
            push_u64_be(out, *index as u64);
            push_node_encoded(out, ast);
        }
        ASTHistoryEntryInner::Delete { uuid } => {
            out.push(4u8);
            push_str_encoded(out, uuid);
        }
    }
    assert(out@ =~= old(out)@ + op_encoded(op.model()));
}

/// The concatenated encodings of a sequence of strings.
pub open spec fn strs_encoded(ss: Seq<Seq<char>>) -> Seq<u8>
    decreases ss,
{
    if ss.len() == 0 {
        Seq::empty()
    } else {
        str_encoded(ss[0]) + strs_encoded(ss.drop_first())
    }
}

pub proof fn lemma_strs_encoded_push(ss: Seq<Seq<char>>, x: Seq<char>)
    ensures
        strs_encoded(ss.push(x)) == strs_encoded(ss) + str_encoded(x),
    decreases ss,
{
    if ss.len() == 0 {
        assert(ss.push(x).drop_first() =~= ss);
        assert(strs_encoded(ss.push(x)) =~= strs_encoded(ss) + str_encoded(x));
    } else {
        lemma_strs_encoded_push(ss.drop_first(), x);
        assert(ss.push(x).drop_first() =~= ss.drop_first().push(x));
        assert(strs_encoded(ss.push(x)) =~= strs_encoded(ss) + str_encoded(x));
    }
}

/// What is digested for an entry's content hash, concatenated in a fixed
/// order: the predecessor references (counted), the author tag, then the
/// operation's byte encoding.
pub open spec fn hash_input(e: EntryModel) -> Seq<u8> {
    u64_be(e.previous.len() as u64) + strs_encoded(e.previous) + str_encoded(e.peer) + op_encoded(
        e.op,
    )
}

/// The content hash of an entry: the SHA3-512 digest of its `hash_input`,
/// rendered as lowercase base-16.  This is the entry's permanent identifier.
pub open spec fn entry_hash(e: EntryModel) -> Seq<char> {
    hex_lower(sha3_512_of(hash_input(e)))
}

impl ASTHistoryEntry {
    /// The bytes this entry's content hash is computed over.
    pub fn hash_input_bytes(&self) -> (r: Vec<u8>)
        ensures
            r@ == hash_input(self.model()),
    {
        let ghost ps = self.model().previous;
        let mut out: Vec<u8> = Vec::new();
        push_u64_be(&mut out, self.previous.len() as u64);
        let ghost mid = out@;
        let n = self.previous.len();
        let mut i: usize = 0;
        while i < n
            invariant
                ps == self.model().previous,
                n == self.previous@.len(),
                ps.len() == n,
                i <= n,
                out@ == mid + strs_encoded(ps.take(i as int)),
            decreases n - i,
        {
            push_str_encoded(&mut out, &self.previous[i]);
            proof {
                assert(ps[i as int] == self.previous@[i as int]@);
                assert(ps.take(i + 1) =~= ps.take(i as int).push(ps[i as int]));
                lemma_strs_encoded_push(ps.take(i as int), ps[i as int]);
                assert(out@ =~= mid + strs_encoded(ps.take(i + 1)));
            }
            i += 1;
        }
        proof {
            assert(ps.take(n as int) =~= ps);
        }
        push_str_encoded(&mut out, &self.peer);
        push_op_encoded(&mut out, &self.value);
        proof {
            assert(out@ =~= hash_input(self.model()));
        }
        out
    }

    /// The entry's content hash: the SHA3-512 digest of `hash_input`,
    /// rendered as lowercase base-16.  A pure function of the entry, so two
    /// calls on equal entries give equal strings.
    pub fn hash(&self) -> (r: String)
        ensures
            r@ == entry_hash(self.model()),
            r@.len() == 128,
    {
        let input = self.hash_input_bytes();
        let digest = sha3_512(&input);
        proof {
            lemma_hex_lower_len(digest@);
        }
        hex_encode(&digest)
    }
}

/// Base-16 output is two digits per byte.
pub proof fn lemma_hex_lower_len(bytes: Seq<u8>)
    ensures
        hex_lower(bytes).len() == 2 * bytes.len(),
    decreases bytes,
{
    if bytes.len() > 0 {
        lemma_hex_lower_len(bytes.drop_first());
    }
}

/// Integer encodings are fixed-width and injective, even mid-stream.
pub proof fn lemma_i64_encoded_prefix(v: i64, w: i64, x: Seq<u8>, y: Seq<u8>)
    requires
        i64_encoded(v) + x == i64_encoded(w) + y,
    ensures
        v == w,
        x == y,
{
    let sa = i64_encoded(v) + x;
    let sb = i64_encoded(w) + y;
    assert(i64_encoded(v).len() == 9);
    assert(i64_encoded(w).len() == 9);
    assert(sa[0] == i64_encoded(v)[0]);
    assert(sb[0] == i64_encoded(w)[0]);
    if v >= 0 && w >= 0 {
        assert(u64_be(v as u64) =~= sa.subrange(1, 9));
        assert(u64_be(w as u64) =~= sb.subrange(1, 9));
        lemma_u64_be_injective(v as u64, w as u64);
    } else if v < 0 && w < 0 {
        assert(u64_be((-(v + 1)) as u64) =~= sa.subrange(1, 9));
        assert(u64_be((-(w + 1)) as u64) =~= sb.subrange(1, 9));
        lemma_u64_be_injective((-(v + 1)) as u64, (-(w + 1)) as u64);
    } else {
        assert(false);
    }
    assert(x =~= sa.subrange(9, sa.len() as int));
    assert(y =~= sb.subrange(9, sb.len() as int));
    assert(x =~= y);
}

/// A node whose strings, counts and index all fit in 64 bits, recursively;
/// every tree an executable replica can hold is bounded.
pub open spec fn bounded_node(n: SpecNode) -> bool
    decreases n,
{
    &&& n.id.len() <= u64::MAX
    &&& n.editor.len() <= u64::MAX
    &&& match n.val {
        SpecVal::Int(_) => true,
        SpecVal::List(cs) => cs.len() <= u64::MAX && bounded_nodes(cs),
    }
}

pub open spec fn bounded_nodes(cs: Seq<SpecNode>) -> bool
    decreases cs,
{
    cs.len() == 0 || (bounded_node(cs[0]) && bounded_nodes(cs.drop_first()))
}

/// Node encodings are self-delimiting: equal byte streams starting with two
/// encoded nodes come from equal nodes, with equal tails.
pub proof fn lemma_node_encoded_prefix(n1: SpecNode, n2: SpecNode, x: Seq<u8>, y: Seq<u8>)
    requires
        bounded_node(n1),
        bounded_node(n2),
        node_encoded(n1) + x == node_encoded(n2) + y,
    ensures
        n1 == n2,
        x == y,
    decreases n1, 0int,
{
    let t1 = match n1.val {
        SpecVal::Int(v) => seq![0u8] + i64_encoded(v),
        SpecVal::List(cs) => seq![1u8] + u64_be(cs.len() as u64) + nodes_encoded(cs),
    };
    let t2 = match n2.val {
        SpecVal::Int(v) => seq![0u8] + i64_encoded(v),
        SpecVal::List(cs) => seq![1u8] + u64_be(cs.len() as u64) + nodes_encoded(cs),
    };
    assert(str_encoded(n1.id) + (str_encoded(n1.editor) + (t1 + x)) =~= node_encoded(n1) + x);
    assert(str_encoded(n2.id) + (str_encoded(n2.editor) + (t2 + y)) =~= node_encoded(n2) + y);
    lemma_str_encoded_prefix(
        n1.id,
        n2.id,
        str_encoded(n1.editor) + (t1 + x),
        str_encoded(n2.editor) + (t2 + y),
    );
    lemma_str_encoded_prefix(n1.editor, n2.editor, t1 + x, t2 + y);
    let sa = t1 + x;
    let sb = t2 + y;
    assert(sa[0] == t1[0]);
    assert(sb[0] == t2[0]);
    match (n1.val, n2.val) {
        (SpecVal::Int(v1), SpecVal::Int(v2)) => {
            assert(i64_encoded(v1) + x =~= sa.subrange(1, sa.len() as int));
            assert(i64_encoded(v2) + y =~= sb.subrange(1, sb.len() as int));
            lemma_i64_encoded_prefix(v1, v2, x, y);
        }
        (SpecVal::List(cs1), SpecVal::List(cs2)) => {
            assert(t1[0] == 1u8);
            assert(u64_be(cs1.len() as u64) =~= sa.subrange(1, 9));
            assert(u64_be(cs2.len() as u64) =~= sb.subrange(1, 9));
            lemma_u64_be_injective(cs1.len() as u64, cs2.len() as u64);
            assert(cs1.len() == cs2.len());
            assert(nodes_encoded(cs1) + x =~= sa.subrange(9, sa.len() as int));
            assert(nodes_encoded(cs2) + y =~= sb.subrange(9, sb.len() as int));
            assert(decreases_to!(n1 => n1.val));
            assert(decreases_to!(n1.val => n1.val->List_0));
            lemma_nodes_encoded_prefix(cs1, cs2, x, y);
        }
        (SpecVal::Int(_), SpecVal::List(_)) => {
            assert(t1[0] == 0u8 && t2[0] == 1u8);
            assert(false);
        }
        (SpecVal::List(_), SpecVal::Int(_)) => {
            assert(t1[0] == 1u8 && t2[0] == 0u8);
            assert(false);
        }
    }
}

pub proof fn lemma_nodes_encoded_prefix(
    cs1: Seq<SpecNode>,
    cs2: Seq<SpecNode>,
    x: Seq<u8>,
    y: Seq<u8>,
)
    requires
        cs1.len() == cs2.len(),
        bounded_nodes(cs1),
        bounded_nodes(cs2),
        nodes_encoded(cs1) + x == nodes_encoded(cs2) + y,
    ensures
        cs1 == cs2,
        x == y,
    decreases cs1, 1int,
{
    if cs1.len() == 0 {
        assert(cs1 =~= cs2);
        assert(nodes_encoded(cs1) + x =~= x);
        assert(nodes_encoded(cs2) + y =~= y);
    } else {
        assert(node_encoded(cs1[0]) + (nodes_encoded(cs1.drop_first()) + x) =~= nodes_encoded(
            cs1,
        ) + x);
        assert(node_encoded(cs2[0]) + (nodes_encoded(cs2.drop_first()) + y) =~= nodes_encoded(
            cs2,
        ) + y);
        lemma_node_encoded_prefix(
            cs1[0],
            cs2[0],
            nodes_encoded(cs1.drop_first()) + x,
            nodes_encoded(cs2.drop_first()) + y,
        );
        lemma_nodes_encoded_prefix(cs1.drop_first(), cs2.drop_first(), x, y);
        assert forall|i: int| 0 <= i < cs1.len() implies cs1[i] == cs2[i] by {
            if i > 0 {
                assert(cs1.drop_first()[i - 1] == cs1[i]);
                assert(cs2.drop_first()[i - 1] == cs2[i]);
            }
        }
        assert(cs1 =~= cs2);
    }
}

/// The tag byte at the head of an operation's encoding.
pub open spec fn op_tag(op: OpModel) -> u8 {
    match op {
        OpModel::Initial { .. } => 0u8,
        OpModel::SetInteger { .. } => 1u8,
        OpModel::WrapIntegerInAdd { .. } => 2u8,
        OpModel::InsertAtIndex { .. } => 3u8,
        OpModel::Delete { .. } => 4u8,
    }
}

pub proof fn lemma_op_encoded_tag(op: OpModel)
    ensures
        op_encoded(op).len() > 0,
        op_encoded(op)[0] == op_tag(op),
{
    match op {
        OpModel::Initial { .. } => {}
        OpModel::SetInteger { .. } => {}
        OpModel::WrapIntegerInAdd { .. } => {}
        OpModel::InsertAtIndex { .. } => {}
        OpModel::Delete { .. } => {}
    }
}

/// An operation whose strings, counts and index fit in 64 bits.
pub open spec fn bounded_op(op: OpModel) -> bool {
    match op {
        OpModel::Initial { ast } => bounded_node(ast),
        OpModel::SetInteger { uuid, .. } => uuid.len() <= u64::MAX,
        OpModel::WrapIntegerInAdd { uuid, wrapping_uuid } => uuid.len() <= u64::MAX
            && wrapping_uuid.len() <= u64::MAX,
        OpModel::InsertAtIndex { uuid, index, ast } => uuid.len() <= u64::MAX && 0 <= index
            <= u64::MAX && bounded_node(ast),
        OpModel::Delete { uuid } => uuid.len() <= u64::MAX,
    }
}

/// Operation encodings are injective over bounded operations.
pub proof fn lemma_op_encoded_injective(o1: OpModel, o2: OpModel)
    requires
        bounded_op(o1),
        bounded_op(o2),
        op_encoded(o1) == op_encoded(o2),
    ensures
        o1 == o2,
{
    lemma_op_encoded_tag(o1);
    lemma_op_encoded_tag(o2);
    let sa = op_encoded(o1);
    let sb = op_encoded(o2);
    match (o1, o2) {
        (OpModel::Initial { ast: a1 }, OpModel::Initial { ast: a2 }) => {
            assert(node_encoded(a1) + Seq::<u8>::empty() =~= sa.subrange(1, sa.len() as int));
            assert(node_encoded(a2) + Seq::<u8>::empty() =~= sb.subrange(1, sb.len() as int));
            lemma_node_encoded_prefix(a1, a2, Seq::empty(), Seq::empty());
        }
        (
            OpModel::SetInteger { uuid: u1, value: v1 },
            OpModel::SetInteger { uuid: u2, value: v2 },
        ) => {
            assert(str_encoded(u1) + i64_encoded(v1) =~= sa.subrange(1, sa.len() as int));
            assert(str_encoded(u2) + i64_encoded(v2) =~= sb.subrange(1, sb.len() as int));
            lemma_str_encoded_prefix(u1, u2, i64_encoded(v1), i64_encoded(v2));
            lemma_i64_encoded_prefix(v1, v2, Seq::empty(), Seq::empty());
        }
        (
            OpModel::WrapIntegerInAdd { uuid: u1, wrapping_uuid: w1 },
            OpModel::WrapIntegerInAdd { uuid: u2, wrapping_uuid: w2 },
        ) => {
            assert(str_encoded(u1) + str_encoded(w1) =~= sa.subrange(1, sa.len() as int));
            assert(str_encoded(u2) + str_encoded(w2) =~= sb.subrange(1, sb.len() as int));
            lemma_str_encoded_prefix(u1, u2, str_encoded(w1), str_encoded(w2));
            lemma_str_encoded_prefix(w1, w2, Seq::empty(), Seq::empty());
        }
        (
            OpModel::InsertAtIndex { uuid: u1, index: i1, ast: a1 },
            OpModel::InsertAtIndex { uuid: u2, index: i2, ast: a2 },
        ) => {
            assert(str_encoded(u1) + (u64_be(i1 as u64) + node_encoded(a1)) =~= sa.subrange(
                1,
                sa.len() as int,
            ));
            assert(str_encoded(u2) + (u64_be(i2 as u64) + node_encoded(a2)) =~= sb.subrange(
                1,
                sb.len() as int,
            ));
            lemma_str_encoded_prefix(
                u1,
                u2,
                u64_be(i1 as u64) + node_encoded(a1),
                u64_be(i2 as u64) + node_encoded(a2),
            );
            let ra = u64_be(i1 as u64) + node_encoded(a1);
            let rb = u64_be(i2 as u64) + node_encoded(a2);
            assert(u64_be(i1 as u64) =~= ra.subrange(0, 8));
            assert(u64_be(i2 as u64) =~= rb.subrange(0, 8));
            lemma_u64_be_injective(i1 as u64, i2 as u64);
            assert(i1 == i2);
            assert(node_encoded(a1) + Seq::<u8>::empty() =~= ra.subrange(8, ra.len() as int));
            assert(node_encoded(a2) + Seq::<u8>::empty() =~= rb.subrange(8, rb.len() as int));
            lemma_node_encoded_prefix(a1, a2, Seq::empty(), Seq::empty());
        }
        (OpModel::Delete { uuid: u1 }, OpModel::Delete { uuid: u2 }) => {
            assert(str_encoded(u1) + Seq::<u8>::empty() =~= sa.subrange(1, sa.len() as int));
            assert(str_encoded(u2) + Seq::<u8>::empty() =~= sb.subrange(1, sb.len() as int));
            lemma_str_encoded_prefix(u1, u2, Seq::empty(), Seq::empty());
        }
        _ => {
            assert(op_tag(o1) != op_tag(o2));
            assert(false);
        }
    }
}

/// The concatenated predecessor references are self-delimiting.
pub proof fn lemma_strs_encoded_prefix(
    ss1: Seq<Seq<char>>,
    ss2: Seq<Seq<char>>,
    x: Seq<u8>,
    y: Seq<u8>,
)
    requires
        ss1.len() == ss2.len(),
        forall|i: int| 0 <= i < ss1.len() ==> (#[trigger] ss1[i]).len() <= u64::MAX,
        forall|i: int| 0 <= i < ss2.len() ==> (#[trigger] ss2[i]).len() <= u64::MAX,
        strs_encoded(ss1) + x == strs_encoded(ss2) + y,
    ensures
        ss1 == ss2,
        x == y,
    decreases ss1,
{
    if ss1.len() == 0 {
        assert(ss1 =~= ss2);
        assert(strs_encoded(ss1) + x =~= x);
        assert(strs_encoded(ss2) + y =~= y);
    } else {
        assert(str_encoded(ss1[0]) + (strs_encoded(ss1.drop_first()) + x) =~= strs_encoded(ss1)
            + x);
        assert(str_encoded(ss2[0]) + (strs_encoded(ss2.drop_first()) + y) =~= strs_encoded(ss2)
            + y);
        lemma_str_encoded_prefix(
            ss1[0],
            ss2[0],
            strs_encoded(ss1.drop_first()) + x,
            strs_encoded(ss2.drop_first()) + y,
        );
        lemma_strs_encoded_prefix(ss1.drop_first(), ss2.drop_first(), x, y);
        assert forall|i: int| 0 <= i < ss1.len() implies ss1[i] == ss2[i] by {
            if i > 0 {
                assert(ss1.drop_first()[i - 1] == ss1[i]);
                assert(ss2.drop_first()[i - 1] == ss2[i]);
            }
        }
        assert(ss1 =~= ss2);
    }
}

/// An entry whose strings, counts and index fit in 64 bits; every entry an
/// executable replica can build or receive is bounded.
pub open spec fn bounded_entry(e: EntryModel) -> bool {
    &&& e.previous.len() <= u64::MAX
    &&& forall|i: int| 0 <= i < e.previous.len() ==> (#[trigger] e.previous[i]).len() <= u64::MAX
    &&& e.peer.len() <= u64::MAX
    &&& bounded_op(e.op)
}

/// Distinct bounded entries present distinct bytes to the digest: a hash
/// collision between them would be a collision of the digest itself.
pub proof fn lemma_hash_input_injective(e1: EntryModel, e2: EntryModel)
    requires
        bounded_entry(e1),
        bounded_entry(e2),
        hash_input(e1) == hash_input(e2),
    ensures
        e1 == e2,
{
    let sa = hash_input(e1);
    let sb = hash_input(e2);
    assert(u64_be(e1.previous.len() as u64) =~= sa.subrange(0, 8));
    assert(u64_be(e2.previous.len() as u64) =~= sb.subrange(0, 8));
    lemma_u64_be_injective(e1.previous.len() as u64, e2.previous.len() as u64);
    assert(e1.previous.len() == e2.previous.len());
    assert(strs_encoded(e1.previous) + (str_encoded(e1.peer) + op_encoded(e1.op)) =~= sa.subrange(
        8,
        sa.len() as int,
    ));
    assert(strs_encoded(e2.previous) + (str_encoded(e2.peer) + op_encoded(e2.op)) =~= sb.subrange(
        8,
        sb.len() as int,
    ));
    lemma_strs_encoded_prefix(
        e1.previous,
        e2.previous,
        str_encoded(e1.peer) + op_encoded(e1.op),
        str_encoded(e2.peer) + op_encoded(e2.op),
    );
    lemma_str_encoded_prefix(e1.peer, e2.peer, op_encoded(e1.op), op_encoded(e2.op));
    lemma_op_encoded_injective(e1.op, e2.op);
}

} // verus!
