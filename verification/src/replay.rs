//! The replay engine: the five operation kinds, the deterministic effect of
//! each on the document tree, and the executable mutators that realise those
//! effects in place.

use vstd::prelude::*;

use crate::history::{ASTHistoryEntry, ASTHistoryEntryInner, EntryModel, OpModel};
use crate::tree::{
    contains_id, has_direct_child, has_parent, has_parent_all, idset, idset_all, is_int_at,
    is_list_at, lemma_has_parent_all_exists_t, lemma_idset_all_contains, lemma_lookup_all_skip,
    lemma_lookup_all_some,
    lemma_lookup_id, lemma_lookup_some, lemma_models_index, lemma_models_len,
    lemma_models_pointwise, lemma_models_push, list_len_at, lookup, lookup_all, models, uniq,
    uniq_all, AST, ASTInner, SpecNode, SpecVal,
};

verus! {

/// Why an operation could not be applied to the current tree.
#[derive(PartialEq, Eq, Structural, Clone, Copy, Debug)]
pub enum ReplayErrorKind {
    /// An `Initial` operation reached a replica whose tree already exists.
    DoubleInitialization,
    /// The operation names an identifier the tree does not hold.
    MissingTarget,
    /// `SetInteger` addressed a node that is not an integer leaf.
    NotAnInteger,
    /// `InsertAtIndex` addressed a node that is not a list.
    NotAList,
    /// `InsertAtIndex` named an index past the end of the children.
    IndexOutOfBounds,
    /// `Delete` addressed the root, which has no parent to remove it from.
    CannotDeleteRoot,
}

/// The tree after replacing the payload of the first node with identifier
/// `id` (in pre-order) by the integer `v`, tagging it as last edited by
/// `editor`.
pub open spec fn set_int_sp(n: SpecNode, id: Seq<char>, v: i64, editor: Seq<char>) -> SpecNode
    decreases n,
{
    if n.id == id {
        SpecNode { id: n.id, editor: editor, val: SpecVal::Int(v) }
    } else {
        match n.val {
            SpecVal::Int(_) => n,
            SpecVal::List(cs) => (SpecNode {
                id: n.id,
                editor: n.editor,
                val: SpecVal::List(set_int_list(cs, id, v, editor)),
            }),
        }
    }
}

/// `set_int_sp` over siblings: the first subtree holding `id` is rewritten,
/// the others are untouched.
pub open spec fn set_int_list(cs: Seq<SpecNode>, id: Seq<char>, v: i64, editor: Seq<char>) -> Seq<
    SpecNode,
>
    decreases cs,
{
    if cs.len() == 0 {
        cs
    } else if contains_id(cs[0], id) {
        seq![set_int_sp(cs[0], id, v, editor)] + cs.drop_first()
    } else {
        seq![cs[0]] + set_int_list(cs.drop_first(), id, v, editor)
    }
}

/// Siblings that do not hold `id` pass through `set_int_list` unchanged.
pub proof fn lemma_set_int_list_skip(
    cs: Seq<SpecNode>,
    id: Seq<char>,
    v: i64,
    editor: Seq<char>,
    i: int,
)
    requires
        0 <= i <= cs.len(),
        forall|j: int| 0 <= j < i ==> !contains_id(cs[j], id),
    ensures
        set_int_list(cs, id, v, editor) =~= cs.take(i) + set_int_list(cs.skip(i), id, v, editor),
    decreases i,
{
    if i == 0 {
        assert(cs.skip(0) =~= cs);
        assert(cs.take(0) + set_int_list(cs, id, v, editor) =~= set_int_list(cs, id, v, editor));
    } else {
        lemma_set_int_list_skip(cs.drop_first(), id, v, editor, i - 1);
        assert(cs.drop_first().skip(i - 1) =~= cs.skip(i));
        assert(cs.drop_first().take(i - 1) =~= cs.take(i).drop_first());
        assert(set_int_list(cs, id, v, editor) =~= cs.take(i) + set_int_list(
            cs.skip(i),
            id,
            v,
            editor,
        ));
    }
}

/// Replaces the payload of the first node with identifier `uuid` by the
/// integer `value`, recording `editor` as its last editor.
pub fn set_integer_in(t: &mut AST, uuid: &String, value: i64, editor: &String) -> (r: Result<
    (),
    ReplayErrorKind,
>)
    ensures
        r is Ok <==> is_int_at(old(t).model(), uuid@),
        r is Ok ==> final(t).model() == set_int_sp(old(t).model(), uuid@, value, editor@),
        r is Err ==> final(t).model() == old(t).model(),
        r matches Err(k) ==> k == (if contains_id(old(t).model(), uuid@) {
            ReplayErrorKind::NotAnInteger
        } else {
            ReplayErrorKind::MissingTarget
        }),
    decreases *old(t),
{
    let ghost m0 = old(t).model();
    if t.uuid == *uuid {
        match &mut t.value {
            ASTInner::Integer { value: v } => {
                *v = value;
                t.changed_by = editor.clone();
                Ok(())
            }
            ASTInner::Add { .. } => Err(ReplayErrorKind::NotAnInteger),
        }
    } else {
        match &mut t.value {
            ASTInner::Integer { .. } => Err(ReplayErrorKind::MissingTarget),
            ASTInner::Add { items } => {
                let ghost cs0 = models(old(t).value->Add_items@);
                proof {
                    assert(m0.val == SpecVal::List(cs0));
                    assert(*items == old(t).value->Add_items);
                    assert(decreases_to!(*old(t) => old(t).value));
                    assert(decreases_to!(old(t).value => old(t).value->Add_items));
                }
                let r = set_integer_in_list(items, uuid, value, editor);
                proof {
                    lemma_lookup_all_some(cs0, uuid@);
                }
                r
            }
        }
    }
}

/// `set_integer_in` over the children of one list node, left to right.
pub fn set_integer_in_list(items: &mut Vec<AST>, uuid: &String, value: i64, editor: &String) -> (r:
    Result<(), ReplayErrorKind>)
    ensures
        ({
            let cs0 = models(old(items)@);
            let cs1 = models(final(items)@);
            &&& r is Ok <==> (lookup_all(cs0, uuid@) matches Some(m) && m.val is Int)
            &&& (r is Ok ==> cs1 == set_int_list(cs0, uuid@, value, editor@))
            &&& (r is Err ==> cs1 == cs0)
            &&& (r matches Err(k) ==> k == (if idset_all(cs0).contains(uuid@) {
                ReplayErrorKind::NotAnInteger
            } else {
                ReplayErrorKind::MissingTarget
            }))
        }),
    decreases *old(items),
{
    let ghost cs0 = models(old(items)@);
    proof {
        lemma_models_len(old(items)@);
    }
    let n = items.len();
    let mut i: usize = 0;
    while i < n
        invariant
            n == items.len(),
            n == old(items)@.len(),
            cs0 == models(old(items)@),
            cs0.len() == n,
            i <= n,
            forall|j: int| i <= j < n ==> items@[j] == old(items)@[j],
            forall|j: int| 0 <= j < i ==> items@[j].model() == cs0[j],
            forall|j: int| 0 <= j < i ==> !contains_id(cs0[j], uuid@),
        decreases n - i,
    {
        proof {
            lemma_models_index(old(items)@, i as int);
            assert(decreases_to!(*old(items) => old(items)@));
            assert(decreases_to!(old(items)@ => old(items)@[i as int]));
        }
        let r = set_integer_in(&mut items[i], uuid, value, editor);
        proof {
            lemma_lookup_some(cs0[i as int], uuid@);
        }
        match r {
            Ok(()) => {
                proof {
                    let tr = set_int_sp(cs0[i as int], uuid@, value, editor@);
                    let ms = cs0.update(i as int, tr);
                    lemma_set_int_list_skip(cs0, uuid@, value, editor@, i as int);
                    assert(cs0.skip(i as int)[0] == cs0[i as int]);
                    assert(set_int_list(cs0.skip(i as int), uuid@, value, editor@) == seq![tr]
                        + cs0.skip(i as int).drop_first());
                    assert(set_int_list(cs0, uuid@, value, editor@) =~= ms);
                    assert forall|j: int| 0 <= j < items@.len() implies items@[j].model()
                        == ms[j] by {
                        if j > i {
                            lemma_models_index(old(items)@, j);
                        }
                    }
                    lemma_models_pointwise(items@, ms);
                    lemma_lookup_all_skip(cs0, uuid@, i as int);
                    assert(lookup_all(cs0.skip(i as int), uuid@) == lookup(cs0[i as int], uuid@));
                }
                return Ok(());
            }
            Err(ReplayErrorKind::MissingTarget) => {}
            Err(k) => {
                proof {
                    lemma_lookup_all_skip(cs0, uuid@, i as int);
                    assert(lookup_all(cs0.skip(i as int), uuid@) == lookup(cs0[i as int], uuid@));
                    lemma_idset_all_contains(cs0, uuid@);
                    assert forall|j: int| 0 <= j < items@.len() implies items@[j].model()
                        == cs0[j] by {
                        if j > i {
                            lemma_models_index(old(items)@, j);
                        }
                    }
                    lemma_models_pointwise(items@, cs0);
                }
                return Err(k);
            }
        }
        i += 1;
    }
    proof {
        lemma_lookup_all_some(cs0, uuid@);
        lemma_idset_all_contains(cs0, uuid@);
        assert forall|j: int| 0 <= j < items@.len() implies items@[j].model() == cs0[j] by {}
        lemma_models_pointwise(items@, cs0);
    }
    Err(ReplayErrorKind::MissingTarget)
}

/// The tree after inserting `new` at position `idx` among the children of
/// the first node with identifier `pid`.
pub open spec fn insert_sp(n: SpecNode, pid: Seq<char>, idx: int, new: SpecNode) -> SpecNode
    decreases n,
{
    if n.id == pid {
        match n.val {
            SpecVal::Int(_) => n,
            SpecVal::List(cs) => (SpecNode {
                id: n.id,
                editor: n.editor,
                val: SpecVal::List(cs.insert(idx, new)),
            }),
        }
    } else {
        match n.val {
            SpecVal::Int(_) => n,
            SpecVal::List(cs) => (SpecNode {
                id: n.id,
                editor: n.editor,
                val: SpecVal::List(insert_list(cs, pid, idx, new)),
            }),
        }
    }
}

/// `insert_sp` over siblings: the first subtree holding `pid` receives the
/// insertion.
pub open spec fn insert_list(cs: Seq<SpecNode>, pid: Seq<char>, idx: int, new: SpecNode) -> Seq<
    SpecNode,
>
    decreases cs,
{
    if cs.len() == 0 {
        cs
    } else if contains_id(cs[0], pid) {
        seq![insert_sp(cs[0], pid, idx, new)] + cs.drop_first()
    } else {
        seq![cs[0]] + insert_list(cs.drop_first(), pid, idx, new)
    }
}

pub proof fn lemma_insert_list_skip(
    cs: Seq<SpecNode>,
    pid: Seq<char>,
    idx: int,
    new: SpecNode,
    i: int,
)
    requires
        0 <= i <= cs.len(),
        forall|j: int| 0 <= j < i ==> !contains_id(cs[j], pid),
    ensures
        insert_list(cs, pid, idx, new) =~= cs.take(i) + insert_list(cs.skip(i), pid, idx, new),
    decreases i,
{
    if i == 0 {
        assert(cs.skip(0) =~= cs);
        assert(cs.take(0) + insert_list(cs, pid, idx, new) =~= insert_list(cs, pid, idx, new));
    } else {
        lemma_insert_list_skip(cs.drop_first(), pid, idx, new, i - 1);
        assert(cs.drop_first().skip(i - 1) =~= cs.skip(i));
        assert(cs.drop_first().take(i - 1) =~= cs.take(i).drop_first());
        assert(insert_list(cs, pid, idx, new) =~= cs.take(i) + insert_list(
            cs.skip(i),
            pid,
            idx,
            new,
        ));
    }
}

/// The error `InsertAtIndex` reports when its precondition fails on `m`.
pub open spec fn insert_err_kind(m: SpecNode, pid: Seq<char>, idx: int) -> ReplayErrorKind {
    if !contains_id(m, pid) {
        ReplayErrorKind::MissingTarget
    } else if !is_list_at(m, pid) {
        ReplayErrorKind::NotAList
    } else {
        ReplayErrorKind::IndexOutOfBounds
    }
}

/// Inserts a copy of `new` at `index` among the children of the first node
/// with identifier `uuid`; `index == len` appends, `index > len` is refused.
pub fn insert_at_in(t: &mut AST, uuid: &String, index: usize, new: &AST) -> (r: Result<
    (),
    ReplayErrorKind,
>)
    ensures
        r is Ok <==> (is_list_at(old(t).model(), uuid@) && index <= list_len_at(
            old(t).model(),
            uuid@,
        )),
        r is Ok ==> final(t).model() == insert_sp(
            old(t).model(),
            uuid@,
            index as int,
            new.model(),
        ),
        r is Err ==> final(t).model() == old(t).model(),
        r matches Err(k) ==> k == insert_err_kind(old(t).model(), uuid@, index as int),
    decreases *old(t),
{
    let ghost m0 = old(t).model();
    if t.uuid == *uuid {
        match &mut t.value {
            ASTInner::Integer { .. } => Err(ReplayErrorKind::NotAList),
            ASTInner::Add { items } => {
                let ghost cs0 = models(old(t).value->Add_items@);
                proof {
                    lemma_models_len(old(t).value->Add_items@);
                }
                if index <= items.len() {
                    items.insert(index, new.clone());
                    proof {
                        let ms = cs0.insert(index as int, new.model());
                        assert forall|j: int| 0 <= j < items@.len() implies items@[j].model()
                            == ms[j] by {
                            if j < index {
                                lemma_models_index(old(t).value->Add_items@, j);
                            } else if j > index {
                                lemma_models_index(old(t).value->Add_items@, j - 1);
                            }
                        }
                        lemma_models_pointwise(items@, ms);
                    }
                    Ok(())
                } else {
                    Err(ReplayErrorKind::IndexOutOfBounds)
                }
            }
        }
    } else {
        match &mut t.value {
            ASTInner::Integer { .. } => Err(ReplayErrorKind::MissingTarget),
            ASTInner::Add { items } => {
                let ghost cs0 = models(old(t).value->Add_items@);
                proof {
                    assert(m0.val == SpecVal::List(cs0));
                    assert(*items == old(t).value->Add_items);
                    assert(decreases_to!(*old(t) => old(t).value));
                    assert(decreases_to!(old(t).value => old(t).value->Add_items));
                }
                let r = insert_at_in_list(items, uuid, index, new);
                proof {
                    lemma_lookup_all_some(cs0, uuid@);
                }
                r
            }
        }
    }
}

/// `insert_at_in` over the children of one list node, left to right.
pub fn insert_at_in_list(items: &mut Vec<AST>, uuid: &String, index: usize, new: &AST) -> (r:
    Result<(), ReplayErrorKind>)
    ensures
        ({
            let cs0 = models(old(items)@);
            let cs1 = models(final(items)@);
            &&& r is Ok <==> (lookup_all(cs0, uuid@) matches Some(m) && m.val is List
                && index <= m.val->List_0.len())
            &&& (r is Ok ==> cs1 == insert_list(cs0, uuid@, index as int, new.model()))
            &&& (r is Err ==> cs1 == cs0)
            &&& (r matches Err(k) ==> k == (if !idset_all(cs0).contains(uuid@) {
                ReplayErrorKind::MissingTarget
            } else if !(lookup_all(cs0, uuid@) matches Some(m) && m.val is List) {
                ReplayErrorKind::NotAList
            } else {
                ReplayErrorKind::IndexOutOfBounds
            }))
        }),
    decreases *old(items),
{
    let ghost cs0 = models(old(items)@);
    proof {
        lemma_models_len(old(items)@);
    }
    let n = items.len();
    let mut i: usize = 0;
    while i < n
        invariant
            n == items.len(),
            n == old(items)@.len(),
            cs0 == models(old(items)@),
            cs0.len() == n,
            i <= n,
            forall|j: int| i <= j < n ==> items@[j] == old(items)@[j],
            forall|j: int| 0 <= j < i ==> items@[j].model() == cs0[j],
            forall|j: int| 0 <= j < i ==> !contains_id(cs0[j], uuid@),
        decreases n - i,
    {
        proof {
            lemma_models_index(old(items)@, i as int);
            assert(decreases_to!(*old(items) => old(items)@));
            assert(decreases_to!(old(items)@ => old(items)@[i as int]));
        }
        let r = insert_at_in(&mut items[i], uuid, index, new);
        proof {
            lemma_lookup_some(cs0[i as int], uuid@);
        }
        match r {
            Ok(()) => {
                proof {
                    let tr = insert_sp(cs0[i as int], uuid@, index as int, new.model());
                    let ms = cs0.update(i as int, tr);
                    lemma_insert_list_skip(cs0, uuid@, index as int, new.model(), i as int);
                    assert(cs0.skip(i as int)[0] == cs0[i as int]);
                    assert(insert_list(cs0.skip(i as int), uuid@, index as int, new.model())
                        == seq![tr] + cs0.skip(i as int).drop_first());
                    assert(insert_list(cs0, uuid@, index as int, new.model()) =~= ms);
                    assert forall|j: int| 0 <= j < items@.len() implies items@[j].model()
                        == ms[j] by {
                        if j > i {
                            lemma_models_index(old(items)@, j);
                        }
                    }
                    lemma_models_pointwise(items@, ms);
                    lemma_lookup_all_skip(cs0, uuid@, i as int);
                    assert(lookup_all(cs0.skip(i as int), uuid@) == lookup(cs0[i as int], uuid@));
                }
                return Ok(());
            }
            Err(ReplayErrorKind::MissingTarget) => {}
            Err(k) => {
                proof {
                    lemma_lookup_all_skip(cs0, uuid@, i as int);
                    assert(lookup_all(cs0.skip(i as int), uuid@) == lookup(cs0[i as int], uuid@));
                    lemma_idset_all_contains(cs0, uuid@);
                    assert forall|j: int| 0 <= j < items@.len() implies items@[j].model()
                        == cs0[j] by {
                        if j > i {
                            lemma_models_index(old(items)@, j);
                        }
                    }
                    lemma_models_pointwise(items@, cs0);
                }
                return Err(k);
            }
        }
        i += 1;
    }
    proof {
        lemma_lookup_all_some(cs0, uuid@);
        lemma_idset_all_contains(cs0, uuid@);
        lemma_models_pointwise(items@, cs0);
    }
    Err(ReplayErrorKind::MissingTarget)
}

/// The tree after replacing the first node with identifier `id` by a fresh
/// list node (identifier `wid`, last edited by `editor`) whose sole child is
/// the original subtree.
pub open spec fn wrap_sp(n: SpecNode, id: Seq<char>, wid: Seq<char>, editor: Seq<char>) -> SpecNode
    decreases n,
{
    if n.id == id {
        SpecNode { id: wid, editor: editor, val: SpecVal::List(seq![n]) }
    } else {
        match n.val {
            SpecVal::Int(_) => n,
            SpecVal::List(cs) => (SpecNode {
                id: n.id,
                editor: n.editor,
                val: SpecVal::List(wrap_list(cs, id, wid, editor)),
            }),
        }
    }
}

/// `wrap_sp` over siblings: the first subtree holding `id` is rewritten.
pub open spec fn wrap_list(cs: Seq<SpecNode>, id: Seq<char>, wid: Seq<char>, editor: Seq<char>) -> Seq<
    SpecNode,
>
    decreases cs,
{
    if cs.len() == 0 {
        cs
    } else if contains_id(cs[0], id) {
        seq![wrap_sp(cs[0], id, wid, editor)] + cs.drop_first()
    } else {
        seq![cs[0]] + wrap_list(cs.drop_first(), id, wid, editor)
    }
}

pub proof fn lemma_wrap_list_skip(
    cs: Seq<SpecNode>,
    id: Seq<char>,
    wid: Seq<char>,
    editor: Seq<char>,
    i: int,
)
    requires
        0 <= i <= cs.len(),
        forall|j: int| 0 <= j < i ==> !contains_id(cs[j], id),
    ensures
        wrap_list(cs, id, wid, editor) =~= cs.take(i) + wrap_list(cs.skip(i), id, wid, editor),
    decreases i,
{
    if i == 0 {
        assert(cs.skip(0) =~= cs);
        assert(cs.take(0) + wrap_list(cs, id, wid, editor) =~= wrap_list(cs, id, wid, editor));
    } else {
        lemma_wrap_list_skip(cs.drop_first(), id, wid, editor, i - 1);
        assert(cs.drop_first().skip(i - 1) =~= cs.skip(i));
        assert(cs.drop_first().take(i - 1) =~= cs.take(i).drop_first());
        assert(wrap_list(cs, id, wid, editor) =~= cs.take(i) + wrap_list(
            cs.skip(i),
            id,
            wid,
            editor,
        ));
    }
}

/// Replaces the first node with identifier `uuid` in place by a new list
/// node with identifier `wrapping_uuid` whose sole child is that node.
pub fn wrap_in(t: &mut AST, uuid: &String, wrapping_uuid: &String, editor: &String) -> (r: Result<
    (),
    ReplayErrorKind,
>)
    ensures
        r is Ok <==> contains_id(old(t).model(), uuid@),
        r is Ok ==> final(t).model() == wrap_sp(old(t).model(), uuid@, wrapping_uuid@, editor@),
        r is Err ==> final(t).model() == old(t).model(),
        r matches Err(k) ==> k == ReplayErrorKind::MissingTarget,
    decreases *old(t),
{
    let ghost m0 = old(t).model();
    if t.uuid == *uuid {
        let mut wrapper = AST {
            uuid: wrapping_uuid.clone(),
            changed_by: editor.clone(),
            value: ASTInner::Add { items: Vec::new() },
        };
        core::mem::swap(t, &mut wrapper);
        match &mut t.value {
            ASTInner::Add { items } => {
                items.push(wrapper);
                proof {
                    assert(models(items@) =~= seq![m0]) by {
                        lemma_models_len(items@);
                        lemma_models_index(items@, 0);
                    }
                }
            }
            ASTInner::Integer { .. } => {
                proof {
                    assert(false);
                }
            }
        }
        Ok(())
    } else {
        match &mut t.value {
            ASTInner::Integer { .. } => Err(ReplayErrorKind::MissingTarget),
            ASTInner::Add { items } => {
                let ghost cs0 = models(old(t).value->Add_items@);
                proof {
                    assert(m0.val == SpecVal::List(cs0));
                    assert(*items == old(t).value->Add_items);
                    assert(decreases_to!(*old(t) => old(t).value));
                    assert(decreases_to!(old(t).value => old(t).value->Add_items));
                }
                let r = wrap_in_list(items, uuid, wrapping_uuid, editor);
                proof {
                    lemma_idset_all_contains(cs0, uuid@);
                }
                r
            }
        }
    }
}

/// `wrap_in` over the children of one list node, left to right.
pub fn wrap_in_list(items: &mut Vec<AST>, uuid: &String, wrapping_uuid: &String, editor: &String) -> (r:
    Result<(), ReplayErrorKind>)
    ensures
        ({
            let cs0 = models(old(items)@);
            let cs1 = models(final(items)@);
            &&& r is Ok <==> idset_all(cs0).contains(uuid@)
            &&& (r is Ok ==> cs1 == wrap_list(cs0, uuid@, wrapping_uuid@, editor@))
            &&& (r is Err ==> cs1 == cs0)
            &&& (r matches Err(k) ==> k == ReplayErrorKind::MissingTarget)
        }),
    decreases *old(items),
{
    let ghost cs0 = models(old(items)@);
    proof {
        lemma_models_len(old(items)@);
    }
    let n = items.len();
    let mut i: usize = 0;
    while i < n
        invariant
            n == items.len(),
            n == old(items)@.len(),
            cs0 == models(old(items)@),
            cs0.len() == n,
            i <= n,
            forall|j: int| i <= j < n ==> items@[j] == old(items)@[j],
            forall|j: int| 0 <= j < i ==> items@[j].model() == cs0[j],
            forall|j: int| 0 <= j < i ==> !contains_id(cs0[j], uuid@),
        decreases n - i,
    {
        proof {
            lemma_models_index(old(items)@, i as int);
            assert(decreases_to!(*old(items) => old(items)@));
            assert(decreases_to!(old(items)@ => old(items)@[i as int]));
        }
        let r = wrap_in(&mut items[i], uuid, wrapping_uuid, editor);
        match r {
            Ok(()) => {
                proof {
                    let tr = wrap_sp(cs0[i as int], uuid@, wrapping_uuid@, editor@);
                    let ms = cs0.update(i as int, tr);
                    lemma_wrap_list_skip(cs0, uuid@, wrapping_uuid@, editor@, i as int);
                    assert(cs0.skip(i as int)[0] == cs0[i as int]);
                    assert(wrap_list(cs0.skip(i as int), uuid@, wrapping_uuid@, editor@)
                        == seq![tr] + cs0.skip(i as int).drop_first());
                    assert(wrap_list(cs0, uuid@, wrapping_uuid@, editor@) =~= ms);
                    assert forall|j: int| 0 <= j < items@.len() implies items@[j].model()
                        == ms[j] by {
                        if j > i {
                            lemma_models_index(old(items)@, j);
                        }
                    }
                    lemma_models_pointwise(items@, ms);
                    lemma_idset_all_contains(cs0, uuid@);
                }
                return Ok(());
            }
            Err(_) => {}
        }
        i += 1;
    }
    proof {
        lemma_idset_all_contains(cs0, uuid@);
        lemma_models_pointwise(items@, cs0);
    }
    Err(ReplayErrorKind::MissingTarget)
}

/// Whether some element of `cs` itself carries identifier `id`.
pub open spec fn child_with_id(cs: Seq<SpecNode>, id: Seq<char>) -> bool {
    exists|i: int| 0 <= i < cs.len() && cs[i].id == id
}

/// `cs` with every element whose own identifier is `id` removed; the other
/// elements keep their order.
pub open spec fn remove_id(cs: Seq<SpecNode>, id: Seq<char>) -> Seq<SpecNode>
    decreases cs,
{
    if cs.len() == 0 {
        cs
    } else if cs[0].id == id {
        remove_id(cs.drop_first(), id)
    } else {
        seq![cs[0]] + remove_id(cs.drop_first(), id)
    }
}

pub proof fn lemma_remove_id_push(cs: Seq<SpecNode>, x: SpecNode, id: Seq<char>)
    ensures
        remove_id(cs.push(x), id) == remove_id(cs, id) + (if x.id == id {
            Seq::<SpecNode>::empty()
        } else {
            seq![x]
        }),
    decreases cs,
{
    if cs.len() == 0 {
        assert(cs.push(x).drop_first() =~= cs);
        if x.id == id {
            assert(remove_id(cs.push(x), id) =~= remove_id(cs, id) + Seq::<SpecNode>::empty());
        } else {
            assert(remove_id(cs.push(x), id) =~= remove_id(cs, id) + seq![x]);
        }
    } else {
        lemma_remove_id_push(cs.drop_first(), x, id);
        assert(cs.push(x).drop_first() =~= cs.drop_first().push(x));
        assert(remove_id(cs.push(x), id) =~= remove_id(cs, id) + (if x.id == id {
            Seq::<SpecNode>::empty()
        } else {
            seq![x]
        }));
    }
}

/// The tree after removing, from the children of the first node that has a
/// direct child with identifier `id`, every child with that identifier.
pub open spec fn delete_sp(n: SpecNode, id: Seq<char>) -> SpecNode
    decreases n,
{
    match n.val {
        SpecVal::Int(_) => n,
        SpecVal::List(cs) => {
            if child_with_id(cs, id) {
                SpecNode { id: n.id, editor: n.editor, val: SpecVal::List(remove_id(cs, id)) }
            } else {
                SpecNode { id: n.id, editor: n.editor, val: SpecVal::List(delete_list(cs, id)) }
            }
        }
    }
}

/// `delete_sp` over siblings: the first subtree in which `id` has a parent
/// is rewritten.
pub open spec fn delete_list(cs: Seq<SpecNode>, id: Seq<char>) -> Seq<SpecNode>
    decreases cs,
{
    if cs.len() == 0 {
        cs
    } else if has_parent(cs[0], id) {
        seq![delete_sp(cs[0], id)] + cs.drop_first()
    } else {
        seq![cs[0]] + delete_list(cs.drop_first(), id)
    }
}

pub proof fn lemma_delete_list_skip(cs: Seq<SpecNode>, id: Seq<char>, i: int)
    requires
        0 <= i <= cs.len(),
        forall|j: int| 0 <= j < i ==> !has_parent(cs[j], id),
    ensures
        delete_list(cs, id) =~= cs.take(i) + delete_list(cs.skip(i), id),
    decreases i,
{
    if i == 0 {
        assert(cs.skip(0) =~= cs);
        assert(cs.take(0) + delete_list(cs, id) =~= delete_list(cs, id));
    } else {
        lemma_delete_list_skip(cs.drop_first(), id, i - 1);
        assert(cs.drop_first().skip(i - 1) =~= cs.skip(i));
        assert(cs.drop_first().take(i - 1) =~= cs.take(i).drop_first());
        assert(delete_list(cs, id) =~= cs.take(i) + delete_list(cs.skip(i), id));
    }
}

/// Removes the node with identifier `uuid` from its parent's children, and
/// with it its whole subtree; the root cannot be removed.
pub fn delete_in(t: &mut AST, uuid: &String) -> (r: bool)
    ensures
        r <==> has_parent(old(t).model(), uuid@),
        r ==> final(t).model() == delete_sp(old(t).model(), uuid@),
        !r ==> final(t).model() == old(t).model(),
    decreases *old(t),
{
    let ghost m0 = old(t).model();
    match &mut t.value {
        ASTInner::Integer { .. } => false,
        ASTInner::Add { items } => {
            let ghost cs0 = models(old(t).value->Add_items@);
            proof {
                assert(m0.val == SpecVal::List(cs0));
                assert(*items == old(t).value->Add_items);
                lemma_models_len(old(t).value->Add_items@);
            }
            let n = items.len();
            let mut direct = false;
            let mut j: usize = 0;
            while j < n
                invariant
                    n == items.len(),
                    items@ == old(t).value->Add_items@,
                    cs0 == models(items@),
                    cs0.len() == n,
                    j <= n,
                    direct <==> exists|j2: int| 0 <= j2 < j && cs0[j2].id == uuid@,
                decreases n - j,
            {
                proof {
                    lemma_models_index(items@, j as int);
                }
                if items[j].uuid == *uuid {
                    direct = true;
                }
                j += 1;
            }
            if direct {
                proof {
                    assert(child_with_id(cs0, uuid@));
                }
                remove_children_with_id(items, uuid);
                true
            } else {
                proof {
                    assert(!child_with_id(cs0, uuid@));
                    assert(decreases_to!(*old(t) => old(t).value));
                    assert(decreases_to!(old(t).value => old(t).value->Add_items));
                }
                let r = delete_in_list(items, uuid);
                proof {
                    lemma_has_parent_all_exists_t(cs0, uuid@);
                }
                r
            }
        }
    }
}

/// Removes every direct child of `items` whose identifier is `uuid`,
/// keeping the order of the rest.
pub fn remove_children_with_id(items: &mut Vec<AST>, uuid: &String)
    ensures
        models(final(items)@) == remove_id(models(old(items)@), uuid@),
{
    let ghost cs0 = models(old(items)@);
    proof {
        lemma_models_len(old(items)@);
    }
    let ghost n0 = old(items)@.len();
    let mut k: usize = 0;
    let ghost mut m: int = 0;
    while k < items.len()
        invariant
            cs0 == models(old(items)@),
            n0 == old(items)@.len(),
            cs0.len() == n0,
            0 <= k <= items@.len(),
            k <= m <= n0,
            items@.len() - k == n0 - m,
            items@.skip(k as int) =~= old(items)@.skip(m),
            models(items@.take(k as int)) == remove_id(models(old(items)@.take(m)), uuid@),
        decreases items@.len() - k,
    {
        proof {
            assert(m < n0);
            assert(items@[k as int] == items@.skip(k as int)[0]);
            assert(old(items)@.skip(m)[0] == old(items)@[m]);
            assert(items@[k as int] == old(items)@[m]);
            lemma_models_index(old(items)@, m);
            assert(old(items)@.take(m + 1) =~= old(items)@.take(m).push(old(items)@[m]));
            lemma_models_push(old(items)@.take(m), old(items)@[m]);
            lemma_remove_id_push(models(old(items)@.take(m)), cs0[m], uuid@);
            assert(models(old(items)@.take(m)).push(old(items)@[m].model()) =~= models(
                old(items)@.take(m),
            ) + seq![cs0[m]]);
        }
        let ghost prev = items@;
        if items[k].uuid == *uuid {
            items.remove(k);
            proof {
                assert(items@ =~= prev.remove(k as int));
                assert(items@.take(k as int) =~= prev.take(k as int));
                assert(items@.skip(k as int) =~= prev.skip(k as int).drop_first());
                assert(prev.skip(k as int).drop_first() =~= old(items)@.skip(m).drop_first());
                assert(old(items)@.skip(m).drop_first() =~= old(items)@.skip(m + 1));
                m = m + 1;
            }
        } else {
            proof {
                assert(items@.skip(k as int + 1) =~= items@.skip(k as int).drop_first());
                assert(old(items)@.skip(m + 1) =~= old(items)@.skip(m).drop_first());
                assert(items@.take(k as int + 1) =~= items@.take(k as int).push(
                    items@[k as int],
                ));
                lemma_models_push(items@.take(k as int), items@[k as int]);
                m = m + 1;
            }
            k += 1;
        }
    }
    proof {
        assert(m == n0);
        assert(old(items)@.take(m) =~= old(items)@);
        assert(items@.take(k as int) =~= items@);
    }
}

/// `delete_in` over the children of one list node, left to right.
pub fn delete_in_list(items: &mut Vec<AST>, uuid: &String) -> (r: bool)
    ensures
        ({
            let cs0 = models(old(items)@);
            let cs1 = models(final(items)@);
            &&& r <==> has_parent_all(cs0, uuid@)
            &&& (r ==> cs1 == delete_list(cs0, uuid@))
            &&& (!r ==> cs1 == cs0)
        }),
    decreases *old(items),
{
    let ghost cs0 = models(old(items)@);
    proof {
        lemma_models_len(old(items)@);
        lemma_has_parent_all_exists_t(cs0, uuid@);
    }
    let n = items.len();
    let mut i: usize = 0;
    while i < n
        invariant
            n == items.len(),
            n == old(items)@.len(),
            cs0 == models(old(items)@),
            cs0.len() == n,
            i <= n,
            forall|j: int| i <= j < n ==> items@[j] == old(items)@[j],
            forall|j: int| 0 <= j < i ==> items@[j].model() == cs0[j],
            forall|j: int| 0 <= j < i ==> !has_parent(cs0[j], uuid@),
        decreases n - i,
    {
        proof {
            lemma_models_index(old(items)@, i as int);
            assert(decreases_to!(*old(items) => old(items)@));
            assert(decreases_to!(old(items)@ => old(items)@[i as int]));
        }
        let r = delete_in(&mut items[i], uuid);
        if r {
            proof {
                let tr = delete_sp(cs0[i as int], uuid@);
                let ms = cs0.update(i as int, tr);
                lemma_delete_list_skip(cs0, uuid@, i as int);
                assert(cs0.skip(i as int)[0] == cs0[i as int]);
                assert(delete_list(cs0.skip(i as int), uuid@) == seq![tr] + cs0.skip(
                    i as int,
                ).drop_first());
                assert(delete_list(cs0, uuid@) =~= ms);
                assert forall|j: int| 0 <= j < items@.len() implies items@[j].model() == ms[j] by {
                    if j > i {
                        lemma_models_index(old(items)@, j);
                    }
                }
                lemma_models_pointwise(items@, ms);
                lemma_has_parent_all_exists_t(cs0, uuid@);
            }
            return true;
        }
        i += 1;
    }
    proof {
        lemma_has_parent_all_exists_t(cs0, uuid@);
        lemma_models_pointwise(items@, cs0);
    }
    false
}

/// The model of a replica's document: absent until an `Initial` operation
/// arrives.
pub open spec fn doc_model(d: Option<AST>) -> Option<SpecNode> {
    match d {
        Option::None => None,
        Option::Some(t) => Some(t.model()),
    }
}

/// The effect of one entry on a document: the new document where the
/// operation's precondition holds, and the exact error where it does not.
pub open spec fn apply_sp(doc: Option<SpecNode>, e: EntryModel) -> Result<
    Option<SpecNode>,
    ReplayErrorKind,
> {
    match e.op {
        OpModel::Initial { ast } => {
            if doc is None {
                Ok(Some(ast))
            } else {
                Err(ReplayErrorKind::DoubleInitialization)
            }
        }
        OpModel::SetInteger { uuid, value } => match doc {
            Option::None => Err(ReplayErrorKind::MissingTarget),
            Option::Some(n) => {
                if is_int_at(n, uuid) {
                    Ok(Some(set_int_sp(n, uuid, value, e.peer)))
                } else if contains_id(n, uuid) {
                    Err(ReplayErrorKind::NotAnInteger)
                } else {
                    Err(ReplayErrorKind::MissingTarget)
                }
            }
        },
        OpModel::InsertAtIndex { uuid, index, ast } => match doc {
            Option::None => Err(ReplayErrorKind::MissingTarget),
            Option::Some(n) => {
                if is_list_at(n, uuid) && 0 <= index <= list_len_at(n, uuid) {
                    Ok(Some(insert_sp(n, uuid, index, ast)))
                } else {
                    Err(insert_err_kind(n, uuid, index))
                }
            }
        },
        OpModel::WrapIntegerInAdd { uuid, wrapping_uuid } => match doc {
            Option::None => Err(ReplayErrorKind::MissingTarget),
            Option::Some(n) => {
                if contains_id(n, uuid) {
                    Ok(Some(wrap_sp(n, uuid, wrapping_uuid, e.peer)))
                } else {
                    Err(ReplayErrorKind::MissingTarget)
                }
            }
        },
        OpModel::Delete { uuid } => match doc {
            Option::None => Err(ReplayErrorKind::MissingTarget),
            Option::Some(n) => {
                if has_parent(n, uuid) {
                    Ok(Some(delete_sp(n, uuid)))
                } else if contains_id(n, uuid) {
                    Err(ReplayErrorKind::CannotDeleteRoot)
                } else {
                    Err(ReplayErrorKind::MissingTarget)
                }
            }
        },
    }
}

/// An operation that could not be applied, with the entry that carried it.
pub struct ReplayError {
    pub kind: ReplayErrorKind,
    pub entry: ASTHistoryEntry,
}

/// Applies one history entry to the document, in place.  Exactly when the
/// operation's precondition holds of the current tree the document becomes
/// `apply_sp`'s result; otherwise it is unchanged and the error names the
/// failed precondition.  There is no partial application.
pub fn apply_entry(doc: &mut Option<AST>, entry: &ASTHistoryEntry) -> (r: Result<(), ReplayError>)
    ensures
        apply_sp(doc_model(*old(doc)), entry.model()) matches Ok(d) ==> r is Ok && doc_model(
            *final(doc),
        ) == d,
        apply_sp(doc_model(*old(doc)), entry.model()) matches Err(k) ==> {
            &&& r matches Err(e) && e.kind == k && e.entry.model() == entry.model()
            &&& doc_model(*final(doc)) == doc_model(*old(doc))
        },
{
    match &entry.value {
        ASTHistoryEntryInner::Initial { ast } => {
            if doc.is_none() {
                *doc = Some(ast.clone());
                Ok(())
            } else {
                Err(ReplayError {
                    kind: ReplayErrorKind::DoubleInitialization,
                    entry: entry.clone(),
                })
            }
        }
        ASTHistoryEntryInner::SetInteger { uuid, value } => match doc {
            Option::None => Err(ReplayError {
                kind: ReplayErrorKind::MissingTarget,
                entry: entry.clone(),
            }),
            Option::Some(t) => match set_integer_in(t, uuid, *value, &entry.peer) {
                Ok(()) => Ok(()),
                Err(k) => Err(ReplayError { kind: k, entry: entry.clone() }),
            },
        },
        ASTHistoryEntryInner::InsertAtIndex { uuid, index, ast } => match doc {
            Option::None => Err(ReplayError {
                kind: ReplayErrorKind::MissingTarget,
                entry: entry.clone(),
            }),
            Option::Some(t) => match insert_at_in(t, uuid, *index, ast) {
                Ok(()) => Ok(()),
                Err(k) => Err(ReplayError { kind: k, entry: entry.clone() }),
            },
        },
        ASTHistoryEntryInner::WrapIntegerInAdd { uuid, wrapping_uuid } => match doc {
            Option::None => Err(ReplayError {
                kind: ReplayErrorKind::MissingTarget,
                entry: entry.clone(),
            }),
            Option::Some(t) => match wrap_in(t, uuid, wrapping_uuid, &entry.peer) {
                Ok(()) => Ok(()),
                Err(k) => Err(ReplayError { kind: k, entry: entry.clone() }),
            },
        },
        ASTHistoryEntryInner::Delete { uuid } => match doc {
            Option::None => Err(ReplayError {
                kind: ReplayErrorKind::MissingTarget,
                entry: entry.clone(),
            }),
            Option::Some(t) => {
                if delete_in(t, uuid) {
                    Ok(())
                } else {
                    let kind = if t.contains_uuid(uuid) {
                        ReplayErrorKind::CannotDeleteRoot
                    } else {
                        ReplayErrorKind::MissingTarget
                    };
                    Err(ReplayError { kind, entry: entry.clone() })
                }
            }
        },
    }
}

/// Unfolding helpers: identifier sets and uniqueness over a cons cell.
pub proof fn lemma_idset_all_cons(x: SpecNode, s: Seq<SpecNode>)
    ensures
        idset_all(seq![x] + s) == idset(x).union(idset_all(s)),
{
    assert((seq![x] + s).drop_first() =~= s);
    assert((seq![x] + s)[0] == x);
}

pub proof fn lemma_uniq_all_cons(x: SpecNode, s: Seq<SpecNode>)
    ensures
        uniq_all(seq![x] + s) <==> (uniq(x) && idset(x).disjoint(idset_all(s)) && uniq_all(s)),
{
    assert((seq![x] + s).drop_first() =~= s);
    assert((seq![x] + s)[0] == x);
}

/// `SetInteger` introduces no identifier and keeps uniqueness.
pub proof fn lemma_set_int_preserves(n: SpecNode, id: Seq<char>, v: i64, editor: Seq<char>)
    ensures
        idset(set_int_sp(n, id, v, editor)).subset_of(idset(n)),
        uniq(n) ==> uniq(set_int_sp(n, id, v, editor)),
    decreases n,
{
    if n.id != id {
        match n.val {
            SpecVal::Int(_) => {}
            SpecVal::List(cs) => {
                lemma_set_int_list_preserves(cs, id, v, editor);
            }
        }
    }
}

pub proof fn lemma_set_int_list_preserves(cs: Seq<SpecNode>, id: Seq<char>, v: i64, editor: Seq<char>)
    ensures
        idset_all(set_int_list(cs, id, v, editor)).subset_of(idset_all(cs)),
        uniq_all(cs) ==> uniq_all(set_int_list(cs, id, v, editor)),
    decreases cs,
{
    if cs.len() > 0 {
        if contains_id(cs[0], id) {
            lemma_set_int_preserves(cs[0], id, v, editor);
            lemma_idset_all_cons(set_int_sp(cs[0], id, v, editor), cs.drop_first());
            lemma_uniq_all_cons(set_int_sp(cs[0], id, v, editor), cs.drop_first());
            assert(seq![set_int_sp(cs[0], id, v, editor)] + cs.drop_first() == set_int_list(
                cs,
                id,
                v,
                editor,
            ));
        } else {
            lemma_set_int_list_preserves(cs.drop_first(), id, v, editor);
            lemma_idset_all_cons(cs[0], set_int_list(cs.drop_first(), id, v, editor));
            lemma_uniq_all_cons(cs[0], set_int_list(cs.drop_first(), id, v, editor));
        }
    }
}

/// `Delete` only removes identifiers and keeps uniqueness.
pub proof fn lemma_delete_preserves(n: SpecNode, id: Seq<char>)
    ensures
        idset(delete_sp(n, id)).subset_of(idset(n)),
        uniq(n) ==> uniq(delete_sp(n, id)),
    decreases n,
{
    match n.val {
        SpecVal::Int(_) => {}
        SpecVal::List(cs) => {
            if child_with_id(cs, id) {
                lemma_remove_id_preserves(cs, id);
            } else {
                lemma_delete_list_preserves(cs, id);
            }
        }
    }
}

pub proof fn lemma_remove_id_preserves(cs: Seq<SpecNode>, id: Seq<char>)
    ensures
        idset_all(remove_id(cs, id)).subset_of(idset_all(cs)),
        uniq_all(cs) ==> uniq_all(remove_id(cs, id)),
    decreases cs,
{
    if cs.len() > 0 {
        lemma_remove_id_preserves(cs.drop_first(), id);
        if cs[0].id != id {
            lemma_idset_all_cons(cs[0], remove_id(cs.drop_first(), id));
            lemma_uniq_all_cons(cs[0], remove_id(cs.drop_first(), id));
        }
    }
}

pub proof fn lemma_delete_list_preserves(cs: Seq<SpecNode>, id: Seq<char>)
    ensures
        idset_all(delete_list(cs, id)).subset_of(idset_all(cs)),
        uniq_all(cs) ==> uniq_all(delete_list(cs, id)),
    decreases cs,
{
    if cs.len() > 0 {
        if has_parent(cs[0], id) {
            lemma_delete_preserves(cs[0], id);
            lemma_idset_all_cons(delete_sp(cs[0], id), cs.drop_first());
            lemma_uniq_all_cons(delete_sp(cs[0], id), cs.drop_first());
            assert(seq![delete_sp(cs[0], id)] + cs.drop_first() == delete_list(cs, id));
        } else {
            lemma_delete_list_preserves(cs.drop_first(), id);
            lemma_idset_all_cons(cs[0], delete_list(cs.drop_first(), id));
            lemma_uniq_all_cons(cs[0], delete_list(cs.drop_first(), id));
        }
    }
}

/// Inserting among siblings adds exactly the new subtree's identifiers, and
/// keeps uniqueness when those are fresh.
pub proof fn lemma_idset_all_insert(cs: Seq<SpecNode>, idx: int, new: SpecNode)
    requires
        0 <= idx <= cs.len(),
    ensures
        idset_all(cs.insert(idx, new)) == idset_all(cs).union(idset(new)),
    decreases idx,
{
    if idx == 0 {
        assert(cs.insert(0, new) =~= seq![new] + cs);
        lemma_idset_all_cons(new, cs);
        assert(idset(new).union(idset_all(cs)) =~= idset_all(cs).union(idset(new)));
    } else {
        lemma_idset_all_insert(cs.drop_first(), idx - 1, new);
        assert(cs.insert(idx, new) =~= seq![cs[0]] + cs.drop_first().insert(idx - 1, new));
        lemma_idset_all_cons(cs[0], cs.drop_first().insert(idx - 1, new));
        lemma_idset_all_cons(cs[0], cs.drop_first());
        assert(idset(cs[0]).union(idset_all(cs.drop_first()).union(idset(new))) =~= idset_all(
            cs,
        ).union(idset(new)));
    }
}

pub proof fn lemma_uniq_all_insert(cs: Seq<SpecNode>, idx: int, new: SpecNode)
    requires
        0 <= idx <= cs.len(),
        uniq_all(cs),
        uniq(new),
        idset(new).disjoint(idset_all(cs)),
    ensures
        uniq_all(cs.insert(idx, new)),
    decreases idx,
{
    if idx == 0 {
        assert(cs.insert(0, new) =~= seq![new] + cs);
        lemma_uniq_all_cons(new, cs);
    } else {
        lemma_idset_all_cons(cs[0], cs.drop_first());
        lemma_uniq_all_insert(cs.drop_first(), idx - 1, new);
        lemma_idset_all_insert(cs.drop_first(), idx - 1, new);
        assert(cs.insert(idx, new) =~= seq![cs[0]] + cs.drop_first().insert(idx - 1, new));
        lemma_uniq_all_cons(cs[0], cs.drop_first().insert(idx - 1, new));
    }
}

/// `InsertAtIndex` adds at most the inserted subtree's identifiers, and
/// keeps uniqueness when those are fresh.
pub proof fn lemma_insert_preserves(n: SpecNode, pid: Seq<char>, idx: int, new: SpecNode)
    requires
        is_list_at(n, pid) && 0 <= idx <= list_len_at(n, pid),
    ensures
        idset(insert_sp(n, pid, idx, new)).subset_of(idset(n).union(idset(new))),
        uniq(n) && uniq(new) && idset(n).disjoint(idset(new)) ==> uniq(insert_sp(n, pid, idx, new)),
    decreases n,
{
    if n.id == pid {
        match n.val {
            SpecVal::Int(_) => {}
            SpecVal::List(cs) => {
                lemma_idset_all_insert(cs, idx, new);
                if uniq(n) && uniq(new) && idset(n).disjoint(idset(new)) {
                    lemma_uniq_all_insert(cs, idx, new);
                }
            }
        }
    } else {
        match n.val {
            SpecVal::Int(_) => {}
            SpecVal::List(cs) => {
                lemma_insert_list_preserves(cs, pid, idx, new);
            }
        }
    }
}

pub proof fn lemma_insert_list_preserves(cs: Seq<SpecNode>, pid: Seq<char>, idx: int, new: SpecNode)
    requires
        lookup_all(cs, pid) matches Some(m) && m.val is List && 0 <= idx <= m.val->List_0.len(),
    ensures
        idset_all(insert_list(cs, pid, idx, new)).subset_of(idset_all(cs).union(idset(new))),
        uniq_all(cs) && uniq(new) && idset_all(cs).disjoint(idset(new)) ==> uniq_all(
            insert_list(cs, pid, idx, new),
        ),
    decreases cs,
{
    if cs.len() > 0 {
        if contains_id(cs[0], pid) {
            lemma_lookup_id(cs[0], pid);
            assert(is_list_at(cs[0], pid));
            lemma_insert_preserves(cs[0], pid, idx, new);
            lemma_idset_all_cons(insert_sp(cs[0], pid, idx, new), cs.drop_first());
            lemma_uniq_all_cons(insert_sp(cs[0], pid, idx, new), cs.drop_first());
            lemma_idset_all_cons(cs[0], cs.drop_first());
            assert(seq![insert_sp(cs[0], pid, idx, new)] + cs.drop_first() == insert_list(
                cs,
                pid,
                idx,
                new,
            ));
        } else {
            lemma_insert_list_preserves(cs.drop_first(), pid, idx, new);
            lemma_idset_all_cons(cs[0], insert_list(cs.drop_first(), pid, idx, new));
            lemma_uniq_all_cons(cs[0], insert_list(cs.drop_first(), pid, idx, new));
            lemma_idset_all_cons(cs[0], cs.drop_first());
        }
    }
}

/// `WrapInAdd` adds exactly the wrapper's identifier, and keeps uniqueness
/// when that identifier is fresh.
pub proof fn lemma_wrap_preserves(n: SpecNode, id: Seq<char>, wid: Seq<char>, editor: Seq<char>)
    ensures
        idset(wrap_sp(n, id, wid, editor)).subset_of(idset(n).union(set![wid])),
        uniq(n) && !idset(n).contains(wid) ==> uniq(wrap_sp(n, id, wid, editor)),
    decreases n,
{
    if n.id == id {
        let w = wrap_sp(n, id, wid, editor);
        let one = seq![n];
        assert(w.val->List_0 == one);
        assert(one.drop_first() =~= Seq::<SpecNode>::empty());
        assert(idset_all(one.drop_first()) =~= Set::<Seq<char>>::empty());
        assert(idset_all(one) =~= idset(n));
        assert(idset(w) =~= idset(n).union(set![wid]));
        if uniq(n) && !idset(n).contains(wid) {
            assert(uniq_all(one.drop_first()));
            assert(idset(one[0]).disjoint(idset_all(one.drop_first())));
            assert(uniq_all(one));
            assert(!idset_all(one).contains(w.id));
            assert(uniq(w));
        }
    } else {
        match n.val {
            SpecVal::Int(_) => {}
            SpecVal::List(cs) => {
                lemma_wrap_list_preserves(cs, id, wid, editor);
            }
        }
    }
}

pub proof fn lemma_wrap_list_preserves(cs: Seq<SpecNode>, id: Seq<char>, wid: Seq<char>, editor: Seq<char>)
    ensures
        idset_all(wrap_list(cs, id, wid, editor)).subset_of(idset_all(cs).union(set![wid])),
        uniq_all(cs) && !idset_all(cs).contains(wid) ==> uniq_all(wrap_list(cs, id, wid, editor)),
    decreases cs,
{
    if cs.len() > 0 {
        lemma_idset_all_cons(cs[0], cs.drop_first());
        if contains_id(cs[0], id) {
            lemma_wrap_preserves(cs[0], id, wid, editor);
            lemma_idset_all_cons(wrap_sp(cs[0], id, wid, editor), cs.drop_first());
            lemma_uniq_all_cons(wrap_sp(cs[0], id, wid, editor), cs.drop_first());
            assert(seq![wrap_sp(cs[0], id, wid, editor)] + cs.drop_first() == wrap_list(
                cs,
                id,
                wid,
                editor,
            ));
        } else {
            lemma_wrap_list_preserves(cs.drop_first(), id, wid, editor);
            lemma_idset_all_cons(cs[0], wrap_list(cs.drop_first(), id, wid, editor));
            lemma_uniq_all_cons(cs[0], wrap_list(cs.drop_first(), id, wid, editor));
        }
    }
}

/// The effect of one entry when failures are surfaced rather than applied:
/// a failed operation leaves the tree exactly as it was.
pub open spec fn step_sp(doc: Option<SpecNode>, e: EntryModel) -> Option<SpecNode> {
    match apply_sp(doc, e) {
        Ok(d) => d,
        Err(_) => doc,
    }
}

/// The left fold of `step_sp` over an ordered sequence of entries: the tree
/// a replica holds after replaying them all, in order.
pub open spec fn replay_sp(doc: Option<SpecNode>, es: Seq<EntryModel>) -> Option<SpecNode>
    decreases es.len(),
{
    if es.len() == 0 {
        doc
    } else {
        step_sp(replay_sp(doc, es.drop_last()), es.last())
    }
}

/// Whether every entry of the sequence applies cleanly, in order.
pub open spec fn replay_ok(doc: Option<SpecNode>, es: Seq<EntryModel>) -> bool
    decreases es.len(),
{
    es.len() == 0 || (replay_ok(doc, es.drop_last()) && apply_sp(
        replay_sp(doc, es.drop_last()),
        es.last(),
    ) is Ok)
}

/// Replays an ordered sequence of entries against the document.  Entries
/// whose precondition fails leave the tree untouched and are reported, so
/// the final tree is a function of the initial tree and the sequence alone.
pub fn replay_all(doc: &mut Option<AST>, entries: &Vec<ASTHistoryEntry>) -> (errors: Vec<
    ReplayError,
>)
    ensures
        doc_model(*final(doc)) == replay_sp(
            doc_model(*old(doc)),
            entries@.map_values(|e: ASTHistoryEntry| e.model()),
        ),
        errors@.len() == 0 <==> replay_ok(
            doc_model(*old(doc)),
            entries@.map_values(|e: ASTHistoryEntry| e.model()),
        ),
{
    let ghost es = entries@.map_values(|e: ASTHistoryEntry| e.model());
    let mut errors: Vec<ReplayError> = Vec::new();
    let mut i: usize = 0;
    while i < entries.len()
        invariant
            es == entries@.map_values(|e: ASTHistoryEntry| e.model()),
            es.len() == entries@.len(),
            i <= entries@.len(),
            doc_model(*doc) == replay_sp(doc_model(*old(doc)), es.take(i as int)),
            errors@.len() == 0 <==> replay_ok(doc_model(*old(doc)), es.take(i as int)),
        decreases entries@.len() - i,
    {
        let r = apply_entry(doc, &entries[i]);
        proof {
            assert(es.take(i + 1).drop_last() =~= es.take(i as int));
            assert(es.take(i + 1).last() == es[i as int]);
        }
        match r {
            Ok(()) => {}
            Err(e) => {
                errors.push(e);
            }
        }
        i += 1;
    }
    proof {
        assert(es.take(entries@.len() as int) =~= es);
    }
    errors
}

/// Every node's identifier is among its own subtree's identifiers.
pub proof fn lemma_id_in_own_idset(n: SpecNode)
    ensures
        idset(n).contains(n.id),
{
    match n.val {
        SpecVal::Int(_) => {}
        SpecVal::List(_) => {}
    }
}

/// An identifier with a parent occurs in the tree.
pub proof fn lemma_has_parent_contains(n: SpecNode, id: Seq<char>)
    ensures
        has_parent(n, id) ==> contains_id(n, id),
    decreases n,
{
    if has_parent(n, id) {
        match n.val {
            SpecVal::Int(_) => {}
            SpecVal::List(cs) => {
                if has_direct_child(n, id) {
                    let j = choose|j: int| 0 <= j < cs.len() && cs[j].id == id;
                    lemma_id_in_own_idset(cs[j]);
                    lemma_idset_all_contains(cs, id);
                } else {
                    lemma_has_parent_all_contains(cs, id);
                    lemma_idset_all_contains(cs, id);
                }
            }
        }
    }
}

pub proof fn lemma_has_parent_all_contains(cs: Seq<SpecNode>, id: Seq<char>)
    ensures
        has_parent_all(cs, id) ==> exists|j: int|
            0 <= j < cs.len() && contains_id(#[trigger] cs[j], id),
    decreases cs,
{
    if has_parent_all(cs, id) {
        if has_parent(cs[0], id) {
            lemma_has_parent_contains(cs[0], id);
        } else {
            lemma_has_parent_all_contains(cs.drop_first(), id);
            let j = choose|j: int|
                0 <= j < cs.drop_first().len() && contains_id(#[trigger] cs.drop_first()[j], id);
            assert(contains_id(cs[j + 1], id));
        }
    }
}

/// Insertion does not rename any node: the rebuilt siblings carry the same
/// identifiers, in the same positions.
pub proof fn lemma_insert_list_ids(cs: Seq<SpecNode>, pid: Seq<char>, idx: int, new: SpecNode)
    ensures
        insert_list(cs, pid, idx, new).len() == cs.len(),
        forall|j: int|
            0 <= j < cs.len() ==> #[trigger] insert_list(cs, pid, idx, new)[j].id == cs[j].id,
    decreases cs,
{
    if cs.len() > 0 {
        if contains_id(cs[0], pid) {
            assert(insert_sp(cs[0], pid, idx, new).id == cs[0].id);
            assert forall|j: int|
                0 <= j < cs.len() implies #[trigger] insert_list(cs, pid, idx, new)[j].id
                == cs[j].id by {
                if j > 0 {
                    assert(insert_list(cs, pid, idx, new)[j] == cs.drop_first()[j - 1]);
                }
            }
        } else {
            lemma_insert_list_ids(cs.drop_first(), pid, idx, new);
            assert forall|j: int|
                0 <= j < cs.len() implies #[trigger] insert_list(cs, pid, idx, new)[j].id
                == cs[j].id by {
                if j > 0 {
                    assert(insert_list(cs, pid, idx, new)[j] == insert_list(
                        cs.drop_first(),
                        pid,
                        idx,
                        new,
                    )[j - 1]);
                }
            }
        }
    }
}

/// After an insertion the inserted node has a parent: the list it was
/// inserted into.
pub proof fn lemma_insert_gives_parent(n: SpecNode, pid: Seq<char>, idx: int, new: SpecNode)
    requires
        is_list_at(n, pid),
        0 <= idx <= list_len_at(n, pid),
    ensures
        has_parent(insert_sp(n, pid, idx, new), new.id),
    decreases n,
{
    if n.id == pid {
        match n.val {
            SpecVal::Int(_) => {}
            SpecVal::List(cs) => {
                let cs2 = cs.insert(idx, new);
                assert(cs2[idx] == new);
                assert(has_direct_child(insert_sp(n, pid, idx, new), new.id));
            }
        }
    } else {
        match n.val {
            SpecVal::Int(_) => {}
            SpecVal::List(cs) => {
                lemma_insert_gives_parent_list(cs, pid, idx, new);
            }
        }
    }
}

pub proof fn lemma_insert_gives_parent_list(
    cs: Seq<SpecNode>,
    pid: Seq<char>,
    idx: int,
    new: SpecNode,
)
    requires
        lookup_all(cs, pid) matches Some(m) && m.val is List && 0 <= idx <= m.val->List_0.len(),
    ensures
        has_parent_all(insert_list(cs, pid, idx, new), new.id),
    decreases cs,
{
    if cs.len() > 0 {
        if contains_id(cs[0], pid) {
            lemma_lookup_id(cs[0], pid);
            assert(is_list_at(cs[0], pid));
            lemma_insert_gives_parent(cs[0], pid, idx, new);
            let r = seq![insert_sp(cs[0], pid, idx, new)] + cs.drop_first();
            assert(r[0] == insert_sp(cs[0], pid, idx, new));
            assert(has_parent_all(r, new.id));
        } else {
            lemma_insert_gives_parent_list(cs.drop_first(), pid, idx, new);
            let r = seq![cs[0]] + insert_list(cs.drop_first(), pid, idx, new);
            assert(r.drop_first() =~= insert_list(cs.drop_first(), pid, idx, new));
            assert(has_parent_all(r, new.id));
        }
    }
}

/// Removing an identifier no sibling carries changes nothing.
pub proof fn lemma_remove_id_noop(cs: Seq<SpecNode>, id: Seq<char>)
    requires
        forall|j: int| 0 <= j < cs.len() ==> (#[trigger] cs[j]).id != id,
    ensures
        remove_id(cs, id) == cs,
    decreases cs,
{
    if cs.len() > 0 {
        lemma_remove_id_noop(cs.drop_first(), id);
        assert(remove_id(cs, id) =~= cs);
    }
}

/// Removing a freshly inserted identifier restores the siblings exactly.
pub proof fn lemma_remove_id_insert(cs: Seq<SpecNode>, idx: int, new: SpecNode)
    requires
        0 <= idx <= cs.len(),
        forall|j: int| 0 <= j < cs.len() ==> (#[trigger] cs[j]).id != new.id,
    ensures
        remove_id(cs.insert(idx, new), new.id) == cs,
    decreases idx,
{
    if idx == 0 {
        assert(cs.insert(0, new) =~= seq![new] + cs);
        assert((seq![new] + cs).drop_first() =~= cs);
        lemma_remove_id_noop(cs, new.id);
    } else {
        lemma_remove_id_insert(cs.drop_first(), idx - 1, new);
        assert(cs.insert(idx, new) =~= seq![cs[0]] + cs.drop_first().insert(idx - 1, new));
        assert((seq![cs[0]] + cs.drop_first().insert(idx - 1, new)).drop_first()
            =~= cs.drop_first().insert(idx - 1, new));
        assert(remove_id(cs.insert(idx, new), new.id) =~= cs);
    }
}

/// Inserting a subtree with a fresh identifier and then deleting that
/// identifier restores the tree exactly.
pub proof fn lemma_insert_delete_node(n: SpecNode, pid: Seq<char>, idx: int, new: SpecNode)
    requires
        uniq(n),
        is_list_at(n, pid),
        0 <= idx <= list_len_at(n, pid),
        !contains_id(n, new.id),
    ensures
        delete_sp(insert_sp(n, pid, idx, new), new.id) == n,
    decreases n,
{
    if n.id == pid {
        match n.val {
            SpecVal::Int(_) => {}
            SpecVal::List(cs) => {
                let cs2 = cs.insert(idx, new);
                assert(cs2[idx] == new);
                assert(child_with_id(cs2, new.id));
                assert forall|j: int| 0 <= j < cs.len() implies (#[trigger] cs[j]).id
                    != new.id by {
                    lemma_id_in_own_idset(cs[j]);
                    lemma_idset_all_contains(cs, cs[j].id);
                }
                lemma_remove_id_insert(cs, idx, new);
                assert(delete_sp(insert_sp(n, pid, idx, new), new.id) == n);
            }
        }
    } else {
        match n.val {
            SpecVal::Int(_) => {}
            SpecVal::List(cs) => {
                let cs2 = insert_list(cs, pid, idx, new);
                lemma_insert_list_ids(cs, pid, idx, new);
                assert forall|j: int| 0 <= j < cs.len() implies (#[trigger] cs[j]).id
                    != new.id by {
                    lemma_id_in_own_idset(cs[j]);
                    lemma_idset_all_contains(cs, cs[j].id);
                }
                assert(!child_with_id(cs2, new.id));
                assert(decreases_to!(n => n.val));
                assert(decreases_to!(n.val => n.val->List_0));
                lemma_insert_delete_list(cs, pid, idx, new);
                assert(delete_sp(insert_sp(n, pid, idx, new), new.id) == n);
            }
        }
    }
}

pub proof fn lemma_insert_delete_list(cs: Seq<SpecNode>, pid: Seq<char>, idx: int, new: SpecNode)
    requires
        uniq_all(cs),
        lookup_all(cs, pid) matches Some(m) && m.val is List && 0 <= idx <= m.val->List_0.len(),
        !idset_all(cs).contains(new.id),
    ensures
        delete_list(insert_list(cs, pid, idx, new), new.id) == cs,
    decreases cs,
{
    if cs.len() > 0 {
        lemma_idset_all_contains(cs, new.id);
        if contains_id(cs[0], pid) {
            lemma_lookup_id(cs[0], pid);
            assert(is_list_at(cs[0], pid));
            lemma_insert_gives_parent(cs[0], pid, idx, new);
            lemma_insert_delete_node(cs[0], pid, idx, new);
            let r = seq![insert_sp(cs[0], pid, idx, new)] + cs.drop_first();
            assert(r[0] == insert_sp(cs[0], pid, idx, new));
            assert(has_parent(r[0], new.id));
            assert(r.drop_first() =~= cs.drop_first());
            assert(delete_list(r, new.id) =~= cs);
        } else {
            assert(!has_parent(cs[0], new.id)) by {
                lemma_has_parent_contains(cs[0], new.id);
            }
            lemma_insert_delete_list(cs.drop_first(), pid, idx, new);
            let r = seq![cs[0]] + insert_list(cs.drop_first(), pid, idx, new);
            assert(r[0] == cs[0]);
            assert(r.drop_first() =~= insert_list(cs.drop_first(), pid, idx, new));
            assert(delete_list(r, new.id) =~= cs);
        }
    }
}

/// Wrapping never removes an identifier: the whole old tree survives as
/// the wrapper's child.
pub proof fn lemma_wrap_idset_sup(n: SpecNode, id: Seq<char>, wid: Seq<char>, editor: Seq<char>)
    ensures
        idset(n).subset_of(idset(wrap_sp(n, id, wid, editor))),
    decreases n,
{
    if n.id == id {
        let w = wrap_sp(n, id, wid, editor);
        let one = seq![n];
        assert(w.val->List_0 == one);
        assert(one.drop_first() =~= Seq::<SpecNode>::empty());
        assert(idset_all(one.drop_first()) =~= Set::<Seq<char>>::empty());
        assert(idset_all(one) =~= idset(n));
        assert(idset(w) =~= idset(n).union(set![wid]));
    } else {
        match n.val {
            SpecVal::Int(_) => {}
            SpecVal::List(cs) => {
                lemma_wrap_list_idset_sup(cs, id, wid, editor);
            }
        }
    }
}

pub proof fn lemma_wrap_list_idset_sup(
    cs: Seq<SpecNode>,
    id: Seq<char>,
    wid: Seq<char>,
    editor: Seq<char>,
)
    ensures
        idset_all(cs).subset_of(idset_all(wrap_list(cs, id, wid, editor))),
    decreases cs,
{
    if cs.len() > 0 {
        lemma_idset_all_cons(cs[0], cs.drop_first());
        if contains_id(cs[0], id) {
            lemma_wrap_idset_sup(cs[0], id, wid, editor);
            lemma_idset_all_cons(wrap_sp(cs[0], id, wid, editor), cs.drop_first());
            assert(seq![wrap_sp(cs[0], id, wid, editor)] + cs.drop_first() == wrap_list(
                cs,
                id,
                wid,
                editor,
            ));
        } else {
            lemma_wrap_list_idset_sup(cs.drop_first(), id, wid, editor);
            lemma_idset_all_cons(cs[0], wrap_list(cs.drop_first(), id, wid, editor));
        }
    }
}

} // verus!
