//! The laws the replication engine obeys, stated over the models that the
//! engine's contracts use and proved once and for all.

use vstd::prelude::*;

use crate::history::{entry_hash, hash_input, EntryModel, OpModel};
use crate::replay::{
    apply_sp, lemma_delete_preserves, lemma_insert_delete_node, lemma_insert_gives_parent,
    lemma_insert_preserves, lemma_set_int_preserves, lemma_wrap_preserves, replay_sp, step_sp,
};
use crate::tree::{contains_id, idset, is_int_at, is_list_at, list_len_at, uniq, SpecNode};

verus! {

/// The identifier-uniqueness invariant of a replica's document: vacuous
/// until the tree exists.
pub open spec fn doc_uniq(doc: Option<SpecNode>) -> bool {
    doc matches Some(n) ==> uniq(n)
}

/// A well-formed operation against `doc`: whatever tree it carries is
/// internally unique, and every identifier it introduces is fresh.
pub open spec fn entry_well_formed(doc: Option<SpecNode>, e: EntryModel) -> bool {
    match e.op {
        OpModel::Initial { ast } => uniq(ast),
        OpModel::SetInteger { .. } => true,
        OpModel::InsertAtIndex { uuid, index, ast } => uniq(ast) && (doc matches Some(n)
            ==> idset(n).disjoint(idset(ast))),
        OpModel::WrapIntegerInAdd { uuid, wrapping_uuid } => (doc matches Some(n) ==> !idset(
            n,
        ).contains(wrapping_uuid)),
        OpModel::Delete { .. } => true,
    }
}

/// Law: applying a well-formed operation to a document that satisfies the
/// identifier-uniqueness invariant yields a document that satisfies it.
pub proof fn lemma_apply_preserves_uniqueness(doc: Option<SpecNode>, e: EntryModel)
    requires
        doc_uniq(doc),
        entry_well_formed(doc, e),
    ensures
        apply_sp(doc, e) matches Ok(d) ==> doc_uniq(d),
        doc_uniq(step_sp(doc, e)),
{
    if apply_sp(doc, e) is Ok {
        match e.op {
            OpModel::Initial { ast } => {}
            OpModel::SetInteger { uuid, value } => {
                match doc {
                    Option::Some(n) => {
                        lemma_set_int_preserves(n, uuid, value, e.peer);
                    }
                    Option::None => {}
                }
            }
            OpModel::InsertAtIndex { uuid, index, ast } => {
                match doc {
                    Option::Some(n) => {
                        lemma_insert_preserves(n, uuid, index, ast);
                    }
                    Option::None => {}
                }
            }
            OpModel::WrapIntegerInAdd { uuid, wrapping_uuid } => {
                match doc {
                    Option::Some(n) => {
                        lemma_wrap_preserves(n, uuid, wrapping_uuid, e.peer);
                    }
                    Option::None => {}
                }
            }
            OpModel::Delete { uuid } => {
                match doc {
                    Option::Some(n) => {
                        lemma_delete_preserves(n, uuid);
                    }
                    Option::None => {}
                }
            }
        }
    }
}

/// Every operation of the sequence is well formed against the tree it
/// meets when its turn comes.
pub open spec fn all_well_formed(doc: Option<SpecNode>, es: Seq<EntryModel>) -> bool
    decreases es.len(),
{
    es.len() == 0 || (all_well_formed(doc, es.drop_last()) && entry_well_formed(
        replay_sp(doc, es.drop_last()),
        es.last(),
    ))
}

/// Law: a replica that replays any sequence of well-formed operations keeps
/// the identifier-uniqueness invariant through the whole sequence.
pub proof fn lemma_replay_preserves_uniqueness(doc: Option<SpecNode>, es: Seq<EntryModel>)
    requires
        doc_uniq(doc),
        all_well_formed(doc, es),
    ensures
        doc_uniq(replay_sp(doc, es)),
    decreases es.len(),
{
    if es.len() > 0 {
        lemma_replay_preserves_uniqueness(doc, es.drop_last());
        lemma_apply_preserves_uniqueness(replay_sp(doc, es.drop_last()), es.last());
    }
}

/// Law: replay is a deterministic function of the starting tree and the
/// ordered entry sequence — two replicas that start from equal trees and
/// replay equal sequences end with equal trees.  `replay_all` pins every
/// executable replica to `replay_sp`, so this equality carries over to them.
pub proof fn lemma_replay_deterministic(
    d1: Option<SpecNode>,
    d2: Option<SpecNode>,
    es1: Seq<EntryModel>,
    es2: Seq<EntryModel>,
)
    requires
        d1 == d2,
        es1 == es2,
    ensures
        replay_sp(d1, es1) == replay_sp(d2, es2),
{
}

/// Law: an entry's content hash is a pure function of the entry — equal
/// entries present equal bytes to the digest and so carry equal hashes.
/// `ASTHistoryEntry::hash` is pinned to `entry_hash`, so two calls on one
/// unmodified entry return the same string.
pub proof fn lemma_hash_deterministic(e1: EntryModel, e2: EntryModel)
    requires
        e1 == e2,
    ensures
        hash_input(e1) == hash_input(e2),
        entry_hash(e1) == entry_hash(e2),
{
}

/// Law: inserting a subtree whose identifier is fresh and then deleting
/// that identifier restores the parent's children — and with them the whole
/// tree — exactly.
pub proof fn lemma_insert_then_delete_restores(
    doc: Option<SpecNode>,
    e_ins: EntryModel,
    e_del: EntryModel,
)
    requires
        doc matches Some(n) && uniq(n),
        e_ins.op matches OpModel::InsertAtIndex{ uuid, index, ast } && {
            let n = doc->0;
            &&& is_list_at(n, uuid)
            &&& 0 <= index <= list_len_at(n, uuid)
            &&& !contains_id(n, ast.id)
        },
        e_del.op matches OpModel::Delete{ uuid } && uuid == e_ins.op->InsertAtIndex_ast.id,
    ensures
        apply_sp(doc, e_ins) matches Ok(d1) && apply_sp(d1, e_del) == Ok::<
            Option<SpecNode>,
            crate::replay::ReplayErrorKind,
        >(doc),
{
    let n = doc->0;
    match e_ins.op {
        OpModel::InsertAtIndex { uuid, index, ast } => {
            lemma_insert_gives_parent(n, uuid, index, ast);
            lemma_insert_delete_node(n, uuid, index, ast);
        }
        _ => {}
    }
}

} // verus!
