//! The document model: a tree of nodes, each carrying a globally unique
//! identifier, the identifier of the peer that last edited it, and either an
//! integer leaf or an ordered list of child nodes.

use vstd::prelude::*;

verus! {

/// A node of the shared document tree.
pub struct AST {
    pub uuid: String,
    pub changed_by: String,
    pub value: ASTInner,
}

/// The payload of a node: an ordered list of children, or an integer leaf.
pub enum ASTInner {
    Add { items: Vec<AST> },
    Integer { value: i64 },
}

/// The mathematical model of a node: identifiers as character sequences,
/// children as a sequence of models.
pub struct SpecNode {
    pub id: Seq<char>,
    pub editor: Seq<char>,
    pub val: SpecVal,
}

/// The model of a node's payload.
pub enum SpecVal {
    Int(i64),
    List(Seq<SpecNode>),
}

impl AST {
    /// The model of this node.
    pub open spec fn model(self) -> SpecNode
        decreases self,
    {
        SpecNode {
            id: self.uuid@,
            editor: self.changed_by@,
            val: match self.value {
                ASTInner::Integer { value } => SpecVal::Int(value),
                ASTInner::Add { items } => SpecVal::List(models(items@)),
            },
        }
    }
}

/// The models of a sequence of nodes, in order.
pub open spec fn models(s: Seq<AST>) -> Seq<SpecNode>
    decreases s,
{
    if s.len() == 0 {
        Seq::empty()
    } else {
        seq![s[0].model()] + models(s.drop_first())
    }
}

pub proof fn lemma_models_len(s: Seq<AST>)
    ensures
        models(s).len() == s.len(),
    decreases s,
{
    if s.len() > 0 {
        lemma_models_len(s.drop_first());
    }
}

pub proof fn lemma_models_index(s: Seq<AST>, i: int)
    requires
        0 <= i < s.len(),
    ensures
        models(s).len() == s.len(),
        models(s)[i] == s[i].model(),
    decreases s,
{
    lemma_models_len(s);
    if i > 0 {
        lemma_models_index(s.drop_first(), i - 1);
    }
}

/// All identifiers occurring in the subtree rooted at `n`.
pub open spec fn idset(n: SpecNode) -> Set<Seq<char>>
    decreases n,
{
    match n.val {
        SpecVal::Int(_) => set![n.id],
        SpecVal::List(cs) => set![n.id].union(idset_all(cs)),
    }
}

/// All identifiers occurring in any subtree of `cs`.
pub open spec fn idset_all(cs: Seq<SpecNode>) -> Set<Seq<char>>
    decreases cs,
{
    if cs.len() == 0 {
        Set::empty()
    } else {
        idset(cs[0]).union(idset_all(cs.drop_first()))
    }
}

/// Whether the subtree rooted at `n` holds a node with identifier `id`.
pub open spec fn contains_id(n: SpecNode, id: Seq<char>) -> bool {
    idset(n).contains(id)
}

/// The identifier-uniqueness invariant: no identifier occurs twice anywhere
/// in the tree.
pub open spec fn uniq(n: SpecNode) -> bool
    decreases n,
{
    match n.val {
        SpecVal::Int(_) => true,
        SpecVal::List(cs) => !idset_all(cs).contains(n.id) && uniq_all(cs),
    }
}

/// Uniqueness across a sequence of sibling subtrees: each is internally
/// unique and no identifier is shared between two of them.
pub open spec fn uniq_all(cs: Seq<SpecNode>) -> bool
    decreases cs,
{
    cs.len() == 0 || {
        &&& uniq(cs[0])
        &&& idset(cs[0]).disjoint(idset_all(cs.drop_first()))
        &&& uniq_all(cs.drop_first())
    }
}

/// The first node with identifier `id` in a pre-order walk of `n`.
pub open spec fn lookup(n: SpecNode, id: Seq<char>) -> Option<SpecNode>
    decreases n,
{
    if n.id == id {
        Some(n)
    } else {
        match n.val {
            SpecVal::Int(_) => None,
            SpecVal::List(cs) => lookup_all(cs, id),
        }
    }
}

/// The first node with identifier `id` over the sibling subtrees `cs`,
/// walked left to right.
pub open spec fn lookup_all(cs: Seq<SpecNode>, id: Seq<char>) -> Option<SpecNode>
    decreases cs,
{
    if cs.len() == 0 {
        None
    } else if contains_id(cs[0], id) {
        lookup(cs[0], id)
    } else {
        lookup_all(cs.drop_first(), id)
    }
}

/// A lookup succeeds exactly on the identifiers the subtree holds.
pub proof fn lemma_lookup_some(n: SpecNode, id: Seq<char>)
    ensures
        lookup(n, id) is Some <==> contains_id(n, id),
    decreases n,
{
    if n.id != id {
        match n.val {
            SpecVal::Int(_) => {}
            SpecVal::List(cs) => {
                lemma_lookup_all_some(cs, id);
            }
        }
    }
}

pub proof fn lemma_lookup_all_some(cs: Seq<SpecNode>, id: Seq<char>)
    ensures
        lookup_all(cs, id) is Some <==> idset_all(cs).contains(id),
    decreases cs,
{
    if cs.len() > 0 {
        lemma_lookup_some(cs[0], id);
        lemma_lookup_all_some(cs.drop_first(), id);
    }
}

/// The node `lookup` finds carries the identifier that was looked up.
pub proof fn lemma_lookup_id(n: SpecNode, id: Seq<char>)
    requires
        lookup(n, id) is Some,
    ensures
        lookup(n, id)->Some_0.id == id,
    decreases n,
{
    if n.id != id {
        match n.val {
            SpecVal::Int(_) => {}
            SpecVal::List(cs) => {
                lemma_lookup_all_id(cs, id);
            }
        }
    }
}

pub proof fn lemma_lookup_all_id(cs: Seq<SpecNode>, id: Seq<char>)
    requires
        lookup_all(cs, id) is Some,
    ensures
        lookup_all(cs, id)->Some_0.id == id,
    decreases cs,
{
    if cs.len() > 0 {
        if contains_id(cs[0], id) {
            lemma_lookup_id(cs[0], id);
        } else {
            lemma_lookup_all_id(cs.drop_first(), id);
        }
    }
}

/// The node `lookup(n, id)` names, if any, is an integer leaf.
pub open spec fn is_int_at(n: SpecNode, id: Seq<char>) -> bool {
    lookup(n, id) matches Some(m) && m.val is Int
}

/// The node `lookup(n, id)` names, if any, is a list.
pub open spec fn is_list_at(n: SpecNode, id: Seq<char>) -> bool {
    lookup(n, id) matches Some(m) && m.val is List
}

/// The number of children of the list node `lookup(n, id)` names.
pub open spec fn list_len_at(n: SpecNode, id: Seq<char>) -> nat {
    lookup(n, id)->Some_0.val->List_0.len()
}

/// Whether some direct child of `n` has identifier `id`.
pub open spec fn has_direct_child(n: SpecNode, id: Seq<char>) -> bool {
    match n.val {
        SpecVal::Int(_) => false,
        SpecVal::List(cs) => exists|i: int| 0 <= i < cs.len() && cs[i].id == id,
    }
}

/// Whether the tree `n` holds a node with identifier `id` below some parent;
/// false when `id` is the root's identifier or missing altogether.
pub open spec fn has_parent(n: SpecNode, id: Seq<char>) -> bool
    decreases n,
{
    has_direct_child(n, id) || match n.val {
        SpecVal::Int(_) => false,
        SpecVal::List(cs) => has_parent_all(cs, id),
    }
}

pub open spec fn has_parent_all(cs: Seq<SpecNode>, id: Seq<char>) -> bool
    decreases cs,
{
    cs.len() > 0 && (has_parent(cs[0], id) || has_parent_all(cs.drop_first(), id))
}

/// Two sequences of nodes with equal element models have equal model
/// sequences.
pub proof fn lemma_models_ext(a: Seq<AST>, b: Seq<AST>)
    requires
        a.len() == b.len(),
        forall|i: int| 0 <= i < a.len() ==> a[i].model() == b[i].model(),
    ensures
        models(a) == models(b),
{
    lemma_models_len(a);
    lemma_models_len(b);
    assert forall|i: int| 0 <= i < models(a).len() implies models(a)[i] == models(b)[i] by {
        lemma_models_index(a, i);
        lemma_models_index(b, i);
    }
    assert(models(a) =~= models(b));
}

/// A sequence of nodes whose element models are `ms` pointwise has model
/// sequence `ms`.
pub proof fn lemma_models_pointwise(b: Seq<AST>, ms: Seq<SpecNode>)
    requires
        b.len() == ms.len(),
        forall|j: int| 0 <= j < b.len() ==> b[j].model() == ms[j],
    ensures
        models(b) == ms,
{
    lemma_models_len(b);
    assert forall|j: int| 0 <= j < ms.len() implies models(b)[j] == ms[j] by {
        lemma_models_index(b, j);
    }
    assert(models(b) =~= ms);
}

/// `models` distributes over appending one node.
pub proof fn lemma_models_push(s: Seq<AST>, x: AST)
    ensures
        models(s.push(x)) == models(s).push(x.model()),
{
    lemma_models_len(s);
    lemma_models_len(s.push(x));
    assert forall|j: int| 0 <= j < s.len() + 1 implies models(s.push(x))[j] == models(s).push(
        x.model(),
    )[j] by {
        lemma_models_index(s.push(x), j);
        if j < s.len() {
            lemma_models_index(s, j);
        }
    }
    assert(models(s.push(x)) =~= models(s).push(x.model()));
}

impl AST {
    /// Whether this tree holds a node with identifier `uuid`.
    pub fn contains_uuid(&self, uuid: &String) -> (r: bool)
        ensures
            r == contains_id(self.model(), uuid@),
        decreases *self,
    {
        let ghost m0 = self.model();
        if self.uuid == *uuid {
            true
        } else {
            match &self.value {
                ASTInner::Integer { .. } => false,
                ASTInner::Add { items } => {
                    let ghost cs0 = models(self.value->Add_items@);
                    proof {
                        lemma_models_len(items@);
                        lemma_idset_all_contains(cs0, uuid@);
                    }
                    let n = items.len();
                    let mut i: usize = 0;
                    while i < n
                        invariant
                            self.value is Add,
                            *items == self.value->Add_items,
                            cs0 == models(items@),
                            n == items@.len(),
                            cs0.len() == n,
                            i <= n,
                            forall|j: int| 0 <= j < i ==> !contains_id(cs0[j], uuid@),
                        decreases n - i,
                    {
                        proof {
                            lemma_models_index(items@, i as int);
                            assert(decreases_to!(*self => self.value));
                            assert(decreases_to!(self.value => self.value->Add_items));
                            assert(decreases_to!(*items => items@));
                            assert(decreases_to!(items@ => items@[i as int]));
                        }
                        if items[i].contains_uuid(uuid) {
                            proof {
                                lemma_idset_all_contains(cs0, uuid@);
                            }
                            return true;
                        }
                        i += 1;
                    }
                    proof {
                        lemma_idset_all_contains(cs0, uuid@);
                    }
                    false
                }
            }
        }
    }
}

/// A sequence of siblings holds an identifier exactly when one of them does.
pub proof fn lemma_idset_all_contains(cs: Seq<SpecNode>, id: Seq<char>)
    ensures
        idset_all(cs).contains(id) <==> exists|j: int|
            0 <= j < cs.len() && contains_id(cs[j], id),
    decreases cs,
{
    if cs.len() > 0 {
        lemma_idset_all_contains(cs.drop_first(), id);
        if idset_all(cs.drop_first()).contains(id) {
            let j = choose|j: int|
                0 <= j < cs.drop_first().len() && contains_id(cs.drop_first()[j], id);
            assert(contains_id(cs[j + 1], id));
        }
        if exists|j: int| 0 <= j < cs.len() && contains_id(cs[j], id) {
            let j = choose|j: int| 0 <= j < cs.len() && contains_id(cs[j], id);
            if j > 0 {
                assert(contains_id(cs.drop_first()[j - 1], id));
            }
        }
    }
}

impl Clone for AST {
    /// A clone denotes the same tree: its model is the model of the original.
    fn clone(&self) -> (res: Self)
        ensures
            res.model() == self.model(),
        decreases *self,
    {
        let value = match &self.value {
            ASTInner::Integer { value } => ASTInner::Integer { value: *value },
            ASTInner::Add { items } => {
                let mut out: Vec<AST> = Vec::new();
                let mut i: usize = 0;
                while i < items.len()
                    invariant
                        self.value is Add,
                        *items == self.value->Add_items,
                        i <= items.len(),
                        out@.len() == i,
                        forall|j: int| 0 <= j < i ==> out@[j].model() == items@[j].model(),
                    decreases items.len() - i,
                {
                    proof {
                        assert(decreases_to!(*self => self.value));
                        assert(decreases_to!(self.value => self.value->Add_items));
                        assert(self.value->Add_items == *items);
                        assert(decreases_to!(*items => items@));
                        assert(decreases_to!(items@ => items@[i as int]));
                    }
                    out.push(items[i].clone());
                    i += 1;
                }
                proof {
                    lemma_models_ext(out@, items@);
                }
                ASTInner::Add { items: out }
            }
        };
        AST { uuid: self.uuid.clone(), changed_by: self.changed_by.clone(), value }
    }
}

/// The first node, in pre-order, that has a direct child with identifier
/// `id`: the parent through which `id` is deleted or its siblings found.
pub open spec fn parent_of(n: SpecNode, id: Seq<char>) -> Option<SpecNode>
    decreases n,
{
    if has_direct_child(n, id) {
        Some(n)
    } else {
        match n.val {
            SpecVal::Int(_) => None,
            SpecVal::List(cs) => parent_of_list(cs, id),
        }
    }
}

pub open spec fn parent_of_list(cs: Seq<SpecNode>, id: Seq<char>) -> Option<SpecNode>
    decreases cs,
{
    if cs.len() == 0 {
        None
    } else if has_parent(cs[0], id) {
        parent_of(cs[0], id)
    } else {
        parent_of_list(cs.drop_first(), id)
    }
}

/// A parent is found exactly when `id` has one.
pub proof fn lemma_parent_of_some(n: SpecNode, id: Seq<char>)
    ensures
        parent_of(n, id) is Some <==> has_parent(n, id),
        parent_of(n, id) matches Some(p) ==> p.val is List && has_direct_child(p, id),
    decreases n,
{
    if !has_direct_child(n, id) {
        match n.val {
            SpecVal::Int(_) => {}
            SpecVal::List(cs) => {
                lemma_parent_of_list_some(cs, id);
            }
        }
    } else {
        match n.val {
            SpecVal::Int(_) => {}
            SpecVal::List(_) => {}
        }
    }
}

pub proof fn lemma_parent_of_list_some(cs: Seq<SpecNode>, id: Seq<char>)
    ensures
        parent_of_list(cs, id) is Some <==> has_parent_all(cs, id),
        parent_of_list(cs, id) matches Some(p) ==> p.val is List && has_direct_child(p, id),
    decreases cs,
{
    if cs.len() > 0 {
        lemma_parent_of_some(cs[0], id);
        lemma_parent_of_list_some(cs.drop_first(), id);
    }
}

/// The identifiers of a sequence of nodes, in order.
pub open spec fn ids_of(cs: Seq<SpecNode>) -> Seq<Seq<char>> {
    cs.map_values(|c: SpecNode| c.id)
}

/// The position of the first element of `s` equal to `x`, or -1.
pub open spec fn index_of_first(s: Seq<Seq<char>>, x: Seq<char>) -> int
    decreases s,
{
    if s.len() == 0 {
        -1
    } else if s[0] == x {
        0
    } else {
        let r = index_of_first(s.drop_first(), x);
        if r < 0 {
            -1
        } else {
            r + 1
        }
    }
}

pub proof fn lemma_index_of_first(s: Seq<Seq<char>>, x: Seq<char>)
    ensures
        -1 <= index_of_first(s, x) < s.len(),
        index_of_first(s, x) >= 0 ==> s[index_of_first(s, x)] == x,
        index_of_first(s, x) >= 0 ==> forall|j: int| 0 <= j < index_of_first(s, x) ==> s[j] != x,
        index_of_first(s, x) == -1 ==> forall|j: int| 0 <= j < s.len() ==> s[j] != x,
    decreases s,
{
    if s.len() > 0 && s[0] != x {
        let rest = s.drop_first();
        lemma_index_of_first(rest, x);
        let r = index_of_first(rest, x);
        if r >= 0 {
            assert(s[r + 1] == rest[r]);
            assert forall|j: int| 0 <= j < r + 1 implies s[j] != x by {
                if j > 0 {
                    assert(rest[j - 1] == s[j]);
                }
            }
        } else {
            assert forall|j: int| 0 <= j < s.len() implies s[j] != x by {
                if j > 0 {
                    assert(rest[j - 1] == s[j]);
                }
            }
        }
    }
}

/// What a navigation command needs to know of one node: an integer leaf
/// with its value, or a list with its first child's identifier and its
/// width.
pub enum NodeView {
    IntLeaf { value: i64 },
    ListNode { first_child: Option<String>, len: usize },
}

/// The model of a node view.
pub open spec fn node_view_model(r: NodeView, m: SpecNode) -> bool {
    match m.val {
        SpecVal::Int(v) => r matches NodeView::IntLeaf { value } && value == v,
        SpecVal::List(cs) => {
            &&& r matches NodeView::ListNode { first_child, len }
            &&& len == cs.len()
            &&& (match r->ListNode_first_child {
                Option::Some(f) => cs.len() > 0 && f@ == cs[0].id,
                Option::None => cs.len() == 0,
            })
        }
    }
}

impl AST {
    /// What the first node with identifier `uuid` looks like, if the tree
    /// holds one.
    pub fn view_of(&self, uuid: &String) -> (r: Option<NodeView>)
        ensures
            r is Some <==> contains_id(self.model(), uuid@),
            r matches Some(v) ==> node_view_model(v, lookup(self.model(), uuid@)->Some_0),
        decreases *self,
    {
        let ghost m0 = self.model();
        if self.uuid == *uuid {
            match &self.value {
                ASTInner::Integer { value } => Some(NodeView::IntLeaf { value: *value }),
                ASTInner::Add { items } => {
                    proof {
                        lemma_models_len(items@);
                        if items@.len() > 0 {
                            lemma_models_index(items@, 0);
                        }
                    }
                    if items.len() > 0 {
                        Some(
                            NodeView::ListNode {
                                first_child: Some(items[0].uuid.clone()),
                                len: items.len(),
                            },
                        )
                    } else {
                        Some(NodeView::ListNode { first_child: None, len: items.len() })
                    }
                }
            }
        } else {
            match &self.value {
                ASTInner::Integer { .. } => None,
                ASTInner::Add { items } => {
                    let ghost cs0 = models(self.value->Add_items@);
                    proof {
                        lemma_models_len(items@);
                        lemma_idset_all_contains(cs0, uuid@);
                        lemma_lookup_all_some(cs0, uuid@);
                    }
                    let n = items.len();
                    let mut i: usize = 0;
                    while i < n
                        invariant
                            self.value is Add,
                            *items == self.value->Add_items,
                            m0 == self.model(),
                            m0.id != uuid@,
                            cs0 == models(items@),
                            n == items@.len(),
                            cs0.len() == n,
                            i <= n,
                            forall|j: int| 0 <= j < i ==> !contains_id(cs0[j], uuid@),
                        decreases n - i,
                    {
                        proof {
                            lemma_models_index(items@, i as int);
                            assert(decreases_to!(*self => self.value));
                            assert(decreases_to!(self.value => self.value->Add_items));
                            assert(decreases_to!(*items => items@));
                            assert(decreases_to!(items@ => items@[i as int]));
                        }
                        let r = items[i].view_of(uuid);
                        match r {
                            Some(v) => {
                                proof {
                                    lemma_lookup_all_skip(cs0, uuid@, i as int);
                                    assert(lookup_all(cs0.skip(i as int), uuid@) == lookup(
                                        cs0[i as int],
                                        uuid@,
                                    ));
                                    lemma_lookup_some(cs0[i as int], uuid@);
                                    lemma_idset_all_contains(cs0, uuid@);
                                }
                                return Some(v);
                            }
                            None => {
                                proof {
                                    lemma_lookup_some(cs0[i as int], uuid@);
                                }
                            }
                        }
                        i += 1;
                    }
                    None
                }
            }
        }
    }
}

/// Walking past siblings that do not hold `id` does not change what a
/// lookup finds.
pub proof fn lemma_lookup_all_skip(cs: Seq<SpecNode>, id: Seq<char>, i: int)
    requires
        0 <= i <= cs.len(),
        forall|j: int| 0 <= j < i ==> !contains_id(cs[j], id),
    ensures
        lookup_all(cs, id) == lookup_all(cs.skip(i), id),
    decreases i,
{
    if i == 0 {
        assert(cs.skip(0) =~= cs);
    } else {
        lemma_lookup_all_skip(cs.drop_first(), id, i - 1);
        assert(cs.drop_first().skip(i - 1) =~= cs.skip(i));
    }
}

pub proof fn lemma_parent_of_list_skip(cs: Seq<SpecNode>, id: Seq<char>, i: int)
    requires
        0 <= i <= cs.len(),
        forall|j: int| 0 <= j < i ==> !has_parent(cs[j], id),
    ensures
        parent_of_list(cs, id) == parent_of_list(cs.skip(i), id),
    decreases i,
{
    if i == 0 {
        assert(cs.skip(0) =~= cs);
    } else {
        lemma_parent_of_list_skip(cs.drop_first(), id, i - 1);
        assert(cs.drop_first().skip(i - 1) =~= cs.skip(i));
    }
}

impl AST {
    /// The identifiers of the children of the node `uuid` sits under, in
    /// order, with the position of `uuid`'s first occurrence among them;
    /// nothing when `uuid` is the root or missing.
    pub fn siblings_of(&self, uuid: &String) -> (r: Option<(String, Vec<String>, usize)>)
        ensures
            r is Some <==> has_parent(self.model(), uuid@),
            r matches Some(p) ==> ({
                let pn = parent_of(self.model(), uuid@)->Some_0;
                let ids = ids_of(pn.val->List_0);
                &&& p.0@ == pn.id
                &&& p.1@.map_values(|s: String| s@) == ids
                &&& (p.2 as int) < ids.len() && ids[p.2 as int] == uuid@
                &&& forall|j: int| 0 <= j < p.2 ==> ids[j] != uuid@
            }),
        decreases *self,
    {
        let ghost m0 = self.model();
        match &self.value {
            ASTInner::Integer { .. } => None,
            ASTInner::Add { items } => {
                let ghost cs0 = models(self.value->Add_items@);
                proof {
                    lemma_models_len(items@);
                }
                let n = items.len();
                let mut found: Option<usize> = None;
                let mut j: usize = 0;
                while j < n
                    invariant
                        self.value is Add,
                        *items == self.value->Add_items,
                        cs0 == models(items@),
                        n == items@.len(),
                        cs0.len() == n,
                        j <= n,
                        match found {
                            Option::Some(k) => {
                                &&& (k as int) < n
                                &&& cs0[k as int].id == uuid@
                                &&& forall|x: int| 0 <= x < k ==> cs0[x].id != uuid@
                            },
                            Option::None => forall|x: int| 0 <= x < j ==> cs0[x].id != uuid@,
                        },
                    decreases n - j,
                {
                    proof {
                        lemma_models_index(items@, j as int);
                    }
                    match found {
                        Option::Some(_) => {}
                        Option::None => {
                            if items[j].uuid == *uuid {
                                found = Some(j);
                            }
                        }
                    }
                    j += 1;
                }
                match found {
                    Some(k) => {
                        proof {
                            assert(has_direct_child(m0, uuid@));
                            assert(parent_of(m0, uuid@) == Some(m0));
                        }
                        let mut ids: Vec<String> = Vec::new();
                        let mut x: usize = 0;
                        proof {
                            assert(ids@.map_values(|s: String| s@) =~= ids_of(cs0).take(0));
                        }
                        while x < n
                            invariant
                                self.value is Add,
                                *items == self.value->Add_items,
                                cs0 == models(items@),
                                n == items@.len(),
                                cs0.len() == n,
                                x <= n,
                                ids@.map_values(|s: String| s@) == ids_of(cs0).take(x as int),
                            decreases n - x,
                        {
                            proof {
                                lemma_models_index(items@, x as int);
                            }
                            ids.push(items[x].uuid.clone());
                            proof {
                                assert(ids_of(cs0).take(x + 1) =~= ids_of(cs0).take(
                                    x as int,
                                ).push(cs0[x as int].id));
                                assert(ids@.map_values(|s: String| s@) =~= ids_of(cs0).take(
                                    x + 1,
                                ));
                            }
                            x += 1;
                        }
                        proof {
                            assert(ids_of(cs0).take(n as int) =~= ids_of(cs0));
                        }
                        Some((self.uuid.clone(), ids, k))
                    }
                    None => {
                        proof {
                            assert(!has_direct_child(m0, uuid@));
                        }
                        let mut i: usize = 0;
                        while i < n
                            invariant
                                self.value is Add,
                                *items == self.value->Add_items,
                                m0 == self.model(),
                                !has_direct_child(m0, uuid@),
                                cs0 == models(items@),
                                n == items@.len(),
                                cs0.len() == n,
                                i <= n,
                                forall|x: int| 0 <= x < i ==> !has_parent(cs0[x], uuid@),
                            decreases n - i,
                        {
                            proof {
                                lemma_models_index(items@, i as int);
                                assert(decreases_to!(*self => self.value));
                                assert(decreases_to!(self.value => self.value->Add_items));
                                assert(decreases_to!(*items => items@));
                                assert(decreases_to!(items@ => items@[i as int]));
                            }
                            let r = items[i].siblings_of(uuid);
                            match r {
                                Some(p) => {
                                    proof {
                                        lemma_parent_of_list_skip(cs0, uuid@, i as int);
                                        assert(parent_of_list(cs0.skip(i as int), uuid@)
                                            == parent_of(cs0[i as int], uuid@));
                                        lemma_has_parent_all_exists_t(cs0, uuid@);
                                    }
                                    return Some(p);
                                }
                                None => {}
                            }
                            i += 1;
                        }
                        proof {
                            lemma_has_parent_all_exists_t(cs0, uuid@);
                        }
                        None
                    }
                }
            }
        }
    }
}

/// A sequence of siblings gives `id` a parent exactly when one of them
/// does.
pub proof fn lemma_has_parent_all_exists_t(cs: Seq<SpecNode>, id: Seq<char>)
    ensures
        has_parent_all(cs, id) <==> exists|j: int| 0 <= j < cs.len() && has_parent(cs[j], id),
    decreases cs,
{
    if cs.len() > 0 {
        lemma_has_parent_all_exists_t(cs.drop_first(), id);
        if has_parent_all(cs.drop_first(), id) {
            let j = choose|j: int|
                0 <= j < cs.drop_first().len() && has_parent(cs.drop_first()[j], id);
            assert(has_parent(cs[j + 1], id));
        }
        if exists|j: int| 0 <= j < cs.len() && has_parent(cs[j], id) {
            let j = choose|j: int| 0 <= j < cs.len() && has_parent(cs[j], id);
            if j > 0 {
                assert(has_parent(cs.drop_first()[j - 1], id));
            }
        }
    }
}

impl AST {
    /// Whether this subtree and `other`'s share any identifier.
    pub fn shares_id(&self, other: &AST) -> (r: bool)
        ensures
            r == !idset(self.model()).disjoint(idset(other.model())),
        decreases *self,
    {
        let ghost sm = self.model();
        let ghost om = other.model();
        if other.contains_uuid(&self.uuid) {
            proof {
                assert(idset(sm).contains(sm.id));
                assert(!idset(sm).disjoint(idset(om)));
            }
            return true;
        }
        match &self.value {
            ASTInner::Integer { .. } => {
                proof {
                    assert(idset(sm) =~= set![sm.id]);
                    assert(idset(sm).disjoint(idset(om)));
                }
                false
            }
            ASTInner::Add { items } => {
                let ghost cs0 = models(self.value->Add_items@);
                proof {
                    lemma_models_len(items@);
                }
                let n = items.len();
                let mut i: usize = 0;
                while i < n
                    invariant
                        self.value is Add,
                        *items == self.value->Add_items,
                        sm == self.model(),
                        om == other.model(),
                        !idset(om).contains(sm.id),
                        cs0 == models(items@),
                        n == items@.len(),
                        cs0.len() == n,
                        i <= n,
                        forall|j: int|
                            0 <= j < i ==> idset(#[trigger] cs0[j]).disjoint(idset(om)),
                    decreases n - i,
                {
                    proof {
                        lemma_models_index(items@, i as int);
                        assert(decreases_to!(*self => self.value));
                        assert(decreases_to!(self.value => self.value->Add_items));
                        assert(decreases_to!(*items => items@));
                        assert(decreases_to!(items@ => items@[i as int]));
                    }
                    if items[i].shares_id(other) {
                        proof {
                            let x = choose|x: Seq<char>|
                                idset(cs0[i as int]).contains(x) && idset(om).contains(x);
                            lemma_idset_all_contains(cs0, x);
                            assert(idset(sm).contains(x));
                        }
                        return true;
                    }
                    i += 1;
                }
                proof {
                    assert forall|x: Seq<char>|
                        idset(sm).contains(x) implies !idset(om).contains(x) by {
                        if x != sm.id {
                            lemma_idset_all_contains(cs0, x);
                        }
                    }
                }
                false
            }
        }
    }

    /// The consistency self-check: whether no identifier occurs twice
    /// anywhere in this tree.
    pub fn validate(&self) -> (r: bool)
        ensures
            r == uniq(self.model()),
        decreases *self,
    {
        let ghost sm = self.model();
        match &self.value {
            ASTInner::Integer { .. } => true,
            ASTInner::Add { items } => {
                let ghost cs0 = models(self.value->Add_items@);
                proof {
                    lemma_models_len(items@);
                }
                let n = items.len();
                let mut i: usize = 0;
                while i < n
                    invariant
                        self.value is Add,
                        *items == self.value->Add_items,
                        sm == self.model(),
                        cs0 == models(items@),
                        n == items@.len(),
                        cs0.len() == n,
                        i <= n,
                        forall|j: int| 0 <= j < i ==> !contains_id(#[trigger] cs0[j], sm.id),
                    decreases n - i,
                {
                    proof {
                        lemma_models_index(items@, i as int);
                        assert(decreases_to!(*self => self.value));
                        assert(decreases_to!(self.value => self.value->Add_items));
                        assert(decreases_to!(*items => items@));
                        assert(decreases_to!(items@ => items@[i as int]));
                    }
                    if items[i].contains_uuid(&self.uuid) {
                        proof {
                            lemma_idset_all_contains(cs0, sm.id);
                            lemma_uniq_all_tail_not(cs0, sm.id, i as int);
                        }
                        return false;
                    }
                    i += 1;
                }
                proof {
                    lemma_idset_all_contains(cs0, sm.id);
                    assert(cs0.skip(0) =~= cs0);
                }
                let mut k: usize = 0;
                while k < n
                    invariant
                        self.value is Add,
                        *items == self.value->Add_items,
                        sm == self.model(),
                        cs0 == models(items@),
                        n == items@.len(),
                        cs0.len() == n,
                        k <= n,
                        !idset_all(cs0).contains(sm.id),
                        uniq_all(cs0.skip(k as int)) ==> uniq_all(cs0),
                    decreases n - k,
                {
                    proof {
                        lemma_models_index(items@, k as int);
                        assert(decreases_to!(*self => self.value));
                        assert(decreases_to!(self.value => self.value->Add_items));
                        assert(decreases_to!(*items => items@));
                        assert(decreases_to!(items@ => items@[k as int]));
                        assert(cs0.skip(k as int)[0] == cs0[k as int]);
                        assert(cs0.skip(k as int).drop_first() =~= cs0.skip(k + 1));
                    }
                    if !items[k].validate() {
                        proof {
                            lemma_uniq_all_head(cs0, k as int);
                        }
                        return false;
                    }
                    let mut j: usize = k + 1;
                    while j < n
                        invariant
                            self.value is Add,
                            *items == self.value->Add_items,
                            cs0 == models(items@),
                            n == items@.len(),
                            cs0.len() == n,
                            k < j <= n,
                            forall|x: int|
                                k < x < j ==> idset(cs0[k as int]).disjoint(
                                    idset(#[trigger] cs0[x]),
                                ),
                        decreases n - j,
                    {
                        proof {
                            lemma_models_index(items@, k as int);
                            lemma_models_index(items@, j as int);
                            assert(decreases_to!(*self => self.value));
                            assert(decreases_to!(self.value => self.value->Add_items));
                            assert(decreases_to!(*items => items@));
                            assert(decreases_to!(items@ => items@[k as int]));
                        }
                        if items[k].shares_id(&items[j]) {
                            proof {
                                lemma_uniq_all_pair(cs0, k as int, j as int);
                            }
                            return false;
                        }
                        j += 1;
                    }
                    proof {
                        assert forall|x: Seq<char>|
                            idset(cs0[k as int]).contains(x) implies !idset_all(
                            cs0.skip(k + 1),
                        ).contains(x) by {
                            lemma_idset_all_contains(cs0.skip(k + 1), x);
                            if idset_all(cs0.skip(k + 1)).contains(x) {
                                let y = choose|y: int|
                                    0 <= y < cs0.skip(k + 1).len() && contains_id(
                                        #[trigger] cs0.skip(k + 1)[y],
                                        x,
                                    );
                                assert(cs0.skip(k + 1)[y] == cs0[k + 1 + y]);
                            }
                        }
                        assert(idset(cs0[k as int]).disjoint(idset_all(cs0.skip(k + 1))));
                    }
                    k += 1;
                }
                proof {
                    assert(cs0.skip(n as int) =~= Seq::<SpecNode>::empty());
                }
                true
            }
        }
    }
}

/// Uniqueness over siblings fails when a later sibling holds the head's
/// identifier, when some member is itself not unique, or when two members
/// share an identifier.
pub proof fn lemma_uniq_all_head(cs: Seq<SpecNode>, k: int)
    requires
        0 <= k < cs.len(),
        !uniq(cs[k]),
    ensures
        !uniq_all(cs),
    decreases k,
{
    if cs.len() > 0 {
        if k == 0 {
        } else {
            lemma_uniq_all_head(cs.drop_first(), k - 1);
        }
    }
}

pub proof fn lemma_uniq_all_pair(cs: Seq<SpecNode>, k: int, j: int)
    requires
        0 <= k < j < cs.len(),
        !idset(cs[k]).disjoint(idset(cs[j])),
    ensures
        !uniq_all(cs),
    decreases k,
{
    if k == 0 {
        if uniq_all(cs) {
            let x = choose|x: Seq<char>| idset(cs[0]).contains(x) && idset(cs[j]).contains(x);
            lemma_idset_all_contains(cs.drop_first(), x);
            assert(cs.drop_first()[j - 1] == cs[j]);
            assert(idset_all(cs.drop_first()).contains(x));
            assert(false);
        }
    } else {
        lemma_uniq_all_pair(cs.drop_first(), k - 1, j - 1);
    }
}

pub proof fn lemma_uniq_all_tail_not(cs: Seq<SpecNode>, id: Seq<char>, i: int)
    requires
        0 <= i < cs.len(),
        contains_id(cs[i], id),
    ensures
        idset_all(cs).contains(id),
{
    lemma_idset_all_contains(cs, id);
}

/// Under uniqueness, distinct siblings' subtrees share no identifier.
pub proof fn lemma_uniq_all_pairwise(cs: Seq<SpecNode>, a: int, b: int)
    requires
        uniq_all(cs),
        0 <= a < b < cs.len(),
    ensures
        idset(cs[a]).disjoint(idset(cs[b])),
    decreases a,
{
    if a == 0 {
        lemma_idset_all_contains(cs.drop_first(), cs[b].id);
        assert forall|x: Seq<char>|
            idset(cs[0]).contains(x) implies !idset(cs[b]).contains(x) by {
            if idset(cs[b]).contains(x) {
                assert(cs.drop_first()[b - 1] == cs[b]);
                assert(idset_all(cs.drop_first()).contains(x)) by {
                    lemma_idset_all_contains(cs.drop_first(), x);
                }
            }
        }
    } else {
        lemma_uniq_all_pairwise(cs.drop_first(), a - 1, b - 1);
        assert(cs.drop_first()[a - 1] == cs[a]);
        assert(cs.drop_first()[b - 1] == cs[b]);
    }
}

/// The parent a pre-order search finds lives in the tree.
pub proof fn lemma_parent_id_in_idset(n: SpecNode, id: Seq<char>)
    ensures
        parent_of(n, id) matches Some(p) ==> idset(n).contains(p.id),
    decreases n,
{
    if !has_direct_child(n, id) {
        match n.val {
            SpecVal::Int(_) => {}
            SpecVal::List(cs) => {
                lemma_parent_id_in_idset_list(cs, id);
                match parent_of_list(cs, id) {
                    Option::Some(p) => {
                        lemma_idset_all_contains(cs, p.id);
                    }
                    Option::None => {}
                }
            }
        }
    }
}

pub proof fn lemma_parent_id_in_idset_list(cs: Seq<SpecNode>, id: Seq<char>)
    ensures
        parent_of_list(cs, id) matches Some(p) ==> exists|j: int|
            0 <= j < cs.len() && contains_id(#[trigger] cs[j], p.id),
    decreases cs,
{
    if cs.len() > 0 {
        if has_parent(cs[0], id) {
            lemma_parent_id_in_idset(cs[0], id);
        } else {
            lemma_parent_id_in_idset_list(cs.drop_first(), id);
            match parent_of_list(cs.drop_first(), id) {
                Option::Some(p) => {
                    let j = choose|j: int|
                        0 <= j < cs.drop_first().len() && contains_id(
                            #[trigger] cs.drop_first()[j],
                            p.id,
                        );
                    assert(contains_id(cs[j + 1], p.id));
                }
                Option::None => {}
            }
        }
    }
}

/// Under uniqueness, looking up the identifier of the parent a pre-order
/// search found gives back exactly that node.
pub proof fn lemma_parent_lookup_uniq(n: SpecNode, id: Seq<char>)
    requires
        uniq(n),
    ensures
        parent_of(n, id) matches Some(p) ==> lookup(n, p.id) == Some(p),
    decreases n,
{
    match parent_of(n, id) {
        Option::None => {}
        Option::Some(p) => {
            if has_direct_child(n, id) {
                assert(p == n);
                assert(lookup(n, n.id) == Some(n));
            } else {
                match n.val {
                    SpecVal::Int(_) => {}
                    SpecVal::List(cs) => {
                        lemma_parent_id_in_idset_list(cs, id);
                        let k = choose|j: int|
                            0 <= j < cs.len() && contains_id(#[trigger] cs[j], p.id);
                        assert(n.id != p.id) by {
                            lemma_idset_all_contains(cs, p.id);
                        }
                        lemma_parent_lookup_uniq_list(cs, id);
                    }
                }
            }
        }
    }
}

pub proof fn lemma_parent_lookup_uniq_list(cs: Seq<SpecNode>, id: Seq<char>)
    requires
        uniq_all(cs),
    ensures
        parent_of_list(cs, id) matches Some(p) ==> lookup_all(cs, p.id) == Some(p),
    decreases cs,
{
    if cs.len() > 0 {
        match parent_of_list(cs, id) {
            Option::None => {}
            Option::Some(p) => {
                if has_parent(cs[0], id) {
                    lemma_parent_lookup_uniq(cs[0], id);
                    lemma_parent_id_in_idset(cs[0], id);
                    assert(contains_id(cs[0], p.id));
                    assert(lookup_all(cs, p.id) == lookup(cs[0], p.id));
                } else {
                    lemma_parent_lookup_uniq_list(cs.drop_first(), id);
                    match parent_of_list(cs.drop_first(), id) {
                        Option::Some(_) => {
                            lemma_parent_id_in_idset_list(cs.drop_first(), id);
                            let k = choose|j: int|
                                0 <= j < cs.drop_first().len() && contains_id(
                                    #[trigger] cs.drop_first()[j],
                                    p.id,
                                );
                            assert(!contains_id(cs[0], p.id)) by {
                                assert(cs.drop_first()[k] == cs[k + 1]);
                                lemma_uniq_all_pairwise(cs, 0, k + 1);
                            }
                            assert(lookup_all(cs, p.id) == lookup_all(cs.drop_first(), p.id));
                        }
                        Option::None => {}
                    }
                }
            }
        }
    }
}

} // verus!
