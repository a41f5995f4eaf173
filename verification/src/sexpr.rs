//! A small s-expression reader: a node is a parenthesised list of nodes or
//! a bare symbol, and each node remembers the source text it was read from.

use vstd::prelude::*;

verus! {

/// A parsed s-expression node, with the source text it covers.
pub struct Node {
    pub slice: String,
    pub inner: NodeInner,
}

/// A node is a list of nodes or a symbol.
pub enum NodeInner {
    List(Vec<Node>),
    Symbol(String),
}

/// The model of a parsed node.
pub struct NodeModel {
    pub slice: Seq<char>,
    pub inner: InnerModel,
}

/// The model of a node's shape.
pub enum InnerModel {
    List(Seq<NodeModel>),
    Symbol(Seq<char>),
}

impl Node {
    /// The model of this node.
    pub open spec fn model(self) -> NodeModel
        decreases self,
    {
        NodeModel {
            slice: self.slice@,
            inner: match self.inner {
                NodeInner::Symbol(s) => InnerModel::Symbol(s@),
                NodeInner::List(items) => InnerModel::List(node_models(items@)),
            },
        }
    }
}

/// The models of a sequence of nodes, in order.
pub open spec fn node_models(s: Seq<Node>) -> Seq<NodeModel>
    decreases s,
{
    if s.len() == 0 {
        Seq::empty()
    } else {
        seq![s[0].model()] + node_models(s.drop_first())
    }
}

pub proof fn lemma_node_models_push(s: Seq<Node>, x: Node)
    ensures
        node_models(s.push(x)) == node_models(s) + seq![x.model()],
    decreases s,
{
    if s.len() == 0 {
        assert(s.push(x).drop_first() =~= s);
        assert(node_models(s.push(x)) =~= node_models(s) + seq![x.model()]);
    } else {
        lemma_node_models_push(s.drop_first(), x);
        assert(s.push(x).drop_first() =~= s.drop_first().push(x));
        assert(node_models(s.push(x)) =~= node_models(s) + seq![x.model()]);
    }
}

/// The whitespace the reader skips between tokens.
pub open spec fn is_ws(c: char) -> bool {
    c == ' ' || c == '\t' || c == '\n' || c == '\r' || c == '\u{c}'
}

/// The first position at or after `pos` that does not hold whitespace.
pub open spec fn skip_ws(s: Seq<char>, pos: int) -> int
    decreases s.len() - pos,
{
    if 0 <= pos < s.len() && is_ws(s[pos]) {
        skip_ws(s, pos + 1)
    } else {
        pos
    }
}

pub proof fn lemma_skip_ws_bounds(s: Seq<char>, pos: int)
    requires
        0 <= pos <= s.len(),
    ensures
        pos <= skip_ws(s, pos) <= s.len(),
    decreases s.len() - pos,
{
    if pos < s.len() && is_ws(s[pos]) {
        lemma_skip_ws_bounds(s, pos + 1);
    }
}

/// The end of the symbol starting at `pos`: the first position holding
/// whitespace or a closing parenthesis.
pub open spec fn sym_end(s: Seq<char>, pos: int) -> int
    decreases s.len() - pos,
{
    if 0 <= pos < s.len() && !is_ws(s[pos]) && s[pos] != ')' {
        sym_end(s, pos + 1)
    } else {
        pos
    }
}

pub proof fn lemma_sym_end_bounds(s: Seq<char>, pos: int)
    requires
        0 <= pos <= s.len(),
    ensures
        pos <= sym_end(s, pos) <= s.len(),
    decreases s.len() - pos,
{
    if pos < s.len() && !is_ws(s[pos]) && s[pos] != ')' {
        lemma_sym_end_bounds(s, pos + 1);
    }
}

/// Reads one node starting at `pos`: leading whitespace, then either a
/// parenthesised list or a non-empty symbol; the new position and the node,
/// or nothing when the text is exhausted, a list is never closed, or a
/// symbol would be empty.
pub open spec fn parse_at(s: Seq<char>, pos: int) -> Option<(int, NodeModel)>
    decreases s.len() - pos, 0int,
    when 0 <= pos <= s.len()
{
    let p = skip_ws(s, pos);
    proof {
        lemma_skip_ws_bounds(s, pos);
    }
    if p >= s.len() {
        None
    } else if s[p] == '(' {
        match parse_list_at(s, p + 1) {
            Option::Some(r) => Some(
                (r.0, NodeModel { slice: s.subrange(p, r.0), inner: InnerModel::List(r.1) }),
            ),
            Option::None => None,
        }
    } else {
        let e = sym_end(s, p);
        proof {
            lemma_sym_end_bounds(s, p);
        }
        if e == p {
            None
        } else {
            Some((e, NodeModel { slice: s.subrange(p, e), inner: InnerModel::Symbol(s.subrange(p, e)) }))
        }
    }
}

/// Reads list elements from `pos` up to and past the closing parenthesis.
pub open spec fn parse_list_at(s: Seq<char>, pos: int) -> Option<(int, Seq<NodeModel>)>
    decreases s.len() - pos, 1int,
    when 0 <= pos <= s.len()
{
    let q = skip_ws(s, pos);
    proof {
        lemma_skip_ws_bounds(s, pos);
    }
    if q >= s.len() {
        None
    } else if s[q] == ')' {
        Some((q + 1, Seq::empty()))
    } else {
        match parse_at(s, q) {
            Option::Some(r) => {
                if q < r.0 <= s.len() {
                    match parse_list_at(s, r.0) {
                        Option::Some(r2) => Some((r2.0, seq![r.1] + r2.1)),
                        Option::None => None,
                    }
                } else {
                    None
                }
            }
            Option::None => None,
        }
    }
}

/// A successful read always makes progress and stays inside the text.
pub proof fn lemma_parse_at_progress(s: Seq<char>, pos: int)
    requires
        0 <= pos <= s.len(),
    ensures
        parse_at(s, pos) matches Some(r) ==> pos < r.0 <= s.len(),
        parse_list_at(s, pos) matches Some(r) ==> pos < r.0 <= s.len(),
    decreases s.len() - pos,
{
    lemma_skip_ws_bounds(s, pos);
    let p = skip_ws(s, pos);
    if p < s.len() {
        if p + 1 <= s.len() {
            lemma_parse_at_progress(s, p + 1);
        }
        lemma_sym_end_bounds(s, p);
        match parse_at(s, p) {
            Option::Some(r) => {
                if p < r.0 && r.0 <= s.len() {
                    lemma_parse_at_progress(s, r.0);
                }
            }
            Option::None => {}
        }
    }
}

/// The nodes of a whole source text: nodes read one after another until
/// only whitespace remains.
pub open spec fn parse_top_at(s: Seq<char>, pos: int) -> Option<Seq<NodeModel>>
    decreases s.len() - pos,
    when 0 <= pos <= s.len()
{
    let p = skip_ws(s, pos);
    proof {
        lemma_skip_ws_bounds(s, pos);
    }
    if p >= s.len() {
        Some(Seq::empty())
    } else {
        match parse_at(s, pos) {
            Option::Some(r) => {
                proof {
                    lemma_parse_at_progress(s, pos);
                }
                if pos < r.0 <= s.len() {
                    match parse_top_at(s, r.0) {
                        Option::Some(rest) => Some(seq![r.1] + rest),
                        Option::None => None,
                    }
                } else {
                    None
                }
            }
            Option::None => None,
        }
    }
}

/// Skips whitespace from `pos` in `s`.
fn skip_ws_exec(s: &str, pos: usize) -> (r: usize)
    requires
        pos <= s@.len(),
    ensures
        r == skip_ws(s@, pos as int),
        pos <= r <= s@.len(),
    decreases s@.len() - pos,
{
    let n = s.unicode_len();
    if pos < n {
        let c = s.get_char(pos);
        if c == ' ' || c == '\t' || c == '\n' || c == '\r' || c == '\u{c}' {
            return skip_ws_exec(s, pos + 1);
        }
    }
    pos
}

/// Finds the end of the symbol starting at `pos`.
fn sym_end_exec(s: &str, pos: usize) -> (r: usize)
    requires
        pos <= s@.len(),
    ensures
        r == sym_end(s@, pos as int),
        pos <= r <= s@.len(),
    decreases s@.len() - pos,
{
    let n = s.unicode_len();
    if pos < n {
        let c = s.get_char(pos);
        if !(c == ' ' || c == '\t' || c == '\n' || c == '\r' || c == '\u{c}') && c != ')' {
            return sym_end_exec(s, pos + 1);
        }
    }
    pos
}

/// Reads one node starting at `pos`.
fn parse_node(s: &str, pos: usize) -> (r: Option<(usize, Node)>)
    requires
        pos <= s@.len(),
    ensures
        match r {
            Option::Some(p) => parse_at(s@, pos as int) matches Some(q) && q.0 == p.0 && q.1
                == p.1.model() && pos < p.0 <= s@.len(),
            Option::None => parse_at(s@, pos as int) is None,
        },
    decreases s@.len() - pos, 0int,
{
    let n = s.unicode_len();
    let p = skip_ws_exec(s, pos);
    if p >= n {
        return None;
    }
    let c = s.get_char(p);
    if c == '(' {
        proof {
            lemma_parse_at_progress(s@, p + 1);
        }
        match parse_list(s, p + 1) {
            Option::Some((pend, items)) => {
                let slice = s.substring_char(p, pend).to_owned();
                let node = Node { slice, inner: NodeInner::List(items) };
                proof {
                    assert(node.model().slice =~= s@.subrange(p as int, pend as int));
                }
                Some((pend, node))
            }
            Option::None => None,
        }
    } else {
        let e = sym_end_exec(s, p);
        if e == p {
            return None;
        }
        let text = s.substring_char(p, e).to_owned();
        let slice = s.substring_char(p, e).to_owned();
        let node = Node { slice, inner: NodeInner::Symbol(text) };
        proof {
            assert(node.model().slice =~= s@.subrange(p as int, e as int));
        }
        Some((e, node))
    }
}

/// Reads list elements up to and past the closing parenthesis.
fn parse_list(s: &str, pos: usize) -> (r: Option<(usize, Vec<Node>)>)
    requires
        pos <= s@.len(),
    ensures
        match r {
            Option::Some(p) => parse_list_at(s@, pos as int) matches Some(q) && q.0 == p.0 && q.1
                == node_models(p.1@) && pos < p.0 <= s@.len(),
            Option::None => parse_list_at(s@, pos as int) is None,
        },
    decreases s@.len() - pos, 1int,
{
    let n = s.unicode_len();
    let q = skip_ws_exec(s, pos);
    if q >= n {
        return None;
    }
    let c = s.get_char(q);
    if c == ')' {
        let items: Vec<Node> = Vec::new();
        proof {
            assert(node_models(items@) =~= Seq::<NodeModel>::empty());
        }
        return Some((q + 1, items));
    }
    match parse_node(s, q) {
        Option::Some((q2, node)) => {
            proof {
                lemma_parse_at_progress(s@, q as int);
            }
            match parse_list(s, q2) {
                Option::Some((q3, rest)) => {
                    let mut items: Vec<Node> = Vec::new();
                    items.push(node);
                    let mut k: usize = 0;
                    let rn = rest.len();
                    let ghost node_m = items@[0].model();
                    while k < rn
                        invariant
                            rn == rest@.len(),
                            k <= rn,
                            items@.len() == k + 1,
                            items@[0].model() == node_m,
                            forall|j: int| 0 <= j < k ==> items@[j + 1].model() == rest@[
                                j
                            ].model(),
                        decreases rn - k,
                    {
                        items.push(rest[k].clone());
                        k += 1;
                    }
                    proof {
                        lemma_node_models_pointwise(items@.drop_first(), rest@);
                        assert(node_models(items@) =~= seq![node_m] + node_models(rest@));
                    }
                    Some((q3, items))
                }
                Option::None => None,
            }
        }
        Option::None => None,
    }
}

impl Clone for Node {
    /// A clone denotes the same node.
    fn clone(&self) -> (res: Self)
        ensures
            res.model() == self.model(),
        decreases *self,
    {
        let inner = match &self.inner {
            NodeInner::Symbol(t) => NodeInner::Symbol(t.clone()),
            NodeInner::List(items) => {
                let mut out: Vec<Node> = Vec::new();
                let mut i: usize = 0;
                while i < items.len()
                    invariant
                        self.inner is List,
                        *items == self.inner->List_0,
                        i <= items.len(),
                        out@.len() == i,
                        forall|j: int| 0 <= j < i ==> out@[j].model() == items@[j].model(),
                    decreases items.len() - i,
                {
                    proof {
                        assert(decreases_to!(*self => self.inner));
                        assert(decreases_to!(self.inner => self.inner->List_0));
                        assert(decreases_to!(*items => items@));
                        assert(decreases_to!(items@ => items@[i as int]));
                    }
                    out.push(items[i].clone());
                    i += 1;
                }
                proof {
                    lemma_node_models_pointwise(out@, items@);
                }
                NodeInner::List(out)
            }
        };
        Node { slice: self.slice.clone(), inner }
    }
}

/// Two node sequences with equal element models have equal model
/// sequences.
pub proof fn lemma_node_models_pointwise(a: Seq<Node>, b: Seq<Node>)
    requires
        a.len() == b.len(),
        forall|j: int| 0 <= j < a.len() ==> a[j].model() == b[j].model(),
    ensures
        node_models(a) == node_models(b),
    decreases a,
{
    if a.len() > 0 {
        lemma_node_models_pointwise(a.drop_first(), b.drop_first());
        assert(node_models(a) =~= node_models(b));
    }
}

/// Reads one node from the front of `input`: the unread remainder and the
/// node, or nothing when the text is exhausted or malformed (an unclosed
/// list, or an empty symbol where a node was expected).
pub fn parse(input: &str) -> (r: Option<(&str, Node)>)
    ensures
        match r {
            Option::Some(p) => parse_at(input@, 0) matches Some(q) && q.1 == p.1.model() && p.0@
                == input@.skip(q.0),
            Option::None => parse_at(input@, 0) is None,
        },
{
    match parse_node(input, 0) {
        Option::Some((pend, node)) => {
            let n = input.unicode_len();
            let rest = input.substring_char(pend, n);
            proof {
                assert(rest@ =~= input@.skip(parse_at(input@, 0)->Some_0.0));
            }
            Some((rest, node))
        }
        Option::None => None,
    }
}

/// Reads every node of `input`, ignoring surrounding whitespace; nothing
/// when some node is malformed.
pub fn parse_toplevel(input: &str) -> (r: Option<Vec<Node>>)
    ensures
        match r {
            Option::Some(v) => parse_top_at(input@, 0) == Some(node_models(v@)),
            Option::None => parse_top_at(input@, 0) is None,
        },
{
    let n = input.unicode_len();
    let mut elems: Vec<Node> = Vec::new();
    let mut pos: usize = 0;
    proof {
        assert(node_models(elems@) =~= Seq::<NodeModel>::empty());
    }
    loop
        invariant
            n == input@.len(),
            pos <= n,
            match parse_top_at(input@, pos as int) {
                Option::Some(rest) => parse_top_at(input@, 0) == Some(
                    node_models(elems@) + rest,
                ),
                Option::None => parse_top_at(input@, 0) is None,
            },
        decreases n - pos,
    {
        let p = skip_ws_exec(input, pos);
        if p >= n {
            proof {
                assert(parse_top_at(input@, pos as int) == Some(Seq::<NodeModel>::empty()));
                assert(node_models(elems@) + Seq::<NodeModel>::empty() =~= node_models(elems@));
            }
            return Some(elems);
        }
        match parse_node(input, pos) {
            Option::Some((pos2, node)) => {
                let ghost prev = elems@;
                proof {
                    lemma_node_models_push(prev, node);
                }
                elems.push(node);
                proof {
                    let r = parse_at(input@, pos as int)->Some_0;
                    assert(node_models(elems@) == node_models(prev) + seq![r.1]);
                    match parse_top_at(input@, pos2 as int) {
                        Option::Some(rest) => {
                            assert((node_models(prev) + seq![r.1]) + rest =~= node_models(prev) + (
                            seq![r.1] + rest));
                        }
                        Option::None => {}
                    }
                }
                pos = pos2;
            }
            Option::None => {
                return None;
            }
        }
    }
}

} // verus!
