//! The shape of the syntax tree that the grammar collaborator produces.
//!
//! Tokenizing and parsing the input text is an injected capability: the
//! conversion receives the collaborator's outcome — a tree of these nodes
//! for well-formed input, or the collaborator's diagnostic text — and is
//! verified over every outcome the collaborator can hand back.

use vstd::prelude::*;

verus! {

/// Mathematical shape of a `ValueNode`.
pub enum SpecNode {
    StrTok(Seq<char>),
    NumberTok(Seq<char>),
    ObjectNode(Seq<SpecPair>),
    ArrayNode(Seq<SpecNode>),
    BoolTok(Seq<char>),
    NullTok,
    OtherNode(Seq<char>),
}

/// Mathematical shape of a `PairNode`.
pub struct SpecPair {
    pub id: Option<Seq<char>>,
    pub value: Option<SpecNode>,
}

/// Mathematical shape of a `CallNode`.
pub struct SpecCall {
    pub id: Option<Seq<char>>,
    pub arguments: Option<Seq<SpecPair>>,
}

/// One value node of the syntax tree. Token variants carry the token's
/// raw source text; `OtherNode` carries the raw text of a node whose
/// shape the value model does not recognize.
#[derive(Debug, PartialEq, Eq)]
pub enum ValueNode {
    StrTok(String),
    NumberTok(String),
    ObjectNode(ObjectNode),
    ArrayNode(ArrayNode),
    BoolTok(String),
    NullTok,
    OtherNode(String),
}

/// One key/value pair node. The grammar may hand back a pair missing
/// its identifier token or its value node; both are kept as `Option`.
#[derive(Debug, PartialEq, Eq)]
pub struct PairNode {
    pub id: Option<String>,
    pub value: Option<ValueNode>,
}

/// An object node: its pair children in source order.
#[derive(Debug, PartialEq, Eq)]
pub struct ObjectNode {
    pub pairs: Vec<PairNode>,
}

/// An array node: its value children in source order.
#[derive(Debug, PartialEq, Eq)]
pub struct ArrayNode {
    pub values: Vec<ValueNode>,
}

/// One function-call node: an optional identifier token and an optional
/// argument object.
#[derive(Debug, PartialEq, Eq)]
pub struct CallNode {
    pub id: Option<String>,
    pub arguments: Option<ObjectNode>,
}

/// The start node: every function-call node of the tree, in the order a
/// top-down walk meets them.
#[derive(Debug, PartialEq, Eq)]
pub struct StartNode {
    pub calls: Vec<CallNode>,
}

/// What the grammar collaborator hands back for a non-empty input:
/// a syntax tree, or the diagnostic text of the first syntax error
/// (it bails on the first error, with no recovery).
#[derive(Debug, PartialEq, Eq)]
pub enum ParseOutcome {
    Tree(StartNode),
    Failure(String),
}

/// What the serialization collaborator hands back for a collected
/// `ToolCalls`: its transport bytes, or its diagnostic text.
#[derive(Debug, PartialEq, Eq)]
pub enum SerializeOutcome {
    Bytes(Vec<u8>),
    Failure(String),
}

/// Mathematical shape of a `ParseOutcome`.
pub enum SpecParseOutcome {
    Tree(Seq<SpecCall>),
    Failure(Seq<char>),
}

/// Mathematical shape of a `SerializeOutcome`.
pub enum SpecSerializeOutcome {
    Bytes(Seq<u8>),
    Failure(Seq<char>),
}

pub open spec fn pairs_view(ps: Seq<PairNode>) -> Seq<SpecPair>
    decreases ps,
{
    if ps.len() == 0 {
        Seq::empty()
    } else {
        pairs_view(ps.drop_last()).push(ps.last()@)
    }
}

pub open spec fn nodes_view(ns: Seq<ValueNode>) -> Seq<SpecNode>
    decreases ns,
{
    if ns.len() == 0 {
        Seq::empty()
    } else {
        nodes_view(ns.drop_last()).push(ns.last()@)
    }
}

pub open spec fn calls_view(cs: Seq<CallNode>) -> Seq<SpecCall>
    decreases cs,
{
    if cs.len() == 0 {
        Seq::empty()
    } else {
        calls_view(cs.drop_last()).push(cs.last()@)
    }
}

impl View for ValueNode {
    type V = SpecNode;

    open spec fn view(&self) -> SpecNode
        decreases self,
    {
        match self {
            ValueNode::StrTok(t) => SpecNode::StrTok(t@),
            ValueNode::NumberTok(t) => SpecNode::NumberTok(t@),
            ValueNode::ObjectNode(o) => SpecNode::ObjectNode(pairs_view(o.pairs@)),
            ValueNode::ArrayNode(a) => SpecNode::ArrayNode(nodes_view(a.values@)),
            ValueNode::BoolTok(t) => SpecNode::BoolTok(t@),
            ValueNode::NullTok => SpecNode::NullTok,
            ValueNode::OtherNode(t) => SpecNode::OtherNode(t@),
        }
    }
}

impl View for PairNode {
    type V = SpecPair;

    open spec fn view(&self) -> SpecPair
        decreases self,
    {
        SpecPair {
            id: match &self.id {
                Some(k) => Some(k@),
                None => None,
            },
            value: match &self.value {
                Some(v) => Some(v@),
                None => None,
            },
        }
    }
}

impl View for ObjectNode {
    type V = Seq<SpecPair>;

    open spec fn view(&self) -> Seq<SpecPair> {
        pairs_view(self.pairs@)
    }
}

impl View for ArrayNode {
    type V = Seq<SpecNode>;

    open spec fn view(&self) -> Seq<SpecNode> {
        nodes_view(self.values@)
    }
}

impl View for CallNode {
    type V = SpecCall;

    open spec fn view(&self) -> SpecCall {
        SpecCall {
            id: match &self.id {
                Some(k) => Some(k@),
                None => None,
            },
            arguments: match &self.arguments {
                Some(o) => Some(pairs_view(o.pairs@)),
                None => None,
            },
        }
    }
}

impl View for StartNode {
    type V = Seq<SpecCall>;

    open spec fn view(&self) -> Seq<SpecCall> {
        calls_view(self.calls@)
    }
}

impl View for ParseOutcome {
    type V = SpecParseOutcome;

    open spec fn view(&self) -> SpecParseOutcome {
        match self {
            ParseOutcome::Tree(t) => SpecParseOutcome::Tree(calls_view(t.calls@)),
            ParseOutcome::Failure(m) => SpecParseOutcome::Failure(m@),
        }
    }
}

impl View for SerializeOutcome {
    type V = SpecSerializeOutcome;

    open spec fn view(&self) -> SpecSerializeOutcome {
        match self {
            SerializeOutcome::Bytes(b) => SpecSerializeOutcome::Bytes(b@),
            SerializeOutcome::Failure(m) => SpecSerializeOutcome::Failure(m@),
        }
    }
}

pub proof fn lemma_pairs_view_index(ps: Seq<PairNode>)
    ensures
        pairs_view(ps).len() == ps.len(),
        forall|i: int| 0 <= i < ps.len() ==> pairs_view(ps)[i] == #[trigger] ps[i]@,
    decreases ps,
{
    if ps.len() > 0 {
        lemma_pairs_view_index(ps.drop_last());
        let prev = pairs_view(ps.drop_last());
        assert(ps.drop_last().len() == ps.len() - 1);
        assert(pairs_view(ps) == prev.push(ps.last()@));
        assert forall|i: int| 0 <= i < ps.len() implies pairs_view(ps)[i] == #[trigger] ps[i]@ by {
            assert(pairs_view(ps)[i] == prev.push(ps.last()@)[i]);
            if i < ps.len() - 1 {
                assert(prev.push(ps.last()@)[i] == prev[i]);
                assert(ps.drop_last()[i] == ps[i]);
            } else {
                assert(prev.push(ps.last()@)[i] == ps.last()@);
                assert(ps.last() == ps[i]);
            }
        }
    }
}

pub proof fn lemma_nodes_view_index(ns: Seq<ValueNode>)
    ensures
        nodes_view(ns).len() == ns.len(),
        forall|i: int| 0 <= i < ns.len() ==> nodes_view(ns)[i] == #[trigger] ns[i]@,
    decreases ns,
{
    if ns.len() > 0 {
        lemma_nodes_view_index(ns.drop_last());
        let prev = nodes_view(ns.drop_last());
        assert(ns.drop_last().len() == ns.len() - 1);
        assert(nodes_view(ns) == prev.push(ns.last()@));
        assert forall|i: int| 0 <= i < ns.len() implies nodes_view(ns)[i] == #[trigger] ns[i]@ by {
            assert(nodes_view(ns)[i] == prev.push(ns.last()@)[i]);
            if i < ns.len() - 1 {
                assert(prev.push(ns.last()@)[i] == prev[i]);
                assert(ns.drop_last()[i] == ns[i]);
            } else {
                assert(prev.push(ns.last()@)[i] == ns.last()@);
                assert(ns.last() == ns[i]);
            }
        }
    }
}

pub proof fn lemma_calls_view_index(cs: Seq<CallNode>)
    ensures
        calls_view(cs).len() == cs.len(),
        forall|i: int| 0 <= i < cs.len() ==> calls_view(cs)[i] == #[trigger] cs[i]@,
    decreases cs,
{
    if cs.len() > 0 {
        lemma_calls_view_index(cs.drop_last());
        let prev = calls_view(cs.drop_last());
        assert(cs.drop_last().len() == cs.len() - 1);
        assert(calls_view(cs) == prev.push(cs.last()@));
        assert forall|i: int| 0 <= i < cs.len() implies calls_view(cs)[i] == #[trigger] cs[i]@ by {
            assert(calls_view(cs)[i] == prev.push(cs.last()@)[i]);
            if i < cs.len() - 1 {
                assert(prev.push(cs.last()@)[i] == prev[i]);
                assert(cs.drop_last()[i] == cs[i]);
            } else {
                assert(prev.push(cs.last()@)[i] == cs.last()@);
                assert(cs.last() == cs[i]);
            }
        }
    }
}

} // verus!
