use vstd::prelude::*;

verus! {

/// Byte length of each declaration keyword: `.local`, `.input`, `.match`.
pub const KEYWORD_LEN: u32 = 6;

/// A half-open byte range `start..end` of the message text.
#[derive(Clone, Copy, Debug, PartialEq, Eq, Structural)]
pub struct Span {
    pub start: u32,
    pub end: u32,
}

impl Span {
    /// The range is ordered and ends inside a text of `len` bytes.
    pub open spec fn within(self, len: nat) -> bool {
        self.start <= self.end && self.end <= len
    }
}

/// The syntactic category of a node, with the spans of the parts of it that
/// a token covers.
#[derive(Clone, Copy, Debug, PartialEq, Eq, Structural)]
pub enum NodeKind {
    /// A number literal.
    Number,
    /// A quoted literal `|...|`.
    Quoted,
    /// An escape sequence in text.
    Escape,
    /// A variable reference `$name`.
    Variable,
    /// An unquoted literal.
    Literal,
    /// A function call `:ns:name ...`; its identifier ends at `id_end`.
    Function { id_end: u32 },
    /// An attribute `@key=value`; `key` is the span of its key.
    Attribute { key: Span },
    /// A markup element; `id` is the span of its identifier.
    Markup { id: Span },
    /// A `.local` declaration.
    LocalDeclaration,
    /// An `.input` declaration.
    InputDeclaration,
    /// A `.match` construct.
    Matcher,
    /// A placeholder expression, normally `{...}`.
    Expression,
    /// A quoted pattern, normally `{{...}}`.
    QuotedPattern,
    /// A node that only holds others: a message, a pattern, a run of text, an
    /// option, a variant, a key.
    Group,
}

/// A node of a parsed message: its kind, its byte span, and its children in
/// source order.
#[derive(Debug)]
pub struct Node {
    pub kind: NodeKind,
    pub span: Span,
    pub children: Vec<Node>,
}

/// The span that a keyword at the start of `span` covers.
pub open spec fn keyword_span(span: Span) -> Span {
    Span { start: span.start, end: (span.start + KEYWORD_LEN) as u32 }
}

/// Every span that a node's own token uses lies in a text of `len` bytes.
pub open spec fn kind_within(kind: NodeKind, span: Span, len: nat) -> bool {
    match kind {
        NodeKind::Function { id_end } => span.start <= id_end && id_end <= len,
        NodeKind::Attribute { key } => key.within(len),
        NodeKind::Markup { id } => id.within(len),
        NodeKind::LocalDeclaration | NodeKind::InputDeclaration | NodeKind::Matcher => span.start
            + KEYWORD_LEN <= len,
        _ => true,
    }
}

/// The node and all its descendants have spans inside a text of `len`
/// bytes.
pub open spec fn node_within(node: Node, len: nat) -> bool
    decreases node,
{
    &&& node.span.within(len)
    &&& kind_within(node.kind, node.span, len)
    &&& children_within(node.children@, len)
}

/// Each node of `nodes` is within a text of `len` bytes.
pub open spec fn children_within(nodes: Seq<Node>, len: nat) -> bool
    decreases nodes,
{
    if nodes.len() == 0 {
        true
    } else {
        children_within(nodes.drop_last(), len) && node_within(nodes.last(), len)
    }
}

fn span_within(span: Span, len: u32) -> (r: bool)
    ensures
        r == span.within(len as nat),
{
    span.start <= span.end && span.end <= len
}

fn kind_in_bounds(kind: NodeKind, span: Span, len: u32) -> (r: bool)
    ensures
        r == kind_within(kind, span, len as nat),
{
    match kind {
        NodeKind::Function { id_end } => span.start <= id_end && id_end <= len,
        NodeKind::Attribute { key } => span_within(key, len),
        NodeKind::Markup { id } => span_within(id, len),
        NodeKind::LocalDeclaration | NodeKind::InputDeclaration | NodeKind::Matcher => {
            span.start as u64 + KEYWORD_LEN as u64 <= len as u64
        },
        _ => true,
    }
}

impl Node {
    /// Whether this node and all its descendants have spans inside a text of
    /// `len` bytes, which highlighting needs.
    pub fn in_bounds(&self, len: u32) -> (r: bool)
        ensures
            r == node_within(*self, len as nat),
        decreases self,
    {
        span_within(self.span, len) && kind_in_bounds(self.kind, self.span, len)
            && all_in_bounds(&self.children, len)
    }
}

fn all_in_bounds(nodes: &Vec<Node>, len: u32) -> (r: bool)
    ensures
        r == children_within(nodes@, len as nat),
    decreases nodes,
{
    let mut i: usize = 0;
    while i < nodes.len()
        invariant
            i <= nodes@.len(),
            children_within(nodes@.take(i as int), len as nat),
        decreases nodes@.len() - i,
    {
        if !nodes[i].in_bounds(len) {
            proof {
                lemma_children_within_prefix(nodes@, i as int + 1, len as nat);
                assert(nodes@.take(i as int + 1).drop_last() == nodes@.take(i as int));
            }
            return false;
        }
        proof {
            assert(nodes@.take(i as int + 1).drop_last() == nodes@.take(i as int));
        }
        i = i + 1;
    }
    assert(nodes@.take(nodes@.len() as int) == nodes@);
    true
}

/// Every prefix of a sequence of nodes within bounds is within bounds, and so
/// is its last node.
pub proof fn lemma_children_within_prefix(nodes: Seq<Node>, k: int, len: nat)
    requires
        0 <= k <= nodes.len(),
    ensures
        children_within(nodes, len) ==> children_within(nodes.take(k), len),
        children_within(nodes, len) && k > 0 ==> node_within(nodes[k - 1], len),
    decreases nodes.len(),
{
    if nodes.len() > 0 && k < nodes.len() {
        lemma_children_within_prefix(nodes.drop_last(), k, len);
        assert(nodes.drop_last().take(k) == nodes.take(k));
    }
    if k == nodes.len() {
        assert(nodes.take(k) == nodes);
    }
}

} // verus!
