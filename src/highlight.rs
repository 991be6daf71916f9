use vstd::prelude::*;
use vstd::string::StringSliceAdditionalSpecFns;
use crate::source::{SourceText, utf16_units, lemma_utf16_units_mono};
use crate::tree::{
    KEYWORD_LEN,
    Node,
    NodeKind,
    Span,
    keyword_span,
    node_within,
    kind_within,
    children_within,
    lemma_children_within_prefix,
};

verus! {

/// The symbolic class of a highlighted region. The three bracket labels are
/// not tied to any syntax: they are handed out by nesting depth.
#[derive(Clone, Copy, Debug, PartialEq, Eq, Structural)]
pub enum TokenLabel {
    Number,
    String,
    Escape,
    Variable,
    Function,
    Attribute,
    Tag,
    Keyword,
    Error,
    Brackets1,
    Brackets2,
    Brackets3,
}

/// A labelled region of the message, in UTF-16 code units from its start.
/// `diagnostic` holds a message for error tokens only.
#[derive(Debug)]
pub struct HighlightToken {
    pub start: u32,
    pub end: u32,
    pub label: TokenLabel,
    pub diagnostic: Option<String>,
}

/// A finding of the parser or of semantic analysis, at a byte span.
#[derive(Debug)]
pub struct Diagnostic {
    pub span: Span,
    pub message: String,
}

/// The bracket label of a construct at nesting depth `depth`.
pub open spec fn bracket_label(depth: nat) -> TokenLabel {
    if depth % 3 == 0 {
        TokenLabel::Brackets1
    } else if depth % 3 == 1 {
        TokenLabel::Brackets2
    } else {
        TokenLabel::Brackets3
    }
}

/// The text at `span` starts with `{` and ends with `}`.
pub open spec fn single_braced(src: Seq<u8>, span: Span) -> bool {
    &&& span.start + 2 <= span.end
    &&& src[span.start as int] == 0x7Bu8
    &&& src[span.end - 1] == 0x7Du8
}

/// The text at `span` starts with `{{` and ends with `}}`.
pub open spec fn double_braced(src: Seq<u8>, span: Span) -> bool {
    &&& span.start + 4 <= span.end
    &&& src[span.start as int] == 0x7Bu8
    &&& src[span.start + 1] == 0x7Bu8
    &&& src[span.end - 2] == 0x7Du8
    &&& src[span.end - 1] == 0x7Du8
}

/// The first `width` bytes of `span`.
pub open spec fn head_span(span: Span, width: u32) -> Span {
    Span { start: span.start, end: (span.start + width) as u32 }
}

/// The last `width` bytes of `span`.
pub open spec fn tail_span(span: Span, width: u32) -> Span {
    Span { start: (span.end - width) as u32, end: span.end }
}

/// The marks that a node of kind `kind` at `span` makes for itself, before
/// its children.
pub open spec fn own_marks(kind: NodeKind, span: Span) -> Seq<(Span, TokenLabel)> {
    match kind {
        NodeKind::Number => seq![(span, TokenLabel::Number)],
        NodeKind::Quoted => seq![(span, TokenLabel::String)],
        NodeKind::Escape => seq![(span, TokenLabel::Escape)],
        NodeKind::Variable => seq![(span, TokenLabel::Variable)],
        NodeKind::Literal => seq![(span, TokenLabel::String)],
        NodeKind::Function { id_end } => seq![
            (Span { start: span.start, end: id_end }, TokenLabel::Function),
        ],
        NodeKind::Attribute { key } => seq![(key, TokenLabel::Attribute)],
        NodeKind::Markup { id } => seq![(id, TokenLabel::Tag)],
        NodeKind::LocalDeclaration | NodeKind::InputDeclaration | NodeKind::Matcher => seq![
            (keyword_span(span), TokenLabel::Keyword),
        ],
        _ => seq![],
    }
}

/// Width of the braces that enclose a node of kind `kind`, 0 for a kind
/// that has none.
pub open spec fn brace_width(kind: NodeKind) -> u32 {
    match kind {
        NodeKind::Matcher | NodeKind::Expression => 1,
        NodeKind::QuotedPattern => 2,
        _ => 0,
    }
}

/// The text at `span` is enclosed in braces `width` bytes wide.
pub open spec fn braced(src: Seq<u8>, span: Span, width: u32) -> bool {
    ||| width == 1 && single_braced(src, span)
    ||| width == 2 && double_braced(src, span)
}

/// The labelled byte spans that a pre-order walk of `node` at bracket depth
/// `depth` marks, in the order in which it marks them. A braced node marks
/// its opening braces with the label of `depth`, its children one level
/// deeper, and its closing braces with the same label.
pub open spec fn node_marks(src: Seq<u8>, node: Node, depth: nat) -> Seq<(Span, TokenLabel)>
    decreases node, 0nat,
{
    let s = node.span;
    let width = brace_width(node.kind);
    own_marks(node.kind, s) + if braced(src, s, width) {
        seq![(head_span(s, width), bracket_label(depth))] + children_marks(
            src,
            node.children@,
            depth + 1,
        ) + seq![(tail_span(s, width), bracket_label(depth))]
    } else {
        children_marks(src, node.children@, depth)
    }
}

/// The marks of `nodes`, one node after the other.
pub open spec fn children_marks(src: Seq<u8>, nodes: Seq<Node>, depth: nat) -> Seq<
    (Span, TokenLabel),
>
    decreases nodes, 0nat,
{
    if nodes.len() == 0 {
        seq![]
    } else {
        children_marks(src, nodes.drop_last(), depth) + node_marks(src, nodes.last(), depth)
    }
}

/// The token for `span`: its ends in UTF-16 code units from the start of
/// the text.
pub open spec fn token_at(
    src: Seq<u8>,
    span: Span,
    label: TokenLabel,
    diagnostic: Option<String>,
) -> HighlightToken {
    HighlightToken {
        start: utf16_units(src, 0, span.start as int) as u32,
        end: utf16_units(src, 0, span.end as int) as u32,
        label,
        diagnostic,
    }
}

/// The tokens of a sequence of marks.
pub open spec fn mark_tokens(src: Seq<u8>, marks: Seq<(Span, TokenLabel)>) -> Seq<HighlightToken> {
    marks.map_values(|m: (Span, TokenLabel)| token_at(src, m.0, m.1, None))
}

/// The error tokens of a sequence of diagnostics.
pub open spec fn diagnostic_tokens(src: Seq<u8>, diagnostics: Seq<Diagnostic>) -> Seq<
    HighlightToken,
> {
    diagnostics.map_values(
        |d: Diagnostic| token_at(src, d.span, TokenLabel::Error, Some(d.message)),
    )
}

/// The tokens of a whole message: those of the walk, then one error token
/// per diagnostic, in the diagnostics' order.
pub open spec fn message_tokens(src: Seq<u8>, root: Node, diagnostics: Seq<Diagnostic>) -> Seq<
    HighlightToken,
> {
    mark_tokens(src, node_marks(src, root, 0)) + diagnostic_tokens(src, diagnostics)
}

/// Every diagnostic's span lies in a text of `len` bytes.
pub open spec fn diagnostics_within(diagnostics: Seq<Diagnostic>, len: nat) -> bool {
    forall|i: int| 0 <= i < diagnostics.len() ==> (#[trigger] diagnostics[i]).span.within(len)
}

proof fn lemma_mark_tokens_concat(
    src: Seq<u8>,
    a: Seq<(Span, TokenLabel)>,
    b: Seq<(Span, TokenLabel)>,
)
    ensures
        mark_tokens(src, a + b) == mark_tokens(src, a) + mark_tokens(src, b),
{
    assert(mark_tokens(src, a + b) =~= mark_tokens(src, a) + mark_tokens(src, b));
}

/// Appends the token for `span` to `tokens`.
fn push_token(
    source: &SourceText,
    tokens: &mut Vec<HighlightToken>,
    span: Span,
    label: TokenLabel,
    diagnostic: Option<String>,
)
    requires
        source.wf(),
        span.within(source.bytes().len()),
    ensures
        final(tokens)@ == old(tokens)@.push(token_at(source.bytes(), span, label, diagnostic)),
{
    proof {
        source.lemma_fits();
        crate::source::lemma_utf16_units_split(
            source.bytes(),
            0,
            span.start as int,
            span.end as int,
        );
        lemma_utf16_units_mono(source.bytes(), 0, span.end as int, source.bytes().len() as int);
    }
    let start = source.utf16_len(0, span.start);
    let end = start + source.utf16_len(span.start, span.end);
    tokens.push(HighlightToken { start, end, label, diagnostic });
}

/// The bracket label for a depth whose remainder by three is `phase`.
fn bracket_label_of(phase: usize) -> (r: TokenLabel)
    requires
        phase < 3,
    ensures
        r == bracket_label(phase as nat),
{
    if phase == 0 {
        TokenLabel::Brackets1
    } else if phase == 1 {
        TokenLabel::Brackets2
    } else {
        TokenLabel::Brackets3
    }
}

/// Whether the text at `span` is enclosed in braces `width` bytes wide.
fn braced_at(source: &SourceText, span: Span, width: u32) -> (r: bool)
    requires
        width == 1 || width == 2,
        span.within(source.bytes().len()),
    ensures
        r == if width == 1 {
            single_braced(source.bytes(), span)
        } else {
            double_braced(source.bytes(), span)
        },
{
    if span.end - span.start < 2 * width {
        return false;
    }
    if width == 1 {
        source.byte_at(span.start) == 0x7B && source.byte_at(span.end - 1) == 0x7D
    } else {
        source.byte_at(span.start) == 0x7B && source.byte_at(span.start + 1) == 0x7B
            && source.byte_at(span.end - 2) == 0x7D && source.byte_at(span.end - 1) == 0x7D
    }
}

/// Appends the tokens that a node of kind `kind` at `span` makes for itself.
fn push_own_tokens(
    source: &SourceText,
    tokens: &mut Vec<HighlightToken>,
    kind: NodeKind,
    span: Span,
)
    requires
        source.wf(),
        span.within(source.bytes().len()),
        kind_within(kind, span, source.bytes().len()),
    ensures
        final(tokens)@ == old(tokens)@ + mark_tokens(source.bytes(), own_marks(kind, span)),
{
    proof {
        source.lemma_fits();
    }
    let ghost before = tokens@;
    match kind {
        NodeKind::Number => push_token(source, tokens, span, TokenLabel::Number, None),
        NodeKind::Quoted => push_token(source, tokens, span, TokenLabel::String, None),
        NodeKind::Escape => push_token(source, tokens, span, TokenLabel::Escape, None),
        NodeKind::Variable => push_token(source, tokens, span, TokenLabel::Variable, None),
        NodeKind::Literal => push_token(source, tokens, span, TokenLabel::String, None),
        NodeKind::Function { id_end } => {
            let f = Span { start: span.start, end: id_end };
            push_token(source, tokens, f, TokenLabel::Function, None);
        },
        NodeKind::Attribute { key } => push_token(source, tokens, key, TokenLabel::Attribute, None),
        NodeKind::Markup { id } => push_token(source, tokens, id, TokenLabel::Tag, None),
        NodeKind::LocalDeclaration | NodeKind::InputDeclaration | NodeKind::Matcher => {
            let kw = Span { start: span.start, end: span.start + KEYWORD_LEN };
            push_token(source, tokens, kw, TokenLabel::Keyword, None);
        },
        _ => {},
    }
    assert(tokens@ =~= before + mark_tokens(source.bytes(), own_marks(kind, span)));
}

/// Width of the braces that enclose a node of kind `kind`, 0 for none.
fn brace_width_of(kind: NodeKind) -> (r: u32)
    ensures
        r == brace_width(kind),
{
    match kind {
        NodeKind::Matcher | NodeKind::Expression => 1,
        NodeKind::QuotedPattern => 2,
        _ => 0,
    }
}

/// Walks `node` at bracket depth `depth`, whose remainder by three is
/// `phase`, and appends its tokens.
fn visit_node(
    source: &SourceText,
    tokens: &mut Vec<HighlightToken>,
    node: &Node,
    depth: Ghost<nat>,
    phase: usize,
)
    requires
        source.wf(),
        node_within(*node, source.bytes().len()),
        phase == depth@ % 3,
    ensures
        final(tokens)@ == old(tokens)@ + mark_tokens(
            source.bytes(),
            node_marks(source.bytes(), *node, depth@),
        ),
    decreases node, 1nat,
{
    let ghost src = source.bytes();
    let ghost before = tokens@;
    let s = node.span;
    proof {
        source.lemma_fits();
    }
    assert(kind_within(node.kind, s, src.len()) && children_within(node.children@, src.len()));
    push_own_tokens(source, tokens, node.kind, s);
    let ghost own = own_marks(node.kind, s);
    let width = brace_width_of(node.kind);
    if width > 0 && braced_at(source, s, width) {
        let label = bracket_label_of(phase);
        push_token(source, tokens, Span { start: s.start, end: s.start + width }, label, None);
        let next: usize = if phase == 2 {
            0
        } else {
            phase + 1
        };
        visit_children(source, tokens, &node.children, Ghost(depth@ + 1), next);
        push_token(source, tokens, Span { start: s.end - width, end: s.end }, label, None);
        proof {
            let h = seq![(head_span(s, width), bracket_label(depth@))];
            let d = children_marks(src, node.children@, depth@ + 1);
            let t = seq![(tail_span(s, width), bracket_label(depth@))];
            lemma_mark_tokens_concat(src, h, d);
            lemma_mark_tokens_concat(src, h + d, t);
            lemma_mark_tokens_concat(src, own, h + d + t);
            assert(tokens@ =~= before + mark_tokens(src, own + (h + d + t)));
        }
    } else {
        visit_children(source, tokens, &node.children, depth, phase);
        proof {
            let f = children_marks(src, node.children@, depth@);
            lemma_mark_tokens_concat(src, own, f);
            assert(tokens@ =~= before + mark_tokens(src, own + f));
        }
    }
}

/// Walks each of `nodes` in turn at bracket depth `depth`, whose remainder
/// by three is `phase`, and appends their tokens.
fn visit_children(
    source: &SourceText,
    tokens: &mut Vec<HighlightToken>,
    nodes: &Vec<Node>,
    depth: Ghost<nat>,
    phase: usize,
)
    requires
        source.wf(),
        children_within(nodes@, source.bytes().len()),
        phase == depth@ % 3,
    ensures
        final(tokens)@ == old(tokens)@ + mark_tokens(
            source.bytes(),
            children_marks(source.bytes(), nodes@, depth@),
        ),
    decreases nodes, 0nat,
{
    let ghost src = source.bytes();
    let mut i: usize = 0;
    while i < nodes.len()
        invariant
            i <= nodes@.len(),
            source.wf(),
            src == source.bytes(),
            children_within(nodes@, src.len()),
            phase == depth@ % 3,
            tokens@ == old(tokens)@ + mark_tokens(src, children_marks(src, nodes@.take(i as int), depth@)),
        decreases nodes@.len() - i,
    {
        proof {
            lemma_children_within_prefix(nodes@, i as int + 1, src.len());
        }
        visit_node(source, tokens, &nodes[i], depth, phase);
        proof {
            assert(nodes@.take(i as int + 1).drop_last() == nodes@.take(i as int));
            lemma_mark_tokens_concat(
                src,
                children_marks(src, nodes@.take(i as int), depth@),
                node_marks(src, nodes@[i as int], depth@),
            );
        }
        i = i + 1;
    }
    assert(nodes@.take(nodes@.len() as int) == nodes@);
}

/// Appends one error token per diagnostic, carrying its message, in the
/// diagnostics' order.
fn overlay_diagnostics(
    source: &SourceText,
    tokens: &mut Vec<HighlightToken>,
    diagnostics: &Vec<Diagnostic>,
)
    requires
        source.wf(),
        diagnostics_within(diagnostics@, source.bytes().len()),
    ensures
        final(tokens)@ == old(tokens)@ + diagnostic_tokens(source.bytes(), diagnostics@),
{
    let ghost src = source.bytes();
    let mut i: usize = 0;
    while i < diagnostics.len()
        invariant
            i <= diagnostics@.len(),
            source.wf(),
            src == source.bytes(),
            diagnostics_within(diagnostics@, src.len()),
            tokens@ == old(tokens)@ + diagnostic_tokens(src, diagnostics@.take(i as int)),
        decreases diagnostics@.len() - i,
    {
        let d = &diagnostics[i];
        assert(diagnostics@[i as int].span.within(src.len()));
        push_token(source, tokens, d.span, TokenLabel::Error, Some(d.message.clone()));
        assert(diagnostic_tokens(src, diagnostics@.take(i as int + 1)) =~= diagnostic_tokens(
            src,
            diagnostics@.take(i as int),
        ).push(token_at(src, d.span, TokenLabel::Error, Some(d.message))));
        i = i + 1;
    }
    assert(diagnostics@.take(diagnostics@.len() as int) == diagnostics@);
}

/// The highlight tokens of the message `root`, parsed from `source`, whose
/// analysis reported `diagnostics`.
///
/// The tokens of a pre-order walk of the tree come first; after them, one
/// error token per diagnostic, in order. Each token's ends are UTF-16
/// offsets inside the text.
pub fn highlight_tokens(
    source: &SourceText,
    root: &Node,
    diagnostics: &Vec<Diagnostic>,
) -> (r: Vec<HighlightToken>)
    requires
        source.wf(),
        node_within(*root, source.bytes().len()),
        diagnostics_within(diagnostics@, source.bytes().len()),
    ensures
        r@ == message_tokens(source.bytes(), *root, diagnostics@),
        forall|i: int|
            0 <= i < r@.len() ==> (#[trigger] r@[i]).start <= r@[i].end && r@[i].end
                <= utf16_units(source.bytes(), 0, source.bytes().len() as int),
        r@.len() >= diagnostics@.len(),
        forall|i: int|
            0 <= i < r@.len() - diagnostics@.len() ==> (#[trigger] r@[i]).label
                != TokenLabel::Error && r@[i].diagnostic is None,
        r@.subrange(r@.len() - diagnostics@.len(), r@.len() as int) == diagnostic_tokens(
            source.bytes(),
            diagnostics@,
        ),
{
    let mut tokens: Vec<HighlightToken> = Vec::new();
    visit_node(source, &mut tokens, root, Ghost(0), 0);
    overlay_diagnostics(source, &mut tokens, diagnostics);
    proof {
        source.lemma_fits();
        lemma_tokens_within_text(source.bytes(), *root, diagnostics@);
        lemma_errors_come_last(source.bytes(), *root, diagnostics@);
    }
    tokens
}

fn diagnostics_in_bounds(diagnostics: &Vec<Diagnostic>, len: u32) -> (r: bool)
    ensures
        r == diagnostics_within(diagnostics@, len as nat),
{
    let mut i: usize = 0;
    while i < diagnostics.len()
        invariant
            i <= diagnostics@.len(),
            forall|j: int| 0 <= j < i ==> (#[trigger] diagnostics@[j]).span.within(len as nat),
        decreases diagnostics@.len() - i,
    {
        let span = diagnostics[i].span;
        if !(span.start <= span.end && span.end <= len) {
            return false;
        }
        i = i + 1;
    }
    true
}

/// Highlights the message `code`, whose parsed tree is `root` and whose
/// analysis reported `diagnostics`.
///
/// `None` where the text is too long for 32-bit offsets, or where a span of
/// the tree or of a diagnostic falls outside the text; else the tokens of
/// [`highlight_tokens`].
pub fn highlight(code: &str, root: &Node, diagnostics: &Vec<Diagnostic>) -> (r: Option<
    Vec<HighlightToken>,
>)
    ensures
        r is Some <==> {
            &&& code.spec_bytes().len() <= u32::MAX
            &&& utf16_units(code.spec_bytes(), 0, code.spec_bytes().len() as int) <= u32::MAX
            &&& node_within(*root, code.spec_bytes().len())
            &&& diagnostics_within(diagnostics@, code.spec_bytes().len())
        },
        r matches Some(ts) ==> ts@ == message_tokens(code.spec_bytes(), *root, diagnostics@),
{
    let source = match SourceText::new(code) {
        Some(st) => st,
        None => return None,
    };
    let len = source.len();
    if !root.in_bounds(len) || !diagnostics_in_bounds(diagnostics, len) {
        return None;
    }
    Some(highlight_tokens(&source, root, diagnostics))
}

/// Each token of a message lies in the text: its start is not after its end,
/// and its end is not after the text's UTF-16 length.
pub proof fn lemma_tokens_within_text(src: Seq<u8>, root: Node, diagnostics: Seq<Diagnostic>)
    requires
        src.len() <= u32::MAX,
        utf16_units(src, 0, src.len() as int) <= u32::MAX,
        node_within(root, src.len()),
        diagnostics_within(diagnostics, src.len()),
    ensures
        forall|i: int|
            0 <= i < message_tokens(src, root, diagnostics).len() ==> (#[trigger] message_tokens(
                src,
                root,
                diagnostics,
            )[i]).start <= message_tokens(src, root, diagnostics)[i].end && message_tokens(
                src,
                root,
                diagnostics,
            )[i].end <= utf16_units(src, 0, src.len() as int),
{
    let ts = message_tokens(src, root, diagnostics);
    let ms = node_marks(src, root, 0);
    lemma_node_marks_within(src, root, 0);
    assert forall|i: int| 0 <= i < ts.len() implies (#[trigger] ts[i]).start <= ts[i].end
        && ts[i].end <= utf16_units(src, 0, src.len() as int) by {
        let span = if i < ms.len() {
            ms[i].0
        } else {
            diagnostics[i - ms.len()].span
        };
        if i < ms.len() {
            assert(ms[i].0.within(src.len()));
        }
        assert(span.within(src.len()));
        lemma_utf16_units_mono(src, 0, span.start as int, src.len() as int);
        lemma_utf16_units_mono(src, 0, span.end as int, src.len() as int);
        lemma_utf16_units_mono(src, span.start as int, span.end as int, span.end as int);
        crate::source::lemma_utf16_units_split(src, 0, span.start as int, span.end as int);
    }
}

/// Every mark of `marks` lies in a text of `len` bytes.
pub open spec fn marks_within(marks: Seq<(Span, TokenLabel)>, len: nat) -> bool {
    forall|i: int| 0 <= i < marks.len() ==> (#[trigger] marks[i]).0.within(len)
}

proof fn lemma_marks_within_concat(a: Seq<(Span, TokenLabel)>, b: Seq<(Span, TokenLabel)>, len: nat)
    requires
        marks_within(a, len),
        marks_within(b, len),
    ensures
        marks_within(a + b, len),
{
    assert forall|i: int| 0 <= i < (a + b).len() implies (#[trigger] (a + b)[i]).0.within(len) by {
        if i < a.len() {
            assert((a + b)[i] == a[i]);
        } else {
            assert((a + b)[i] == b[i - a.len()]);
        }
    }
}

proof fn lemma_own_marks_within(kind: NodeKind, s: Span, len: nat)
    requires
        len <= u32::MAX,
        s.within(len),
        kind_within(kind, s, len),
    ensures
        marks_within(own_marks(kind, s), len),
{
    let own = own_marks(kind, s);
    match kind {
        NodeKind::Function { id_end } => {
            assert(own[0].0 == Span { start: s.start, end: id_end });
        },
        NodeKind::Attribute { key } => {
            assert(own[0].0 == key);
        },
        NodeKind::Markup { id } => {
            assert(own[0].0 == id);
        },
        NodeKind::LocalDeclaration | NodeKind::InputDeclaration | NodeKind::Matcher => {
            assert(own[0].0 == keyword_span(s));
        },
        _ => {},
    }
}

/// Every mark of a walk of `node` lies in the text.
pub proof fn lemma_node_marks_within(src: Seq<u8>, node: Node, depth: nat)
    requires
        src.len() <= u32::MAX,
        node_within(node, src.len()),
    ensures
        marks_within(node_marks(src, node, depth), src.len()),
    decreases node, 1nat,
{
    let len = src.len();
    let s = node.span;
    let width = brace_width(node.kind);
    let own = own_marks(node.kind, s);
    let flat = children_marks(src, node.children@, depth);
    let deeper = children_marks(src, node.children@, depth + 1);
    lemma_children_marks_within(src, node.children@, depth);
    lemma_children_marks_within(src, node.children@, depth + 1);
    assert(kind_within(node.kind, s, len));
    lemma_own_marks_within(node.kind, s, len);
    if braced(src, s, width) {
        let h = seq![(head_span(s, width), bracket_label(depth))];
        let t = seq![(tail_span(s, width), bracket_label(depth))];
        assert(marks_within(h, len));
        assert(marks_within(t, len));
        lemma_marks_within_concat(h, deeper, len);
        lemma_marks_within_concat(h + deeper, t, len);
        lemma_marks_within_concat(own, h + deeper + t, len);
    } else {
        lemma_marks_within_concat(own, flat, len);
    }
}

/// Every mark of a walk of `nodes` lies in the text.
pub proof fn lemma_children_marks_within(src: Seq<u8>, nodes: Seq<Node>, depth: nat)
    requires
        src.len() <= u32::MAX,
        children_within(nodes, src.len()),
    ensures
        marks_within(children_marks(src, nodes, depth), src.len()),
    decreases nodes, 0nat,
{
    if nodes.len() > 0 {
        lemma_children_marks_within(src, nodes.drop_last(), depth);
        lemma_node_marks_within(src, nodes.last(), depth);
        lemma_marks_within_concat(
            children_marks(src, nodes.drop_last(), depth),
            node_marks(src, nodes.last(), depth),
            src.len(),
        );
    }
}

/// The error tokens of a message are exactly its diagnostics' tokens, and
/// they come after every other token: the number of error tokens is the
/// number of diagnostics.
pub proof fn lemma_errors_come_last(src: Seq<u8>, root: Node, diagnostics: Seq<Diagnostic>)
    ensures
        ({
            let ts = message_tokens(src, root, diagnostics);
            let n = ts.len() - diagnostics.len();
            &&& n >= 0
            &&& forall|i: int|
                0 <= i < n ==> (#[trigger] ts[i]).label != TokenLabel::Error && ts[i].diagnostic is None
            &&& forall|i: int| n <= i < ts.len() ==> (#[trigger] ts[i]).label == TokenLabel::Error
            &&& ts.subrange(n, ts.len() as int) == diagnostic_tokens(src, diagnostics)
        }),
{
    let ts = message_tokens(src, root, diagnostics);
    let ms = node_marks(src, root, 0);
    lemma_node_marks_not_error(src, root, 0);
    assert(ts.subrange(ms.len() as int, ts.len() as int) =~= diagnostic_tokens(src, diagnostics));
}

/// No mark of a walk is an error.
pub proof fn lemma_node_marks_not_error(src: Seq<u8>, node: Node, depth: nat)
    ensures
        forall|i: int|
            0 <= i < node_marks(src, node, depth).len() ==> (#[trigger] node_marks(
                src,
                node,
                depth,
            )[i]).1 != TokenLabel::Error,
    decreases node, 1nat,
{
    lemma_children_marks_not_error(src, node.children@, depth);
    lemma_children_marks_not_error(src, node.children@, depth + 1);
}

/// No mark of a walk of `nodes` is an error.
pub proof fn lemma_children_marks_not_error(src: Seq<u8>, nodes: Seq<Node>, depth: nat)
    ensures
        forall|i: int|
            0 <= i < children_marks(src, nodes, depth).len() ==> (#[trigger] children_marks(
                src,
                nodes,
                depth,
            )[i]).1 != TokenLabel::Error,
    decreases nodes, 0nat,
{
    if nodes.len() > 0 {
        lemma_children_marks_not_error(src, nodes.drop_last(), depth);
        lemma_node_marks_not_error(src, nodes.last(), depth);
    }
}

/// A braced node's brackets pair up: the mark right after the node's own
/// marks opens it, the last mark closes it, both carry the label of its depth,
/// and what lies between are the marks of its children one level deeper.
/// Bracket labels repeat every three levels.
pub proof fn lemma_bracket_pairs_match(src: Seq<u8>, node: Node, depth: nat)
    requires
        braced(src, node.span, brace_width(node.kind)),
    ensures
        ({
            let ms = node_marks(src, node, depth);
            let k = own_marks(node.kind, node.span).len() as int;
            let w = brace_width(node.kind);
            &&& ms.len() >= k + 2
            &&& ms[k] == (head_span(node.span, w), bracket_label(depth))
            &&& ms.last() == (tail_span(node.span, w), bracket_label(depth))
            &&& ms.subrange(k + 1, ms.len() - 1) == children_marks(src, node.children@, depth + 1)
        }),
        bracket_label(depth + 3) == bracket_label(depth),
        bracket_label(depth + 1) != bracket_label(depth),
{
    let ms = node_marks(src, node, depth);
    let own = own_marks(node.kind, node.span);
    let w = brace_width(node.kind);
    let h = seq![(head_span(node.span, w), bracket_label(depth))];
    let d = children_marks(src, node.children@, depth + 1);
    let t = seq![(tail_span(node.span, w), bracket_label(depth))];
    assert(ms == own + (h + d + t));
    assert(ms.subrange(own.len() as int + 1, ms.len() - 1) =~= d);
}

} // verus!
