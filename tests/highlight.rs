use mf2_highlight::highlight::{highlight, highlight_tokens, Diagnostic, HighlightToken, TokenLabel};
use mf2_highlight::source::SourceText;
use mf2_highlight::tree::{Node, NodeKind, Span};

fn sp(start: u32, end: u32) -> Span {
    Span { start, end }
}

fn leaf(kind: NodeKind, start: u32, end: u32) -> Node {
    Node { kind, span: sp(start, end), children: Vec::new() }
}

fn node(kind: NodeKind, start: u32, end: u32, children: Vec<Node>) -> Node {
    Node { kind, span: sp(start, end), children }
}

fn run(code: &str, root: &Node, diagnostics: &Vec<Diagnostic>) -> Vec<HighlightToken> {
    highlight(code, root, diagnostics).expect("spans inside the text")
}

fn plain(tokens: &[HighlightToken]) -> Vec<(u32, u32, TokenLabel)> {
    tokens.iter().map(|t| (t.start, t.end, t.label)).collect()
}

use TokenLabel::{Brackets1 as B1, Brackets2 as B2, Brackets3 as B3};

#[test]
fn bare_number_expression() {
    let code = "{42}";
    let root = node(
        NodeKind::Group,
        0,
        4,
        vec![node(NodeKind::Expression, 0, 4, vec![leaf(NodeKind::Number, 1, 3)])],
    );
    let tokens = run(code, &root, &Vec::new());
    assert_eq!(plain(&tokens), vec![(0, 1, B1), (1, 3, TokenLabel::Number), (3, 4, B1)]);
    assert!(tokens.iter().all(|t| t.diagnostic.is_none()));
}

#[test]
fn quoted_pattern_with_variable() {
    let code = "{{Hi {$name}}}";
    let root = node(
        NodeKind::Group,
        0,
        14,
        vec![node(
            NodeKind::QuotedPattern,
            0,
            14,
            vec![node(
                NodeKind::Group,
                2,
                12,
                vec![
                    leaf(NodeKind::Group, 2, 5),
                    node(NodeKind::Expression, 5, 12, vec![leaf(NodeKind::Variable, 6, 11)]),
                ],
            )],
        )],
    );
    let tokens = run(code, &root, &Vec::new());
    assert_eq!(
        plain(&tokens),
        vec![
            (0, 2, B1),
            (5, 6, B2),
            (6, 11, TokenLabel::Variable),
            (11, 12, B2),
            (12, 14, B1),
        ]
    );
}

#[test]
fn diagnostic_becomes_last_error_token() {
    let code = "{$name}";
    let root = node(
        NodeKind::Group,
        0,
        7,
        vec![node(NodeKind::Expression, 0, 7, vec![leaf(NodeKind::Variable, 1, 6)])],
    );
    let diags = vec![Diagnostic { span: sp(1, 6), message: "Unresolved variable: $name".to_string() }];
    let tokens = run(code, &root, &diags);
    assert_eq!(tokens.len(), 4);
    let last = tokens.last().unwrap();
    assert_eq!(last.label, TokenLabel::Error);
    assert_eq!((last.start, last.end), (1, 6));
    assert_eq!(last.diagnostic.as_deref(), Some("Unresolved variable: $name"));
    assert!(!last.diagnostic.as_ref().unwrap().is_empty());
}

fn declaration_message() -> (&'static str, Node) {
    let code = ".local $x = {1 :number} {{{$x}}}";
    let root = node(
        NodeKind::Group,
        0,
        32,
        vec![
            node(
                NodeKind::LocalDeclaration,
                0,
                23,
                vec![
                    leaf(NodeKind::Variable, 7, 9),
                    node(
                        NodeKind::Expression,
                        12,
                        23,
                        vec![
                            leaf(NodeKind::Number, 13, 14),
                            node(
                                NodeKind::Function { id_end: 22 },
                                15,
                                22,
                                vec![leaf(NodeKind::Group, 16, 22)],
                            ),
                        ],
                    ),
                ],
            ),
            node(
                NodeKind::QuotedPattern,
                24,
                32,
                vec![node(
                    NodeKind::Group,
                    26,
                    30,
                    vec![node(NodeKind::Expression, 26, 30, vec![leaf(NodeKind::Variable, 27, 29)])],
                )],
            ),
        ],
    );
    (code, root)
}

#[test]
fn local_declaration_with_function() {
    let (code, root) = declaration_message();
    let tokens = run(code, &root, &Vec::new());
    assert_eq!(
        plain(&tokens),
        vec![
            (0, 6, TokenLabel::Keyword),
            (7, 9, TokenLabel::Variable),
            (12, 13, B1),
            (13, 14, TokenLabel::Number),
            (15, 22, TokenLabel::Function),
            (22, 23, B1),
            (24, 26, B1),
            (26, 27, B2),
            (27, 29, TokenLabel::Variable),
            (29, 30, B2),
            (30, 32, B1),
        ]
    );
}

#[test]
fn tokens_lie_inside_the_text() {
    let (code, root) = declaration_message();
    let diags = vec![
        Diagnostic { span: sp(0, 32), message: "whole".to_string() },
        Diagnostic { span: sp(32, 32), message: "at end".to_string() },
    ];
    let tokens = run(code, &root, &diags);
    let total = SourceText::new(code).unwrap().utf16_total();
    assert_eq!(total, 32);
    for t in &tokens {
        assert!(t.start <= t.end && t.end <= total);
    }
}

#[test]
fn error_tokens_are_a_suffix_in_order() {
    let (code, root) = declaration_message();
    let diags = vec![
        Diagnostic { span: sp(7, 9), message: "second".to_string() },
        Diagnostic { span: sp(0, 6), message: "first".to_string() },
        Diagnostic { span: sp(7, 9), message: "second".to_string() },
    ];
    let tokens = run(code, &root, &diags);
    assert_eq!(tokens.len(), 11 + 3);
    let errors = tokens.iter().filter(|t| t.label == TokenLabel::Error).count();
    assert_eq!(errors, diags.len());
    assert!(tokens[..11].iter().all(|t| t.label != TokenLabel::Error && t.diagnostic.is_none()));
    let tail: Vec<(u32, u32, Option<&str>)> =
        tokens[11..].iter().map(|t| (t.start, t.end, t.diagnostic.as_deref())).collect();
    assert_eq!(tail, vec![(7, 9, Some("second")), (0, 6, Some("first")), (7, 9, Some("second"))]);
}

#[test]
fn bracket_labels_rotate_with_depth() {
    let code = "{{{{{{{}}}}}}}";
    let root = node(
        NodeKind::QuotedPattern,
        0,
        14,
        vec![node(
            NodeKind::QuotedPattern,
            2,
            12,
            vec![node(NodeKind::QuotedPattern, 4, 10, vec![leaf(NodeKind::Expression, 6, 8)])],
        )],
    );
    let tokens = run(code, &root, &Vec::new());
    assert_eq!(
        plain(&tokens),
        vec![
            (0, 2, B1),
            (2, 4, B2),
            (4, 6, B3),
            (6, 7, B1),
            (7, 8, B1),
            (8, 10, B3),
            (10, 12, B2),
            (12, 14, B1),
        ]
    );
}

#[test]
fn markup_and_attribute() {
    let code = "{#b @x=1}";
    let root = node(
        NodeKind::Expression,
        0,
        9,
        vec![node(
            NodeKind::Markup { id: sp(2, 3) },
            1,
            8,
            vec![
                leaf(NodeKind::Group, 2, 3),
                node(NodeKind::Attribute { key: sp(5, 6) }, 4, 8, vec![leaf(NodeKind::Number, 7, 8)]),
            ],
        )],
    );
    let tokens = run(code, &root, &Vec::new());
    assert_eq!(
        plain(&tokens),
        vec![
            (0, 1, B1),
            (2, 3, TokenLabel::Tag),
            (5, 6, TokenLabel::Attribute),
            (7, 8, TokenLabel::Number),
            (8, 9, B1),
        ]
    );
}

#[test]
fn escape_quoted_and_unquoted_literals() {
    let code = "\\{{|q|}{abc}";
    let root = node(
        NodeKind::Group,
        0,
        12,
        vec![
            leaf(NodeKind::Escape, 0, 2),
            node(NodeKind::Expression, 2, 7, vec![node(NodeKind::Quoted, 3, 6, vec![leaf(NodeKind::Group, 4, 5)])]),
            node(NodeKind::Expression, 7, 12, vec![node(NodeKind::Literal, 8, 11, vec![leaf(NodeKind::Group, 8, 11)])]),
        ],
    );
    let tokens = run(code, &root, &Vec::new());
    assert_eq!(
        plain(&tokens),
        vec![
            (0, 2, TokenLabel::Escape),
            (2, 3, B1),
            (3, 6, TokenLabel::String),
            (6, 7, B1),
            (7, 8, B1),
            (8, 11, TokenLabel::String),
            (11, 12, B1),
        ]
    );
}

#[test]
fn matcher_marks_keyword_and_variants() {
    let code = ".match $x * {{a}}";
    let root = node(
        NodeKind::Group,
        0,
        17,
        vec![node(
            NodeKind::Matcher,
            0,
            17,
            vec![
                leaf(NodeKind::Variable, 7, 9),
                node(
                    NodeKind::Group,
                    10,
                    17,
                    vec![
                        leaf(NodeKind::Group, 10, 11),
                        node(NodeKind::QuotedPattern, 12, 17, vec![leaf(NodeKind::Group, 14, 15)]),
                    ],
                ),
            ],
        )],
    );
    let tokens = run(code, &root, &Vec::new());
    assert_eq!(
        plain(&tokens),
        vec![(0, 6, TokenLabel::Keyword), (7, 9, TokenLabel::Variable), (12, 14, B1), (15, 17, B1)]
    );
}

#[test]
fn input_declaration_keyword() {
    let code = ".input {$x}";
    let root = node(
        NodeKind::InputDeclaration,
        0,
        11,
        vec![node(NodeKind::Expression, 7, 11, vec![leaf(NodeKind::Variable, 8, 10)])],
    );
    let tokens = run(code, &root, &Vec::new());
    assert_eq!(
        plain(&tokens),
        vec![(0, 6, TokenLabel::Keyword), (7, 8, B1), (8, 10, TokenLabel::Variable), (10, 11, B1)]
    );
}

#[test]
fn unbraced_expression_has_no_brackets() {
    let code = "abc";
    let root = node(NodeKind::Expression, 0, 3, vec![leaf(NodeKind::Literal, 0, 3)]);
    let tokens = run(code, &root, &Vec::new());
    assert_eq!(plain(&tokens), vec![(0, 3, TokenLabel::String)]);
    let code = "{{a}";
    let root = node(NodeKind::QuotedPattern, 0, 4, vec![leaf(NodeKind::Literal, 2, 3)]);
    let tokens = run(code, &root, &Vec::new());
    assert_eq!(plain(&tokens), vec![(2, 3, TokenLabel::String)]);
}

#[test]
fn empty_message_has_no_tokens() {
    let root = leaf(NodeKind::Group, 0, 0);
    assert!(run("", &root, &Vec::new()).is_empty());
}

#[test]
fn offsets_count_utf16_units() {
    let code = "{😀}";
    let root = node(NodeKind::Expression, 0, 6, vec![leaf(NodeKind::Literal, 1, 5)]);
    let diags = vec![Diagnostic { span: sp(5, 6), message: "after emoji".to_string() }];
    let tokens = run(code, &root, &diags);
    assert_eq!(
        plain(&tokens),
        vec![(0, 1, B1), (1, 3, TokenLabel::String), (3, 4, B1), (3, 4, TokenLabel::Error)]
    );
    let code = "{é}";
    let root = node(NodeKind::Expression, 0, 4, vec![leaf(NodeKind::Literal, 1, 3)]);
    let tokens = run(code, &root, &Vec::new());
    assert_eq!(plain(&tokens), vec![(0, 1, B1), (1, 2, TokenLabel::String), (2, 3, B1)]);
}

#[test]
fn source_text_lengths() {
    let st = SourceText::new("a😀é").unwrap();
    assert_eq!(st.len(), 7);
    assert_eq!(st.utf16_total(), 4);
    assert_eq!(st.utf16_len(1, 5), 2);
    assert_eq!(st.utf16_len(5, 7), 1);
    assert_eq!(st.utf16_len(0, 1), 1);
    let ascii = SourceText::new("hello").unwrap();
    assert_eq!(ascii.utf16_len(1, 4), 3);
    assert_eq!(ascii.byte_at(1), b'e');
}

#[test]
fn spans_outside_the_text_are_refused() {
    let root = leaf(NodeKind::Number, 0, 5);
    assert!(highlight("{42}", &root, &Vec::new()).is_none());
    let root = leaf(NodeKind::LocalDeclaration, 0, 3);
    assert!(highlight(".lo", &root, &Vec::new()).is_none());
    let root = leaf(NodeKind::Function { id_end: 9 }, 0, 3);
    assert!(highlight("abc", &root, &Vec::new()).is_none());
    let root = leaf(NodeKind::Group, 0, 3);
    let diags = vec![Diagnostic { span: sp(2, 4), message: "x".to_string() }];
    assert!(highlight("abc", &root, &diags).is_none());
    let diags = vec![Diagnostic { span: sp(2, 1), message: "x".to_string() }];
    assert!(highlight("abc", &root, &diags).is_none());
}

#[test]
fn tree_bounds_check() {
    let inner = leaf(NodeKind::Variable, 2, 9);
    let root = node(NodeKind::Group, 0, 4, vec![inner]);
    assert!(!root.in_bounds(4));
    assert!(root.in_bounds(9));
}

#[test]
fn highlight_tokens_agrees_with_highlight() {
    let (code, root) = declaration_message();
    let source = SourceText::new(code).unwrap();
    let diags = vec![Diagnostic { span: sp(1, 2), message: "m".to_string() }];
    let a = highlight_tokens(&source, &root, &diags);
    let b = run(code, &root, &diags);
    assert_eq!(plain(&a), plain(&b));
}
