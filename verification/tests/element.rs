use wdl::format::element::Element;
use wdl::format::element::FormatElement;
use wdl::format::element::SyntaxTree;
use wdl::format::formatter::Formatter;
use wdl::format::pre::Comment;
use wdl::format::pre::PreToken;
use wdl::format::pre::SourceToken;
use wdl::format::pre::SourceTrivia;
use wdl::format::pre::Trivia;
use wdl::format::syntax::SyntaxKind;
use wdl::format::token::TokenStream;
use wdl::format::v1::format_conditional_statement;
use wdl::format::v1::format_import_alias;
use wdl::format::v1::format_literal_string;
use wdl::format::v1::format_metadata_object;
use wdl::format::v1::format_scatter_statement;
use wdl::format::v1::format_struct_definition;

fn token(text: &str, kind: SyntaxKind) -> SourceToken {
    SourceToken {
        text: text.to_string(),
        kind,
        preceding: Vec::new(),
        inline_comment: None,
    }
}

fn commented(
    text: &str,
    kind: SyntaxKind,
    preceding: Vec<SourceTrivia>,
    inline: Option<&str>,
) -> SourceToken {
    SourceToken {
        text: text.to_string(),
        kind,
        preceding,
        inline_comment: inline.map(|c| c.to_string()),
    }
}

fn raw_token(text: &str, kind: SyntaxKind) -> SyntaxTree {
    SyntaxTree::new(Element::Token(token(text, kind)), Vec::new())
}

fn raw_node(kind: SyntaxKind, children: Vec<SyntaxTree>) -> SyntaxTree {
    SyntaxTree::new(Element::Node(kind), children)
}

fn leaf(t: SourceToken) -> FormatElement {
    FormatElement::new(Element::Token(t), Vec::new())
}

fn node(kind: SyntaxKind, children: Vec<FormatElement>) -> FormatElement {
    FormatElement::new(Element::Node(kind), children)
}

fn kinds(element: &FormatElement) -> Vec<SyntaxKind> {
    element
        .children()
        .unwrap()
        .iter()
        .map(|child| child.element().kind())
        .collect()
}

#[test]
fn element_smoke() {
    // The syntax tree of:
    //
    // ## WDL
    // version 1.2  # This is a comment attached to the version.
    //
    // # This is a comment attached to the task keyword.
    // task foo # This is an inline comment on the task ident.
    // {
    //
    // } # This is an inline comment on the task close brace.
    //
    // # This is a comment attached to the workflow keyword.
    // workflow bar # This is an inline comment on the workflow ident.
    // {
    //   # This is attached to the call keyword.
    //   call foo {}
    // } # This is an inline comment on the workflow close brace.
    let ws = |s: &str| raw_token(s, SyntaxKind::Whitespace);
    let comment = |s: &str| raw_token(s, SyntaxKind::Comment);
    let tree = raw_node(
        SyntaxKind::RootNode,
        vec![
            comment("## WDL"),
            ws("\n"),
            raw_node(
                SyntaxKind::VersionStatementNode,
                vec![
                    raw_token("version", SyntaxKind::VersionKeyword),
                    ws(" "),
                    raw_token("1.2", SyntaxKind::Version),
                ],
            ),
            ws("  "),
            comment("# This is a comment attached to the version."),
            ws("\n\n"),
            comment("# This is a comment attached to the task keyword."),
            ws("\n"),
            raw_node(
                SyntaxKind::TaskDefinitionNode,
                vec![
                    raw_token("task", SyntaxKind::TaskKeyword),
                    ws(" "),
                    raw_token("foo", SyntaxKind::Ident),
                    ws(" "),
                    comment("# This is an inline comment on the task ident."),
                    ws("\n"),
                    raw_token("{", SyntaxKind::OpenBrace),
                    ws("\n\n"),
                    raw_token("}", SyntaxKind::CloseBrace),
                ],
            ),
            ws(" "),
            comment("# This is an inline comment on the task close brace."),
            ws("\n\n"),
            comment("# This is a comment attached to the workflow keyword."),
            ws("\n"),
            raw_node(
                SyntaxKind::WorkflowDefinitionNode,
                vec![
                    raw_token("workflow", SyntaxKind::WorkflowKeyword),
                    ws(" "),
                    raw_token("bar", SyntaxKind::Ident),
                    ws(" "),
                    comment("# This is an inline comment on the workflow ident."),
                    ws("\n"),
                    raw_token("{", SyntaxKind::OpenBrace),
                    ws("\n  "),
                    comment("# This is attached to the call keyword."),
                    ws("\n  "),
                    raw_node(
                        SyntaxKind::CallStatementNode,
                        vec![
                            raw_token("call", SyntaxKind::CallKeyword),
                            ws(" "),
                            raw_node(
                                SyntaxKind::CallTargetNode,
                                vec![raw_token("foo", SyntaxKind::Ident)],
                            ),
                            ws(" "),
                            raw_token("{", SyntaxKind::OpenBrace),
                            raw_token("}", SyntaxKind::CloseBrace),
                        ],
                    ),
                    ws("\n"),
                    raw_token("}", SyntaxKind::CloseBrace),
                ],
            ),
            ws(" "),
            comment("# This is an inline comment on the workflow close brace."),
        ],
    );

    let format_element = tree.into_format_element();
    let children = format_element.children().unwrap();
    assert_eq!(children.len(), 3);

    // Version statement
    let version = &children[0];
    assert_eq!(version.element().kind(), SyntaxKind::VersionStatementNode);
    assert_eq!(
        kinds(version),
        vec![SyntaxKind::VersionKeyword, SyntaxKind::Version]
    );

    // Task definition
    let task = &children[1];
    assert_eq!(task.element().kind(), SyntaxKind::TaskDefinitionNode);
    assert_eq!(
        kinds(task),
        vec![
            SyntaxKind::TaskKeyword,
            SyntaxKind::Ident,
            SyntaxKind::OpenBrace,
            SyntaxKind::CloseBrace
        ]
    );

    // Workflow definition
    let workflow = &children[2];
    assert_eq!(workflow.element().kind(), SyntaxKind::WorkflowDefinitionNode);
    assert_eq!(
        kinds(workflow),
        vec![
            SyntaxKind::WorkflowKeyword,
            SyntaxKind::Ident,
            SyntaxKind::OpenBrace,
            SyntaxKind::CallStatementNode,
            SyntaxKind::CloseBrace
        ]
    );
}

#[test]
fn lib_smoke() {
    // The document of:
    //
    // version 1.2
    //
    // # This is a comment attached to the task.
    // task foo # This is an inline comment on the task ident.
    // {
    //
    // } # This is an inline comment on the task.
    //
    // # This is a comment attached to the workflow.
    // workflow bar # This is an inline comment on the workflow ident.
    // {
    //   # This is attached to the call.
    //   call foo {}
    // } # This is an inline comment on the workflow.
    let document = node(
        SyntaxKind::RootNode,
        vec![
            node(
                SyntaxKind::VersionStatementNode,
                vec![
                    leaf(token("version", SyntaxKind::VersionKeyword)),
                    leaf(token("1.2", SyntaxKind::Version)),
                ],
            ),
            node(
                SyntaxKind::TaskDefinitionNode,
                vec![
                    leaf(commented(
                        "task",
                        SyntaxKind::TaskKeyword,
                        vec![
                            SourceTrivia::Whitespace,
                            SourceTrivia::Comment(
                                "# This is a comment attached to the task.".to_string(),
                            ),
                        ],
                        None,
                    )),
                    leaf(commented(
                        "foo",
                        SyntaxKind::Ident,
                        Vec::new(),
                        Some("# This is an inline comment on the task ident."),
                    )),
                    leaf(token("{", SyntaxKind::OpenBrace)),
                    leaf(commented(
                        "}",
                        SyntaxKind::CloseBrace,
                        vec![SourceTrivia::Whitespace],
                        Some("# This is an inline comment on the task."),
                    )),
                ],
            ),
            node(
                SyntaxKind::WorkflowDefinitionNode,
                vec![
                    leaf(commented(
                        "workflow",
                        SyntaxKind::WorkflowKeyword,
                        vec![
                            SourceTrivia::Whitespace,
                            SourceTrivia::Comment(
                                "# This is a comment attached to the workflow.".to_string(),
                            ),
                        ],
                        None,
                    )),
                    leaf(commented(
                        "bar",
                        SyntaxKind::Ident,
                        Vec::new(),
                        Some("# This is an inline comment on the workflow ident."),
                    )),
                    leaf(token("{", SyntaxKind::OpenBrace)),
                    node(
                        SyntaxKind::CallStatementNode,
                        vec![
                            leaf(commented(
                                "call",
                                SyntaxKind::CallKeyword,
                                vec![SourceTrivia::Comment(
                                    "# This is attached to the call.".to_string(),
                                )],
                                None,
                            )),
                            node(
                                SyntaxKind::CallTargetNode,
                                vec![leaf(token("foo", SyntaxKind::Ident))],
                            ),
                            leaf(token("{", SyntaxKind::OpenBrace)),
                            leaf(token("}", SyntaxKind::CloseBrace)),
                        ],
                    ),
                    leaf(commented(
                        "}",
                        SyntaxKind::CloseBrace,
                        Vec::new(),
                        Some("# This is an inline comment on the workflow."),
                    )),
                ],
            ),
        ],
    );

    let text = Formatter::default().format(&document);
    println!("{text}");
    assert_eq!(
        text,
        "version 1.2\n\n# This is a comment attached to the task.\ntask foo  # This is an inline comment on the task ident.\n{\n\n}  # This is an inline comment on the task.\n\n    # This is a comment attached to the workflow.\n    workflow bar  # This is an inline comment on the workflow ident.\n    {\n        # This is attached to the call.\n        call foo {\n        }\n    }  # This is an inline comment on the workflow.\n"
    );
}

#[test]
fn version_statement_words() {
    let version = node(
        SyntaxKind::VersionStatementNode,
        vec![
            leaf(token("version", SyntaxKind::VersionKeyword)),
            leaf(token("1.1", SyntaxKind::Version)),
        ],
    );
    let mut stream: TokenStream<PreToken> = TokenStream::default();
    version.write(&mut stream);
    let tokens = stream.into_vec();
    assert_eq!(tokens.len(), 4);
    assert!(matches!(&tokens[0], PreToken::Literal(s, SyntaxKind::VersionKeyword) if s == "version"));
    assert!(matches!(tokens[1], PreToken::WordEnd));
    assert!(matches!(&tokens[2], PreToken::Literal(s, SyntaxKind::Version) if s == "1.1"));
    assert!(matches!(tokens[3], PreToken::LineEnd));
}

#[test]
fn empty_task_is_formatted() {
    let document = node(
        SyntaxKind::RootNode,
        vec![
            node(
                SyntaxKind::VersionStatementNode,
                vec![
                    leaf(token("version", SyntaxKind::VersionKeyword)),
                    leaf(token("1.2", SyntaxKind::Version)),
                ],
            ),
            node(
                SyntaxKind::TaskDefinitionNode,
                vec![
                    leaf(token("task", SyntaxKind::TaskKeyword)),
                    leaf(token("foo", SyntaxKind::Ident)),
                    leaf(token("{", SyntaxKind::OpenBrace)),
                    leaf(token("}", SyntaxKind::CloseBrace)),
                ],
            ),
        ],
    );
    let text = Formatter::default().format(&document);
    assert_eq!(text, "version 1.2\n\ntask foo {\n}\n");
}

#[test]
fn trivia_is_left_out_of_elements() {
    let tree = raw_node(
        SyntaxKind::CallTargetNode,
        vec![
            raw_token(" ", SyntaxKind::Whitespace),
            raw_token("foo", SyntaxKind::Ident),
            raw_token("# note", SyntaxKind::Comment),
        ],
    );
    let element = tree.into_format_element();
    assert_eq!(kinds(&element), vec![SyntaxKind::Ident]);

    let token_tree = SyntaxTree::new(
        Element::Token(token("x", SyntaxKind::Ident)),
        vec![raw_token("y", SyntaxKind::Ident)],
    );
    assert!(token_tree.into_format_element().children().is_none());
}

fn formatted(write: impl Fn(&mut TokenStream<PreToken>)) -> String {
    let mut stream: TokenStream<PreToken> = TokenStream::default();
    write(&mut stream);
    Formatter::default().format_stream(stream)
}

#[test]
fn struct_definition_is_formatted() {
    let element = node(
        SyntaxKind::StructDefinitionNode,
        vec![
            leaf(token("struct", SyntaxKind::StructKeyword)),
            leaf(token("Foo", SyntaxKind::Ident)),
            leaf(token("{", SyntaxKind::OpenBrace)),
            leaf(token("}", SyntaxKind::CloseBrace)),
        ],
    );
    let text = formatted(|s| format_struct_definition(&element, s));
    assert_eq!(text, "struct Foo {\n}\n");
}

#[test]
fn conditional_and_scatter_are_formatted() {
    let conditional = node(
        SyntaxKind::ConditionalStatementNode,
        vec![
            leaf(token("if", SyntaxKind::IfKeyword)),
            leaf(token("(", SyntaxKind::OpenParen)),
            leaf(token("x", SyntaxKind::Ident)),
            leaf(token(")", SyntaxKind::CloseParen)),
            leaf(token("{", SyntaxKind::OpenBrace)),
            leaf(token("}", SyntaxKind::CloseBrace)),
        ],
    );
    let text = formatted(|s| format_conditional_statement(&conditional, s));
    assert_eq!(text, "if (x) {\n}\n");

    let scatter = node(
        SyntaxKind::ScatterStatementNode,
        vec![
            leaf(token("scatter", SyntaxKind::ScatterKeyword)),
            leaf(token("(", SyntaxKind::OpenParen)),
            leaf(token("i", SyntaxKind::Ident)),
            leaf(token("in", SyntaxKind::InKeyword)),
            leaf(token("xs", SyntaxKind::Ident)),
            leaf(token(")", SyntaxKind::CloseParen)),
            leaf(token("{", SyntaxKind::OpenBrace)),
            leaf(token("}", SyntaxKind::CloseBrace)),
        ],
    );
    let text = formatted(|s| format_scatter_statement(&scatter, s));
    assert_eq!(text, "scatter (i in xs) {\n}\n");
}

#[test]
fn import_alias_words() {
    let alias = node(
        SyntaxKind::ImportAliasNode,
        vec![
            leaf(token("alias", SyntaxKind::Other(7))),
            leaf(token("Foo", SyntaxKind::Ident)),
            leaf(token("as", SyntaxKind::Other(8))),
            leaf(token("Bar", SyntaxKind::Ident)),
        ],
    );
    let mut stream: TokenStream<PreToken> = TokenStream::default();
    format_import_alias(&alias, &mut stream);
    let words: Vec<String> = stream
        .into_vec()
        .into_iter()
        .filter_map(|t| match t {
            PreToken::Literal(s, _) => Some(s),
            PreToken::WordEnd => Some(" ".to_string()),
            _ => None,
        })
        .collect();
    assert_eq!(words.concat(), "alias Foo as Bar ");
}

#[test]
fn children_are_grouped_by_kind() {
    let task = node(
        SyntaxKind::TaskDefinitionNode,
        vec![
            leaf(token("task", SyntaxKind::TaskKeyword)),
            leaf(token("foo", SyntaxKind::Ident)),
            leaf(token("{", SyntaxKind::OpenBrace)),
            leaf(token("bar", SyntaxKind::Ident)),
            leaf(token("}", SyntaxKind::CloseBrace)),
        ],
    );
    let groups = task.children_by_kind();
    let summary: Vec<(SyntaxKind, Vec<String>)> = groups
        .iter()
        .map(|(k, es)| {
            let texts = es
                .iter()
                .map(|e| e.element().as_token().unwrap().text.clone())
                .collect();
            (*k, texts)
        })
        .collect();
    assert_eq!(
        summary,
        vec![
            (SyntaxKind::TaskKeyword, vec!["task".to_string()]),
            (SyntaxKind::Ident, vec!["foo".to_string(), "bar".to_string()]),
            (SyntaxKind::OpenBrace, vec!["{".to_string()]),
            (SyntaxKind::CloseBrace, vec!["}".to_string()]),
        ]
    );
    assert!(leaf(token("x", SyntaxKind::Ident)).children_by_kind().is_empty());
}

#[test]
fn literal_string_quotes_become_double() {
    let string = node(
        SyntaxKind::LiteralStringNode,
        vec![
            leaf(commented("'", SyntaxKind::SingleQuote, vec![SourceTrivia::Comment("# a  ".to_string())], None)),
            leaf(token("hello", SyntaxKind::Other(9))),
            leaf(token("'", SyntaxKind::SingleQuote)),
        ],
    );
    let mut stream: TokenStream<PreToken> = TokenStream::default();
    format_literal_string(&string, &mut stream);
    let tokens = stream.into_vec();
    assert_eq!(tokens.len(), 4);
    assert!(matches!(&tokens[0], PreToken::Trivia(Trivia::Comment(Comment::Preceding(c))) if c == "# a"));
    assert!(matches!(&tokens[1], PreToken::Literal(s, SyntaxKind::SingleQuote) if s == "\""));
    assert!(matches!(&tokens[2], PreToken::Literal(s, _) if s == "hello"));
    assert!(matches!(&tokens[3], PreToken::Literal(s, SyntaxKind::SingleQuote) if s == "\""));
}

#[test]
fn empty_metadata_object_opens_a_block() {
    let object = node(
        SyntaxKind::Other(11),
        vec![
            leaf(token("{", SyntaxKind::OpenBrace)),
            leaf(token("}", SyntaxKind::CloseBrace)),
        ],
    );
    let mut stream: TokenStream<PreToken> = TokenStream::default();
    format_metadata_object(&object, &mut stream);
    let tokens = stream.into_vec();
    assert_eq!(tokens.len(), 3);
    assert!(matches!(&tokens[0], PreToken::Literal(s, SyntaxKind::OpenBrace) if s == "{"));
    assert!(matches!(&tokens[1], PreToken::LineEnd));
    assert!(matches!(&tokens[2], PreToken::IndentStart));
}

#[test]
fn pushed_literal_replaces_token_text() {
    let mut stream: TokenStream<PreToken> = TokenStream::default();
    let t = commented("'", SyntaxKind::SingleQuote, vec![], Some("# end  "));
    stream.push_literal_in_place_of_token(&t, "\"".to_string());
    stream.push_literal(",".to_string(), SyntaxKind::Comma);
    let tokens = stream.into_vec();
    assert_eq!(tokens.len(), 3);
    assert!(matches!(&tokens[0], PreToken::Literal(s, SyntaxKind::SingleQuote) if s == "\""));
    assert!(matches!(&tokens[1], PreToken::Trivia(Trivia::Comment(Comment::Inline(c))) if c == "# end"));
    assert!(matches!(&tokens[2], PreToken::Literal(s, SyntaxKind::Comma) if s == ","));
}
