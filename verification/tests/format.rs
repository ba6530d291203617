use wdl::format::call::CallStatement;
use wdl::format::comments::SyntaxElement;
use wdl::format::config::Builder;
use wdl::format::config::Config;
use wdl::format::config::Indent;
use wdl::format::config::MaxLineLength;
use wdl::format::config::SortInputs;
use wdl::format::formatter::Formatter;
use wdl::format::import::ImportStatement;
use wdl::format::imports::format_imports;
use wdl::format::post::can_be_line_broken;
use wdl::format::post::LineBreak;
use wdl::format::post::PostToken;
use wdl::format::pre::PreToken;
use wdl::format::pre::SourceToken;
use wdl::format::pre::SourceTrivia;
use wdl::format::state::FormatState;
use wdl::format::state::State;
use wdl::format::syntax::SyntaxKind;
use wdl::format::workflow::ConditionalStatement;
use wdl::format::workflow::ScatterStatement;
use wdl::format::token::TokenStream;

fn word(s: &str) -> PreToken {
    PreToken::Literal(s.to_string(), SyntaxKind::Other(0))
}

#[test]
fn config_defaults() {
    let config = Config::default();
    assert_eq!(config.indent(), Indent::Spaces(4));
    assert_eq!(config.max_line_length(), Some(90));
    assert_eq!(Indent::Tabs.num(), 1);
    assert_eq!(Indent::Spaces(2).num(), 2);
    assert!(SortInputs::try_new(true).get());
    assert!(!SortInputs::try_new(false).get());
}

#[test]
fn max_line_length_bounds() {
    assert!(MaxLineLength::with_value(59).is_err());
    assert!(MaxLineLength::with_value(241).is_err());
    assert_eq!(MaxLineLength::with_value(60).unwrap().get(), Some(60));
    assert_eq!(MaxLineLength::with_value(0).unwrap().get(), None);
}

#[test]
fn builder_fills_defaults() {
    let config = Builder::default().indent(Indent::Tabs).build();
    assert_eq!(config.indent(), Indent::Tabs);
    assert_eq!(config.max_line_length(), Some(90));
    let config = Builder::default()
        .max_line_length(MaxLineLength::with_value(120).unwrap())
        .build();
    assert_eq!(config.indent(), Indent::Spaces(4));
    assert_eq!(config.max_line_length(), Some(120));
}

#[test]
fn stream_end_word_and_line_are_idempotent() {
    let mut stream: TokenStream<PreToken> = TokenStream::default();
    stream.push(word("version"));
    stream.end_word();
    stream.end_word();
    stream.push(word("1.2"));
    stream.end_line();
    stream.end_line();
    assert_eq!(stream.iter().len(), 4);
    assert!(matches!(stream.iter()[1], PreToken::WordEnd));
    assert!(matches!(stream.iter()[3], PreToken::LineEnd));
}

#[test]
fn formats_a_version_statement() {
    let mut stream: TokenStream<PreToken> = TokenStream::default();
    stream.push(word("version"));
    stream.end_word();
    stream.push(word("1.2"));
    stream.end_line();
    let text = Formatter::default().format_stream(stream);
    assert_eq!(text, "version 1.2\n");
}

#[test]
fn formats_an_indented_block() {
    let mut stream: TokenStream<PreToken> = TokenStream::default();
    stream.push(word("workflow"));
    stream.end_word();
    stream.push(word("w"));
    stream.end_word();
    stream.push(word("{"));
    stream.end_line();
    stream.increment_indent();
    stream.push(word("call"));
    stream.end_word();
    stream.push(word("foo"));
    stream.end_line();
    stream.decrement_indent();
    stream.push(word("}"));
    stream.end_line();
    let text = Formatter::default().format_stream(stream);
    assert_eq!(text, "workflow w {\n    call foo\n}\n");
    let tabs = Formatter::new(Builder::default().indent(Indent::Tabs).build());
    let mut stream: TokenStream<PreToken> = TokenStream::default();
    stream.push(word("{"));
    stream.end_line();
    stream.increment_indent();
    stream.push(word("x"));
    stream.end_line();
    stream.decrement_indent();
    stream.push(word("}"));
    stream.end_line();
    assert_eq!(tabs.format_stream(stream), "{\n\tx\n}\n");
}

#[test]
fn comments_before_a_token_are_kept() {
    let mut stream: TokenStream<PreToken> = TokenStream::default();
    let token = SourceToken {
        text: "task".to_string(),
        kind: SyntaxKind::Other(1),
        preceding: vec![SourceTrivia::Comment("# a comment   ".to_string())],
        inline_comment: None,
    };
    stream.push_ast_token(&token);
    stream.end_line();
    let text = Formatter::default().format_stream(stream);
    assert_eq!(text, "# a comment\ntask\n");
}

#[test]
fn state_indents() {
    let mut state = State::default();
    let mut out = String::new();
    state.increment_indent();
    state.indent(&mut out);
    assert_eq!(out, "    ");
    state.decrement_indent();
    let mut out = String::new();
    state.indent(&mut out);
    assert_eq!(out, "");

    let mut fs = FormatState::default();
    assert!(!fs.interrupted());
    fs.interrupt();
    assert!(fs.interrupted());
    fs.reset_interrupted();
    assert!(!fs.interrupted());
}

#[test]
fn brackets_are_where_lines_break() {
    assert_eq!(can_be_line_broken(SyntaxKind::OpenBrace), Some(LineBreak::After));
    assert_eq!(can_be_line_broken(SyntaxKind::OpenHeredoc), Some(LineBreak::After));
    assert_eq!(can_be_line_broken(SyntaxKind::CloseParen), Some(LineBreak::Before));
    assert_eq!(can_be_line_broken(SyntaxKind::Ident), None);
}

#[test]
fn streams_with_the_same_texts_format_alike() {
    let build = |words: &[String]| {
        let mut stream: TokenStream<PreToken> = TokenStream::default();
        for w in words {
            stream.push(PreToken::Literal(w.clone(), SyntaxKind::Other(0)));
            stream.end_word();
        }
        stream.end_line();
        stream
    };
    let first: Vec<String> = vec!["call".to_string(), "foo".to_string()];
    let second: Vec<String> = "call foo".split(' ').map(|s| s.to_string()).collect();
    let formatter = Formatter::default();
    let a = formatter.format_stream(build(&first));
    let b = formatter.format_stream(build(&second));
    assert_eq!(a, "call foo\n");
    assert_eq!(a, b);
}

fn tok(kind: SyntaxKind, text: &str) -> SyntaxElement {
    SyntaxElement::Token(kind, text.to_string())
}

fn uri(text: &str) -> SyntaxElement {
    SyntaxElement::Node(
        SyntaxKind::LiteralStringNode,
        vec![
            tok(SyntaxKind::DoubleQuote, "\""),
            tok(SyntaxKind::LiteralStringText, text),
            tok(SyntaxKind::DoubleQuote, "\""),
        ],
    )
}

fn format_import(siblings: &[SyntaxElement], index: usize) -> String {
    let mut buffer = String::new();
    let mut state = State::default();
    ImportStatement { siblings, index }.format(&mut buffer, &mut state);
    buffer
}

#[test]
fn import_statement_on_one_line() {
    let import = SyntaxElement::Node(
        SyntaxKind::ImportStatementNode,
        vec![
            tok(SyntaxKind::ImportKeyword, "import"),
            tok(SyntaxKind::Whitespace, "   "),
            uri("foo.wdl"),
            tok(SyntaxKind::Whitespace, " "),
            tok(SyntaxKind::AsKeyword, "as"),
            tok(SyntaxKind::Whitespace, "  "),
            tok(SyntaxKind::Ident, "foo"),
        ],
    );
    assert_eq!(format_import(&[import], 0), "import \"foo.wdl\" as foo\n");
}

#[test]
fn import_statement_keeps_its_comments() {
    let import = SyntaxElement::Node(
        SyntaxKind::ImportStatementNode,
        vec![
            tok(SyntaxKind::ImportKeyword, "import"),
            tok(SyntaxKind::Whitespace, " "),
            uri("lib.wdl"),
            tok(SyntaxKind::Whitespace, " "),
            tok(SyntaxKind::AsKeyword, "as"),
            tok(SyntaxKind::Whitespace, "\n"),
            tok(SyntaxKind::Comment, "## why  "),
            tok(SyntaxKind::Whitespace, "\n"),
            tok(SyntaxKind::Ident, "lib"),
            tok(SyntaxKind::Whitespace, " "),
            SyntaxElement::Node(
                SyntaxKind::ImportAliasNode,
                vec![
                    tok(SyntaxKind::AliasKeyword, "alias"),
                    tok(SyntaxKind::Whitespace, " "),
                    tok(SyntaxKind::Ident, "A"),
                    tok(SyntaxKind::Whitespace, " "),
                    tok(SyntaxKind::AsKeyword, "as"),
                    tok(SyntaxKind::Whitespace, " "),
                    tok(SyntaxKind::Ident, "B"),
                ],
            ),
        ],
    );
    let siblings = vec![
        SyntaxElement::Node(SyntaxKind::VersionStatementNode, vec![]),
        tok(SyntaxKind::Whitespace, "\n\n"),
        tok(SyntaxKind::Comment, "# first"),
        tok(SyntaxKind::Whitespace, "\n\n\n"),
        tok(SyntaxKind::Comment, "# second"),
        tok(SyntaxKind::Whitespace, "\n"),
        import,
    ];
    assert_eq!(
        format_import(&siblings, 6),
        "# first\n\n# second\nimport \"lib.wdl\" as\n    # why\n    lib alias A as B\n"
    );
}

#[test]
fn tokens_show_their_kind_after_padded_text() {
    let literal = PreToken::Literal("version".to_string(), SyntaxKind::VersionKeyword);
    assert_eq!(
        literal.display(),
        format!("version{}<Literal@VersionKeyword>", " ".repeat(83))
    );
    assert_eq!(PreToken::LineEnd.display(), "<EOL>");
    assert_eq!(
        PreToken::BlankLine.display(),
        format!("{}<BlankLine>", " ".repeat(90))
    );
    assert_eq!(
        PreToken::Literal("x".to_string(), SyntaxKind::Other(7)).display(),
        format!("x{}<Literal@Other(7)>", " ".repeat(89))
    );
    assert_eq!(PostToken::Literal("task".to_string()).debug_text(), "<LITERAL@task>");
    assert_eq!(PostToken::Indent.debug_text(), "<INDENT>");
    let mut stream: TokenStream<PreToken> = TokenStream::default();
    stream.push(PreToken::WordEnd);
    stream.push(PreToken::IndentStart);
    assert_eq!(stream.display(), "<WordEnd><IndentStart>");
}

fn node(kind: SyntaxKind, children: Vec<SyntaxElement>) -> SyntaxElement {
    SyntaxElement::Node(kind, children)
}

fn format_call(siblings: &[SyntaxElement], index: usize) -> String {
    let mut buffer = String::new();
    let mut state = State::default();
    CallStatement { siblings, index }.format(&mut buffer, &mut state);
    buffer
}

#[test]
fn call_with_one_input_stays_on_one_line() {
    let sep = node(
        SyntaxKind::PlaceholderSepOptionNode,
        vec![
            tok(SyntaxKind::Ident, "sep"),
            tok(SyntaxKind::Assignment, "="),
            node(
                SyntaxKind::LiteralStringNode,
                vec![
                    tok(SyntaxKind::SingleQuote, "'"),
                    tok(SyntaxKind::LiteralStringText, ","),
                    tok(SyntaxKind::SingleQuote, "'"),
                ],
            ),
        ],
    );
    let placeholder = node(
        SyntaxKind::PlaceholderNode,
        vec![
            tok(SyntaxKind::Other(3), "${"),
            sep,
            tok(SyntaxKind::Whitespace, "  "),
            node(SyntaxKind::Other(4), vec![tok(SyntaxKind::Ident, "y")]),
            tok(SyntaxKind::CloseBrace, "}"),
        ],
    );
    let value = node(
        SyntaxKind::LiteralStringNode,
        vec![
            tok(SyntaxKind::SingleQuote, "'"),
            tok(SyntaxKind::LiteralStringText, "x"),
            placeholder,
            tok(SyntaxKind::SingleQuote, "'"),
        ],
    );
    let call = node(
        SyntaxKind::CallStatementNode,
        vec![
            tok(SyntaxKind::CallKeyword, "call"),
            tok(SyntaxKind::Whitespace, "  "),
            node(SyntaxKind::CallTargetNode, vec![tok(SyntaxKind::Ident, "foo")]),
            tok(SyntaxKind::Whitespace, " "),
            node(
                SyntaxKind::CallAliasNode,
                vec![
                    tok(SyntaxKind::AsKeyword, "as"),
                    tok(SyntaxKind::Whitespace, " "),
                    tok(SyntaxKind::Ident, "bar"),
                ],
            ),
            tok(SyntaxKind::Whitespace, " "),
            tok(SyntaxKind::OpenBrace, "{"),
            tok(SyntaxKind::Whitespace, " "),
            tok(SyntaxKind::InputKeyword, "input"),
            tok(SyntaxKind::Colon, ":"),
            tok(SyntaxKind::Whitespace, " "),
            node(
                SyntaxKind::CallInputItemNode,
                vec![
                    tok(SyntaxKind::Ident, "a"),
                    tok(SyntaxKind::Assignment, "="),
                    value,
                ],
            ),
            tok(SyntaxKind::Whitespace, " "),
            tok(SyntaxKind::CloseBrace, "}"),
        ],
    );
    assert_eq!(
        format_call(&[call], 0),
        "call foo as bar { input: a = \"x~{sep = \",\" y}\" }\n"
    );
}

#[test]
fn call_with_several_inputs_puts_each_on_its_line() {
    let call = node(
        SyntaxKind::CallStatementNode,
        vec![
            tok(SyntaxKind::CallKeyword, "call"),
            tok(SyntaxKind::Whitespace, " "),
            node(SyntaxKind::CallTargetNode, vec![tok(SyntaxKind::Ident, "foo")]),
            tok(SyntaxKind::Whitespace, " "),
            tok(SyntaxKind::OpenBrace, "{"),
            tok(SyntaxKind::Whitespace, "\n  "),
            tok(SyntaxKind::InputKeyword, "input"),
            tok(SyntaxKind::Colon, ":"),
            tok(SyntaxKind::Whitespace, " "),
            node(
                SyntaxKind::CallInputItemNode,
                vec![
                    tok(SyntaxKind::Ident, "a"),
                    tok(SyntaxKind::Assignment, "="),
                    node(SyntaxKind::Other(1), vec![tok(SyntaxKind::Other(2), "1")]),
                ],
            ),
            tok(SyntaxKind::Comma, ","),
            tok(SyntaxKind::Whitespace, " "),
            node(SyntaxKind::CallInputItemNode, vec![tok(SyntaxKind::Ident, "b")]),
            tok(SyntaxKind::Whitespace, "\n"),
            tok(SyntaxKind::CloseBrace, "}"),
        ],
    );
    assert_eq!(
        format_call(&[call], 0),
        "call foo { input:\n    a = 1,\n    b,\n}\n"
    );
}

fn listed_import(uri_text: &str, alias: Option<&str>) -> SyntaxElement {
    let mut children = vec![
        tok(SyntaxKind::ImportKeyword, "import"),
        tok(SyntaxKind::Whitespace, " "),
        uri(uri_text),
    ];
    if let Some(name) = alias {
        children.push(tok(SyntaxKind::Whitespace, " "));
        children.push(tok(SyntaxKind::AsKeyword, "as"));
        children.push(tok(SyntaxKind::Whitespace, " "));
        children.push(tok(SyntaxKind::Ident, name));
    }
    node(SyntaxKind::ImportStatementNode, children)
}

#[test]
fn imports_are_sorted_by_key_and_the_last_of_a_key_wins() {
    let siblings = vec![
        node(SyntaxKind::VersionStatementNode, vec![]),
        tok(SyntaxKind::Whitespace, "\n\n"),
        listed_import("b.wdl", None),
        tok(SyntaxKind::Whitespace, "\n"),
        listed_import("a.wdl", Some("x")),
        tok(SyntaxKind::Whitespace, "\n"),
        tok(SyntaxKind::Comment, "# again"),
        tok(SyntaxKind::Whitespace, "\n"),
        listed_import("b.wdl", None),
    ];
    assert_eq!(
        format_imports(&siblings),
        "import \"a.wdl\"\n    as x\n# again\nimport \"b.wdl\"\n"
    );
}

fn small_call(target: &str) -> SyntaxElement {
    node(
        SyntaxKind::CallStatementNode,
        vec![
            tok(SyntaxKind::CallKeyword, "call"),
            tok(SyntaxKind::Whitespace, " "),
            node(SyntaxKind::CallTargetNode, vec![tok(SyntaxKind::Ident, target)]),
        ],
    )
}

#[test]
fn scatter_holds_its_statements_one_level_deeper() {
    let decl = node(
        SyntaxKind::BoundDeclNode,
        vec![
            node(SyntaxKind::Other(6), vec![tok(SyntaxKind::Other(7), "Int")]),
            tok(SyntaxKind::Whitespace, " "),
            tok(SyntaxKind::Ident, "y"),
            tok(SyntaxKind::Whitespace, " "),
            tok(SyntaxKind::Assignment, "="),
            tok(SyntaxKind::Whitespace, " "),
            node(SyntaxKind::Other(1), vec![tok(SyntaxKind::Other(2), "1")]),
        ],
    );
    let scatter = node(
        SyntaxKind::ScatterStatementNode,
        vec![
            tok(SyntaxKind::ScatterKeyword, "scatter"),
            tok(SyntaxKind::Whitespace, " "),
            tok(SyntaxKind::OpenParen, "("),
            tok(SyntaxKind::Ident, "x"),
            tok(SyntaxKind::Whitespace, " "),
            tok(SyntaxKind::InKeyword, "in"),
            tok(SyntaxKind::Whitespace, " "),
            node(SyntaxKind::Other(5), vec![tok(SyntaxKind::Ident, "xs")]),
            tok(SyntaxKind::CloseParen, ")"),
            tok(SyntaxKind::Whitespace, " "),
            tok(SyntaxKind::OpenBrace, "{"),
            tok(SyntaxKind::Whitespace, "\n  "),
            small_call("foo"),
            tok(SyntaxKind::Whitespace, "\n  "),
            decl,
            tok(SyntaxKind::Whitespace, "\n"),
            tok(SyntaxKind::CloseBrace, "}"),
        ],
    );
    let siblings = vec![scatter];
    let mut buffer = String::new();
    let mut state = State::default();
    ScatterStatement { siblings: &siblings, index: 0 }.format(&mut buffer, &mut state);
    assert_eq!(buffer, "scatter (x in xs) {\n    call foo\n    Int y = 1\n}\n");
}

#[test]
fn conditional_holds_its_statements_one_level_deeper() {
    let conditional = node(
        SyntaxKind::ConditionalStatementNode,
        vec![
            tok(SyntaxKind::IfKeyword, "if"),
            tok(SyntaxKind::Whitespace, " "),
            tok(SyntaxKind::OpenParen, "("),
            node(SyntaxKind::Other(8), vec![tok(SyntaxKind::Ident, "flag")]),
            tok(SyntaxKind::CloseParen, ")"),
            tok(SyntaxKind::Whitespace, " "),
            tok(SyntaxKind::OpenBrace, "{"),
            tok(SyntaxKind::Whitespace, "\n  "),
            small_call("bar"),
            tok(SyntaxKind::Whitespace, "\n"),
            tok(SyntaxKind::CloseBrace, "}"),
        ],
    );
    let siblings = vec![conditional];
    let mut buffer = String::new();
    let mut state = State::default();
    ConditionalStatement { siblings: &siblings, index: 0 }.format(&mut buffer, &mut state);
    assert_eq!(buffer, "if (flag) {\n    call bar\n}\n");
}
