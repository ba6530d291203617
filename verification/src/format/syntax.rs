//! The kinds of syntax elements that formatting decisions read.
use vstd::prelude::*;

verus! {

/// The kind of a syntax element, as far as formatting is concerned.
///
/// Kinds that no formatting rule singles out are carried as `Other` with a
/// raw discriminant so that distinct kinds stay distinct.
#[derive(Clone, Copy, Debug, PartialEq, Eq, Structural)]
pub enum SyntaxKind {
    /// `{`
    OpenBrace,
    /// `[`
    OpenBracket,
    /// `(`
    OpenParen,
    /// `<<<`
    OpenHeredoc,
    /// `}`
    CloseBrace,
    /// `]`
    CloseBracket,
    /// `)`
    CloseParen,
    /// `>>>`
    CloseHeredoc,
    /// A comment.
    Comment,
    /// Whitespace.
    Whitespace,
    /// A single quote.
    SingleQuote,
    /// The `version` keyword.
    VersionKeyword,
    /// The `call` keyword.
    CallKeyword,
    /// A version statement node.
    VersionStatementNode,
    /// An import statement node.
    ImportStatementNode,
    /// A call target node.
    CallTargetNode,
    /// The root node of a document.
    RootNode,
    /// A task definition node.
    TaskDefinitionNode,
    /// A workflow definition node.
    WorkflowDefinitionNode,
    /// A struct definition node.
    StructDefinitionNode,
    /// A call statement node.
    CallStatementNode,
    /// A conditional statement node.
    ConditionalStatementNode,
    /// A scatter statement node.
    ScatterStatementNode,
    /// An input section node.
    InputSectionNode,
    /// An output section node.
    OutputSectionNode,
    /// A command section node.
    CommandSectionNode,
    /// A runtime section node.
    RuntimeSectionNode,
    /// A metadata section node.
    MetadataSectionNode,
    /// A parameter metadata section node.
    ParameterMetadataSectionNode,
    /// A metadata object item node.
    MetadataObjectItemNode,
    /// A bound declaration node.
    BoundDeclNode,
    /// An unbound declaration node.
    UnboundDeclNode,
    /// The `task` keyword.
    TaskKeyword,
    /// The `workflow` keyword.
    WorkflowKeyword,
    /// The `struct` keyword.
    StructKeyword,
    /// The `input` keyword.
    InputKeyword,
    /// The `meta` keyword.
    MetaKeyword,
    /// The `parameter_meta` keyword.
    ParameterMetaKeyword,
    /// The `if` keyword.
    IfKeyword,
    /// The `scatter` keyword.
    ScatterKeyword,
    /// The `in` keyword.
    InKeyword,
    /// An identifier.
    Ident,
    /// A version number.
    Version,
    /// `:`
    Colon,
    /// `,`
    Comma,
    /// The `import` keyword.
    ImportKeyword,
    /// An import alias node.
    ImportAliasNode,
    /// The `as` keyword.
    AsKeyword,
    /// The `alias` keyword.
    AliasKeyword,
    /// A double quote.
    DoubleQuote,
    /// The text of a literal string.
    LiteralStringText,
    /// `=`
    Assignment,
    /// The `after` keyword.
    AfterKeyword,
    /// The `true` keyword.
    TrueKeyword,
    /// The `false` keyword.
    FalseKeyword,
    /// A placeholder node.
    PlaceholderNode,
    /// A `sep` placeholder option node.
    PlaceholderSepOptionNode,
    /// A `default` placeholder option node.
    PlaceholderDefaultOptionNode,
    /// A `true`/`false` placeholder option node.
    PlaceholderTrueFalseOptionNode,
    /// A call alias node.
    CallAliasNode,
    /// A call `after` clause node.
    CallAfterNode,
    /// A call input item node.
    CallInputItemNode,
    /// A literal string node.
    LiteralStringNode,
    /// Any other kind, by raw discriminant.
    Other(u16),
}

impl SyntaxKind {
    /// Whether the kind is trivia (whitespace or a comment).
    pub open spec fn spec_is_trivia(self) -> bool {
        self == SyntaxKind::Comment || self == SyntaxKind::Whitespace
    }

    /// Whether the kind is trivia (whitespace or a comment).
    pub fn is_trivia(&self) -> (b: bool)
        ensures
            b == self.spec_is_trivia(),
    {
        match self {
            SyntaxKind::Comment | SyntaxKind::Whitespace => true,
            _ => false,
        }
    }
}

} // verus!
