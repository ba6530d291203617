//! Texts that show tokens and token streams while debugging.
use vstd::prelude::*;
use vstd::string::*;

use super::post::PostToken;
use super::pre::BlankLinesAllowed;
use super::pre::Comment;
use super::pre::PreToken;
use super::pre::Trivia;
use super::state::append_repeated;
use super::state::repeat;
use super::syntax::SyntaxKind;
use super::token::TokenStream;
use crate::text::chars_of;
use crate::text::decimal;
use crate::text::spec_decimal;

verus! {

/// The width to which the text of a preprocessed token is padded.
pub const DISPLAY_LINE_LENGTH: usize = 90;

/// `s` padded with spaces on the right to `width` characters.
pub open spec fn padded(s: Seq<char>, width: nat) -> Seq<char> {
    if s.len() >= width {
        s
    } else {
        s + repeat(seq![' '], (width - s.len()) as nat)
    }
}

/// Appends `s` padded with spaces on the right to `width` characters.
fn push_padded(buffer: &mut String, s: &str, width: usize)
    ensures
        final(buffer)@ == old(buffer)@ + padded(s@, width as nat),
{
    buffer.append(s);
    let n = chars_of(s).len();
    if n < width {
        proof {
            reveal_strlit(" ");
            assert(" "@ =~= seq![' ']);
        }
        append_repeated(buffer, " ", width - n);
    }
    assert(buffer@ =~= old(buffer)@ + padded(s@, width as nat));
}

impl SyntaxKind {
    /// The name of the kind.
    pub open spec fn spec_name(self) -> Seq<char> {
        match self {
            SyntaxKind::OpenBrace => "OpenBrace"@,
            SyntaxKind::OpenBracket => "OpenBracket"@,
            SyntaxKind::OpenParen => "OpenParen"@,
            SyntaxKind::OpenHeredoc => "OpenHeredoc"@,
            SyntaxKind::CloseBrace => "CloseBrace"@,
            SyntaxKind::CloseBracket => "CloseBracket"@,
            SyntaxKind::CloseParen => "CloseParen"@,
            SyntaxKind::CloseHeredoc => "CloseHeredoc"@,
            SyntaxKind::Comment => "Comment"@,
            SyntaxKind::Whitespace => "Whitespace"@,
            SyntaxKind::SingleQuote => "SingleQuote"@,
            SyntaxKind::VersionKeyword => "VersionKeyword"@,
            SyntaxKind::CallKeyword => "CallKeyword"@,
            SyntaxKind::VersionStatementNode => "VersionStatementNode"@,
            SyntaxKind::ImportStatementNode => "ImportStatementNode"@,
            SyntaxKind::CallTargetNode => "CallTargetNode"@,
            SyntaxKind::RootNode => "RootNode"@,
            SyntaxKind::TaskDefinitionNode => "TaskDefinitionNode"@,
            SyntaxKind::WorkflowDefinitionNode => "WorkflowDefinitionNode"@,
            SyntaxKind::StructDefinitionNode => "StructDefinitionNode"@,
            SyntaxKind::CallStatementNode => "CallStatementNode"@,
            SyntaxKind::ConditionalStatementNode => "ConditionalStatementNode"@,
            SyntaxKind::ScatterStatementNode => "ScatterStatementNode"@,
            SyntaxKind::InputSectionNode => "InputSectionNode"@,
            SyntaxKind::OutputSectionNode => "OutputSectionNode"@,
            SyntaxKind::CommandSectionNode => "CommandSectionNode"@,
            SyntaxKind::RuntimeSectionNode => "RuntimeSectionNode"@,
            SyntaxKind::MetadataSectionNode => "MetadataSectionNode"@,
            SyntaxKind::ParameterMetadataSectionNode => "ParameterMetadataSectionNode"@,
            SyntaxKind::MetadataObjectItemNode => "MetadataObjectItemNode"@,
            SyntaxKind::BoundDeclNode => "BoundDeclNode"@,
            SyntaxKind::UnboundDeclNode => "UnboundDeclNode"@,
            SyntaxKind::TaskKeyword => "TaskKeyword"@,
            SyntaxKind::WorkflowKeyword => "WorkflowKeyword"@,
            SyntaxKind::StructKeyword => "StructKeyword"@,
            SyntaxKind::InputKeyword => "InputKeyword"@,
            SyntaxKind::MetaKeyword => "MetaKeyword"@,
            SyntaxKind::ParameterMetaKeyword => "ParameterMetaKeyword"@,
            SyntaxKind::IfKeyword => "IfKeyword"@,
            SyntaxKind::ScatterKeyword => "ScatterKeyword"@,
            SyntaxKind::InKeyword => "InKeyword"@,
            SyntaxKind::Ident => "Ident"@,
            SyntaxKind::Version => "Version"@,
            SyntaxKind::Colon => "Colon"@,
            SyntaxKind::Comma => "Comma"@,
            SyntaxKind::ImportKeyword => "ImportKeyword"@,
            SyntaxKind::ImportAliasNode => "ImportAliasNode"@,
            SyntaxKind::AsKeyword => "AsKeyword"@,
            SyntaxKind::AliasKeyword => "AliasKeyword"@,
            SyntaxKind::DoubleQuote => "DoubleQuote"@,
            SyntaxKind::LiteralStringText => "LiteralStringText"@,
            SyntaxKind::Assignment => "Assignment"@,
            SyntaxKind::AfterKeyword => "AfterKeyword"@,
            SyntaxKind::TrueKeyword => "TrueKeyword"@,
            SyntaxKind::FalseKeyword => "FalseKeyword"@,
            SyntaxKind::PlaceholderNode => "PlaceholderNode"@,
            SyntaxKind::PlaceholderSepOptionNode => "PlaceholderSepOptionNode"@,
            SyntaxKind::PlaceholderDefaultOptionNode => "PlaceholderDefaultOptionNode"@,
            SyntaxKind::PlaceholderTrueFalseOptionNode => "PlaceholderTrueFalseOptionNode"@,
            SyntaxKind::CallAliasNode => "CallAliasNode"@,
            SyntaxKind::CallAfterNode => "CallAfterNode"@,
            SyntaxKind::CallInputItemNode => "CallInputItemNode"@,
            SyntaxKind::LiteralStringNode => "LiteralStringNode"@,
            SyntaxKind::Other(n) => "Other("@ + spec_decimal(n as nat) + ")"@,
        }
    }

    /// Gets the name of the kind.
    pub fn name(&self) -> (s: String)
        ensures
            s@ == self.spec_name(),
    {
        match self {
            SyntaxKind::OpenBrace => String::from_str("OpenBrace"),
            SyntaxKind::OpenBracket => String::from_str("OpenBracket"),
            SyntaxKind::OpenParen => String::from_str("OpenParen"),
            SyntaxKind::OpenHeredoc => String::from_str("OpenHeredoc"),
            SyntaxKind::CloseBrace => String::from_str("CloseBrace"),
            SyntaxKind::CloseBracket => String::from_str("CloseBracket"),
            SyntaxKind::CloseParen => String::from_str("CloseParen"),
            SyntaxKind::CloseHeredoc => String::from_str("CloseHeredoc"),
            SyntaxKind::Comment => String::from_str("Comment"),
            SyntaxKind::Whitespace => String::from_str("Whitespace"),
            SyntaxKind::SingleQuote => String::from_str("SingleQuote"),
            SyntaxKind::VersionKeyword => String::from_str("VersionKeyword"),
            SyntaxKind::CallKeyword => String::from_str("CallKeyword"),
            SyntaxKind::VersionStatementNode => String::from_str("VersionStatementNode"),
            SyntaxKind::ImportStatementNode => String::from_str("ImportStatementNode"),
            SyntaxKind::CallTargetNode => String::from_str("CallTargetNode"),
            SyntaxKind::RootNode => String::from_str("RootNode"),
            SyntaxKind::TaskDefinitionNode => String::from_str("TaskDefinitionNode"),
            SyntaxKind::WorkflowDefinitionNode => String::from_str("WorkflowDefinitionNode"),
            SyntaxKind::StructDefinitionNode => String::from_str("StructDefinitionNode"),
            SyntaxKind::CallStatementNode => String::from_str("CallStatementNode"),
            SyntaxKind::ConditionalStatementNode => String::from_str("ConditionalStatementNode"),
            SyntaxKind::ScatterStatementNode => String::from_str("ScatterStatementNode"),
            SyntaxKind::InputSectionNode => String::from_str("InputSectionNode"),
            SyntaxKind::OutputSectionNode => String::from_str("OutputSectionNode"),
            SyntaxKind::CommandSectionNode => String::from_str("CommandSectionNode"),
            SyntaxKind::RuntimeSectionNode => String::from_str("RuntimeSectionNode"),
            SyntaxKind::MetadataSectionNode => String::from_str("MetadataSectionNode"),
            SyntaxKind::ParameterMetadataSectionNode => String::from_str("ParameterMetadataSectionNode"),
            SyntaxKind::MetadataObjectItemNode => String::from_str("MetadataObjectItemNode"),
            SyntaxKind::BoundDeclNode => String::from_str("BoundDeclNode"),
            SyntaxKind::UnboundDeclNode => String::from_str("UnboundDeclNode"),
            SyntaxKind::TaskKeyword => String::from_str("TaskKeyword"),
            SyntaxKind::WorkflowKeyword => String::from_str("WorkflowKeyword"),
            SyntaxKind::StructKeyword => String::from_str("StructKeyword"),
            SyntaxKind::InputKeyword => String::from_str("InputKeyword"),
            SyntaxKind::MetaKeyword => String::from_str("MetaKeyword"),
            SyntaxKind::ParameterMetaKeyword => String::from_str("ParameterMetaKeyword"),
            SyntaxKind::IfKeyword => String::from_str("IfKeyword"),
            SyntaxKind::ScatterKeyword => String::from_str("ScatterKeyword"),
            SyntaxKind::InKeyword => String::from_str("InKeyword"),
            SyntaxKind::Ident => String::from_str("Ident"),
            SyntaxKind::Version => String::from_str("Version"),
            SyntaxKind::Colon => String::from_str("Colon"),
            SyntaxKind::Comma => String::from_str("Comma"),
            SyntaxKind::ImportKeyword => String::from_str("ImportKeyword"),
            SyntaxKind::ImportAliasNode => String::from_str("ImportAliasNode"),
            SyntaxKind::AsKeyword => String::from_str("AsKeyword"),
            SyntaxKind::AliasKeyword => String::from_str("AliasKeyword"),
            SyntaxKind::DoubleQuote => String::from_str("DoubleQuote"),
            SyntaxKind::LiteralStringText => String::from_str("LiteralStringText"),
            SyntaxKind::Assignment => String::from_str("Assignment"),
            SyntaxKind::AfterKeyword => String::from_str("AfterKeyword"),
            SyntaxKind::TrueKeyword => String::from_str("TrueKeyword"),
            SyntaxKind::FalseKeyword => String::from_str("FalseKeyword"),
            SyntaxKind::PlaceholderNode => String::from_str("PlaceholderNode"),
            SyntaxKind::PlaceholderSepOptionNode => String::from_str("PlaceholderSepOptionNode"),
            SyntaxKind::PlaceholderDefaultOptionNode => String::from_str("PlaceholderDefaultOptionNode"),
            SyntaxKind::PlaceholderTrueFalseOptionNode => String::from_str("PlaceholderTrueFalseOptionNode"),
            SyntaxKind::CallAliasNode => String::from_str("CallAliasNode"),
            SyntaxKind::CallAfterNode => String::from_str("CallAfterNode"),
            SyntaxKind::CallInputItemNode => String::from_str("CallInputItemNode"),
            SyntaxKind::LiteralStringNode => String::from_str("LiteralStringNode"),
            SyntaxKind::Other(n) => {
                let mut s = String::from_str("Other(");
                let d = decimal(*n as u64);
                s.append(d.as_str());
                s.append(")");
                s
            },
        }
    }
}

impl BlankLinesAllowed {
    /// The name of the setting.
    pub open spec fn spec_name(self) -> Seq<char> {
        match self {
            BlankLinesAllowed::Yes => "Yes"@,
            BlankLinesAllowed::No => "No"@,
            BlankLinesAllowed::BetweenComments => "BetweenComments"@,
        }
    }

    /// Gets the name of the setting.
    pub fn name(&self) -> (s: String)
        ensures
            s@ == self.spec_name(),
    {
        match self {
            BlankLinesAllowed::Yes => String::from_str("Yes"),
            BlankLinesAllowed::No => String::from_str("No"),
            BlankLinesAllowed::BetweenComments => String::from_str("BetweenComments"),
        }
    }
}

impl PreToken {
    /// The text that shows the token: a marker naming it, after its text
    /// padded to [`DISPLAY_LINE_LENGTH`] where it has one, or after as many
    /// spaces for a blank line.
    pub open spec fn spec_display(self) -> Seq<char> {
        let pad = repeat(seq![' '], DISPLAY_LINE_LENGTH as nat);
        match self {
            PreToken::BlankLine => pad + "<BlankLine>"@,
            PreToken::LineEnd => "<EOL>"@,
            PreToken::WordEnd => "<WordEnd>"@,
            PreToken::IndentStart => "<IndentStart>"@,
            PreToken::IndentEnd => "<IndentEnd>"@,
            PreToken::BlankLinesContext(c) => "<BlankLinesContext@"@ + c.spec_name() + ">"@,
            PreToken::Literal(v, k) => padded(v@, DISPLAY_LINE_LENGTH as nat) + "<Literal@"@
                + k.spec_name() + ">"@,
            PreToken::Trivia(Trivia::BlankLine) => pad + "<OptionalBlankLine>"@,
            PreToken::Trivia(Trivia::Comment(Comment::Preceding(v))) => padded(
                v@,
                DISPLAY_LINE_LENGTH as nat,
            ) + "<Comment@Preceding>"@,
            PreToken::Trivia(Trivia::Comment(Comment::Inline(v))) => padded(
                v@,
                DISPLAY_LINE_LENGTH as nat,
            ) + "<Comment@Inline>"@,
        }
    }

    /// Gets the text that shows the token.
    pub fn display(&self) -> (s: String)
        ensures
            s@ == self.spec_display(),
    {
        let mut s = String::new();
        match self {
            PreToken::BlankLine => {
                push_padded(&mut s, "", DISPLAY_LINE_LENGTH);
                s.append("<BlankLine>");
            },
            PreToken::LineEnd => s.append("<EOL>"),
            PreToken::WordEnd => s.append("<WordEnd>"),
            PreToken::IndentStart => s.append("<IndentStart>"),
            PreToken::IndentEnd => s.append("<IndentEnd>"),
            PreToken::BlankLinesContext(c) => {
                s.append("<BlankLinesContext@");
                s.append(c.name().as_str());
                s.append(">");
            },
            PreToken::Literal(v, k) => {
                push_padded(&mut s, v.as_str(), DISPLAY_LINE_LENGTH);
                s.append("<Literal@");
                s.append(k.name().as_str());
                s.append(">");
            },
            PreToken::Trivia(Trivia::BlankLine) => {
                push_padded(&mut s, "", DISPLAY_LINE_LENGTH);
                s.append("<OptionalBlankLine>");
            },
            PreToken::Trivia(Trivia::Comment(Comment::Preceding(v))) => {
                push_padded(&mut s, v.as_str(), DISPLAY_LINE_LENGTH);
                s.append("<Comment@Preceding>");
            },
            PreToken::Trivia(Trivia::Comment(Comment::Inline(v))) => {
                push_padded(&mut s, v.as_str(), DISPLAY_LINE_LENGTH);
                s.append("<Comment@Inline>");
            },
        }
        proof {
            reveal_strlit("");
        }
        s
    }
}

impl PostToken {
    /// The text that shows the token while debugging.
    pub open spec fn spec_debug_text(self) -> Seq<char> {
        match self {
            PostToken::Space => "<SPACE>"@,
            PostToken::Newline => "<NEWLINE>"@,
            PostToken::Indent => "<INDENT>"@,
            PostToken::Literal(v) => "<LITERAL@"@ + v@ + ">"@,
        }
    }

    /// Gets the text that shows the token while debugging.
    pub fn debug_text(&self) -> (s: String)
        ensures
            s@ == self.spec_debug_text(),
    {
        match self {
            PostToken::Space => String::from_str("<SPACE>"),
            PostToken::Newline => String::from_str("<NEWLINE>"),
            PostToken::Indent => String::from_str("<INDENT>"),
            PostToken::Literal(v) => {
                let mut s = String::from_str("<LITERAL@");
                s.append(v.as_str());
                s.append(">");
                s
            },
        }
    }
}

/// The texts that show the tokens of `s`, one after another.
pub open spec fn display_all(s: Seq<PreToken>) -> Seq<char>
    decreases s.len(),
{
    if s.len() == 0 {
        Seq::empty()
    } else {
        display_all(s.drop_last()) + s.last().spec_display()
    }
}

impl TokenStream<PreToken> {
    /// Gets the text that shows the stream: that of each token, in order.
    pub fn display(&self) -> (s: String)
        ensures
            s@ == display_all(self@),
    {
        let tokens = self.as_slice();
        let mut s = String::new();
        let mut i: usize = 0;
        while i < tokens.len()
            invariant
                i <= tokens@.len(),
                tokens@ == self@,
                s@ == display_all(tokens@.take(i as int)),
            decreases tokens@.len() - i,
        {
            assert(tokens@.take(i + 1int).drop_last() =~= tokens@.take(i as int));
            let d = tokens[i].display();
            s.append(d.as_str());
            i = i + 1;
        }
        assert(tokens@.take(i as int) =~= tokens@);
        s
    }
}

} // verus!
