//! Formatting of WDL v1.x elements into a token stream.
//!
//! Each formatter writes an element's children, with the word, line and
//! indentation breaks between them, into a stream of [`PreToken`]s. What a
//! formatter writes is stated over the tokens' views ([`PreView`]).
use vstd::prelude::*;

use super::element::{
    kind_prefix, lemma_child_decreases, lemma_children_decrease, Element, FormatElement,
};
use super::pre::{
    blank_line_view, end_line_view, end_word_view, push_token_text_view, push_token_view, views,
    PreToken, PreView,
};
use crate::text::push_char;
use super::syntax::SyntaxKind;
use super::token::TokenStream;

verus! {

/// The kinds of the children that follow the opening brace of a task
/// definition.
pub open spec fn task_item(k: SyntaxKind) -> bool {
    ||| k == SyntaxKind::InputSectionNode
    ||| k == SyntaxKind::MetadataSectionNode
    ||| k == SyntaxKind::ParameterMetadataSectionNode
    ||| k == SyntaxKind::RuntimeSectionNode
    ||| k == SyntaxKind::CommandSectionNode
    ||| k == SyntaxKind::OutputSectionNode
    ||| k == SyntaxKind::BoundDeclNode
    ||| k == SyntaxKind::CloseBrace
}

/// The kinds of the statements in the body of a workflow definition.
pub open spec fn workflow_body(k: SyntaxKind) -> bool {
    ||| k == SyntaxKind::BoundDeclNode
    ||| k == SyntaxKind::CallStatementNode
    ||| k == SyntaxKind::ConditionalStatementNode
    ||| k == SyntaxKind::ScatterStatementNode
}

/// The kinds of the children that follow the opening brace of a workflow
/// definition.
pub open spec fn workflow_item(k: SyntaxKind) -> bool {
    ||| workflow_body(k)
    ||| k == SyntaxKind::MetadataSectionNode
    ||| k == SyntaxKind::ParameterMetadataSectionNode
    ||| k == SyntaxKind::InputSectionNode
    ||| k == SyntaxKind::OutputSectionNode
    ||| k == SyntaxKind::CloseBrace
}

/// The kinds of the children of a call statement.
pub open spec fn call_item(k: SyntaxKind) -> bool {
    ||| k == SyntaxKind::CallKeyword
    ||| k == SyntaxKind::CallTargetNode
    ||| k == SyntaxKind::OpenBrace
    ||| k == SyntaxKind::CloseBrace
}

/// The last index in `lo..hi` of a child of kind `k`.
pub open spec fn last_in(cs: Seq<FormatElement>, lo: int, hi: int, k: SyntaxKind) -> Option<int>
    decreases hi - lo,
{
    if hi <= lo {
        None
    } else if cs[hi - 1].spec_kind() == k {
        Some(hi - 1)
    } else {
        last_in(cs, lo, hi - 1, k)
    }
}

/// The index found by [`last_in`] holds a child of that kind; when none is
/// found, no child in the range has it.
pub proof fn lemma_last_in(cs: Seq<FormatElement>, lo: int, hi: int, k: SyntaxKind)
    ensures
        match last_in(cs, lo, hi, k) {
            Some(j) => lo <= j < hi && cs[j].spec_kind() == k && forall|i: int|
                j < i < hi ==> #[trigger] cs[i].spec_kind() != k,
            None => forall|i: int| lo <= i < hi ==> #[trigger] cs[i].spec_kind() != k,
        },
    decreases hi - lo,
{
    if hi > lo {
        lemma_last_in(cs, lo, hi - 1, k);
    }
}

/// A task or workflow definition begins with its keyword, its name and an
/// opening brace.
pub open spec fn head_shape(cs: Seq<FormatElement>, keyword: SyntaxKind) -> bool {
    &&& cs.len() >= 3
    &&& cs[0].spec_kind() == keyword
    &&& cs[1].spec_kind() == SyntaxKind::Ident
    &&& cs[2].spec_kind() == SyntaxKind::OpenBrace
}

/// The children of a document: a version statement first.
pub open spec fn ast_shape(cs: Seq<FormatElement>) -> bool {
    cs.len() > 0 && cs[0].spec_kind() == SyntaxKind::VersionStatementNode
}

/// The children of a task definition: the head, then sections,
/// declarations and a closing brace.
pub open spec fn task_shape(cs: Seq<FormatElement>) -> bool {
    &&& head_shape(cs, SyntaxKind::TaskKeyword)
    &&& forall|i: int| 3 <= i < cs.len() ==> task_item(#[trigger] cs[i].spec_kind())
    &&& last_in(cs, 3, cs.len() as int, SyntaxKind::CloseBrace) is Some
}

/// The children of a workflow definition: the head, then sections,
/// statements and a closing brace.
pub open spec fn workflow_shape(cs: Seq<FormatElement>) -> bool {
    &&& head_shape(cs, SyntaxKind::WorkflowKeyword)
    &&& forall|i: int| 3 <= i < cs.len() ==> workflow_item(#[trigger] cs[i].spec_kind())
    &&& last_in(cs, 3, cs.len() as int, SyntaxKind::CloseBrace) is Some
}

/// The children of a call statement: the keyword, the target and braces.
pub open spec fn call_shape(cs: Seq<FormatElement>) -> bool {
    &&& cs.len() > 0
    &&& forall|i: int| 0 <= i < cs.len() ==> call_item(#[trigger] cs[i].spec_kind())
}

/// What the formatter of a node of kind `k` expects of its children; false
/// for the kinds that have no formatter.
pub open spec fn shape_ok(k: SyntaxKind, cs: Seq<FormatElement>) -> bool {
    if k == SyntaxKind::RootNode {
        ast_shape(cs)
    } else if k == SyntaxKind::VersionStatementNode || k == SyntaxKind::CallTargetNode {
        cs.len() > 0
    } else if k == SyntaxKind::TaskDefinitionNode {
        task_shape(cs)
    } else if k == SyntaxKind::WorkflowDefinitionNode {
        workflow_shape(cs)
    } else if k == SyntaxKind::CallStatementNode {
        call_shape(cs)
    } else {
        false
    }
}

/// Whether an element can be written: a token that is not trivia, or a node
/// whose kind has a formatter, whose children have the shape it expects and
/// can each be written.
pub open spec fn writable(e: FormatElement) -> bool
    decreases e,
{
    proof {
        lemma_children_decrease(e);
    }
    match e.spec_element() {
        Element::Token(t) => !t.kind.spec_is_trivia(),
        Element::Node(k) => shape_ok(k, e.spec_children()) && forall|i: int|
            0 <= i < e.spec_children().len() ==> writable(#[trigger] e.spec_children()[i]),
    }
}

/// Whether each of the children can be written.
pub open spec fn children_writable(cs: Seq<FormatElement>) -> bool {
    forall|i: int| 0 <= i < cs.len() ==> #[trigger] writable(cs[i])
}

/// The tokens after writing `e` behind `v`.
pub open spec fn write_view(e: FormatElement, v: Seq<PreView>) -> Seq<PreView>
    decreases e, 0int,
{
    proof {
        lemma_children_decrease(e);
    }
    let cs = e.spec_children();
    match e.spec_element() {
        Element::Token(t) => push_token_view(v, t),
        Element::Node(k) => if k == SyntaxKind::RootNode {
            ast_view(cs, v)
        } else if k == SyntaxKind::VersionStatementNode {
            end_line_view(words_view(cs, 0, cs.len() as int, v))
        } else if k == SyntaxKind::TaskDefinitionNode {
            task_view(cs, v)
        } else if k == SyntaxKind::WorkflowDefinitionNode {
            workflow_view(cs, v)
        } else if k == SyntaxKind::CallStatementNode {
            call_view(cs, 0, cs.len() as int, v)
        } else if k == SyntaxKind::CallTargetNode {
            seq_view(cs, 0, cs.len() as int, v)
        } else {
            v
        },
    }
}

/// The tokens after writing the children `lo..hi` in turn.
pub open spec fn seq_view(cs: Seq<FormatElement>, lo: int, hi: int, v: Seq<PreView>) -> Seq<
    PreView,
>
    decreases cs, hi - lo,
{
    if 0 <= lo < hi <= cs.len() {
        write_view(cs[hi - 1], seq_view(cs, lo, hi - 1, v))
    } else {
        v
    }
}

/// The tokens after writing the children `lo..hi` in turn, each followed by
/// the end of a word.
pub open spec fn words_view(cs: Seq<FormatElement>, lo: int, hi: int, v: Seq<PreView>) -> Seq<
    PreView,
>
    decreases cs, hi - lo,
{
    if 0 <= lo < hi <= cs.len() {
        end_word_view(write_view(cs[hi - 1], words_view(cs, lo, hi - 1, v)))
    } else {
        v
    }
}

/// The tokens after writing the children `lo..hi` in turn, each followed by
/// a blank line.
pub open spec fn blocks_view(cs: Seq<FormatElement>, lo: int, hi: int, v: Seq<PreView>) -> Seq<
    PreView,
>
    decreases cs, hi - lo,
{
    if 0 <= lo < hi <= cs.len() {
        blank_line_view(write_view(cs[hi - 1], blocks_view(cs, lo, hi - 1, v)))
    } else {
        v
    }
}

/// The tokens after writing, in turn, those of the children `lo..hi` whose
/// kind is one of `kinds`.
pub open spec fn kinds_view(
    cs: Seq<FormatElement>,
    lo: int,
    hi: int,
    kinds: Seq<SyntaxKind>,
    v: Seq<PreView>,
) -> Seq<PreView>
    decreases cs, hi - lo,
{
    if 0 <= lo < hi <= cs.len() {
        let w = kinds_view(cs, lo, hi - 1, kinds, v);
        if kinds.contains(cs[hi - 1].spec_kind()) {
            write_view(cs[hi - 1], w)
        } else {
            w
        }
    } else {
        v
    }
}

/// The tokens after writing one child of a call statement: the keyword and
/// the target end a word, an opening brace ends the line and starts an
/// indented block, which a closing brace ends before it ends the line.
pub open spec fn call_item_view(e: FormatElement, v: Seq<PreView>) -> Seq<PreView>
    decreases e, 1int,
{
    let k = e.spec_kind();
    if k == SyntaxKind::CallKeyword || k == SyntaxKind::CallTargetNode {
        end_word_view(write_view(e, v))
    } else if k == SyntaxKind::OpenBrace {
        end_line_view(write_view(e, v)).push(PreView::IndentStart)
    } else if k == SyntaxKind::CloseBrace {
        end_line_view(write_view(e, v.push(PreView::IndentEnd)))
    } else {
        v
    }
}

/// The tokens after writing the children `lo..hi` of a call statement.
pub open spec fn call_view(cs: Seq<FormatElement>, lo: int, hi: int, v: Seq<PreView>) -> Seq<
    PreView,
>
    decreases cs, hi - lo,
{
    if 0 <= lo < hi <= cs.len() {
        call_item_view(cs[hi - 1], call_view(cs, lo, hi - 1, v))
    } else {
        v
    }
}

/// The tokens after the head of a definition: the keyword and the name,
/// each ending a word, then the opening brace, the end of its line when
/// `brace_ends_line`, and the start of an indented block.
pub open spec fn head_view(cs: Seq<FormatElement>, brace_ends_line: bool, v: Seq<PreView>) -> Seq<
    PreView,
>
    decreases cs, cs.len() + 2,
{
    if cs.len() >= 3 {
        let w = end_word_view(write_view(cs[1], end_word_view(write_view(cs[0], v))));
        let b = write_view(cs[2], w);
        (if brace_ends_line {
            end_line_view(b)
        } else {
            b
        }).push(PreView::IndentStart)
    } else {
        v
    }
}

/// The tokens after the last section of kind `k` among the children past
/// the head, followed by a blank line, when there is one.
pub open spec fn section_view(cs: Seq<FormatElement>, k: SyntaxKind, v: Seq<PreView>) -> Seq<
    PreView,
>
    decreases cs, cs.len() + 2,
{
    proof {
        lemma_last_in(cs, 3, cs.len() as int, k);
    }
    match last_in(cs, 3, cs.len() as int, k) {
        Some(j) => blank_line_view(write_view(cs[j], v)),
        None => v,
    }
}

/// The tokens after the end of an indented block, the last closing brace
/// among the children past the head, and the end of its line.
pub open spec fn close_view(cs: Seq<FormatElement>, v: Seq<PreView>) -> Seq<PreView>
    decreases cs, cs.len() + 2,
{
    proof {
        lemma_last_in(cs, 3, cs.len() as int, SyntaxKind::CloseBrace);
    }
    match last_in(cs, 3, cs.len() as int, SyntaxKind::CloseBrace) {
        Some(j) => end_line_view(write_view(cs[j], v.push(PreView::IndentEnd))),
        None => v.push(PreView::IndentEnd),
    }
}

/// The kinds of the declarations in the body of a task.
pub open spec fn task_body_kinds() -> Seq<SyntaxKind> {
    seq![SyntaxKind::BoundDeclNode]
}

/// The kinds of the statements in the body of a workflow.
pub open spec fn workflow_body_kinds() -> Seq<SyntaxKind> {
    seq![
        SyntaxKind::BoundDeclNode,
        SyntaxKind::CallStatementNode,
        SyntaxKind::ConditionalStatementNode,
        SyntaxKind::ScatterStatementNode,
    ]
}

/// The tokens after a task definition: its head; the `meta`,
/// `parameter_meta` and `input` sections; its declarations in source order;
/// the `command`, `output` and `runtime` sections (each section followed by a
/// blank line); then the closing brace on a line of its own.
pub open spec fn task_view(cs: Seq<FormatElement>, v: Seq<PreView>) -> Seq<PreView>
    decreases cs, cs.len() + 3,
{
    if cs.len() >= 3 {
        let h = head_view(cs, true, v);
        let s1 = section_view(cs, SyntaxKind::MetadataSectionNode, h);
        let s2 = section_view(cs, SyntaxKind::ParameterMetadataSectionNode, s1);
        let s3 = section_view(cs, SyntaxKind::InputSectionNode, s2);
        let b = kinds_view(cs, 3, cs.len() as int, task_body_kinds(), s3);
        let s4 = section_view(cs, SyntaxKind::CommandSectionNode, b);
        let s5 = section_view(cs, SyntaxKind::OutputSectionNode, s4);
        let s6 = section_view(cs, SyntaxKind::RuntimeSectionNode, s5);
        close_view(cs, s6)
    } else {
        v
    }
}

/// The tokens after a workflow definition: its head (the opening brace does
/// not end its line); the `meta`, `parameter_meta` and `input` sections; its
/// statements in source order; the `output` section (each section followed by
/// a blank line); then the closing brace on a line of its own.
pub open spec fn workflow_view(cs: Seq<FormatElement>, v: Seq<PreView>) -> Seq<PreView>
    decreases cs, cs.len() + 3,
{
    if cs.len() >= 3 {
        let h = head_view(cs, false, v);
        let s1 = section_view(cs, SyntaxKind::MetadataSectionNode, h);
        let s2 = section_view(cs, SyntaxKind::ParameterMetadataSectionNode, s1);
        let s3 = section_view(cs, SyntaxKind::InputSectionNode, s2);
        let b = kinds_view(cs, 3, cs.len() as int, workflow_body_kinds(), s3);
        let s4 = section_view(cs, SyntaxKind::OutputSectionNode, b);
        close_view(cs, s4)
    } else {
        v
    }
}

/// The tokens after a document: the version statement and a blank line,
/// then every other item, each followed by a blank line.
pub open spec fn ast_view(cs: Seq<FormatElement>, v: Seq<PreView>) -> Seq<PreView>
    decreases cs, cs.len() + 3,
{
    if cs.len() > 0 {
        blocks_view(cs, 1, cs.len() as int, blank_line_view(write_view(cs[0], v)))
    } else {
        v
    }
}

/// Whether `kinds` holds `k`.
fn kinds_contain(kinds: &[SyntaxKind], k: SyntaxKind) -> (b: bool)
    ensures
        b == kinds@.contains(k),
{
    let mut i: usize = 0;
    while i < kinds.len()
        invariant
            i <= kinds@.len(),
            forall|j: int| 0 <= j < i ==> kinds@[j] != k,
        decreases kinds@.len() - i,
    {
        if kinds[i] == k {
            assert(kinds@[i as int] == k);
            return true;
        }
        i = i + 1;
    }
    false
}

/// The last index in `lo..` of a child of kind `k`.
fn last_index(cs: &[FormatElement], lo: usize, k: SyntaxKind) -> (r: Option<usize>)
    ensures
        match last_in(cs@, lo as int, cs@.len() as int, k) {
            Some(j) => r == Some(j as usize),
            None => r is None,
        },
{
    let mut i: usize = cs.len();
    while i > lo
        invariant
            i <= cs@.len(),
            last_in(cs@, lo as int, cs@.len() as int, k) == last_in(cs@, lo as int, i as int, k),
        decreases i,
    {
        if cs[i - 1].kind() == k {
            return Some(i - 1);
        }
        i = i - 1;
    }
    None
}

/// Writes the children `lo..hi` in turn.
fn write_seq(cs: &[FormatElement], lo: usize, hi: usize, stream: &mut TokenStream<PreToken>)
    requires
        lo <= hi <= cs@.len(),
        children_writable(cs@),
    ensures
        views(final(stream)@) == seq_view(cs@, lo as int, hi as int, views(old(stream)@)),
    decreases cs@, 0int,
{
    let mut i = lo;
    while i < hi
        invariant
            lo <= i <= hi <= cs@.len(),
            children_writable(cs@),
            views(stream@) == seq_view(cs@, lo as int, i as int, views(old(stream)@)),
        decreases hi - i,
    {
        cs[i].write(stream);
        i = i + 1;
    }
}

/// Writes the children `lo..hi` in turn, each followed by the end of a word.
fn write_words(cs: &[FormatElement], lo: usize, hi: usize, stream: &mut TokenStream<PreToken>)
    requires
        lo <= hi <= cs@.len(),
        children_writable(cs@),
    ensures
        views(final(stream)@) == words_view(cs@, lo as int, hi as int, views(old(stream)@)),
    decreases cs@, 0int,
{
    let mut i = lo;
    while i < hi
        invariant
            lo <= i <= hi <= cs@.len(),
            children_writable(cs@),
            views(stream@) == words_view(cs@, lo as int, i as int, views(old(stream)@)),
        decreases hi - i,
    {
        cs[i].write(stream);
        stream.end_word();
        i = i + 1;
    }
}

/// Writes the children `lo..hi` in turn, each followed by a blank line.
fn write_blocks(cs: &[FormatElement], lo: usize, hi: usize, stream: &mut TokenStream<PreToken>)
    requires
        lo <= hi <= cs@.len(),
        children_writable(cs@),
    ensures
        views(final(stream)@) == blocks_view(cs@, lo as int, hi as int, views(old(stream)@)),
    decreases cs@, 0int,
{
    let mut i = lo;
    while i < hi
        invariant
            lo <= i <= hi <= cs@.len(),
            children_writable(cs@),
            views(stream@) == blocks_view(cs@, lo as int, i as int, views(old(stream)@)),
        decreases hi - i,
    {
        cs[i].write(stream);
        stream.blank_line();
        i = i + 1;
    }
}

/// Writes, in turn, those of the children `lo..hi` whose kind is one of
/// `kinds`.
fn write_kinds(
    cs: &[FormatElement],
    lo: usize,
    hi: usize,
    kinds: &[SyntaxKind],
    stream: &mut TokenStream<PreToken>,
)
    requires
        lo <= hi <= cs@.len(),
        children_writable(cs@),
    ensures
        views(final(stream)@) == kinds_view(
            cs@,
            lo as int,
            hi as int,
            kinds@,
            views(old(stream)@),
        ),
    decreases cs@, 0int,
{
    let mut i = lo;
    while i < hi
        invariant
            lo <= i <= hi <= cs@.len(),
            children_writable(cs@),
            views(stream@) == kinds_view(cs@, lo as int, i as int, kinds@, views(old(stream)@)),
        decreases hi - i,
    {
        if kinds_contain(kinds, cs[i].kind()) {
            cs[i].write(stream);
        }
        i = i + 1;
    }
}

/// Writes the head of a definition: the keyword and the name, each ending a
/// word, the opening brace, the end of its line when `brace_ends_line`, and
/// the start of an indented block.
fn write_head(cs: &[FormatElement], brace_ends_line: bool, stream: &mut TokenStream<PreToken>)
    requires
        cs@.len() >= 3,
        children_writable(cs@),
    ensures
        views(final(stream)@) == head_view(cs@, brace_ends_line, views(old(stream)@)),
    decreases cs@, 0int,
{
    cs[0].write(stream);
    stream.end_word();
    cs[1].write(stream);
    stream.end_word();
    cs[2].write(stream);
    if brace_ends_line {
        stream.end_line();
    }
    stream.increment_indent();
}

/// Writes the last section of kind `k` among the children past the head,
/// followed by a blank line, when there is one.
fn write_section(cs: &[FormatElement], k: SyntaxKind, stream: &mut TokenStream<PreToken>)
    requires
        cs@.len() >= 3,
        children_writable(cs@),
    ensures
        views(final(stream)@) == section_view(cs@, k, views(old(stream)@)),
    decreases cs@, 0int,
{
    proof {
        lemma_last_in(cs@, 3, cs@.len() as int, k);
    }
    match last_index(cs, 3, k) {
        Some(j) => {
            cs[j].write(stream);
            stream.blank_line();
        },
        None => {},
    }
}

/// Ends the indented block, then writes the last closing brace among the
/// children past the head and ends its line.
fn write_close(cs: &[FormatElement], stream: &mut TokenStream<PreToken>)
    requires
        cs@.len() >= 3,
        children_writable(cs@),
    ensures
        views(final(stream)@) == close_view(cs@, views(old(stream)@)),
    decreases cs@, 0int,
{
    proof {
        lemma_last_in(cs@, 3, cs@.len() as int, SyntaxKind::CloseBrace);
    }
    stream.decrement_indent();
    match last_index(cs, 3, SyntaxKind::CloseBrace) {
        Some(j) => {
            cs[j].write(stream);
            stream.end_line();
        },
        None => {},
    }
}

impl FormatElement {
    /// Writes the element to the token stream: a token with its trivia, a
    /// node through the formatter of its kind.
    pub fn write(&self, stream: &mut TokenStream<PreToken>)
        requires
            writable(*self),
        ensures
            views(final(stream)@) == write_view(*self, views(old(stream)@)),
        decreases *self, 2int,
    {
        match self.element() {
            Element::Token(t) => stream.push_ast_token(t),
            Element::Node(k) => {
                proof {
                    assert(self.spec_element() == Element::Node(*k));
                }
                match *k {
                SyntaxKind::RootNode => format_ast(self, stream),
                SyntaxKind::VersionStatementNode => format_version_statement(self, stream),
                SyntaxKind::TaskDefinitionNode => format_task_definition(self, stream),
                SyntaxKind::WorkflowDefinitionNode => format_workflow_definition(self, stream),
                SyntaxKind::CallStatementNode => format_call_statement(self, stream),
                SyntaxKind::CallTargetNode => format_call_target(self, stream),
                _ => {},
                }
            },
        }
    }
}

/// Formats a document: the version statement, a blank line, then every
/// other item followed by a blank line.
pub fn format_ast(element: &FormatElement, stream: &mut TokenStream<PreToken>)
    requires
        ast_shape(element.spec_children()),
        children_writable(element.spec_children()),
    ensures
        views(final(stream)@) == ast_view(element.spec_children(), views(old(stream)@)),
    decreases *element, 1int,
{
    let cs = element.child_slice();
    proof {
        lemma_children_decrease(*element);
        lemma_child_decreases(*element, 0);
    }
    cs[0].write(stream);
    stream.blank_line();
    write_blocks(cs, 1, cs.len(), stream);
}

/// Formats a version statement: its children, each ending a word, then the
/// end of the line.
pub fn format_version_statement(element: &FormatElement, stream: &mut TokenStream<PreToken>)
    requires
        element.spec_children().len() > 0,
        children_writable(element.spec_children()),
    ensures
        views(final(stream)@) == end_line_view(
            words_view(
                element.spec_children(),
                0,
                element.spec_children().len() as int,
                views(old(stream)@),
            ),
        ),
    decreases *element, 1int,
{
    let cs = element.child_slice();
    proof {
        lemma_children_decrease(*element);
    }
    write_words(cs, 0, cs.len(), stream);
    stream.end_line();
}

/// Formats a task definition (see [`task_view`]).
pub fn format_task_definition(element: &FormatElement, stream: &mut TokenStream<PreToken>)
    requires
        task_shape(element.spec_children()),
        children_writable(element.spec_children()),
    ensures
        views(final(stream)@) == task_view(element.spec_children(), views(old(stream)@)),
    decreases *element, 1int,
{
    let cs = element.child_slice();
    proof {
        lemma_children_decrease(*element);
    }
    let body = vec![SyntaxKind::BoundDeclNode];
    assert(body@ =~= task_body_kinds());
    write_head(cs, true, stream);
    write_section(cs, SyntaxKind::MetadataSectionNode, stream);
    write_section(cs, SyntaxKind::ParameterMetadataSectionNode, stream);
    write_section(cs, SyntaxKind::InputSectionNode, stream);
    write_kinds(cs, 3, cs.len(), body.as_slice(), stream);
    write_section(cs, SyntaxKind::CommandSectionNode, stream);
    write_section(cs, SyntaxKind::OutputSectionNode, stream);
    write_section(cs, SyntaxKind::RuntimeSectionNode, stream);
    write_close(cs, stream);
}

/// Formats a workflow definition (see [`workflow_view`]).
pub fn format_workflow_definition(element: &FormatElement, stream: &mut TokenStream<PreToken>)
    requires
        workflow_shape(element.spec_children()),
        children_writable(element.spec_children()),
    ensures
        views(final(stream)@) == workflow_view(element.spec_children(), views(old(stream)@)),
    decreases *element, 1int,
{
    let cs = element.child_slice();
    proof {
        lemma_children_decrease(*element);
    }
    let body = vec![
        SyntaxKind::BoundDeclNode,
        SyntaxKind::CallStatementNode,
        SyntaxKind::ConditionalStatementNode,
        SyntaxKind::ScatterStatementNode,
    ];
    assert(body@ =~= workflow_body_kinds());
    write_head(cs, false, stream);
    write_section(cs, SyntaxKind::MetadataSectionNode, stream);
    write_section(cs, SyntaxKind::ParameterMetadataSectionNode, stream);
    write_section(cs, SyntaxKind::InputSectionNode, stream);
    write_kinds(cs, 3, cs.len(), body.as_slice(), stream);
    write_section(cs, SyntaxKind::OutputSectionNode, stream);
    write_close(cs, stream);
}

/// Formats a call statement: the keyword and the target each end a word,
/// the opening brace ends its line and starts an indented block, which ends
/// before the closing brace, which ends its line.
pub fn format_call_statement(element: &FormatElement, stream: &mut TokenStream<PreToken>)
    requires
        call_shape(element.spec_children()),
        children_writable(element.spec_children()),
    ensures
        views(final(stream)@) == call_view(
            element.spec_children(),
            0,
            element.spec_children().len() as int,
            views(old(stream)@),
        ),
    decreases *element, 1int,
{
    let cs = element.child_slice();
    let mut i: usize = 0;
    while i < cs.len()
        invariant
            i <= cs@.len(),
            cs@ == element.spec_children(),
            children_writable(cs@),
            views(stream@) == call_view(cs@, 0, i as int, views(old(stream)@)),
        decreases cs@.len() - i,
    {
        proof {
            lemma_child_decreases(*element, i as int);
        }
        let ghost before = views(stream@);
        match cs[i].kind() {
            SyntaxKind::CallKeyword | SyntaxKind::CallTargetNode => {
                cs[i].write(stream);
                stream.end_word();
            },
            SyntaxKind::OpenBrace => {
                cs[i].write(stream);
                stream.end_line();
                stream.increment_indent();
            },
            SyntaxKind::CloseBrace => {
                stream.decrement_indent();
                cs[i].write(stream);
                stream.end_line();
            },
            _ => {},
        }
        assert(views(stream@) == call_item_view(cs@[i as int], before));
        i = i + 1;
    }
}

/// Formats a call target: its children in turn.
pub fn format_call_target(element: &FormatElement, stream: &mut TokenStream<PreToken>)
    requires
        element.spec_children().len() > 0,
        children_writable(element.spec_children()),
    ensures
        views(final(stream)@) == seq_view(
            element.spec_children(),
            0,
            element.spec_children().len() as int,
            views(old(stream)@),
        ),
    decreases *element, 1int,
{
    let cs = element.child_slice();
    proof {
        lemma_children_decrease(*element);
    }
    write_seq(cs, 0, cs.len(), stream);
}

/// The first index in `lo..hi` of a child of kind `k`.
pub open spec fn first_in(cs: Seq<FormatElement>, lo: int, hi: int, k: SyntaxKind) -> Option<int>
    decreases hi - lo,
{
    if hi <= lo {
        None
    } else if cs[lo].spec_kind() == k {
        Some(lo)
    } else {
        first_in(cs, lo + 1, hi, k)
    }
}

/// The index found by [`first_in`] holds a child of that kind, and no
/// earlier one in the range does; when none is found, none in the range
/// does.
pub proof fn lemma_first_in(cs: Seq<FormatElement>, lo: int, hi: int, k: SyntaxKind)
    ensures
        match first_in(cs, lo, hi, k) {
            Some(j) => lo <= j < hi && cs[j].spec_kind() == k && forall|i: int|
                lo <= i < j ==> #[trigger] cs[i].spec_kind() != k,
            None => forall|i: int| lo <= i < hi ==> #[trigger] cs[i].spec_kind() != k,
        },
    decreases hi - lo,
{
    if lo < hi {
        lemma_first_in(cs, lo + 1, hi, k);
    }
}

/// The tokens after the children `lo..hi`, each written in turn, where a
/// closing brace is preceded by the end of the indented block.
pub open spec fn block_view(cs: Seq<FormatElement>, lo: int, hi: int, v: Seq<PreView>) -> Seq<
    PreView,
>
    decreases hi - lo,
{
    if 0 <= lo < hi <= cs.len() {
        let w = block_view(cs, lo, hi - 1, v);
        if cs[hi - 1].spec_kind() == SyntaxKind::CloseBrace {
            write_view(cs[hi - 1], w.push(PreView::IndentEnd))
        } else {
            write_view(cs[hi - 1], w)
        }
    } else {
        v
    }
}

/// The children of a section: its keyword, an opening brace, then items of
/// kind `item` and at least one closing brace.
pub open spec fn section_shape(cs: Seq<FormatElement>, keyword: SyntaxKind, item: SyntaxKind) -> bool {
    &&& cs.len() >= 2
    &&& cs[0].spec_kind() == keyword
    &&& cs[1].spec_kind() == SyntaxKind::OpenBrace
    &&& forall|i: int|
        2 <= i < cs.len() ==> (#[trigger] cs[i].spec_kind() == item || cs[i].spec_kind()
            == SyntaxKind::CloseBrace)
    &&& last_in(cs, 2, cs.len() as int, SyntaxKind::CloseBrace) is Some
}

/// The tokens after a section: the keyword ending a word, the opening brace
/// ending a line, an indented block of the items of kind `item` in order,
/// then the last closing brace on a line of its own.
pub open spec fn section_block_view(cs: Seq<FormatElement>, item: SyntaxKind, v: Seq<PreView>) -> Seq<
    PreView,
> {
    if cs.len() >= 2 {
        let h = end_line_view(write_view(cs[1], end_word_view(write_view(cs[0], v)))).push(
            PreView::IndentStart,
        );
        let b = kinds_view(cs, 2, cs.len() as int, seq![item], h).push(PreView::IndentEnd);
        match last_in(cs, 2, cs.len() as int, SyntaxKind::CloseBrace) {
            Some(j) => if 0 <= j < cs.len() {
                end_line_view(write_view(cs[j], b))
            } else {
                b
            },
            None => b,
        }
    } else {
        v
    }
}

/// The tokens after a struct definition: its head; the `meta` and
/// `parameter_meta` sections, each followed by a blank line; its members in
/// order; then the closing brace on a line of its own.
pub open spec fn struct_view(cs: Seq<FormatElement>, v: Seq<PreView>) -> Seq<PreView> {
    if cs.len() >= 3 {
        let h = head_view(cs, true, v);
        let s1 = section_view(cs, SyntaxKind::MetadataSectionNode, h);
        let s2 = section_view(cs, SyntaxKind::ParameterMetadataSectionNode, s1);
        let b = kinds_view(cs, 3, cs.len() as int, seq![SyntaxKind::UnboundDeclNode], s2);
        close_view(cs, b)
    } else {
        v
    }
}

/// The children of a struct definition: the head, then sections, members
/// and a closing brace.
pub open spec fn struct_shape(cs: Seq<FormatElement>) -> bool {
    &&& head_shape(cs, SyntaxKind::StructKeyword)
    &&& forall|i: int|
        3 <= i < cs.len() ==> (#[trigger] cs[i].spec_kind() == SyntaxKind::MetadataSectionNode
            || cs[i].spec_kind() == SyntaxKind::ParameterMetadataSectionNode || cs[i].spec_kind()
            == SyntaxKind::UnboundDeclNode || cs[i].spec_kind() == SyntaxKind::CloseBrace)
    &&& last_in(cs, 3, cs.len() as int, SyntaxKind::CloseBrace) is Some
}

/// The children of a conditional statement: `if`, `(`, the condition up to
/// a `)`, then `{` right after it.
pub open spec fn conditional_shape(cs: Seq<FormatElement>) -> bool {
    &&& cs.len() >= 2
    &&& cs[0].spec_kind() == SyntaxKind::IfKeyword
    &&& cs[1].spec_kind() == SyntaxKind::OpenParen
    &&& first_in(cs, 2, cs.len() as int, SyntaxKind::CloseParen) matches Some(p) && p + 1
        < cs.len() && cs[p + 1].spec_kind() == SyntaxKind::OpenBrace
}

/// The tokens after a conditional statement: `if` ending a word, the
/// condition in parentheses ending a word, `{` starting an indented block,
/// the body, whose closing brace ends the block, then the end of the line.
pub open spec fn conditional_view(cs: Seq<FormatElement>, v: Seq<PreView>) -> Seq<PreView> {
    match first_in(cs, 2, cs.len() as int, SyntaxKind::CloseParen) {
        Some(p) => if 2 <= p && p + 1 < cs.len() {
            let w = write_view(cs[1], end_word_view(write_view(cs[0], v)));
            let c = end_word_view(seq_view(cs, 2, p + 1, w));
            let b = write_view(cs[p + 1], c).push(PreView::IndentStart);
            end_line_view(block_view(cs, p + 2, cs.len() as int, b))
        } else {
            v
        },
        None => v,
    }
}

/// The children of a scatter statement: `scatter`, `(`, the variable, `in`,
/// the collection up to a `)`, then `{` right after it.
pub open spec fn scatter_shape(cs: Seq<FormatElement>) -> bool {
    &&& cs.len() >= 4
    &&& cs[0].spec_kind() == SyntaxKind::ScatterKeyword
    &&& cs[1].spec_kind() == SyntaxKind::OpenParen
    &&& cs[2].spec_kind() == SyntaxKind::Ident
    &&& cs[3].spec_kind() == SyntaxKind::InKeyword
    &&& first_in(cs, 4, cs.len() as int, SyntaxKind::CloseParen) matches Some(p) && p + 1
        < cs.len() && cs[p + 1].spec_kind() == SyntaxKind::OpenBrace
}

/// The tokens after a scatter statement: `scatter` ending a word, `(` and
/// the variable ending a word, `in` ending a word, the collection and `)`
/// ending a word, `{` ending a line and starting an indented block, the body,
/// whose closing brace ends the block, then the end of the line.
pub open spec fn scatter_view(cs: Seq<FormatElement>, v: Seq<PreView>) -> Seq<PreView> {
    match first_in(cs, 4, cs.len() as int, SyntaxKind::CloseParen) {
        Some(p) => if 4 <= p && p + 1 < cs.len() {
            let w1 = write_view(cs[1], end_word_view(write_view(cs[0], v)));
            let w2 = end_word_view(write_view(cs[3], end_word_view(write_view(cs[2], w1))));
            let c = end_word_view(seq_view(cs, 4, p + 1, w2));
            let b = end_line_view(write_view(cs[p + 1], c)).push(PreView::IndentStart);
            end_line_view(block_view(cs, p + 2, cs.len() as int, b))
        } else {
            v
        },
        None => v,
    }
}

/// The children of an import statement: at most one `import` keyword, at
/// most one literal string, and aliases.
pub open spec fn import_shape(cs: Seq<FormatElement>) -> bool {
    &&& forall|i: int, j: int|
        0 <= i < j < cs.len() && #[trigger] cs[i].spec_kind() == SyntaxKind::ImportKeyword ==> #[trigger] cs[j].spec_kind()
            != SyntaxKind::ImportKeyword
    &&& forall|i: int, j: int|
        0 <= i < j < cs.len() && #[trigger] cs[i].spec_kind() == SyntaxKind::LiteralStringNode ==> #[trigger] cs[j].spec_kind()
            != SyntaxKind::LiteralStringNode
    &&& forall|i: int|
        0 <= i < cs.len() ==> (#[trigger] cs[i].spec_kind() == SyntaxKind::ImportKeyword
            || cs[i].spec_kind() == SyntaxKind::LiteralStringNode || cs[i].spec_kind()
            == SyntaxKind::ImportAliasNode)
}

/// The tokens after writing the child of kind `k`, if there is one.
pub open spec fn one_view(cs: Seq<FormatElement>, k: SyntaxKind, v: Seq<PreView>) -> Seq<PreView> {
    kinds_view(cs, 0, cs.len() as int, seq![k], v)
}

/// The tokens after an import statement: the `import` keyword and the
/// literal string, each ending a word, then the aliases, then the end of the
/// line.
pub open spec fn import_view(cs: Seq<FormatElement>, v: Seq<PreView>) -> Seq<PreView> {
    let w = end_word_view(one_view(cs, SyntaxKind::ImportKeyword, v));
    let l = end_word_view(one_view(cs, SyntaxKind::LiteralStringNode, w));
    end_line_view(kinds_view(cs, 0, cs.len() as int, seq![SyntaxKind::ImportAliasNode], l))
}

/// Formats a literal Boolean: its single token.
pub fn format_literal_boolean(element: &FormatElement, stream: &mut TokenStream<PreToken>)
    requires
        element.spec_children().len() == 1,
        children_writable(element.spec_children()),
    ensures
        views(final(stream)@) == write_view(element.spec_children()[0], views(old(stream)@)),
{
    let cs = element.child_slice();
    cs[0].write(stream);
}

/// Formats a literal integer: its children in turn.
pub fn format_literal_integer(element: &FormatElement, stream: &mut TokenStream<PreToken>)
    requires
        element.spec_children().len() > 0,
        children_writable(element.spec_children()),
    ensures
        views(final(stream)@) == seq_view(
            element.spec_children(),
            0,
            element.spec_children().len() as int,
            views(old(stream)@),
        ),
{
    let cs = element.child_slice();
    write_seq(cs, 0, cs.len(), stream);
}

/// Formats a literal float: its children in turn.
pub fn format_literal_float(element: &FormatElement, stream: &mut TokenStream<PreToken>)
    requires
        element.spec_children().len() > 0,
        children_writable(element.spec_children()),
    ensures
        views(final(stream)@) == seq_view(
            element.spec_children(),
            0,
            element.spec_children().len() as int,
            views(old(stream)@),
        ),
{
    let cs = element.child_slice();
    write_seq(cs, 0, cs.len(), stream);
}

/// Formats a literal `null`: its single token.
pub fn format_literal_null(element: &FormatElement, stream: &mut TokenStream<PreToken>)
    requires
        element.spec_children().len() == 1,
        children_writable(element.spec_children()),
    ensures
        views(final(stream)@) == write_view(element.spec_children()[0], views(old(stream)@)),
{
    let cs = element.child_slice();
    cs[0].write(stream);
}

/// Formats a primitive type: its single token.
pub fn format_primitive_type(element: &FormatElement, stream: &mut TokenStream<PreToken>)
    requires
        element.spec_children().len() == 1,
        children_writable(element.spec_children()),
    ensures
        views(final(stream)@) == write_view(element.spec_children()[0], views(old(stream)@)),
{
    let cs = element.child_slice();
    cs[0].write(stream);
}

/// Formats a type reference: its single token.
pub fn format_type_ref(element: &FormatElement, stream: &mut TokenStream<PreToken>)
    requires
        element.spec_children().len() == 1,
        children_writable(element.spec_children()),
    ensures
        views(final(stream)@) == write_view(element.spec_children()[0], views(old(stream)@)),
{
    let cs = element.child_slice();
    cs[0].write(stream);
}

/// Formats an unbound declaration: its children, each ending a word, then
/// the end of the line.
pub fn format_unbound_decl(element: &FormatElement, stream: &mut TokenStream<PreToken>)
    requires
        element.spec_children().len() > 0,
        children_writable(element.spec_children()),
    ensures
        views(final(stream)@) == end_line_view(
            words_view(
                element.spec_children(),
                0,
                element.spec_children().len() as int,
                views(old(stream)@),
            ),
        ),
{
    let cs = element.child_slice();
    write_words(cs, 0, cs.len(), stream);
    stream.end_line();
}

/// Formats a bound declaration: its children, each ending a word, then the
/// end of the line.
pub fn format_bound_decl(element: &FormatElement, stream: &mut TokenStream<PreToken>)
    requires
        element.spec_children().len() > 0,
        children_writable(element.spec_children()),
    ensures
        views(final(stream)@) == end_line_view(
            words_view(
                element.spec_children(),
                0,
                element.spec_children().len() as int,
                views(old(stream)@),
            ),
        ),
{
    let cs = element.child_slice();
    write_words(cs, 0, cs.len(), stream);
    stream.end_line();
}

/// Writes a section: the keyword ending a word, the opening brace ending a
/// line, an indented block of the items of kind `item`, then the last
/// closing brace on a line of its own.
fn write_section_block(cs: &[FormatElement], item: SyntaxKind, stream: &mut TokenStream<PreToken>)
    requires
        cs@.len() >= 2,
        children_writable(cs@),
    ensures
        views(final(stream)@) == section_block_view(cs@, item, views(old(stream)@)),
{
    proof {
        lemma_last_in(cs@, 2, cs@.len() as int, SyntaxKind::CloseBrace);
    }
    cs[0].write(stream);
    stream.end_word();
    cs[1].write(stream);
    stream.end_line();
    stream.increment_indent();
    let items = vec![item];
    assert(items@ =~= seq![item]);
    write_kinds(cs, 2, cs.len(), items.as_slice(), stream);
    stream.decrement_indent();
    match last_index(cs, 2, SyntaxKind::CloseBrace) {
        Some(j) => {
            cs[j].write(stream);
            stream.end_line();
        },
        None => {},
    }
}

/// Formats an input section (see [`section_block_view`]): its items are
/// bound declarations.
pub fn format_input_section(element: &FormatElement, stream: &mut TokenStream<PreToken>)
    requires
        section_shape(element.spec_children(), SyntaxKind::InputKeyword, SyntaxKind::BoundDeclNode),
        children_writable(element.spec_children()),
    ensures
        views(final(stream)@) == section_block_view(
            element.spec_children(),
            SyntaxKind::BoundDeclNode,
            views(old(stream)@),
        ),
{
    write_section_block(element.child_slice(), SyntaxKind::BoundDeclNode, stream);
}

/// Formats a metadata section (see [`section_block_view`]): its items are
/// metadata object items.
pub fn format_metadata_section(element: &FormatElement, stream: &mut TokenStream<PreToken>)
    requires
        section_shape(
            element.spec_children(),
            SyntaxKind::MetaKeyword,
            SyntaxKind::MetadataObjectItemNode,
        ),
        children_writable(element.spec_children()),
    ensures
        views(final(stream)@) == section_block_view(
            element.spec_children(),
            SyntaxKind::MetadataObjectItemNode,
            views(old(stream)@),
        ),
{
    write_section_block(element.child_slice(), SyntaxKind::MetadataObjectItemNode, stream);
}

/// Formats a parameter metadata section (see [`section_block_view`]): its
/// items are metadata object items.
pub fn format_parameter_metadata_section(
    element: &FormatElement,
    stream: &mut TokenStream<PreToken>,
)
    requires
        section_shape(
            element.spec_children(),
            SyntaxKind::ParameterMetaKeyword,
            SyntaxKind::MetadataObjectItemNode,
        ),
        children_writable(element.spec_children()),
    ensures
        views(final(stream)@) == section_block_view(
            element.spec_children(),
            SyntaxKind::MetadataObjectItemNode,
            views(old(stream)@),
        ),
{
    write_section_block(element.child_slice(), SyntaxKind::MetadataObjectItemNode, stream);
}

/// Formats a metadata object item: the key and the colon, ending a word,
/// then the value and the end of the line.
pub fn format_metadata_object_item(element: &FormatElement, stream: &mut TokenStream<PreToken>)
    requires
        element.spec_children().len() == 3,
        element.spec_children()[0].spec_kind() == SyntaxKind::Ident,
        element.spec_children()[1].spec_kind() == SyntaxKind::Colon,
        children_writable(element.spec_children()),
    ensures
        views(final(stream)@) == end_line_view(
            write_view(
                element.spec_children()[2],
                end_word_view(
                    write_view(
                        element.spec_children()[1],
                        write_view(element.spec_children()[0], views(old(stream)@)),
                    ),
                ),
            ),
        ),
{
    let cs = element.child_slice();
    cs[0].write(stream);
    cs[1].write(stream);
    stream.end_word();
    cs[2].write(stream);
    stream.end_line();
}

/// Formats a struct definition (see [`struct_view`]).
pub fn format_struct_definition(element: &FormatElement, stream: &mut TokenStream<PreToken>)
    requires
        struct_shape(element.spec_children()),
        children_writable(element.spec_children()),
    ensures
        views(final(stream)@) == struct_view(element.spec_children(), views(old(stream)@)),
{
    let cs = element.child_slice();
    let members = vec![SyntaxKind::UnboundDeclNode];
    assert(members@ =~= seq![SyntaxKind::UnboundDeclNode]);
    write_head(cs, true, stream);
    write_section(cs, SyntaxKind::MetadataSectionNode, stream);
    write_section(cs, SyntaxKind::ParameterMetadataSectionNode, stream);
    write_kinds(cs, 3, cs.len(), members.as_slice(), stream);
    write_close(cs, stream);
}

/// The first index in `lo..` of a child of kind `k`.
fn first_index(cs: &[FormatElement], lo: usize, k: SyntaxKind) -> (r: Option<usize>)
    ensures
        match first_in(cs@, lo as int, cs@.len() as int, k) {
            Some(j) => r == Some(j as usize),
            None => r is None,
        },
{
    let mut i: usize = lo;
    while i < cs.len()
        invariant
            lo <= i,
            first_in(cs@, lo as int, cs@.len() as int, k) == first_in(
                cs@,
                i as int,
                cs@.len() as int,
                k,
            ),
        decreases cs@.len() - i,
    {
        if cs[i].kind() == k {
            return Some(i);
        }
        i = i + 1;
    }
    None
}

/// Writes the children `lo..hi` in turn, ending the indented block before
/// each closing brace.
fn write_block(cs: &[FormatElement], lo: usize, hi: usize, stream: &mut TokenStream<PreToken>)
    requires
        lo <= hi <= cs@.len(),
        children_writable(cs@),
    ensures
        views(final(stream)@) == block_view(cs@, lo as int, hi as int, views(old(stream)@)),
{
    let mut i = lo;
    while i < hi
        invariant
            lo <= i <= hi <= cs@.len(),
            children_writable(cs@),
            views(stream@) == block_view(cs@, lo as int, i as int, views(old(stream)@)),
        decreases hi - i,
    {
        if cs[i].kind() == SyntaxKind::CloseBrace {
            stream.decrement_indent();
        }
        cs[i].write(stream);
        i = i + 1;
    }
}

/// Formats a conditional statement (see [`conditional_view`]).
pub fn format_conditional_statement(element: &FormatElement, stream: &mut TokenStream<PreToken>)
    requires
        conditional_shape(element.spec_children()),
        children_writable(element.spec_children()),
    ensures
        views(final(stream)@) == conditional_view(element.spec_children(), views(old(stream)@)),
{
    let cs = element.child_slice();
    proof {
        lemma_first_in(cs@, 2, cs@.len() as int, SyntaxKind::CloseParen);
    }
    cs[0].write(stream);
    stream.end_word();
    cs[1].write(stream);
    let p = first_index(cs, 2, SyntaxKind::CloseParen).unwrap();
    write_seq(cs, 2, p + 1, stream);
    stream.end_word();
    cs[p + 1].write(stream);
    stream.increment_indent();
    write_block(cs, p + 2, cs.len(), stream);
    stream.end_line();
}

/// Formats a scatter statement (see [`scatter_view`]).
pub fn format_scatter_statement(element: &FormatElement, stream: &mut TokenStream<PreToken>)
    requires
        scatter_shape(element.spec_children()),
        children_writable(element.spec_children()),
    ensures
        views(final(stream)@) == scatter_view(element.spec_children(), views(old(stream)@)),
{
    let cs = element.child_slice();
    proof {
        lemma_first_in(cs@, 4, cs@.len() as int, SyntaxKind::CloseParen);
    }
    cs[0].write(stream);
    stream.end_word();
    cs[1].write(stream);
    cs[2].write(stream);
    stream.end_word();
    cs[3].write(stream);
    stream.end_word();
    let p = first_index(cs, 4, SyntaxKind::CloseParen).unwrap();
    write_seq(cs, 4, p + 1, stream);
    stream.end_word();
    cs[p + 1].write(stream);
    stream.end_line();
    stream.increment_indent();
    write_block(cs, p + 2, cs.len(), stream);
    stream.end_line();
}

/// Formats an import alias: its four children (`alias`, the name, `as`,
/// the new name), each ending a word.
pub fn format_import_alias(element: &FormatElement, stream: &mut TokenStream<PreToken>)
    requires
        element.spec_children().len() == 4,
        children_writable(element.spec_children()),
    ensures
        views(final(stream)@) == words_view(element.spec_children(), 0, 4, views(old(stream)@)),
{
    let cs = element.child_slice();
    write_words(cs, 0, 4, stream);
}

/// Formats an import statement (see [`import_view`]).
pub fn format_import_statement(element: &FormatElement, stream: &mut TokenStream<PreToken>)
    requires
        import_shape(element.spec_children()),
        children_writable(element.spec_children()),
    ensures
        views(final(stream)@) == import_view(element.spec_children(), views(old(stream)@)),
{
    let cs = element.child_slice();
    let keyword = vec![SyntaxKind::ImportKeyword];
    let literal = vec![SyntaxKind::LiteralStringNode];
    let aliases = vec![SyntaxKind::ImportAliasNode];
    assert(keyword@ =~= seq![SyntaxKind::ImportKeyword]);
    assert(literal@ =~= seq![SyntaxKind::LiteralStringNode]);
    assert(aliases@ =~= seq![SyntaxKind::ImportAliasNode]);
    write_kinds(cs, 0, cs.len(), keyword.as_slice(), stream);
    stream.end_word();
    write_kinds(cs, 0, cs.len(), literal.as_slice(), stream);
    stream.end_word();
    write_kinds(cs, 0, cs.len(), aliases.as_slice(), stream);
    stream.end_line();
}

/// The tokens after writing the first `n` children of a literal string:
/// each single quote is written as a double quote (with the quote's
/// trivia), every other child as itself.
pub open spec fn literal_string_view(cs: Seq<FormatElement>, n: int, v: Seq<PreView>) -> Seq<
    PreView,
>
    decreases n,
{
    if n <= 0 || n > cs.len() {
        v
    } else {
        let w = literal_string_view(cs, n - 1, v);
        if cs[n - 1].spec_kind() == SyntaxKind::SingleQuote {
            match cs[n - 1].spec_element() {
                Element::Token(t) => push_token_text_view(w, t, seq!['"']),
                Element::Node(_) => w,
            }
        } else {
            write_view(cs[n - 1], w)
        }
    }
}

/// Formats a literal string (see [`literal_string_view`]): its quotes
/// become double quotes.
pub fn format_literal_string(element: &FormatElement, stream: &mut TokenStream<PreToken>)
    requires
        element.spec_children().len() > 0,
        children_writable(element.spec_children()),
        forall|i: int|
            0 <= i < element.spec_children().len() && (#[trigger] element.spec_children()[i]).spec_kind()
                == SyntaxKind::SingleQuote ==> element.spec_children()[i].spec_element() is Token,
    ensures
        views(final(stream)@) == literal_string_view(
            element.spec_children(),
            element.spec_children().len() as int,
            views(old(stream)@),
        ),
{
    let cs = element.child_slice();
    let mut i: usize = 0;
    while i < cs.len()
        invariant
            i <= cs@.len(),
            cs@ == element.spec_children(),
            children_writable(cs@),
            forall|j: int|
                0 <= j < cs@.len() && (#[trigger] cs@[j]).spec_kind() == SyntaxKind::SingleQuote
                    ==> cs@[j].spec_element() is Token,
            views(stream@) == literal_string_view(cs@, i as int, views(old(stream)@)),
        decreases cs@.len() - i,
    {
        let child = &cs[i];
        if child.kind() == SyntaxKind::SingleQuote {
            match child.element() {
                Element::Token(t) => {
                    let mut quote = String::new();
                    push_char(&mut quote, '"');
                    assert(quote@ =~= seq!['"']);
                    stream.push_literal_in_place_of_token(t, quote);
                },
                Element::Node(_) => {},
            }
        } else {
            child.write(stream);
        }
        i = i + 1;
    }
}

/// The tokens after writing the first `m` items of a metadata object, each
/// followed by the comma with its index (or a new comma where the object
/// has too few) and the end of a line.
pub open spec fn object_items_view(
    items: Seq<FormatElement>,
    commas: Seq<FormatElement>,
    m: int,
    v: Seq<PreView>,
) -> Seq<PreView>
    decreases m,
{
    if m <= 0 || m > items.len() {
        v
    } else {
        let w = write_view(items[m - 1], object_items_view(items, commas, m - 1, v));
        if m - 1 < commas.len() {
            end_line_view(write_view(commas[m - 1], w))
        } else {
            end_line_view(w.push(PreView::Literal(seq![','], SyntaxKind::Comma)))
        }
    }
}

/// The tokens after writing a metadata object: the opening brace, the end
/// of the line and the start of an indented block, then the items in order
/// (see [`object_items_view`]). The closing brace is not written.
pub open spec fn metadata_object_view(cs: Seq<FormatElement>, v: Seq<PreView>) -> Seq<PreView> {
    let items = kind_prefix(cs, SyntaxKind::MetadataObjectItemNode, cs.len() as int);
    let commas = kind_prefix(cs, SyntaxKind::Comma, cs.len() as int);
    let w = end_line_view(write_view(cs[0], v)).push(PreView::IndentStart);
    object_items_view(items, commas, items.len() as int, w)
}

/// Collects the children of kind `k`, in order.
fn children_of_kind<'a>(cs: &'a [FormatElement], k: SyntaxKind) -> (r: Vec<&'a FormatElement>)
    requires
        children_writable(cs@),
    ensures
        r@.len() == kind_prefix(cs@, k, cs@.len() as int).len(),
        forall|t: int|
            0 <= t < r@.len() ==> *(#[trigger] r@[t]) == kind_prefix(cs@, k, cs@.len() as int)[t]
                && writable(*r@[t]),
{
    let mut r: Vec<&FormatElement> = Vec::new();
    let mut j: usize = 0;
    while j < cs.len()
        invariant
            j <= cs@.len(),
            children_writable(cs@),
            r@.len() == kind_prefix(cs@, k, j as int).len(),
            forall|t: int|
                0 <= t < r@.len() ==> *(#[trigger] r@[t]) == kind_prefix(cs@, k, j as int)[t]
                    && writable(*r@[t]),
        decreases cs@.len() - j,
    {
        let c = &cs[j];
        if c.kind() == k {
            r.push(c);
        }
        j = j + 1;
    }
    r
}

/// Formats a metadata object (see [`metadata_object_view`]).
pub fn format_metadata_object(element: &FormatElement, stream: &mut TokenStream<PreToken>)
    requires
        element.spec_children().len() > 0,
        element.spec_children()[0].spec_kind() == SyntaxKind::OpenBrace,
        forall|i: int|
            1 <= i < element.spec_children().len() ==> {
                let k = (#[trigger] element.spec_children()[i]).spec_kind();
                k == SyntaxKind::MetadataObjectItemNode || k == SyntaxKind::Comma || k
                    == SyntaxKind::CloseBrace
            },
        children_writable(element.spec_children()),
    ensures
        views(final(stream)@) == metadata_object_view(element.spec_children(), views(old(stream)@)),
{
    let cs = element.child_slice();
    cs[0].write(stream);
    stream.end_line();
    stream.increment_indent();
    let ghost start = views(stream@);
    let items = children_of_kind(cs, SyntaxKind::MetadataObjectItemNode);
    let commas = children_of_kind(cs, SyntaxKind::Comma);
    let ghost is = kind_prefix(cs@, SyntaxKind::MetadataObjectItemNode, cs@.len() as int);
    let ghost ks = kind_prefix(cs@, SyntaxKind::Comma, cs@.len() as int);
    let mut m: usize = 0;
    while m < items.len()
        invariant
            m <= items@.len(),
            items@.len() == is.len(),
            commas@.len() == ks.len(),
            forall|t: int| 0 <= t < items@.len() ==> *(#[trigger] items@[t]) == is[t] && writable(*items@[t]),
            forall|t: int| 0 <= t < commas@.len() ==> *(#[trigger] commas@[t]) == ks[t] && writable(*commas@[t]),
            views(stream@) == object_items_view(is, ks, m as int, start),
        decreases items@.len() - m,
    {
        let item: &FormatElement = items[m];
        assert(*item == is[m as int]);
        item.write(stream);
        if m < commas.len() {
            let comma: &FormatElement = commas[m];
            assert(*comma == ks[m as int]);
            comma.write(stream);
            stream.end_line();
        } else {
            let mut text = String::new();
            push_char(&mut text, ',');
            assert(text@ =~= seq![',']);
            stream.push_literal(text, SyntaxKind::Comma);
            stream.end_line();
        }
        m = m + 1;
    }
}

/// A task writes its `command`, `output` and `runtime` sections in that
/// order, each followed by a blank line, and then its closing brace: after
/// whatever comes before them (its head, its other sections and its
/// declarations), the output section is written after the command section
/// and the runtime section after the output section, wherever they stand
/// in the source.
pub proof fn lemma_task_section_order(cs: Seq<FormatElement>, v: Seq<PreView>, jc: int, jo: int, jr: int)
    requires
        cs.len() >= 3,
        last_in(cs, 3, cs.len() as int, SyntaxKind::CommandSectionNode) == Some(jc),
        last_in(cs, 3, cs.len() as int, SyntaxKind::OutputSectionNode) == Some(jo),
        last_in(cs, 3, cs.len() as int, SyntaxKind::RuntimeSectionNode) == Some(jr),
    ensures
        exists|w: Seq<PreView>|
            task_view(cs, v) == close_view(
                cs,
                blank_line_view(
                    write_view(
                        cs[jr],
                        blank_line_view(write_view(cs[jo], blank_line_view(write_view(cs[jc], w)))),
                    ),
                ),
            ),
{
    let h = head_view(cs, true, v);
    let s1 = section_view(cs, SyntaxKind::MetadataSectionNode, h);
    let s2 = section_view(cs, SyntaxKind::ParameterMetadataSectionNode, s1);
    let s3 = section_view(cs, SyntaxKind::InputSectionNode, s2);
    let b = kinds_view(cs, 3, cs.len() as int, task_body_kinds(), s3);
    assert(task_view(cs, v) == close_view(
        cs,
        blank_line_view(
            write_view(
                cs[jr],
                blank_line_view(write_view(cs[jo], blank_line_view(write_view(cs[jc], b)))),
            ),
        ),
    ));
}

/// The full layout of a task: its head (ending its line and starting an
/// indented block), then its `meta`, `parameter_meta` and `input` sections,
/// its declarations in source order, its `command`, `output` and `runtime`
/// sections, each section followed by a blank line, and the closing brace
/// on a line of its own; whatever order they stand in in the source.
pub proof fn lemma_task_layout(
    cs: Seq<FormatElement>,
    v: Seq<PreView>,
    jm: int,
    jp: int,
    ji: int,
    jc: int,
    jo: int,
    jr: int,
)
    requires
        cs.len() >= 3,
        last_in(cs, 3, cs.len() as int, SyntaxKind::MetadataSectionNode) == Some(jm),
        last_in(cs, 3, cs.len() as int, SyntaxKind::ParameterMetadataSectionNode) == Some(jp),
        last_in(cs, 3, cs.len() as int, SyntaxKind::InputSectionNode) == Some(ji),
        last_in(cs, 3, cs.len() as int, SyntaxKind::CommandSectionNode) == Some(jc),
        last_in(cs, 3, cs.len() as int, SyntaxKind::OutputSectionNode) == Some(jo),
        last_in(cs, 3, cs.len() as int, SyntaxKind::RuntimeSectionNode) == Some(jr),
    ensures
        ({
            let head = head_view(cs, true, v);
            let upper = blank_line_view(
                write_view(
                    cs[ji],
                    blank_line_view(write_view(cs[jp], blank_line_view(write_view(cs[jm], head)))),
                ),
            );
            let body = kinds_view(cs, 3, cs.len() as int, seq![SyntaxKind::BoundDeclNode], upper);
            let lower = blank_line_view(
                write_view(
                    cs[jr],
                    blank_line_view(write_view(cs[jo], blank_line_view(write_view(cs[jc], body)))),
                ),
            );
            task_view(cs, v) == close_view(cs, lower)
        }),
{
    assert(task_body_kinds() =~= seq![SyntaxKind::BoundDeclNode]);
}

} // verus!
