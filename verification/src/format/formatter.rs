//! The formatter: turns a stream of [`PreToken`]s into formatted text.
use vstd::prelude::*;

use super::config::Config;
use super::element::FormatElement;
use super::post::{lemma_run_same, render, same_posts, PostToken, Postprocessor};
use super::pre::{views, PreToken};
use super::token::TokenStream;
use super::v1::{writable, write_view};

verus! {

/// A formatter.
#[derive(Debug, Clone, Copy)]
pub struct Formatter {
    /// The configuration.
    config: Config,
}

impl Default for Formatter {
    fn default() -> (f: Self)
        ensures
            f.spec_config() == Config::spec_default(),
    {
        Formatter { config: Config::default() }
    }
}

impl Formatter {
    /// The formatter's configuration.
    pub closed spec fn spec_config(self) -> Config {
        self.config
    }

    /// Creates a new formatter.
    pub fn new(config: Config) -> (f: Self)
        ensures
            f.spec_config() == config,
    {
        Formatter { config }
    }

    /// Gets the configuration for this formatter.
    pub fn config(&self) -> (c: &Config)
        ensures
            *c == self.spec_config(),
    {
        &self.config
    }

    /// The text the formatter produces for a stream of tokens: the stream is
    /// postprocessed from the default state, then rendered.
    pub open spec fn spec_format(self, tokens: Seq<PreToken>) -> Seq<char> {
        render(Postprocessor::spec_initial().spec_run(tokens, self.spec_config()).1, self.spec_config())
    }

    /// Formats a stream of tokens.
    pub fn format_stream(&self, stream: TokenStream<PreToken>) -> (s: String)
        requires
            Postprocessor::spec_initial().run_ok(stream@, self.spec_config()),
        ensures
            s@ == self.spec_format(stream@),
    {
        let mut postprocessor = Postprocessor::default();
        let out = postprocessor.run(stream, &self.config);
        out.to_text(&self.config)
    }

    /// Whether the formatter can format `element`: the element can be
    /// written, and the postprocessor is defined on the tokens it writes.
    pub open spec fn formattable(self, element: FormatElement) -> bool {
        &&& writable(element)
        &&& forall|tokens: Seq<PreToken>|
            views(tokens) == write_view(element, Seq::empty()) ==> #[trigger] Postprocessor::spec_initial().run_ok(
                tokens,
                self.spec_config(),
            )
    }

    /// Writes `element` into a fresh stream and postprocesses it.
    pub fn to_stream(&self, element: &FormatElement) -> (out: TokenStream<PostToken>)
        requires
            self.formattable(*element),
        ensures
            exists|tokens: Seq<PreToken>|
                views(tokens) == write_view(*element, Seq::empty()) && out@
                    == #[trigger] Postprocessor::spec_initial().spec_run(
                    tokens,
                    self.spec_config(),
                ).1,
            forall|tokens: Seq<PreToken>|
                views(tokens) == write_view(*element, Seq::empty()) ==> same_posts(
                    out@,
                    #[trigger] Postprocessor::spec_initial().spec_run(tokens, self.spec_config()).1,
                ),
    {
        let mut stream: TokenStream<PreToken> = TokenStream::default();
        assert(views(stream@) =~= Seq::<super::pre::PreView>::empty());
        element.write(&mut stream);
        let ghost tokens = stream@;
        assert(views(tokens) == write_view(*element, Seq::empty()));
        assert(Postprocessor::spec_initial().run_ok(tokens, self.spec_config()));
        let mut postprocessor = Postprocessor::default();
        let out = postprocessor.run(stream, &self.config);
        assert(out@ == Postprocessor::spec_initial().spec_run(tokens, self.spec_config()).1);
        assert forall|other: Seq<PreToken>|
            views(other) == write_view(*element, Seq::empty()) implies same_posts(
            out@,
            #[trigger] Postprocessor::spec_initial().spec_run(other, self.spec_config()).1,
        ) by {
            lemma_run_same(tokens, other, self.spec_config());
        }
        out
    }

    /// Formats an element: writes it, postprocesses the tokens and renders
    /// them.
    pub fn format(&self, element: &FormatElement) -> (s: String)
        requires
            self.formattable(*element),
        ensures
            exists|tokens: Seq<PreToken>|
                views(tokens) == write_view(*element, Seq::empty()) && s@ == #[trigger] self.spec_format(
                    tokens,
                ),
            forall|tokens: Seq<PreToken>|
                views(tokens) == write_view(*element, Seq::empty()) ==> s@ == #[trigger] self.spec_format(
                    tokens,
                ),
    {
        let out = self.to_stream(element);
        let ghost tokens = choose|tokens: Seq<PreToken>|
            views(tokens) == write_view(*element, Seq::empty()) && out@
                == #[trigger] Postprocessor::spec_initial().spec_run(
                tokens,
                self.spec_config(),
            ).1;
        let s = out.to_text(&self.config);
        assert(s@ == self.spec_format(tokens));
        assert forall|other: Seq<PreToken>|
            views(other) == write_view(*element, Seq::empty()) implies s@ == #[trigger] self.spec_format(
            other,
        ) by {
            lemma_run_same(tokens, other, self.spec_config());
        }
        s
    }
}

} // verus!
