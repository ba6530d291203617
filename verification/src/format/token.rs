//! Token streams used during formatting.
use vstd::prelude::*;

verus! {

/// Tokens that are streamable.
///
/// Tokens are compared by [`Token::same`], whose meaning each token type
/// states through [`Token::same_as`].
pub trait Token: Sized {
    /// Whether two tokens are the same token.
    spec fn same_as(&self, other: &Self) -> bool;

    /// Compares two tokens.
    fn same(&self, other: &Self) -> (b: bool)
        ensures
            b == self.same_as(other),
    ;
}

/// The longest prefix of `s` that does not end in a token satisfying `p`:
/// what remains after repeatedly removing such tokens from the end.
pub open spec fn trim_suffix<T>(s: Seq<T>, p: spec_fn(T) -> bool) -> Seq<T>
    decreases s.len(),
{
    if s.len() > 0 && p(s.last()) {
        trim_suffix(s.drop_last(), p)
    } else {
        s
    }
}

/// If `s` splits into a prefix `s.take(k)` that does not end in a token
/// satisfying `p` and a suffix of tokens that all satisfy `p`, then
/// trimming removes exactly that suffix.
pub proof fn lemma_trim_suffix_split<T>(s: Seq<T>, p: spec_fn(T) -> bool, k: int)
    requires
        0 <= k <= s.len(),
        forall|i: int| k <= i < s.len() ==> #[trigger] p(s[i]),
        k == 0 || !p(s[k - 1]),
    ensures
        trim_suffix(s, p) == s.take(k),
    decreases s.len(),
{
    if k == s.len() {
        assert(s.take(k) =~= s);
    } else {
        assert(p(s[s.len() - 1]));
        lemma_trim_suffix_split(s.drop_last(), p, k);
        assert(s.drop_last().take(k) =~= s.take(k));
    }
}

/// Trimming yields a prefix, and trimming again changes nothing.
pub proof fn lemma_trim_suffix_stable<T>(s: Seq<T>, p: spec_fn(T) -> bool)
    ensures
        trim_suffix(trim_suffix(s, p), p) == trim_suffix(s, p),
        trim_suffix(s, p).len() <= s.len(),
        trim_suffix(s, p) == s.take(trim_suffix(s, p).len() as int),
        trim_suffix(s, p).len() == 0 || !p(trim_suffix(s, p).last()),
    decreases s.len(),
{
    if s.len() > 0 && p(s.last()) {
        lemma_trim_suffix_stable(s.drop_last(), p);
        let t = trim_suffix(s.drop_last(), p);
        assert(s.drop_last().take(t.len() as int) =~= s.take(t.len() as int));
    } else {
        assert(s.take(s.len() as int) =~= s);
    }
}

/// Trimming commutes with mapping each token, when the predicate on the
/// mapped tokens agrees with the predicate on the tokens.
pub proof fn lemma_trim_suffix_map<A, B>(
    s: Seq<A>,
    f: spec_fn(A) -> B,
    p: spec_fn(A) -> bool,
    q: spec_fn(B) -> bool,
)
    requires
        forall|a: A| #[trigger] q(f(a)) == p(a),
    ensures
        trim_suffix(s.map_values(f), q) == trim_suffix(s, p).map_values(f),
    decreases s.len(),
{
    if s.len() > 0 {
        assert(s.map_values(f).last() == f(s.last()));
        if p(s.last()) {
            assert(s.map_values(f).drop_last() =~= s.drop_last().map_values(f));
            lemma_trim_suffix_map(s.drop_last(), f, p, q);
        }
    }
}

/// What remains of `s` after repeatedly removing a last token that is the
/// same as `token`.
pub open spec fn trim_same<T: Token>(s: Seq<T>, token: T) -> Seq<T>
    decreases s.len(),
{
    if s.len() > 0 && s.last().same_as(&token) {
        trim_same(s.drop_last(), token)
    } else {
        s
    }
}

/// Removing trailing tokens that are the same as `token` is trimming by
/// that predicate.
pub proof fn lemma_trim_same_suffix<T: Token>(s: Seq<T>, token: T)
    ensures
        trim_same(s, token) == trim_suffix(s, |t: T| t.same_as(&token)),
    decreases s.len(),
{
    if s.len() > 0 && s.last().same_as(&token) {
        lemma_trim_same_suffix(s.drop_last(), token);
    }
}

/// A stream of tokens.
#[derive(Debug)]
pub struct TokenStream<T>(pub Vec<T>);

impl<T> View for TokenStream<T> {
    type V = Seq<T>;

    open spec fn view(&self) -> Seq<T> {
        self.0@
    }
}

impl<T> Default for TokenStream<T> {
    fn default() -> (s: Self)
        ensures
            s@ == Seq::<T>::empty(),
    {
        TokenStream(Vec::new())
    }
}

impl<T: Token> TokenStream<T> {
    /// Pushes a token into the stream.
    pub fn push(&mut self, token: T)
        ensures
            final(self)@ == old(self)@.push(token),
    {
        self.0.push(token);
    }

    /// Removes any number of tokens that are the same as `token` from the end
    /// of the stream.
    pub fn trim_end(&mut self, token: &T)
        ensures
            final(self)@ == trim_same(old(self)@, *token),
    {
        loop
            invariant
                trim_same(self@, *token) == trim_same(old(self)@, *token),
            ensures
                trim_same(self@, *token) == trim_same(old(self)@, *token),
                self@.len() == 0 || !self@.last().same_as(token),
            decreases self@.len(),
        {
            let n = self.0.len();
            if n == 0 {
                break;
            }
            let same = self.0[n - 1].same(token);
            if !same {
                break;
            }
            let ghost before = self@;
            let _ = self.0.pop();
            assert(self@ =~= before.drop_last());
        }
    }

    /// Removes tokens from the end of the stream for as long as `predicate`
    /// holds of the last one.
    pub fn trim_while<F: Fn(&T) -> bool>(&mut self, predicate: F)
        requires
            forall|t: &T| predicate.requires((t,)),
        ensures
            final(self)@.len() <= old(self)@.len(),
            final(self)@ == old(self)@.take(final(self)@.len() as int),
            forall|i: int|
                final(self)@.len() <= i < old(self)@.len() ==> call_ensures(
                    predicate,
                    (&old(self)@[i],),
                    true,
                ),
            final(self)@.len() == 0 || call_ensures(
                predicate,
                (&final(self)@.last(),),
                false,
            ),
    {
        loop
            invariant
                forall|t: &T| predicate.requires((t,)),
                self@.len() <= old(self)@.len(),
                self@ == old(self)@.take(self@.len() as int),
                forall|i: int|
                    self@.len() <= i < old(self)@.len() ==> call_ensures(
                        predicate,
                        (&old(self)@[i],),
                        true,
                    ),
            ensures
                self@.len() <= old(self)@.len(),
                self@ == old(self)@.take(self@.len() as int),
                forall|i: int|
                    self@.len() <= i < old(self)@.len() ==> call_ensures(
                        predicate,
                        (&old(self)@[i],),
                        true,
                    ),
                self@.len() == 0 || call_ensures(predicate, (&self@.last(),), false),
            decreases self@.len(),
        {
            let n = self.0.len();
            if n == 0 {
                break;
            }
            let keep_going = predicate(&self.0[n - 1]);
            if !keep_going {
                break;
            }
            let ghost before = self@;
            let _ = self.0.pop();
            assert(self@ =~= old(self)@.take(self@.len() as int));
        }
    }

    /// The number of tokens in the stream.
    pub fn count(&self) -> (n: usize)
        ensures
            n == self@.len(),
    {
        self.0.len()
    }

    /// Removes every token from the stream.
    pub fn clear(&mut self)
        ensures
            final(self)@ == Seq::<T>::empty(),
    {
        self.0.clear();
    }

    /// Appends the tokens of `other` to the end of the stream.
    pub fn extend(&mut self, other: TokenStream<T>)
        ensures
            final(self)@ == old(self)@ + other@,
    {
        let mut other = other;
        self.0.append(&mut other.0);
    }

    /// Gets the tokens of the stream.
    pub fn as_slice(&self) -> (s: &[T])
        ensures
            s@ == self@,
    {
        self.0.as_slice()
    }

    /// Consumes the stream, giving up its tokens.
    pub fn into_vec(self) -> (v: Vec<T>)
        ensures
            v@ == self@,
    {
        self.0
    }
}

} // verus!
