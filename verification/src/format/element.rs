//! Elements used during formatting: a syntax tree whose trivia rides on its
//! tokens.
use vstd::prelude::*;

use super::pre::SourceToken;
use super::syntax::SyntaxKind;

verus! {

/// An element of a syntax tree: a node, by its kind, or a token.
#[derive(Debug)]
pub enum Element {
    /// A node of the given kind.
    Node(SyntaxKind),
    /// A token, with the trivia around it.
    Token(SourceToken),
}

impl Element {
    /// The kind of the element.
    pub open spec fn spec_kind(self) -> SyntaxKind {
        match self {
            Element::Node(k) => k,
            Element::Token(t) => t.kind,
        }
    }

    /// Gets the kind of the element.
    pub fn kind(&self) -> (k: SyntaxKind)
        ensures
            k == self.spec_kind(),
    {
        match self {
            Element::Node(k) => *k,
            Element::Token(t) => t.kind,
        }
    }

    /// Gets the element as a token, if it is one.
    pub fn as_token(&self) -> (t: Option<&SourceToken>)
        ensures
            match *self {
                Element::Token(tok) => t == Some(&tok),
                Element::Node(_) => t is None,
            },
    {
        match self {
            Element::Token(tok) => Some(tok),
            Element::Node(_) => None,
        }
    }
}

/// A formattable element: an element with its children, trivia excluded.
#[derive(Debug)]
pub struct FormatElement {
    /// The inner element.
    element: Element,
    /// The children, in source order.
    children: Vec<FormatElement>,
}

impl FormatElement {
    /// The inner element.
    pub closed spec fn spec_element(self) -> Element {
        self.element
    }

    /// The children, in source order.
    pub closed spec fn spec_children(self) -> Seq<FormatElement> {
        self.children@
    }

    /// The kind of the inner element.
    pub open spec fn spec_kind(self) -> SyntaxKind {
        self.spec_element().spec_kind()
    }

    /// Creates a new element; an empty `children` means no children.
    pub fn new(element: Element, children: Vec<FormatElement>) -> (e: Self)
        ensures
            e.spec_element() == element,
            e.spec_children() == children@,
    {
        FormatElement { element, children }
    }

    /// Gets the inner element.
    pub fn element(&self) -> (e: &Element)
        ensures
            *e == self.spec_element(),
    {
        &self.element
    }

    /// Gets the children, or `None` when there are none.
    pub fn children(&self) -> (c: Option<&[FormatElement]>)
        ensures
            match c {
                Some(s) => s@ == self.spec_children() && s@.len() > 0,
                None => self.spec_children().len() == 0,
            },
    {
        if self.children.len() == 0 {
            None
        } else {
            Some(self.children.as_slice())
        }
    }

    /// Gets the children as a slice, empty when there are none.
    pub fn child_slice(&self) -> (c: &[FormatElement])
        ensures
            c@ == self.spec_children(),
    {
        self.children.as_slice()
    }

    /// Gets the kind of the inner element.
    pub fn kind(&self) -> (k: SyntaxKind)
        ensures
            k == self.spec_kind(),
    {
        self.element.kind()
    }
}

/// The kinds of the first `n` elements of `cs`, each once, in the order in
/// which they first appear.
pub open spec fn kinds_prefix(cs: Seq<FormatElement>, n: int) -> Seq<SyntaxKind>
    decreases n,
{
    if n <= 0 {
        Seq::empty()
    } else {
        let p = kinds_prefix(cs, n - 1);
        if p.contains(cs[n - 1].spec_kind()) {
            p
        } else {
            p.push(cs[n - 1].spec_kind())
        }
    }
}

/// The elements of kind `k` among the first `n` elements of `cs`, in order.
pub open spec fn kind_prefix(cs: Seq<FormatElement>, k: SyntaxKind, n: int) -> Seq<FormatElement>
    decreases n,
{
    if n <= 0 {
        Seq::empty()
    } else if cs[n - 1].spec_kind() == k {
        kind_prefix(cs, k, n - 1).push(cs[n - 1])
    } else {
        kind_prefix(cs, k, n - 1)
    }
}

impl FormatElement {
    /// Groups the children by kind: one group for each kind that occurs,
    /// in the order in which the kinds first occur, each holding the
    /// children of that kind in order.
    pub fn children_by_kind(&self) -> (r: Vec<(SyntaxKind, Vec<&FormatElement>)>)
        ensures
            r@.len() == kinds_prefix(self.spec_children(), self.spec_children().len() as int).len(),
            forall|g: int|
                0 <= g < r@.len() ==> {
                    let k = kinds_prefix(self.spec_children(), self.spec_children().len() as int)[g];
                    let want = kind_prefix(self.spec_children(), k, self.spec_children().len() as int);
                    &&& (#[trigger] r@[g]).0 == k
                    &&& r@[g].1@.len() == want.len()
                    &&& forall|j: int| 0 <= j < want.len() ==> *(#[trigger] r@[g].1@[j]) == want[j]
                },
    {
        let cs = self.children.as_slice();
        let ghost all = cs@;
        let mut kinds: Vec<SyntaxKind> = Vec::new();
        let mut i: usize = 0;
        while i < cs.len()
            invariant
                i <= cs@.len(),
                all == cs@,
                kinds@ == kinds_prefix(all, i as int),
            decreases cs@.len() - i,
        {
            let k = cs[i].kind();
            let mut found = false;
            let mut m: usize = 0;
            while m < kinds.len()
                invariant
                    m <= kinds@.len(),
                    found <==> exists|t: int| 0 <= t < m && kinds@[t] == k,
                decreases kinds@.len() - m,
            {
                if kinds[m] == k {
                    found = true;
                }
                m = m + 1;
            }
            if !found {
                kinds.push(k);
            }
            i = i + 1;
        }
        let mut out: Vec<(SyntaxKind, Vec<&FormatElement>)> = Vec::new();
        let mut g: usize = 0;
        while g < kinds.len()
            invariant
                g <= kinds@.len(),
                all == cs@,
                kinds@ == kinds_prefix(all, all.len() as int),
                out@.len() == g,
                forall|h: int|
                    0 <= h < g ==> {
                        let k = kinds@[h];
                        let want = kind_prefix(all, k, all.len() as int);
                        &&& (#[trigger] out@[h]).0 == k
                        &&& out@[h].1@.len() == want.len()
                        &&& forall|j: int| 0 <= j < want.len() ==> *(#[trigger] out@[h].1@[j]) == want[j]
                    },
            decreases kinds@.len() - g,
        {
            let k = kinds[g];
            let mut group: Vec<&FormatElement> = Vec::new();
            let mut j: usize = 0;
            while j < cs.len()
                invariant
                    j <= cs@.len(),
                    all == cs@,
                    group@.len() == kind_prefix(all, k, j as int).len(),
                    forall|t: int|
                        0 <= t < group@.len() ==> *(#[trigger] group@[t]) == kind_prefix(all, k, j as int)[t],
                decreases cs@.len() - j,
            {
                let c = &cs[j];
                if c.kind() == k {
                    group.push(c);
                }
                j = j + 1;
            }
            out.push((k, group));
            g = g + 1;
        }
        out
    }
}

/// An element is larger than its sequence of children.
pub proof fn lemma_children_decrease(e: FormatElement)
    ensures
        decreases_to!(e => e.spec_children()),
{
    broadcast use vstd::std_specs::vec::axiom_vec_decreases_to_view;

    assert(decreases_to!(e => e.children));
    assert(decreases_to!(e.children => e.children@));
}

/// An element is larger than each of its children.
pub proof fn lemma_child_decreases(e: FormatElement, i: int)
    requires
        0 <= i < e.spec_children().len(),
    ensures
        decreases_to!(e => e.spec_children()[i]),
{
    lemma_children_decrease(e);
    assert(decreases_to!(e.spec_children() => e.spec_children()[i]));
}

/// A node or token of a syntax tree with all of its children, trivia
/// included.
#[derive(Debug)]
pub struct SyntaxTree {
    /// The element.
    element: Element,
    /// The children, in source order.
    children: Vec<SyntaxTree>,
}

impl SyntaxTree {
    /// The element.
    pub closed spec fn spec_element(self) -> Element {
        self.element
    }

    /// The children, in source order.
    pub closed spec fn spec_children(self) -> Seq<SyntaxTree> {
        self.children@
    }

    /// Creates a tree from an element and its children.
    pub fn new(element: Element, children: Vec<SyntaxTree>) -> (t: Self)
        ensures
            t.spec_element() == element,
            t.spec_children() == children@,
    {
        SyntaxTree { element, children }
    }

    /// Consumes the tree and returns it as a [`FormatElement`]: a token
    /// keeps no children; a node keeps its children that are not trivia, each
    /// converted in turn.
    pub fn into_format_element(self) -> (e: FormatElement)
        ensures
            collates(self, e),
        decreases self, 1int,
    {
        proof {
            lemma_tree_children_decrease(self);
        }
        let SyntaxTree { element, children } = self;
        match element {
            Element::Token(_) => FormatElement::new(element, Vec::new()),
            Element::Node(_) => {
                let cs = collate(children);
                FormatElement::new(element, cs)
            },
        }
    }
}

/// A tree is larger than its sequence of children.
pub proof fn lemma_tree_children_decrease(t: SyntaxTree)
    ensures
        decreases_to!(t => t.spec_children()),
{
    broadcast use vstd::std_specs::vec::axiom_vec_decreases_to_view;

    assert(decreases_to!(t => t.children));
    assert(decreases_to!(t.children => t.children@));
}

/// Whether the element of a tree is trivia.
pub open spec fn is_trivia_tree(t: SyntaxTree) -> bool {
    t.spec_element().spec_kind().spec_is_trivia()
}

/// Whether `e` is what [`SyntaxTree::into_format_element`] makes of `t`.
pub open spec fn collates(t: SyntaxTree, e: FormatElement) -> bool
    decreases t, 0int,
{
    proof {
        lemma_tree_children_decrease(t);
    }
    &&& e.spec_element() == t.spec_element()
    &&& match t.spec_element() {
        Element::Token(_) => e.spec_children().len() == 0,
        Element::Node(_) => children_collate(
            t.spec_children(),
            t.spec_children().len() as int,
            e.spec_children(),
            e.spec_children().len() as int,
        ),
    }
}

/// Whether the first `m` elements of `es` are what the first `n` trees of
/// `ts` make, in order, once the trivia among them is left out.
pub open spec fn children_collate(
    ts: Seq<SyntaxTree>,
    n: int,
    es: Seq<FormatElement>,
    m: int,
) -> bool
    decreases ts, n,
{
    if n <= 0 {
        m == 0
    } else if n > ts.len() {
        false
    } else if is_trivia_tree(ts[n - 1]) {
        children_collate(ts, n - 1, es, m)
    } else {
        &&& 0 < m <= es.len()
        &&& collates(ts[n - 1], es[m - 1])
        &&& children_collate(ts, n - 1, es, m - 1)
    }
}

/// Only the first `m` elements of `es` matter to [`children_collate`].
proof fn lemma_children_collate_prefix(
    ts: Seq<SyntaxTree>,
    n: int,
    es: Seq<FormatElement>,
    m: int,
    es2: Seq<FormatElement>,
)
    requires
        0 <= m <= es.len(),
        m <= es2.len(),
        es.take(m) == es2.take(m),
    ensures
        children_collate(ts, n, es, m) == children_collate(ts, n, es2, m),
    decreases n,
{
    if n > 0 && n <= ts.len() {
        if is_trivia_tree(ts[n - 1]) {
            lemma_children_collate_prefix(ts, n - 1, es, m, es2);
        } else if 0 < m {
            assert(es[m - 1] == es.take(m)[m - 1]);
            assert(es2[m - 1] == es2.take(m)[m - 1]);
            assert(es.take(m - 1) =~= es.take(m).take(m - 1));
            assert(es2.take(m - 1) =~= es2.take(m).take(m - 1));
            lemma_children_collate_prefix(ts, n - 1, es, m - 1, es2);
        }
    }
}

/// Converts the children of a node, leaving out trivia.
fn collate(children: Vec<SyntaxTree>) -> (out: Vec<FormatElement>)
    ensures
        children_collate(children@, children@.len() as int, out@, out@.len() as int),
    decreases children@, 0int,
{
    let ghost all = children@;
    let total = children.len();
    let mut rest = children;
    let mut out: Vec<FormatElement> = Vec::new();
    let mut i: usize = 0;
    while rest.len() > 0
        invariant
            i + rest@.len() == all.len(),
            all.len() == total,
            all == children@,
            rest@ == all.skip(i as int),
            children_collate(all, i as int, out@, out@.len() as int),
        decreases rest@.len(),
    {
        let t = rest.remove(0);
        assert(t == all[i as int]);
        assert(decreases_to!(all => all[i as int]));
        let ghost before = out@;
        if !t.element.kind().is_trivia() {
            let e = t.into_format_element();
            out.push(e);
            proof {
                assert(out@.take(before.len() as int) =~= before.take(before.len() as int));
                lemma_children_collate_prefix(all, i as int, before, before.len() as int, out@);
            }
        }
        assert(rest@ =~= all.skip(i + 1));
        i = i + 1;
    }
    out
}

} // verus!
