//! The repositories that a corpus run covers: a set of repository
//! identifiers, kept sorted.
use vstd::prelude::*;

use crate::gauntlet::repository::Identifier;
use crate::text::chars_of;

verus! {

/// Whether `a` comes before `b` in the order of their characters (a proper
/// prefix comes first).
pub open spec fn text_lt(a: Seq<char>, b: Seq<char>) -> bool
    decreases a.len(),
{
    if a.len() == 0 {
        b.len() > 0
    } else if b.len() == 0 {
        false
    } else if a[0] < b[0] {
        true
    } else if a[0] == b[0] {
        text_lt(a.drop_first(), b.drop_first())
    } else {
        false
    }
}

/// An identifier taken as its organization and name.
pub type IdentifierView = (Seq<char>, Seq<char>);

/// The view of an identifier.
pub open spec fn id_view(i: Identifier) -> IdentifierView {
    (i.spec_organization(), i.spec_name())
}

/// Whether identifier `a` comes before `b`: by organization, then by name.
pub open spec fn id_lt(a: IdentifierView, b: IdentifierView) -> bool {
    text_lt(a.0, b.0) || (a.0 == b.0 && text_lt(a.1, b.1))
}

/// No text comes before itself.
proof fn lemma_text_irreflexive(a: Seq<char>)
    ensures
        !text_lt(a, a),
    decreases a.len(),
{
    if a.len() > 0 {
        lemma_text_irreflexive(a.drop_first());
    }
}

/// The order of texts is transitive.
proof fn lemma_text_transitive(a: Seq<char>, b: Seq<char>, c: Seq<char>)
    requires
        text_lt(a, b),
        text_lt(b, c),
    ensures
        text_lt(a, c),
    decreases a.len(),
{
    if a.len() > 0 && b.len() > 0 && c.len() > 0 && a[0] == b[0] && b[0] == c[0] {
        lemma_text_transitive(a.drop_first(), b.drop_first(), c.drop_first());
    }
}

/// Of two different texts, one comes before the other.
proof fn lemma_text_total(a: Seq<char>, b: Seq<char>)
    requires
        a != b,
    ensures
        text_lt(a, b) || text_lt(b, a),
    decreases a.len(),
{
    if a.len() == 0 && b.len() == 0 {
        assert(a =~= b);
    }
    if a.len() > 0 && b.len() > 0 && a[0] == b[0] {
        if a.drop_first() == b.drop_first() {
            assert(a =~= seq![a[0]] + a.drop_first());
            assert(b =~= seq![b[0]] + b.drop_first());
        }
        lemma_text_total(a.drop_first(), b.drop_first());
    }
}

/// The order of texts is strict, transitive and total.
pub proof fn lemma_text_order(a: Seq<char>, b: Seq<char>, c: Seq<char>)
    ensures
        !text_lt(a, a),
        text_lt(a, b) && text_lt(b, c) ==> text_lt(a, c),
        a != b ==> text_lt(a, b) || text_lt(b, a),
        !(text_lt(a, b) && text_lt(b, a)),
{
    lemma_text_irreflexive(a);
    if text_lt(a, b) && text_lt(b, c) {
        lemma_text_transitive(a, b, c);
    }
    if a != b {
        lemma_text_total(a, b);
    }
    if text_lt(a, b) && text_lt(b, a) {
        lemma_text_transitive(a, b, a);
    }
}

/// The order of identifiers is strict, transitive and total.
pub proof fn lemma_id_order(a: IdentifierView, b: IdentifierView, c: IdentifierView)
    ensures
        !id_lt(a, a),
        id_lt(a, b) && id_lt(b, c) ==> id_lt(a, c),
        a != b ==> id_lt(a, b) || id_lt(b, a),
        !(id_lt(a, b) && id_lt(b, a)),
{
    lemma_text_order(a.0, b.0, c.0);
    lemma_text_order(a.1, b.1, c.1);
    lemma_text_order(a.0, a.0, a.0);
    lemma_text_order(a.1, a.1, a.1);
    lemma_text_order(b.0, a.0, c.0);
    lemma_text_order(b.1, a.1, c.1);
}

/// Whether each identifier of `s` comes before the next.
pub open spec fn strictly_sorted(s: Seq<IdentifierView>) -> bool {
    forall|i: int, j: int| 0 <= i < j < s.len() ==> id_lt(#[trigger] s[i], #[trigger] s[j])
}

/// Compares two texts by [`text_lt`].
pub(crate) fn chars_lt(a: &[char], b: &[char]) -> (r: bool)
    ensures
        r == text_lt(a@, b@),
{
    let mut i: usize = 0;
    assert(a@.skip(0) =~= a@ && b@.skip(0) =~= b@);
    while i < a.len() && i < b.len() && a[i] == b[i]
        invariant
            i <= a@.len(),
            i <= b@.len(),
            forall|k: int| 0 <= k < i ==> a@[k] == b@[k],
            text_lt(a@, b@) == text_lt(a@.skip(i as int), b@.skip(i as int)),
        decreases a@.len() - i,
    {
        assert(a@.skip(i as int).drop_first() =~= a@.skip(i + 1));
        assert(b@.skip(i as int).drop_first() =~= b@.skip(i + 1));
        i = i + 1;
    }
    if i == a.len() {
        i < b.len()
    } else if i == b.len() {
        false
    } else {
        a[i] < b[i]
    }
}

/// Compares two identifiers by [`id_lt`].
#[verifier::loop_isolation(false)]
fn id_less(a: &Identifier, b: &Identifier) -> (r: bool)
    ensures
        r == id_lt(id_view(*a), id_view(*b)),
{
    let ao = chars_of(a.organization());
    let bo = chars_of(b.organization());
    if chars_lt(ao.as_slice(), bo.as_slice()) {
        return true;
    }
    if ao.len() != bo.len() {
        proof {
            lemma_text_order(ao@, bo@, bo@);
        }
        return false;
    }
    let mut k: usize = 0;
    while k < ao.len()
        invariant
            k <= ao@.len(),
            ao@.len() == bo@.len(),
            forall|t: int| 0 <= t < k ==> ao@[t] == bo@[t],
        decreases ao@.len() - k,
    {
        if ao[k] != bo[k] {
            proof {
                assert(ao@[k as int] != bo@[k as int]);
                assert(ao@ != bo@);
                assert(!text_lt(ao@, bo@));
                assert(a.spec_organization() == ao@ && b.spec_organization() == bo@);
            }
            return false;
        }
        k = k + 1;
    }
    assert(ao@ =~= bo@);
    let an = chars_of(a.name());
    let bn = chars_of(b.name());
    chars_lt(an.as_slice(), bn.as_slice())
}

/// The repositories that a corpus run covers, each once, sorted by
/// organization and then by name.
pub struct Inner {
    /// The repositories, sorted.
    repositories: Vec<Identifier>,
}

/// The views of a list of identifiers.
pub open spec fn ids_view(s: Seq<Identifier>) -> Seq<IdentifierView> {
    s.map_values(|i: Identifier| id_view(i))
}

impl Inner {
    /// The repositories, in order.
    pub closed spec fn spec_repositories(self) -> Seq<IdentifierView> {
        ids_view(self.repositories@)
    }

    /// The repositories are sorted, each once.
    #[verifier::type_invariant]
    closed spec fn sorted(self) -> bool {
        strictly_sorted(ids_view(self.repositories@))
    }

    /// Gets the repositories, sorted by organization and then by name.
    pub fn repositories(&self) -> (r: &[Identifier])
        ensures
            ids_view(r@) == self.spec_repositories(),
            strictly_sorted(ids_view(r@)),
    {
        proof {
            use_type_invariant(self);
        }
        self.repositories.as_slice()
    }

    /// Adds repositories: afterwards the repositories are those there were
    /// and those given, each once, sorted by organization and then by name.
    pub fn extend_repositories(&mut self, items: Vec<Identifier>)
        ensures
            strictly_sorted(final(self).spec_repositories()),
            forall|x: IdentifierView|
                #[trigger] final(self).spec_repositories().contains(x) <==> old(
                    self,
                ).spec_repositories().contains(x) || ids_view(items@).contains(x),
    {
        proof {
            use_type_invariant(&*self);
        }
        let mut repos: Vec<Identifier> = Vec::new();
        std::mem::swap(&mut repos, &mut self.repositories);
        let ghost start = ids_view(repos@);
        let mut items = items;
        let ghost all_items = ids_view(items@);
        while items.len() > 0
            invariant
                strictly_sorted(ids_view(repos@)),
                forall|x: IdentifierView|
                    #[trigger] ids_view(repos@).contains(x) || ids_view(items@).contains(x) <==> start.contains(
                        x,
                    ) || all_items.contains(x),
            decreases items@.len(),
        {
            let ghost before_items = items@;
            let item = items.pop().unwrap();
            proof {
                assert(before_items =~= items@.push(item));
                assert(ids_view(before_items) =~= ids_view(items@).push(id_view(item)));
            }
            let ghost rs = ids_view(repos@);
            let mut k: usize = 0;
            while k < repos.len() && id_less(&repos[k], &item)
                invariant
                    k <= repos@.len(),
                    rs == ids_view(repos@),
                    forall|t: int| 0 <= t < k ==> id_lt(#[trigger] rs[t], id_view(item)),
                decreases repos@.len() - k,
            {
                k = k + 1;
            }
            let present = if k < repos.len() {
                !id_less(&item, &repos[k])
            } else {
                false
            };
            if present {
                proof {
                    lemma_id_order(rs[k as int], id_view(item), id_view(item));
                    assert(rs[k as int] == id_view(item));
                    assert(rs.contains(id_view(item)));
                    assert forall|x: IdentifierView|
                        #[trigger] ids_view(repos@).contains(x) || ids_view(items@).contains(x) <==> start.contains(
                            x,
                        ) || all_items.contains(x) by {
                        assert(rs.contains(x) || ids_view(before_items).contains(x) <==> start.contains(x)
                            || all_items.contains(x));
                        if ids_view(before_items).contains(x) {
                            let w = choose|w: int| 0 <= w < ids_view(before_items).len() && ids_view(before_items)[w] == x;
                            if w == before_items.len() - 1 {
                                assert(rs[k as int] == x);
                            } else {
                                assert(ids_view(items@)[w] == x);
                            }
                        }
                        if ids_view(items@).contains(x) {
                            let w = choose|w: int| 0 <= w < ids_view(items@).len() && ids_view(items@)[w] == x;
                            assert(ids_view(before_items)[w] == x);
                        }
                    }
                }
            } else {
                proof {
                    if k < repos@.len() {
                        lemma_id_order(id_view(item), rs[k as int], rs[k as int]);
                    }
                }
                repos.insert(k, item);
                proof {
                    let ns = ids_view(repos@);
                    assert(ns =~= rs.insert(k as int, id_view(item)));
                    assert forall|i: int, j: int| 0 <= i < j < ns.len() implies id_lt(
                        #[trigger] ns[i],
                        #[trigger] ns[j],
                    ) by {
                        if j < k {
                            assert(ns[i] == rs[i] && ns[j] == rs[j]);
                        } else if j == k {
                            assert(ns[i] == rs[i]);
                        } else if i == k {
                            assert(ns[j] == rs[j - 1]);
                            if j - 1 > k {
                                assert(id_lt(rs[k as int], rs[j - 1]));
                                lemma_id_order(id_view(item), rs[k as int], rs[j - 1]);
                            }
                        } else if i < k {
                            assert(ns[i] == rs[i] && ns[j] == rs[j - 1]);
                            assert(id_lt(id_view(item), rs[j - 1])) by {
                                if j - 1 > k {
                                    assert(id_lt(rs[k as int], rs[j - 1]));
                                    lemma_id_order(id_view(item), rs[k as int], rs[j - 1]);
                                }
                            }
                            lemma_id_order(rs[i], id_view(item), rs[j - 1]);
                        } else {
                            assert(ns[i] == rs[i - 1] && ns[j] == rs[j - 1]);
                        }
                    }
                    assert forall|x: IdentifierView|
                        #[trigger] ids_view(repos@).contains(x) || ids_view(items@).contains(x) <==> start.contains(
                            x,
                        ) || all_items.contains(x) by {
                        if ns.contains(x) {
                            let w = choose|w: int| 0 <= w < ns.len() && ns[w] == x;
                            if w < k {
                                assert(rs[w] == x);
                            } else if w > k {
                                assert(rs[w - 1] == x);
                            } else {
                                assert(ids_view(before_items)[before_items.len() - 1] == x);
                            }
                        }
                        if rs.contains(x) {
                            let w = choose|w: int| 0 <= w < rs.len() && rs[w] == x;
                            if w < k {
                                assert(ns[w] == x);
                            } else {
                                assert(ns[w + 1] == x);
                            }
                        }
                        if ids_view(before_items).contains(x) {
                            let w = choose|w: int| 0 <= w < ids_view(before_items).len() && ids_view(before_items)[w] == x;
                            if w == before_items.len() - 1 {
                                assert(ns[k as int] == x);
                            } else {
                                assert(ids_view(items@)[w] == x);
                            }
                        }
                        if ids_view(items@).contains(x) {
                            let w = choose|w: int| 0 <= w < ids_view(items@).len() && ids_view(items@)[w] == x;
                            assert(ids_view(before_items)[w] == x);
                        }
                    }
                }
            }
        }
        self.repositories = repos;
    }
}

impl Default for Inner {
    fn default() -> (i: Self)
        ensures
            i.spec_repositories() == Seq::<IdentifierView>::empty(),
    {
        Inner { repositories: Vec::new() }
    }
}

} // verus!
