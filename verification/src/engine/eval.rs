//! Evaluation support: scopes, task inputs, and the trie that gives each
//! input its path inside a task's container.
use vstd::prelude::*;

use crate::engine::path::{
    clean_path, components, has_base, is_absolute, join, path_clean, path_components, spec_join,
    strip_base, strip_prefix, views,
};
use crate::engine::url::{
    file_url_path, is_file_url, is_url, join_url, parse_url, spec_is_file_url, spec_is_url, texts,
    url_file_path,
    url_join, url_parse, ParsedUrl, UrlView,
};
use crate::engine::backend::TaskExecutionResult;
use crate::engine::value::{
    int_string, int_text, lemma_value_view, lemma_values_view, opt_view, values_view, Value,
    ValueView,
};
use crate::text::{
    chars_of, decimal, lemma_decimal_digits, lemma_decimal_injective, push_char, push_chars,
    spec_decimal,
};

verus! {

/// The index of a scope in a collection of scopes.
#[derive(Debug, Clone, Copy, PartialEq, Eq, Hash, Structural)]
pub struct ScopeIndex(usize);

impl ScopeIndex {
    /// The raw index.
    pub closed spec fn index(&self) -> usize {
        self.0
    }

    /// Constructs a new scope index from a raw index.
    pub fn new(index: usize) -> (r: Self)
        ensures
            r.index() == index,
    {
        ScopeIndex(index)
    }

    /// Gets the raw index.
    pub fn get(&self) -> (r: usize)
        ensures
            r == self.index(),
    {
        self.0
    }
}

impl From<usize> for ScopeIndex {
    fn from(index: usize) -> (r: Self) {
        ScopeIndex(index)
    }
}

impl vstd::std_specs::convert::FromSpecImpl<usize> for ScopeIndex {
    open spec fn obeys_from_spec() -> bool {
        true
    }

    closed spec fn from_spec(index: usize) -> Self {
        ScopeIndex(index)
    }
}

/// Converting a raw index to a scope index and back keeps the index.
pub proof fn lemma_scope_index_from(i: usize, s: ScopeIndex)
    ensures
        <ScopeIndex as vstd::std_specs::convert::FromSpec<usize>>::from_spec(i).index() == i,
        <usize as vstd::std_specs::convert::FromSpec<ScopeIndex>>::from_spec(s) == s.index(),
{
}

impl From<ScopeIndex> for usize {
    fn from(index: ScopeIndex) -> (r: Self) {
        index.0
    }
}

impl vstd::std_specs::convert::FromSpecImpl<ScopeIndex> for usize {
    open spec fn obeys_from_spec() -> bool {
        true
    }

    closed spec fn from_spec(index: ScopeIndex) -> Self {
        index.0
    }
}

/// Whether `cb` can succeed on the entry `e`.
pub open spec fn ran_ok<E, F: Fn(&str, &Value) -> Result<(), E>>(cb: F, e: (String, Value)) -> bool {
    exists|n: &str| n@ == e.0@ && #[trigger] call_ensures(cb, (n, &e.1), Ok(()))
}

/// Whether `cb` can fail with `err` on the entry `e`.
pub open spec fn ran_err<E, F: Fn(&str, &Value) -> Result<(), E>>(cb: F, e: (String, Value), err: E) -> bool {
    exists|n: &str| n@ == e.0@ && #[trigger] call_ensures(cb, (n, &e.1), Err(err))
}

/// The index of the first entry of `names` named `name`.
pub open spec fn name_index(names: Seq<(String, Value)>, name: Seq<char>) -> Option<int>
    decreases names.len(),
{
    if names.len() == 0 {
        None
    } else if names.last().0@ == name {
        match name_index(names.drop_last(), name) {
            Some(i) => Some(i),
            None => Some(names.len() - 1),
        }
    } else {
        name_index(names.drop_last(), name)
    }
}

/// The index found by [`name_index`] holds the name, and no earlier entry
/// does; when none is found, no entry does.
pub proof fn lemma_name_index(names: Seq<(String, Value)>, name: Seq<char>)
    ensures
        match name_index(names, name) {
            Some(i) => 0 <= i < names.len() && names[i].0@ == name && forall|j: int|
                0 <= j < i ==> #[trigger] names[j].0@ != name,
            None => forall|j: int| 0 <= j < names.len() ==> #[trigger] names[j].0@ != name,
        },
    decreases names.len(),
{
    if names.len() > 0 {
        let init = names.drop_last();
        lemma_name_index(init, name);
        match name_index(init, name) {
            Some(i) => {
                assert forall|j: int| 0 <= j < i implies #[trigger] names[j].0@ != name by {
                    assert(init[j] == names[j]);
                }
            },
            None => {
                assert forall|j: int| 0 <= j < names.len() - 1 implies #[trigger] names[j].0@
                    != name by {
                    assert(init[j] == names[j]);
                }
            },
        }
    }
}

/// An evaluation scope: its parent, if any, and the names in it with their
/// values, in the order they were inserted.
#[derive(Debug)]
pub struct Scope {
    /// The index of the parent scope; `None` for a root scope.
    parent: Option<ScopeIndex>,
    /// The names in scope and their values.
    names: Vec<(String, Value)>,
}

impl Default for Scope {
    fn default() -> (s: Self)
        ensures
            s.spec_parent() is None,
            s.spec_names() == Seq::<(String, Value)>::empty(),
    {
        Scope { parent: None, names: Vec::new() }
    }
}

impl Scope {
    /// The index of the parent scope.
    pub closed spec fn spec_parent(self) -> Option<ScopeIndex> {
        self.parent
    }

    /// The names in scope and their values, in insertion order.
    pub closed spec fn spec_names(self) -> Seq<(String, Value)> {
        self.names@
    }

    /// Creates a new, empty scope given its parent.
    pub fn new(parent: ScopeIndex) -> (s: Self)
        ensures
            s.spec_parent() == Some(parent),
            s.spec_names() == Seq::<(String, Value)>::empty(),
    {
        Scope { parent: Some(parent), names: Vec::new() }
    }

    /// Inserts a name that is not yet in the scope, after the others.
    pub fn insert(&mut self, name: String, value: Value)
        requires
            name_index(old(self).spec_names(), name@) is None,
        ensures
            final(self).spec_names() == old(self).spec_names().push((name, value)),
            final(self).spec_parent() == old(self).spec_parent(),
    {
        self.names.push((name, value));
    }

    /// The names in the scope and their values, in insertion order.
    pub fn local(&self) -> (r: &[(String, Value)])
        ensures
            r@ == self.spec_names(),
    {
        self.names.as_slice()
    }

    /// Clears the scope: no parent and no names.
    pub(crate) fn clear(&mut self)
        ensures
            final(self).spec_parent() is None,
            final(self).spec_names() == Seq::<(String, Value)>::empty(),
    {
        self.parent = None;
        self.names.clear();
    }

    /// Sets the scope's parent.
    pub(crate) fn set_parent(&mut self, parent: ScopeIndex)
        ensures
            final(self).spec_parent() == Some(parent),
            final(self).spec_names() == old(self).spec_names(),
    {
        self.parent = Some(parent);
    }
}

/// Finds the first entry of `names` named `name`.
fn find_name(names: &[(String, Value)], name: &str) -> (r: Option<usize>)
    ensures
        match r {
            Some(k) => name_index(names@, name@) == Some(k as int),
            None => name_index(names@, name@) is None,
        },
{
    proof {
        lemma_name_index(names@, name@);
    }
    let key = name.to_owned();
    let mut i: usize = 0;
    while i < names.len()
        invariant
            i <= names@.len(),
            key@ == name@,
            forall|j: int| 0 <= j < i ==> #[trigger] names@[j].0@ != name@,
        decreases names@.len() - i,
    {
        if names[i].0 == key {
            proof {
                lemma_name_index(names@, name@);
            }
            return Some(i);
        }
        i = i + 1;
    }
    None
}

/// Whether the chain of parents from scope `i` stays among `scopes` and
/// reaches a root scope within `fuel` steps.
pub open spec fn chain_ok(scopes: Seq<Scope>, i: int, fuel: nat) -> bool
    decreases fuel,
{
    &&& 0 <= i < scopes.len()
    &&& match scopes[i].spec_parent() {
        None => true,
        Some(p) => fuel > 0 && chain_ok(scopes, p.index() as int, (fuel - 1) as nat),
    }
}

/// What looking up `name` from scope `i` finds: its value in the first
/// scope along the chain of parents that has it.
pub open spec fn lookup_from(scopes: Seq<Scope>, i: int, name: Seq<char>, fuel: nat) -> Option<
    Value,
>
    decreases fuel,
{
    if !(0 <= i < scopes.len()) {
        None
    } else {
        match name_index(scopes[i].spec_names(), name) {
            Some(k) => Some(scopes[i].spec_names()[k].1),
            None => match scopes[i].spec_parent() {
                None => None,
                Some(p) => if fuel == 0 {
                    None
                } else {
                    lookup_from(scopes, p.index() as int, name, (fuel - 1) as nat)
                },
            },
        }
    }
}

/// Along a well-formed chain, more fuel changes neither the chain's
/// well-formedness nor what a lookup finds.
pub proof fn lemma_lookup_fuel(scopes: Seq<Scope>, i: int, name: Seq<char>, f1: nat, f2: nat)
    requires
        chain_ok(scopes, i, f1),
        f1 <= f2,
    ensures
        chain_ok(scopes, i, f2),
        lookup_from(scopes, i, name, f2) == lookup_from(scopes, i, name, f1),
    decreases f1,
{
    match scopes[i].spec_parent() {
        None => {},
        Some(p) => {
            lemma_lookup_fuel(scopes, p.index() as int, name, (f1 - 1) as nat, (f2 - 1) as nat);
        },
    }
}

/// A lookup finds the scope's own binding of the name, or else what a
/// lookup from its parent finds (nothing at the top of the chain).
pub proof fn lemma_lookup_step(scopes: Seq<Scope>, i: int, name: Seq<char>)
    requires
        chain_ok(scopes, i, scopes.len()),
    ensures
        lookup_from(scopes, i, name, scopes.len()) == match name_index(scopes[i].spec_names(), name) {
            Some(k) => Some(scopes[i].spec_names()[k].1),
            None => match scopes[i].spec_parent() {
                None => None,
                Some(p) => lookup_from(scopes, p.index() as int, name, scopes.len()),
            },
        },
        scopes[i].spec_parent() matches Some(p) ==> chain_ok(scopes, p.index() as int, scopes.len()),
{
    match scopes[i].spec_parent() {
        None => {},
        Some(p) => {
            lemma_lookup_fuel(scopes, p.index() as int, name, (scopes.len() - 1) as nat, scopes.len());
        },
    }
}

/// Reading after writing: once a name is inserted into scope `i`, looking it
/// up from `i` gives the inserted value, whatever the parents hold.
pub proof fn lemma_lookup_after_insert(
    scopes: Seq<Scope>,
    i: int,
    updated: Scope,
    name: String,
    value: Value,
    fuel: nat,
)
    requires
        0 <= i < scopes.len(),
        name_index(scopes[i].spec_names(), name@) is None,
        updated.spec_names() == scopes[i].spec_names().push((name, value)),
    ensures
        lookup_from(scopes.update(i, updated), i, name@, fuel) == Some(value),
{
    let names = updated.spec_names();
    assert(names.drop_last() =~= scopes[i].spec_names());
    assert(name_index(names, name@) == Some(names.len() - 1));
}

/// The entries visible from scope `i`: its own, then those of each parent in
/// turn, nearest first.
pub open spec fn visible_from(scopes: Seq<Scope>, i: int, fuel: nat) -> Seq<(String, Value)>
    decreases fuel,
{
    if !(0 <= i < scopes.len()) {
        Seq::empty()
    } else {
        scopes[i].spec_names() + match scopes[i].spec_parent() {
            None => Seq::empty(),
            Some(p) => if fuel == 0 {
                Seq::empty()
            } else {
                visible_from(scopes, p.index() as int, (fuel - 1) as nat)
            },
        }
    }
}

/// A reference to a scope in a collection of scopes.
#[derive(Debug, Clone, Copy)]
pub struct ScopeRef<'a> {
    /// The collection of scopes.
    scopes: &'a [Scope],
    /// The index of the scope in the collection.
    index: ScopeIndex,
}

impl<'a> ScopeRef<'a> {
    /// The collection of scopes.
    pub closed spec fn spec_scopes(self) -> Seq<Scope> {
        self.scopes@
    }

    /// The index of the scope.
    pub closed spec fn spec_index(self) -> int {
        self.index.index() as int
    }

    /// Creates a reference to the scope at `index`.
    pub fn new(scopes: &'a [Scope], index: ScopeIndex) -> (r: Self)
        ensures
            r.spec_scopes() == scopes@,
            r.spec_index() == index.index(),
    {
        ScopeRef { scopes, index }
    }

    /// Gets a reference to the parent scope, or `None` for a root scope.
    pub fn parent(&self) -> (r: Option<Self>)
        requires
            0 <= self.spec_index() < self.spec_scopes().len(),
        ensures
            match self.spec_scopes()[self.spec_index()].spec_parent() {
                Some(p) => r matches Some(s) && s.spec_scopes() == self.spec_scopes()
                    && s.spec_index() == p.index(),
                None => r is None,
            },
    {
        match self.scopes[self.index.get()].parent {
            Some(p) => Some(ScopeRef { scopes: self.scopes, index: p }),
            None => None,
        }
    }

    /// The names local to the scope and their values, in insertion order.
    pub fn names(&self) -> (r: &'a [(String, Value)])
        requires
            0 <= self.spec_index() < self.spec_scopes().len(),
        ensures
            r@ == self.spec_scopes()[self.spec_index()].spec_names(),
    {
        self.scopes[self.index.get()].local()
    }

    /// Gets the value of a name local to the scope.
    pub fn local(&self, name: &str) -> (r: Option<&'a Value>)
        requires
            0 <= self.spec_index() < self.spec_scopes().len(),
        ensures
            match name_index(self.spec_scopes()[self.spec_index()].spec_names(), name@) {
                Some(k) => r == Some(&self.spec_scopes()[self.spec_index()].spec_names()[k].1),
                None => r is None,
            },
    {
        let names = self.scopes[self.index.get()].local();
        proof {
            lemma_name_index(names@, name@);
        }
        match find_name(names, name) {
            Some(k) => Some(&names[k].1),
            None => None,
        }
    }

    /// Looks up a name: its value in this scope or, failing that, in the
    /// nearest parent scope that has it.
    pub fn lookup(&self, name: &str) -> (r: Option<&'a Value>)
        requires
            chain_ok(self.spec_scopes(), self.spec_index(), self.spec_scopes().len()),
        ensures
            match lookup_from(
                self.spec_scopes(),
                self.spec_index(),
                name@,
                self.spec_scopes().len(),
            ) {
                Some(v) => r matches Some(x) && *x == v,
                None => r is None,
            },
    {
        let ghost target = lookup_from(
            self.scopes@,
            self.index.index() as int,
            name@,
            self.scopes@.len(),
        );
        let mut current = self.index;
        let ghost mut fuel: nat = self.scopes@.len();
        loop
            invariant
                chain_ok(self.scopes@, current.index() as int, fuel),
                lookup_from(self.scopes@, current.index() as int, name@, fuel) == target,
                target == lookup_from(
                    self.scopes@,
                    self.index.index() as int,
                    name@,
                    self.scopes@.len(),
                ),
            decreases fuel,
        {
            let scope = &self.scopes[current.get()];
            proof {
                lemma_name_index(scope.names@, name@);
            }
            match find_name(scope.names.as_slice(), name) {
                Some(k) => {
                    return Some(&scope.names[k].1);
                },
                None => {},
            }
            match scope.parent {
                Some(p) => {
                    current = p;
                    proof {
                        fuel = (fuel - 1) as nat;
                    }
                },
                None => {
                    return None;
                },
            }
        }
    }

    /// Calls `cb` on each name and value visible to the scope, in the order
    /// of [`ScopeRef::visible`], stopping at and returning the first error.
    pub fn for_each<E, F: Fn(&str, &Value) -> Result<(), E>>(&self, cb: F) -> (r: Result<(), E>)
        requires
            chain_ok(self.spec_scopes(), self.spec_index(), self.spec_scopes().len()),
            forall|n: &str, v: &Value| call_requires(cb, (n, v)),
        ensures
            ({
                let vis = visible_from(self.spec_scopes(), self.spec_index(), self.spec_scopes().len());
                match r {
                    Ok(()) => forall|j: int| 0 <= j < vis.len() ==> #[trigger] ran_ok(cb, vis[j]),
                    Err(e) => exists|k: int|
                        0 <= k < vis.len() && (forall|j: int| 0 <= j < k ==> #[trigger] ran_ok(cb, vis[j]))
                            && #[trigger] ran_err(cb, vis[k], e),
                }
            }),
    {
        let vis = self.visible();
        let ghost all = visible_from(self.spec_scopes(), self.spec_index(), self.spec_scopes().len());
        let mut i: usize = 0;
        while i < vis.len()
            invariant
                i <= vis@.len(),
                all == visible_from(self.spec_scopes(), self.spec_index(), self.spec_scopes().len()),
                vis@.len() == all.len(),
                forall|j: int| 0 <= j < vis@.len() ==> *#[trigger] vis@[j] == all[j],
                forall|n: &str, v: &Value| call_requires(cb, (n, v)),
                forall|j: int| 0 <= j < i ==> #[trigger] ran_ok(cb, all[j]),
            decreases vis@.len() - i,
        {
            let e: &(String, Value) = vis[i];
            let n = e.0.as_str();
            let res = cb(n, &e.1);
            assert(*e == all[i as int]);
            assert(n@ == all[i as int].0@);
            assert(call_ensures(cb, (n, &all[i as int].1), res));
            match res {
                Ok(u) => {
                    assert(res == Ok::<(), E>(()));
                    assert(ran_ok(cb, all[i as int]));
                },
                Err(err) => {
                    assert(ran_err(cb, all[i as int], err));
                    return Err(err);
                },
            }
            i = i + 1;
        }
        Ok(())
    }

    /// The names and values visible to the scope, in the order a walk from
    /// the scope through its parents meets them: the scope's own first.
    pub fn visible(&self) -> (r: Vec<&'a (String, Value)>)
        requires
            chain_ok(self.spec_scopes(), self.spec_index(), self.spec_scopes().len()),
        ensures
            r@.len() == visible_from(
                self.spec_scopes(),
                self.spec_index(),
                self.spec_scopes().len(),
            ).len(),
            forall|j: int|
                0 <= j < r@.len() ==> *#[trigger] r@[j] == visible_from(
                    self.spec_scopes(),
                    self.spec_index(),
                    self.spec_scopes().len(),
                )[j],
    {
        let ghost all = visible_from(self.scopes@, self.index.index() as int, self.scopes@.len());
        let mut out: Vec<&'a (String, Value)> = Vec::new();
        let mut current = self.index;
        let ghost mut fuel: nat = self.scopes@.len();
        loop
            invariant
                chain_ok(self.scopes@, current.index() as int, fuel),
                all == visible_from(self.scopes@, self.index.index() as int, self.scopes@.len()),
                out@.len() + visible_from(self.scopes@, current.index() as int, fuel).len()
                    == all.len(),
                forall|j: int| 0 <= j < out@.len() ==> *#[trigger] out@[j] == all[j],
                forall|j: int|
                    0 <= j < visible_from(self.scopes@, current.index() as int, fuel).len()
                        ==> #[trigger] visible_from(self.scopes@, current.index() as int, fuel)[j]
                        == all[out@.len() + j],
            decreases fuel,
        {
            let scope = &self.scopes[current.get()];
            let ghost before = out@.len();
            let ghost rest = visible_from(self.scopes@, current.index() as int, fuel);
            let mut k: usize = 0;
            while k < scope.names.len()
                invariant
                    k <= scope.names@.len(),
                    out@.len() == before + k,
                    before + rest.len() == all.len(),
                    rest == visible_from(self.scopes@, current.index() as int, fuel),
                    rest.len() >= scope.names@.len(),
                    forall|j: int| 0 <= j < scope.names@.len() ==> rest[j] == scope.names@[j],
                    forall|j: int| 0 <= j < out@.len() ==> *#[trigger] out@[j] == all[j],
                    forall|j: int| 0 <= j < rest.len() ==> #[trigger] rest[j] == all[before + j],
                decreases scope.names@.len() - k,
            {
                let ghost prev = out@;
                out.push(&scope.names[k]);
                proof {
                    assert(rest[k as int] == scope.names@[k as int]);
                    assert(rest[k as int] == all[before + k]);
                    assert forall|j: int| 0 <= j < out@.len() implies *#[trigger] out@[j]
                        == all[j] by {
                        if j < prev.len() {
                            assert(out@[j] == prev[j]);
                        }
                    }
                }
                k = k + 1;
            }
            match scope.parent {
                Some(p) => {
                    let ghost next = visible_from(self.scopes@, p.index() as int, (fuel - 1) as nat);
                    proof {
                        assert(rest == scope.names@ + next);
                        assert forall|j: int| 0 <= j < next.len() implies #[trigger] next[j]
                            == all[out@.len() + j] by {
                            assert(rest[scope.names@.len() + j] == next[j]);
                        }
                        fuel = (fuel - 1) as nat;
                    }
                    current = p;
                },
                None => {
                    proof {
                        assert(rest == scope.names@);
                    }
                    return out;
                },
            }
        }
    }
}

/// The maximum number of stderr lines shown when a task fails.
pub const MAX_STDERR_LINES: usize = 10;

/// The requirement that lists the return codes a task may exit with.
pub const TASK_REQUIREMENT_RETURN_CODES: &'static str = "return_codes";

/// The other name of [`TASK_REQUIREMENT_RETURN_CODES`].
pub const TASK_REQUIREMENT_RETURN_CODES_ALIAS: &'static str = "returnCodes";

/// `i` as a 32-bit exit code, or 0 when it does not fit in one.
pub open spec fn code_of(i: i64) -> i32 {
    if i32::MIN <= i <= i32::MAX {
        i as i32
    } else {
        0
    }
}

/// The return codes requirement among `requirements`: the entry named
/// `return_codes`, else the one named `returnCodes`.
pub open spec fn return_codes(requirements: Seq<(String, Value)>) -> Option<Value> {
    match name_index(requirements, TASK_REQUIREMENT_RETURN_CODES@) {
        Some(k) => Some(requirements[k].1),
        None => match name_index(requirements, TASK_REQUIREMENT_RETURN_CODES_ALIAS@) {
            Some(k) => Some(requirements[k].1),
            None => None,
        },
    }
}

/// Whether a return codes requirement has one of the accepted forms: a
/// string, an integer or an array.
pub open spec fn valid_codes(v: ValueView) -> bool {
    v is String || v is Integer || v is Array
}

/// Whether exiting with `code` is a failure under the return codes
/// `codes`: `*` accepts every code, an integer accepts itself, an array
/// accepts the integers it holds, and without codes only 0 is accepted.
/// `None` when the codes are a string other than `*`.
pub open spec fn exit_error(code: i32, codes: Option<ValueView>) -> Option<bool> {
    match codes {
        None => Some(code != 0),
        Some(ValueView::String(s)) => if s == "*"@ {
            Some(false)
        } else {
            None
        },
        Some(ValueView::Integer(ok)) => Some(code != code_of(ok)),
        Some(ValueView::Array(_, es)) => Some(
            !(exists|i: int|
                0 <= i < es.len() && (#[trigger] es[i] matches ValueView::Integer(n) && code_of(n)
                    == code)),
        ),
        Some(_) => Some(true),
    }
}

/// The message for return codes given as a string other than `*`.
pub open spec fn invalid_codes_message(s: Seq<char>) -> Seq<char> {
    "invalid return code value `"@ + s
        + "`: only `*` is accepted when the return code is specified as a string"@
}

/// The last lines of stderr that a failure shows: at most
/// [`MAX_STDERR_LINES`].
pub open spec fn stderr_tail(lines: Seq<Seq<char>>) -> Seq<Seq<char>> {
    if lines.len() <= MAX_STDERR_LINES {
        lines
    } else {
        lines.subrange(lines.len() - MAX_STDERR_LINES, lines.len() as int)
    }
}

/// Lines, each indented by two spaces, joined by newlines.
pub open spec fn indented(lines: Seq<Seq<char>>) -> Seq<char>
    decreases lines.len(),
{
    if lines.len() == 0 {
        Seq::empty()
    } else if lines.len() == 1 {
        "  "@ + lines[0]
    } else {
        indented(lines.drop_last()) + "\n  "@ + lines.last()
    }
}

/// The message for a failed task: its exit code, where its output went and
/// the last lines of its stderr, if any.
pub open spec fn exit_message(
    code: i32,
    stdout: Seq<char>,
    stderr: Seq<char>,
    dir: Seq<char>,
    lines: Seq<Seq<char>>,
) -> Seq<char> {
    let tail = indented(stderr_tail(lines));
    "process terminated with exit code "@ + int_text(code as i64) + ": see `"@ + stdout
        + "` and `"@ + stderr + "` for task output and the related files in `"@ + dir + "`"@
        + if tail.len() == 0 {
        Seq::empty()
    } else {
        "\n\ntask stderr output (last 10 lines):\n\n"@ + tail + "\n"@
    }
}

/// An evaluated task: its attempt directory and the result of executing it.
#[derive(Debug)]
pub struct EvaluatedTask {
    /// The task attempt directory.
    attempt_dir: String,
    /// The task execution result.
    result: TaskExecutionResult,
}

impl EvaluatedTask {
    /// The task attempt directory.
    pub closed spec fn spec_attempt_dir(self) -> Seq<char> {
        self.attempt_dir@
    }

    /// The task execution result.
    pub closed spec fn spec_result(self) -> TaskExecutionResult {
        self.result
    }

    /// Constructs a new evaluated task.
    pub fn new(attempt_dir: String, result: TaskExecutionResult) -> (t: Self)
        ensures
            t.spec_attempt_dir() == attempt_dir@,
            t.spec_result() == result,
    {
        EvaluatedTask { attempt_dir, result }
    }

    /// Gets the exit code of the evaluated task.
    pub fn exit_code(&self) -> (c: i32)
        ensures
            c == self.spec_result().exit_code,
    {
        self.result.exit_code
    }

    /// Gets the attempt directory of the task.
    pub fn attempt_dir(&self) -> (d: &str)
        ensures
            d@ == self.spec_attempt_dir(),
    {
        self.attempt_dir.as_str()
    }

    /// Gets the working directory of the evaluated task.
    pub fn work_dir(&self) -> (w: &EvaluationPath)
        ensures
            *w == self.spec_result().work_dir,
    {
        &self.result.work_dir
    }

    /// Gets the stdout value of the evaluated task.
    pub fn stdout(&self) -> (v: &Value)
        ensures
            *v == self.spec_result().stdout,
    {
        &self.result.stdout
    }

    /// Gets the stderr value of the evaluated task.
    pub fn stderr(&self) -> (v: &Value)
        ensures
            *v == self.spec_result().stderr,
    {
        &self.result.stderr
    }

    /// Judges the exit of the task under its requirements: `Ok` when the
    /// exit code is accepted; otherwise an error naming the code, the output
    /// files and the attempt directory, with the last lines of stderr (from
    /// `stderr_lines`, the lines of the stderr file in order). Return codes
    /// given as a string other than `*` are an error of their own.
    pub fn handle_exit(&self, requirements: &[(String, Value)], stderr_lines: &[String]) -> (r:
        Result<(), String>)
        requires
            match return_codes(requirements@) {
                Some(v) => valid_codes(v@),
                None => true,
            },
            exit_error(
                self.spec_result().exit_code,
                opt_view(return_codes(requirements@)),
            ) == Some(true) ==> self.spec_result().stdout@ is File
                && self.spec_result().stderr@ is File,
        ensures
            match exit_error(self.spec_result().exit_code, opt_view(return_codes(requirements@))) {
                None => r matches Err(m) && return_codes(requirements@) matches Some(v) && (
                v@ matches ValueView::String(s) && m@ == invalid_codes_message(s)),
                Some(false) => r is Ok,
                Some(true) => r matches Err(m) && (self.spec_result().stdout@ matches ValueView::File(
                    out,
                ) && self.spec_result().stderr@ matches ValueView::File(err) && m@ == exit_message(
                    self.spec_result().exit_code,
                    out,
                    err,
                    self.spec_attempt_dir(),
                    stderr_lines@.map_values(|l: String| l@),
                )),
            },
    {
        let code = self.result.exit_code;
        proof {
            lemma_name_index(requirements@, TASK_REQUIREMENT_RETURN_CODES@);
            lemma_name_index(requirements@, TASK_REQUIREMENT_RETURN_CODES_ALIAS@);
        }
        let codes = match find_name(requirements, TASK_REQUIREMENT_RETURN_CODES) {
            Some(k) => Some(&requirements[k].1),
            None => match find_name(requirements, TASK_REQUIREMENT_RETURN_CODES_ALIAS) {
                Some(k) => Some(&requirements[k].1),
                None => None,
            },
        };
        assert(opt_view(return_codes(requirements@)) == match codes {
            Some(v) => Some(v@),
            None => None::<ValueView>,
        });
        let error = match codes {
            None => code != 0,
            Some(v) => match v {
                Value::String(s) => {
                    proof {
                        lemma_value_view(*v);
                        reveal_strlit("*");
                    }
                    let star = "*".to_owned();
                    if *s == star {
                        false
                    } else {
                        let mut m = "invalid return code value `".to_owned();
                        m.append(s.as_str());
                        m.append(
                            "`: only `*` is accepted when the return code is specified as a string",
                        );
                        proof {
                            reveal_strlit("invalid return code value `");
                            reveal_strlit(
                                "`: only `*` is accepted when the return code is specified as a string",
                            );
                        }
                        return Err(m);
                    }
                },
                Value::Integer(ok) => {
                    proof {
                        lemma_value_view(*v);
                    }
                    code != code_or_zero(*ok)
                },
                _ => {
                    proof {
                        lemma_value_view(*v);
                    }
                    assert(v@ is Array);
                    let a = v.as_array().unwrap();
                    let es = a.elements();
                    proof {
                        lemma_values_view(es@);
                    }
                    let mut found = false;
                    let mut i: usize = 0;
                    while i < es.len()
                        invariant
                            i <= es@.len(),
                            found <==> exists|j: int|
                                0 <= j < i && (#[trigger] es@[j]@ matches ValueView::Integer(n)
                                    && code_of(n) == code),
                        decreases es@.len() - i,
                    {
                        match es[i].as_integer() {
                            Some(n) => {
                                if code_or_zero(n) == code {
                                    found = true;
                                }
                            },
                            None => {},
                        }
                        i = i + 1;
                    }
                    proof {
                        let vs = values_view(es@);
                        if found {
                            let j = choose|j: int|
                                0 <= j < i && (#[trigger] es@[j]@ matches ValueView::Integer(n)
                                    && code_of(n) == code);
                            assert(vs[j] == es@[j]@);
                        } else {
                            assert forall|j: int| 0 <= j < vs.len() implies !(#[trigger] vs[j] matches ValueView::Integer(
                                n,
                            ) && code_of(n) == code) by {
                                assert(vs[j] == es@[j]@);
                            }
                        }
                    }
                    !found
                },
            },
        };
        if !error {
            return Ok(());
        }
        let tail = stderr_text(stderr_lines);
        let mut m = "process terminated with exit code ".to_owned();
        let c = int_string(code as i64);
        m.append(c.as_str());
        m.append(": see `");
        m.append(self.result.stdout.as_file().unwrap());
        m.append("` and `");
        m.append(self.result.stderr.as_file().unwrap());
        m.append("` for task output and the related files in `");
        m.append(self.attempt_dir.as_str());
        m.append("`");
        proof {
            let t = stderr_tail(stderr_lines@.map_values(|l: String| l@));
            reveal_strlit("  ");
            reveal_strlit("\n  ");
            if stderr_lines@.len() > 0 {
                assert(t.len() > 0);
                assert(indented(t).len() > 0);
            } else {
                assert(t.len() == 0);
            }
        }
        if stderr_lines.len() > 0 {
            m.append("\n\ntask stderr output (last 10 lines):\n\n");
            m.append(tail.as_str());
            m.append("\n");
        }
        proof {
            reveal_strlit("process terminated with exit code ");
            reveal_strlit(": see `");
            reveal_strlit("` and `");
            reveal_strlit("` for task output and the related files in `");
            reveal_strlit("`");
            reveal_strlit("\n\ntask stderr output (last 10 lines):\n\n");
            reveal_strlit("\n");
        }
        Err(m)
    }
}

/// `i` as a 32-bit exit code, or 0 when it does not fit in one.
fn code_or_zero(i: i64) -> (c: i32)
    ensures
        c == code_of(i),
{
    if i32::MIN as i64 <= i && i <= i32::MAX as i64 {
        i as i32
    } else {
        0
    }
}

/// The last lines of stderr, each indented by two spaces, joined by
/// newlines.
fn stderr_text(lines: &[String]) -> (s: String)
    ensures
        s@ == indented(stderr_tail(lines@.map_values(|l: String| l@))),
{
    let ghost all = lines@.map_values(|l: String| l@);
    let n = lines.len();
    let start = if n > MAX_STDERR_LINES {
        n - MAX_STDERR_LINES
    } else {
        0
    };
    let ghost tail = stderr_tail(all);
    assert(tail =~= all.subrange(start as int, n as int));
    let mut s = String::new();
    let mut i = start;
    while i < n
        invariant
            start <= i <= n,
            n == lines@.len(),
            all == lines@.map_values(|l: String| l@),
            tail == all.subrange(start as int, n as int),
            s@ == indented(tail.subrange(0, i - start)),
        decreases n - i,
    {
        proof {
            reveal_strlit("  ");
            reveal_strlit("\n  ");
            let t = tail.subrange(0, i + 1 - start);
            assert(t.drop_last() =~= tail.subrange(0, i - start));
            assert(t.last() == lines@[i as int]@);
        }
        if i == start {
            s.append("  ");
        } else {
            s.append("\n  ");
        }
        s.append(lines[i].as_str());
        i = i + 1;
    }
    assert(tail.subrange(0, n - start) =~= tail);
    s
}

/// The kind of an input.
#[derive(Debug, Clone, Copy, PartialEq, Eq, Hash, Structural)]
pub enum InputKind {
    /// The input is a single file.
    File,
    /// The input is a directory.
    Directory,
}

/// Why a path could not be used for evaluation.
#[derive(Debug, Clone)]
pub enum PathError {
    /// The text looks like a URL but does not parse as one.
    InvalidUrl(String),
    /// The `file` URL does not stand for a local path.
    NotLocal(String),
    /// The input path holds a `.` or `..` component.
    DotComponent(String),
    /// The input path is empty.
    EmptyPath,
}

/// The mathematical form of an [`EvaluationPath`].
pub enum PathView {
    /// A local path.
    Local(Seq<char>),
    /// A remote URL.
    Remote(UrlView),
}

/// A path used in evaluation: a local path or a remote URL.
#[derive(Debug, Clone)]
pub enum EvaluationPath {
    /// The path is local (on the host).
    Local(String),
    /// The path is remote.
    Remote(ParsedUrl),
}

impl View for EvaluationPath {
    type V = PathView;

    open spec fn view(&self) -> PathView {
        match self {
            EvaluationPath::Local(p) => PathView::Local(p@),
            EvaluationPath::Remote(u) => PathView::Remote(u@),
        }
    }
}

/// The text of a path: the local path, or the URL's serialization.
pub open spec fn path_text(p: PathView) -> Seq<char> {
    match p {
        PathView::Local(s) => s,
        PathView::Remote(u) => u.0,
    }
}

impl EvaluationPath {
    /// Reads a path: a `file` URL stands for the local path it names, a URL
    /// of another supported scheme is remote, and any other text is a local
    /// path.
    pub fn parse(s: &str) -> (r: Result<EvaluationPath, PathError>)
        ensures
            !spec_is_url(s@) ==> (r matches Ok(p) && p@ == PathView::Local(s@)),
            spec_is_url(s@) && !spec_is_file_url(s@) ==> match url_parse(s@) {
                Some(u) => r matches Ok(p) && p@ == PathView::Remote(u),
                None => r matches Err(PathError::InvalidUrl(t)) && t@ == s@,
            },
            spec_is_file_url(s@) ==> match url_parse(s@) {
                Some(u) => match url_file_path(u) {
                    Some(p) => r matches Ok(q) && q@ == PathView::Local(p),
                    None => r matches Err(PathError::NotLocal(t)) && t@ == s@,
                },
                None => r matches Err(PathError::InvalidUrl(t)) && t@ == s@,
            },
    {
        if is_file_url(s) {
            assert(spec_is_url(s@));
            match parse_url(s) {
                Some(u) => match file_url_path(&u) {
                    Some(p) => Ok(EvaluationPath::Local(p)),
                    None => Err(PathError::NotLocal(s.to_owned())),
                },
                None => Err(PathError::InvalidUrl(s.to_owned())),
            }
        } else if is_url(s) {
            match parse_url(s) {
                Some(u) => Ok(EvaluationPath::Remote(u)),
                None => Err(PathError::InvalidUrl(s.to_owned())),
            }
        } else {
            Ok(EvaluationPath::Local(s.to_owned()))
        }
    }

    /// Joins `s` onto the path: a URL replaces it, as does an absolute path;
    /// otherwise a local path gets `s` pushed onto it and a URL gets `s`
    /// resolved against it.
    pub fn join(&self, s: &str) -> (r: Result<EvaluationPath, PathError>)
        ensures
            !spec_is_url(s@) ==> match join_view(self@, s@) {
                Some(q) => r matches Ok(p) && p@ == q,
                None => r matches Err(PathError::InvalidUrl(t)) && t@ == s@,
            },
            spec_is_url(s@) && !spec_is_file_url(s@) ==> match url_parse(s@) {
                Some(u) => r matches Ok(p) && p@ == PathView::Remote(u),
                None => r matches Err(PathError::InvalidUrl(t)) && t@ == s@,
            },
            spec_is_file_url(s@) ==> match url_parse(s@) {
                Some(u) => match url_file_path(u) {
                    Some(p) => r matches Ok(q) && q@ == PathView::Local(p),
                    None => r matches Err(PathError::NotLocal(t)) && t@ == s@,
                },
                None => r matches Err(PathError::InvalidUrl(t)) && t@ == s@,
            },
            match join_total(self@, s@) {
                Some(q) => r matches Ok(p) && p@ == q,
                None => r is Err,
            },
    {
        if is_url(s) {
            return EvaluationPath::parse(s);
        }
        let sc = chars_of(s);
        if sc.len() > 0 && sc[0] == '/' {
            return Ok(EvaluationPath::Local(s.to_owned()));
        }
        match self {
            EvaluationPath::Local(dir) => Ok(EvaluationPath::Local(join(dir.as_str(), s))),
            EvaluationPath::Remote(u) => match join_url(u, s) {
                Some(v) => Ok(EvaluationPath::Remote(v)),
                None => Err(PathError::InvalidUrl(s.to_owned())),
            },
        }
    }

    /// Gets the path as text.
    pub fn to_str(&self) -> (r: Option<&str>)
        ensures
            r matches Some(t) && t@ == path_text(self@),
    {
        match self {
            EvaluationPath::Local(p) => Some(p.as_str()),
            EvaluationPath::Remote(u) => Some(u.text.as_str()),
        }
    }
}

/// What joining the text `s`, which is not a URL, onto the path `p` gives:
/// an absolute `s` replaces `p`, a local `p` gets `s` pushed onto it, and a
/// URL gets `s` resolved against it (`None` where that fails).
pub open spec fn join_view(p: PathView, s: Seq<char>) -> Option<PathView> {
    if is_absolute(s) {
        Some(PathView::Local(s))
    } else {
        match p {
            PathView::Local(d) => Some(PathView::Local(spec_join(d, s))),
            PathView::Remote(u) => match url_join(u.0, s) {
                Some(v) => Some(PathView::Remote(v)),
                None => None,
            },
        }
    }
}

/// The path that the URL `s` stands for: the local path a `file` URL
/// names, or the URL itself (`None` where it does not parse or a `file` URL
/// names no local path).
pub open spec fn url_path_view(s: Seq<char>) -> Option<PathView> {
    match url_parse(s) {
        Some(u) => if spec_is_file_url(s) {
            match url_file_path(u) {
                Some(p) => Some(PathView::Local(p)),
                None => None,
            }
        } else {
            Some(PathView::Remote(u))
        },
        None => None,
    }
}

/// What joining any text `s` onto the path `p` gives: a URL stands for
/// itself (see [`url_path_view`]), any other text is joined as
/// [`join_view`] says.
pub open spec fn join_total(p: PathView, s: Seq<char>) -> Option<PathView> {
    if spec_is_url(s) {
        url_path_view(s)
    } else {
        join_view(p, s)
    }
}

/// The mathematical form of an [`Input`]: its kind, path, guest path and
/// download location.
pub type InputView = (InputKind, PathView, Option<Seq<char>>, Option<Seq<char>>);

/// The text of an optional string.
pub open spec fn opt_text(s: Option<String>) -> Option<Seq<char>> {
    match s {
        Some(t) => Some(t@),
        None => None,
    }
}

/// A `File` or `Directory` input to a task.
#[derive(Debug, Clone)]
pub struct Input {
    /// The input kind.
    kind: InputKind,
    /// The path for the input.
    path: EvaluationPath,
    /// The guest path for the input; `None` when the backend does not map
    /// input paths.
    guest_path: Option<String>,
    /// The download location for the input, once it has been downloaded.
    location: Option<String>,
}

impl View for Input {
    type V = InputView;

    closed spec fn view(&self) -> InputView {
        (self.kind, self.path@, opt_text(self.guest_path), opt_text(self.location))
    }
}

impl Input {
    /// Gets the kind of the input.
    pub fn kind(&self) -> (r: InputKind)
        ensures
            r == self@.0,
    {
        self.kind
    }

    /// Gets the path to the input.
    pub fn path(&self) -> (r: &EvaluationPath)
        ensures
            r@ == self@.1,
    {
        &self.path
    }

    /// Gets the guest path for the input.
    pub fn guest_path(&self) -> (r: Option<&str>)
        ensures
            match r {
                Some(t) => self@.2 == Some(t@),
                None => self@.2 is None,
            },
    {
        match &self.guest_path {
            Some(g) => Some(g.as_str()),
            None => None,
        }
    }

    /// Gets the location of the input if it has been downloaded.
    pub fn location(&self) -> (r: Option<&str>)
        ensures
            match r {
                Some(t) => self@.3 == Some(t@),
                None => self@.3 is None,
            },
    {
        match &self.location {
            Some(l) => Some(l.as_str()),
            None => None,
        }
    }

    /// Sets the location of the input.
    pub fn set_location(&mut self, location: String)
        ensures
            final(self)@ == (old(self)@.0, old(self)@.1, old(self)@.2, Some(location@)),
    {
        self.location = Some(location);
    }
}

/// The key of a trie node: whether it is under the URL children (rather
/// than the local path children), and the components from the top of the
/// trie down to the node.
pub type TrieKey = (bool, Seq<Seq<char>>);

/// The position of the last node with key `k` in `keys`, or `-1`.
pub open spec fn key_index(keys: Seq<TrieKey>, k: TrieKey) -> int
    decreases keys.len(),
{
    if keys.len() == 0 {
        -1
    } else if keys.last() == k {
        keys.len() - 1
    } else {
        key_index(keys.drop_last(), k)
    }
}

/// The length of the longest prefix of `comps` (under `ns`) that is already
/// a node key, or `0`.
pub open spec fn known_depth(keys: Seq<TrieKey>, ns: bool, comps: Seq<Seq<char>>) -> nat
    decreases comps.len(),
{
    if comps.len() == 0 {
        0
    } else if keys.contains((ns, comps)) {
        comps.len()
    } else {
        known_depth(keys, ns, comps.drop_last())
    }
}

/// The keys of the nodes that inserting `comps` (under `ns`) creates, in
/// the order they are created: the prefixes of `comps` longer than the known
/// depth, shortest first.
pub open spec fn added_keys(keys: Seq<TrieKey>, ns: bool, comps: Seq<Seq<char>>) -> Seq<TrieKey> {
    let m = known_depth(keys, ns, comps);
    Seq::new((comps.len() - m) as nat, |t: int| (ns, comps.take(m + 1 + t)))
}

/// The guest path of an input: the guest inputs directory, the identifier
/// of the parent node, and the last component.
pub open spec fn guest_text(dir: Seq<char>, parent_id: nat, last: Seq<char>) -> Seq<char> {
    dir + "/"@ + spec_decimal(parent_id) + "/"@ + last
}

/// The position of the first `..` component of `comps`, or its length.
pub open spec fn first_parent_dir(comps: Seq<Seq<char>>) -> nat
    decreases comps.len(),
{
    if comps.len() == 0 {
        0
    } else if comps[0] == ".."@ {
        0
    } else {
        1 + first_parent_dir(comps.drop_first())
    }
}

/// `n` nodes without an input.
pub open spec fn nones(n: nat) -> Seq<Option<usize>> {
    Seq::new(n, |i: int| None::<usize>)
}

/// The last non-empty segment of `segs`, if any.
pub open spec fn last_nonempty(segs: Seq<Seq<char>>) -> Option<Seq<char>>
    decreases segs.len(),
{
    if segs.len() == 0 {
        None
    } else if segs.last().len() > 0 {
        Some(segs.last())
    } else {
        last_nonempty(segs.drop_last())
    }
}

/// A node of the input trie.
#[derive(Debug)]
struct TrieNode {
    /// The arena index of the parent node.
    parent: usize,
    /// The component leading from the parent to this node.
    name: String,
    /// The index of the input that ends at this node, if any.
    index: Option<usize>,
}

/// A prefix trie of input paths, which gives each input a path inside the
/// guest inputs directory: `dir/parent/last`, where `parent` identifies the
/// node above the input's last component.  Inputs with the same parent share
/// a guest directory, and each keeps its last component (or `.root`).
///
/// Nodes are kept in creation order; the node created `t`-th (from `0`) has
/// the identifier `t + 1`, `0` standing for the root above all nodes.
pub struct InputTrie {
    /// The guest inputs root directory; `None` for backends without
    /// containers.
    guest_inputs_dir: Option<&'static str>,
    /// The nodes: two roots (local paths, then URLs) and the created nodes.
    nodes: Vec<TrieNode>,
    /// The inputs in the trie.
    inputs: Vec<Input>,
    /// The key of every node (the roots have empty keys).
    keys: Ghost<Seq<TrieKey>>,
}

/// Whether node `i` of `nodes` is consistent with its key.
spec fn node_ok_at(keys: Seq<TrieKey>, nodes: Seq<TrieNode>, i: int) -> bool {
    let key = keys[i];
    let node = nodes[i];
    &&& key.1.len() >= 1
    &&& node.name@ == key.1.last()
    &&& node.parent < i
    &&& keys[node.parent as int] == (key.0, key.1.drop_last())
}

impl InputTrie {
    /// Whether node `i` is consistent with its key.
    closed spec fn node_ok(&self, i: int) -> bool {
        node_ok_at(self.keys@, self.nodes@, i)
    }

    /// The trie is well formed.
    pub closed spec fn wf(&self) -> bool {
        &&& self.nodes@.len() >= 2
        &&& self.keys@.len() == self.nodes@.len()
        &&& self.keys@[0] == (false, Seq::<Seq<char>>::empty())
        &&& self.keys@[1] == (true, Seq::<Seq<char>>::empty())
        &&& self.nodes@[0].index is None
        &&& self.nodes@[1].index is None
        &&& forall|i: int| 2 <= i < self.nodes@.len() ==> #[trigger] node_ok_at(self.keys@, self.nodes@, i)
        &&& forall|i: int, j: int|
            0 <= i < self.nodes@.len() && 0 <= j < self.nodes@.len() && i != j ==> self.keys@[i]
                != self.keys@[j]
    }

    /// The keys of the nodes, in creation order.
    pub closed spec fn node_keys(&self) -> Seq<TrieKey> {
        self.keys@.skip(2)
    }

    /// The input that ends at each node, in creation order.
    pub closed spec fn node_inputs(&self) -> Seq<Option<usize>> {
        self.nodes@.skip(2).map_values(|n: TrieNode| n.index)
    }

    /// The inputs, in insertion order.
    pub closed spec fn inputs(&self) -> Seq<InputView> {
        self.inputs@.map_values(|i: Input| i@)
    }

    /// The inputs themselves, in insertion order.
    pub closed spec fn raw_inputs(&self) -> Seq<Input> {
        self.inputs@
    }

    /// The guest inputs directory.
    pub closed spec fn guest_dir(&self) -> Option<Seq<char>> {
        match self.guest_inputs_dir {
            Some(d) => Some(d@),
            None => None,
        }
    }

    /// The input that ends at the node with key `k`, if any.
    pub open spec fn input_of(&self, k: TrieKey) -> Option<usize> {
        let i = key_index(self.node_keys(), k);
        if i >= 0 {
            self.node_inputs()[i]
        } else {
            None
        }
    }

    /// A trie with no nodes and no inputs, whose inputs are not mapped to
    /// guest paths.
    fn empty() -> (t: Self)
        ensures
            t.wf(),
            t.node_keys().len() == 0,
            t.inputs().len() == 0,
            t.guest_dir() is None,
    {
        let mut nodes: Vec<TrieNode> = Vec::new();
        nodes.push(TrieNode { parent: 0, name: String::new(), index: None });
        nodes.push(TrieNode { parent: 0, name: String::new(), index: None });
        let ghost k: Seq<TrieKey> = Seq::<TrieKey>::empty().push(
            (false, Seq::<Seq<char>>::empty()),
        ).push((true, Seq::<Seq<char>>::empty()));
        InputTrie { guest_inputs_dir: None, nodes, inputs: Vec::new(), keys: Ghost(k) }
    }

    /// Constructs a new, empty input trie with the given guest inputs
    /// directory.
    pub fn new(guest_inputs_dir: &'static str) -> (t: Self)
        ensures
            t.wf(),
            t.node_keys().len() == 0,
            t.inputs().len() == 0,
            t.guest_dir() == Some(guest_inputs_dir@),
    {
        let mut t = InputTrie::empty();
        t.guest_inputs_dir = Some(guest_inputs_dir);
        t
    }

    /// Gets the inputs of the trie as a slice.
    pub fn as_slice(&self) -> (r: &[Input])
        ensures
            r@.map_values(|i: Input| i@) == self.inputs(),
    {
        self.inputs.as_slice()
    }

    /// The number of nodes in the trie.
    pub fn node_count(&self) -> (n: usize)
        requires
            self.wf(),
        ensures
            n == self.node_keys().len(),
    {
        self.nodes.len() - 2
    }

    /// The arena index of the child of `parent` named `name`, if any.
    fn find_child(&self, parent: usize, name: &String) -> (r: Option<usize>)
        requires
            self.wf(),
        ensures
            match r {
                Some(i) => 2 <= i < self.nodes@.len() && self.nodes@[i as int].parent == parent
                    && self.nodes@[i as int].name@ == name@,
                None => forall|i: int|
                    2 <= i < self.nodes@.len() ==> !(#[trigger] self.nodes@[i].parent == parent
                        && self.nodes@[i].name@ == name@),
            },
    {
        let mut i: usize = 2;
        while i < self.nodes.len()
            invariant
                2 <= i <= self.nodes@.len(),
                forall|j: int|
                    2 <= j < i ==> !(#[trigger] self.nodes@[j].parent == parent
                        && self.nodes@[j].name@ == name@),
            decreases self.nodes@.len() - i,
        {
            if self.nodes[i].parent == parent && self.nodes[i].name == *name {
                return Some(i);
            }
            i = i + 1;
        }
        None
    }
}

impl InputTrie {
    /// Walks `comps[..len]` down from the root for `ns`, creating the nodes
    /// that are missing; returns the arena indices of the last node reached
    /// and of the node above it.
    fn walk(&mut self, ns: bool, comps: &Vec<String>, len: usize) -> (r: (usize, usize))
        requires
            old(self).wf(),
            1 <= len <= comps@.len(),
        ensures
            final(self).wf(),
            final(self).keys@ == old(self).keys@ + added_keys(
                old(self).node_keys(),
                ns,
                views(comps@).take(len as int),
            ),
            forall|i: int|
                0 <= i < old(self).nodes@.len() ==> #[trigger] final(self).nodes@[i].index == old(
                    self,
                ).nodes@[i].index,
            forall|i: int|
                old(self).nodes@.len() <= i < final(self).nodes@.len() ==> (
                #[trigger] final(self).nodes@[i]).index is None,
            final(self).inputs@ == old(self).inputs@,
            final(self).guest_inputs_dir == old(self).guest_inputs_dir,
            2 <= r.0 < final(self).nodes@.len(),
            final(self).keys@[r.0 as int] == (ns, views(comps@).take(len as int)),
            r.1 < final(self).nodes@.len(),
            final(self).keys@[r.1 as int] == (ns, views(comps@).take(len - 1)),
    {
        let ghost cs = views(comps@);
        let ghost old_keys = self.keys@;
        let ghost old_nodes = self.nodes@;
        let ghost nk = self.node_keys();
        let mut cur: usize = if ns { 1 } else { 0 };
        let mut parent: usize = cur;
        let mut d: usize = 0;
        assert(cs.take(0) =~= Seq::<Seq<char>>::empty());
        proof {
            lemma_added_known(nk, ns, cs.take(0));
            assert(old_keys + added_keys(nk, ns, cs.take(0)) =~= old_keys);
        }
        while d < len
            invariant
                self.wf(),
                cs == views(comps@),
                nk == old_keys.skip(2),
                old_keys.len() == old_nodes.len(),
                old_nodes.len() >= 2,
                1 <= len <= comps@.len(),
                d <= len,
                self.keys@ == old_keys + added_keys(nk, ns, cs.take(d as int)),
                self.nodes@.len() >= old_nodes.len(),
                forall|i: int|
                    0 <= i < old_nodes.len() ==> #[trigger] self.nodes@[i].index == old_nodes[i].index,
                forall|i: int|
                    old_nodes.len() <= i < self.nodes@.len() ==> (#[trigger] self.nodes@[i]).index is None,
                self.inputs@ == old(self).inputs@,
                self.guest_inputs_dir == old(self).guest_inputs_dir,
                cur < self.nodes@.len(),
                self.keys@[cur as int] == (ns, cs.take(d as int)),
                parent < self.nodes@.len(),
                d >= 1 ==> self.keys@[parent as int] == (ns, cs.take(d - 1)),
                d == 0 ==> parent == cur,
            decreases len - d,
        {
            let name = &comps[d];
            assert(cs[d as int] == name@);
            assert(cs.take(d + 1).drop_last() =~= cs.take(d as int));
            assert(cs.take(d + 1).last() == cs[d as int]);
            let ghost want: TrieKey = (ns, cs.take(d + 1));
            match self.find_child(cur, name) {
                Some(i) => {
                    proof {
                        assert(self.node_ok(i as int));
                        let k = self.keys@[i as int];
                        assert(k.1.drop_last() == cs.take(d as int));
                        lemma_key_push(cs.take(d as int), name@, k.1);
                        assert(k.1 =~= cs.take(d + 1));
                        assert(self.keys@[i as int] == want);
                        // the key is an old one: the added keys are no longer than `d`
                        let added = added_keys(nk, ns, cs.take(d as int));
                        if i as int >= old_keys.len() {
                            let t = i - old_keys.len();
                            assert(self.keys@[i as int] == added[t]);
                            lemma_known_depth_le(nk, ns, cs.take(d as int));
                            assert(added[t].1.len() <= d);
                            assert(false);
                        }
                        assert(old_keys[i as int] == want);
                        assert(nk[i - 2] == want);
                        lemma_added_known(nk, ns, cs.take(d + 1));
                        if d >= 1 {
                            let p = self.nodes@[i as int].parent;
                            assert(self.keys@[p as int] == (ns, cs.take(d as int)));
                            assert(p == cur) by {
                                if p != cur {
                                    assert(self.keys@[p as int] != self.keys@[cur as int]);
                                }
                            }
                            // the key of `cur` is not empty, so it is not a root, and it is old
                            if cur as int >= old_keys.len() {
                                let t = cur - old_keys.len();
                                assert(self.keys@[cur as int] == added[t]);
                                lemma_known_depth_le(nk, ns, cs.take(d as int));
                                assert(cur < i);
                                assert(false);
                            }
                            assert(cur >= 2);
                            assert(nk[cur - 2] == (ns, cs.take(d as int)));
                            lemma_added_known(nk, ns, cs.take(d as int));
                        } else {
                            lemma_added_known(nk, ns, cs.take(0));
                        }
                        assert(old_keys + added_keys(nk, ns, cs.take(d + 1)) =~= self.keys@);
                    }
                    parent = cur;
                    cur = i;
                },
                None => {
                    proof {
                        // no node has the key `want`
                        assert forall|j: int| 0 <= j < self.keys@.len() implies self.keys@[j]
                            != want by {
                            if self.keys@[j] == want {
                                if j >= 2 {
                                    assert(self.node_ok(j));
                                    let p = self.nodes@[j].parent;
                                    assert(self.keys@[p as int] == (ns, cs.take(d as int)));
                                    if p != cur {
                                        assert(self.keys@[p as int] != self.keys@[cur as int]);
                                    }
                                    assert(self.nodes@[j].parent == cur && self.nodes@[j].name@
                                        == name@);
                                } else {
                                    assert(self.keys@[j].1.len() == 0);
                                }
                            }
                        }
                        assert(!nk.contains(want)) by {
                            if nk.contains(want) {
                                let t = choose|t: int| 0 <= t < nk.len() && nk[t] == want;
                                assert(self.keys@[t + 2] == want);
                            }
                        }
                        lemma_added_step(nk, ns, cs, d as int);
                    }
                    let ghost before = self.keys@;
                    let ghost old_nodes_here = self.nodes@;
                    assert(forall|j: int| 2 <= j < old_nodes_here.len() ==> #[trigger] node_ok_at(before, old_nodes_here, j)) by {
                        assert forall|j: int| 2 <= j < old_nodes_here.len() implies #[trigger] node_ok_at(before, old_nodes_here, j) by {
                            assert(self.node_ok(j));
                        }
                    }
                    let idx = self.nodes.len();
                    self.nodes.push(TrieNode { parent: cur, name: name.clone(), index: None });
                    self.keys = Ghost(before.push(want));
                    proof {
                        assert(self.keys@ =~= old_keys + added_keys(nk, ns, cs.take(d + 1)));
                        assert forall|j: int| 2 <= j < self.nodes@.len() implies #[trigger] node_ok_at(self.keys@, self.nodes@, j) by {
                            if j < idx {
                                assert(node_ok_at(before, old_nodes_here, j));
                                assert(self.keys@[j] == before[j]);
                                assert(self.nodes@[j] == old_nodes_here[j]);
                            } else {
                                assert(self.keys@[j] == want);
                                assert(self.keys@[cur as int] == (ns, cs.take(d as int)));
                                assert(want.1.drop_last() == cs.take(d as int));
                            }
                        }
                    }
                    parent = cur;
                    cur = idx;
                },
            }
            d = d + 1;
        }
        proof {
            if len == 1 {
                assert(parent == (if ns { 1usize } else { 0usize }));
            }
            assert(cur >= 2) by {
                assert(self.keys@[cur as int].1.len() == len);
                if cur < 2 {
                    assert(self.keys@[cur as int].1.len() == 0);
                }
            }
        }
        (cur, parent)
    }
}

/// The guest path of a new input, where the trie maps inputs.
pub open spec fn guest_of(dir: Option<Seq<char>>, parent_id: nat, last: Seq<char>) -> Option<Seq<char>> {
    match dir {
        Some(d) => Some(guest_text(d, parent_id, last)),
        None => None,
    }
}

/// The identifier of the node above the node with key `key`: `0` for a
/// node at the top, otherwise one more than that node's position.
pub open spec fn parent_id(keys: Seq<TrieKey>, key: TrieKey) -> nat {
    if key.1.len() <= 1 {
        0
    } else {
        (key_index(keys, (key.0, key.1.drop_last())) + 1) as nat
    }
}

/// Whether a trie holds the same nodes and inputs as another.
pub open spec fn same_trie(a: InputTrie, b: InputTrie) -> bool {
    &&& a.node_keys() == b.node_keys()
    &&& a.node_inputs() == b.node_inputs()
    &&& a.inputs() == b.inputs()
    &&& a.guest_dir() == b.guest_dir()
}

/// What inserting an input at the node with key `key` does, `last` being the
/// name its guest path keeps: the nodes along the key that were missing are
/// created in order; if an input already ends at that node, it is the
/// result and nothing else changes; otherwise a new input is added at the
/// end, with its guest path, and ends at that node.
pub open spec fn insert_outcome(
    pre: InputTrie,
    post: InputTrie,
    r: usize,
    key: TrieKey,
    kind: InputKind,
    path: PathView,
    last: Seq<char>,
) -> bool {
    let added = added_keys(pre.node_keys(), key.0, key.1);
    &&& post.guest_dir() == pre.guest_dir()
    &&& post.node_keys() == pre.node_keys() + added
    &&& match pre.input_of(key) {
        Some(j) => {
            &&& r == j
            &&& post.inputs() == pre.inputs()
            &&& post.node_inputs() == pre.node_inputs() + nones(added.len())
        },
        None => {
            &&& r == pre.inputs().len()
            &&& post.inputs() == pre.inputs().push(
                (kind, path, guest_of(pre.guest_dir(), parent_id(post.node_keys(), key), last), None),
            )
            &&& post.node_inputs() == (pre.node_inputs() + nones(added.len())).update(
                key_index(post.node_keys(), key),
                Some(r),
            )
        },
    }
}

/// What inserting the absolute local path `p` does: its components are
/// walked down to the first `..`; a path holding a `..` is refused once the
/// nodes above it are made, and any other is inserted as an input (see
/// [`insert_outcome`]), keeping its last component as the guest name
/// (`.root` for the root itself).
pub open spec fn path_outcome(
    pre: InputTrie,
    post: InputTrie,
    r: Result<usize, PathError>,
    kind: InputKind,
    p: Seq<char>,
) -> bool {
    let comps = components(p);
    let dd = first_parent_dir(comps);
    if p.len() == 0 {
        &&& r matches Err(PathError::EmptyPath)
        &&& same_trie(pre, post)
    } else if dd < comps.len() {
        let added = added_keys(pre.node_keys(), false, comps.take(dd as int));
        &&& r matches Err(PathError::DotComponent(t)) && t@ == p
        &&& post.guest_dir() == pre.guest_dir()
        &&& post.node_keys() == pre.node_keys() + added
        &&& post.inputs() == pre.inputs()
        &&& post.node_inputs() == pre.node_inputs() + nones(added.len())
    } else {
        &&& r matches Ok(j) && insert_outcome(
            pre,
            post,
            j,
            (false, comps),
            kind,
            PathView::Local(p),
            if comps.len() == 1 { ".root"@ } else { comps.last() },
        )
    }
}

/// The components of a URL in the trie: its scheme, its authority, then its
/// path segments.
pub open spec fn url_key(u: UrlView) -> Seq<Seq<char>> {
    seq![u.1, u.2] + match u.3 {
        Some(segs) => segs,
        None => Seq::empty(),
    }
}

/// The name a URL input keeps in its guest path: its last non-empty path
/// segment, or `.root`.
pub open spec fn url_last(u: UrlView) -> Seq<char> {
    match last_nonempty(
        match u.3 {
            Some(segs) => segs,
            None => Seq::empty(),
        },
    ) {
        Some(seg) => seg,
        None => ".root"@,
    }
}

/// Renders a guest path.
fn guest_string(dir: &str, pid: usize, last: &String) -> (g: String)
    ensures
        g@ == guest_text(dir@, pid as nat, last@),
{
    proof {
        reveal_strlit("/");
    }
    let mut g = dir.to_owned();
    push_char(&mut g, '/');
    let digits = decimal(pid as u64);
    let dc = chars_of(digits.as_str());
    push_chars(&mut g, dc.as_slice());
    push_char(&mut g, '/');
    let lc = chars_of(last.as_str());
    push_chars(&mut g, lc.as_slice());
    assert(g@ =~= guest_text(dir@, pid as nat, last@));
    g
}

/// Whether two lists of strings hold the same texts.
fn same_texts(a: &Vec<String>, b: &Vec<String>, n: usize) -> (r: bool)
    requires
        n <= a@.len(),
        n <= b@.len(),
    ensures
        r == (views(a@).take(n as int) == views(b@).take(n as int)),
{
    let mut i: usize = 0;
    while i < n
        invariant
            i <= n,
            n <= a@.len(),
            n <= b@.len(),
            forall|t: int| 0 <= t < i ==> a@[t]@ == b@[t]@,
        decreases n - i,
    {
        if a[i] != b[i] {
            assert(views(a@).take(n as int)[i as int] != views(b@).take(n as int)[i as int]);
            return false;
        }
        i = i + 1;
    }
    assert(views(a@).take(n as int) =~= views(b@).take(n as int));
    true
}

/// Whether path `p` lies under the directory `dir`, comparing components.
pub fn path_under(p: &str, dir: &str) -> (b: bool)
    ensures
        b == has_base(p@, dir@),
{
    let pc = path_components(p);
    let dc = path_components(dir);
    if dc.len() > pc.len() {
        return false;
    }
    let r = same_texts(&pc, &dc, dc.len());
    assert(views(dc@).take(dc@.len() as int) =~= views(dc@));
    r
}

impl InputTrie {
    /// Gets the inputs of the trie as a mutable slice.
    pub fn as_slice_mut(&mut self) -> (r: &mut [Input])
        requires
            old(self).wf(),
        ensures
            r@ == old(self).raw_inputs(),
            final(self).raw_inputs() == final(r)@,
            final(self).wf(),
            final(self).node_keys() == old(self).node_keys(),
            final(self).node_inputs() == old(self).node_inputs(),
            final(self).guest_dir() == old(self).guest_dir(),
    {
        self.inputs.as_mut_slice()
    }

    /// Adds a node's input, which is new: the node at arena index `term`
    /// gets the input `index`.
    fn add_input(&mut self, term: usize, input: Input) -> (index: usize)
        requires
            old(self).wf(),
            2 <= term < old(self).nodes@.len(),
            old(self).nodes@[term as int].index is None,
        ensures
            final(self).wf(),
            index == old(self).inputs@.len(),
            final(self).inputs@ == old(self).inputs@.push(input),
            final(self).keys@ == old(self).keys@,
            final(self).nodes@.len() == old(self).nodes@.len(),
            forall|i: int|
                0 <= i < old(self).nodes@.len() && i != term ==> #[trigger] final(self).nodes@[i].index
                    == old(self).nodes@[i].index,
            final(self).nodes@[term as int].index == Some(index),
            final(self).guest_inputs_dir == old(self).guest_inputs_dir,
    {
        let index = self.inputs.len();
        let ghost pre_nodes = self.nodes@;
        assert forall|j: int| 2 <= j < pre_nodes.len() implies #[trigger] node_ok_at(self.keys@, pre_nodes, j) by {
            assert(self.node_ok(j));
        }
        self.inputs.push(input);
        let node = TrieNode {
            parent: self.nodes[term].parent,
            name: self.nodes[term].name.clone(),
            index: Some(index),
        };
        self.nodes.set(term, node);
        proof {
            assert forall|j: int| 2 <= j < self.nodes@.len() implies #[trigger] node_ok_at(self.keys@, self.nodes@, j) by {
                assert(node_ok_at(self.keys@, pre_nodes, j));
            }
        }
        index
    }
}

impl InputTrie {
    /// The facts about the trie after a walk that insertion proofs use: the
    /// node keys grew by the added keys, the inputs of the old nodes are
    /// kept and the new nodes have none, and the key at arena index `term`
    /// has an input exactly where the trie had one before.
    proof fn lemma_after_walk(
        pre: InputTrie,
        post: InputTrie,
        ns: bool,
        comps: Seq<Seq<char>>,
        term: int,
    )
        requires
            pre.wf(),
            post.wf(),
            post.keys@ == pre.keys@ + added_keys(pre.node_keys(), ns, comps),
            forall|i: int|
                0 <= i < pre.nodes@.len() ==> #[trigger] post.nodes@[i].index == pre.nodes@[i].index,
            forall|i: int|
                pre.nodes@.len() <= i < post.nodes@.len() ==> (#[trigger] post.nodes@[i]).index is None,
            post.inputs@ == pre.inputs@,
            2 <= term < post.nodes@.len(),
            post.keys@[term] == (ns, comps),
        ensures
            post.node_keys() == pre.node_keys() + added_keys(pre.node_keys(), ns, comps),
            post.node_inputs() == pre.node_inputs() + nones(
                added_keys(pre.node_keys(), ns, comps).len(),
            ),
            post.nodes@[term].index == pre.input_of((ns, comps)),
            key_index(post.node_keys(), (ns, comps)) == term - 2,
            post.inputs() == pre.inputs(),
    {
        let added = added_keys(pre.node_keys(), ns, comps);
        assert(post.node_keys() =~= pre.node_keys() + added);
        assert(post.nodes@.len() == pre.nodes@.len() + added.len());
        assert(post.node_inputs() =~= pre.node_inputs() + nones(added.len())) by {
            assert forall|t: int| 0 <= t < post.node_inputs().len() implies #[trigger] post.node_inputs()[t]
                == (pre.node_inputs() + nones(added.len()))[t] by {
                if t + 2 < pre.nodes@.len() {
                    assert(post.nodes@[t + 2].index == pre.nodes@[t + 2].index);
                } else {
                    assert((post.nodes@[t + 2]).index is None);
                }
            }
        }
        assert forall|a: int, b: int|
            0 <= a < post.node_keys().len() && 0 <= b < post.node_keys().len() && a != b implies post.node_keys()[a]
            != post.node_keys()[b] by {
            assert(post.keys@[a + 2] != post.keys@[b + 2]);
        }
        lemma_key_index(post.node_keys(), (ns, comps), term - 2);
        let k = (ns, comps);
        if term < pre.nodes@.len() {
            assert(pre.node_keys()[term - 2] == k);
            assert forall|a: int, b: int|
                0 <= a < pre.node_keys().len() && 0 <= b < pre.node_keys().len() && a != b implies pre.node_keys()[a]
                != pre.node_keys()[b] by {
                assert(pre.keys@[a + 2] != pre.keys@[b + 2]);
            }
            lemma_key_index(pre.node_keys(), k, term - 2);
        } else {
            assert(!pre.node_keys().contains(k)) by {
                if pre.node_keys().contains(k) {
                    let t = choose|t: int| 0 <= t < pre.node_keys().len() && pre.node_keys()[t] == k;
                    assert(post.keys@[t + 2] == k);
                    assert(post.keys@[t + 2] != post.keys@[term]);
                }
            }
            lemma_key_index_absent(pre.node_keys(), k);
        }
        assert(post.inputs() =~= pre.inputs());
    }

    /// Inserts an input with an absolute local path into the trie.
    pub fn insert_path(&mut self, kind: InputKind, path: &str) -> (r: Result<usize, PathError>)
        requires
            old(self).wf(),
            path@.len() == 0 || is_absolute(path@),
        ensures
            final(self).wf(),
            path_outcome(*old(self), *final(self), r, kind, path@),
    {
        let pc = chars_of(path);
        if pc.len() == 0 {
            return Err(PathError::EmptyPath);
        }
        let comps = path_components(path);
        let ghost cs = views(comps@);
        proof {
            reveal_strlit("/");
            reveal_strlit("..");
            assert(cs.len() >= 1 && cs[0] == "/"@);
        }
        let dots = "..".to_owned();
        let mut dd: usize = 0;
        assert(cs.skip(0) =~= cs);
        while dd < comps.len() && comps[dd] != dots
            invariant
                dd <= comps@.len(),
                cs == views(comps@),
                dots@ == ".."@,
                first_parent_dir(cs) == dd + first_parent_dir(cs.skip(dd as int)),
            decreases comps@.len() - dd,
        {
            proof {
                assert(cs.skip(dd as int).drop_first() =~= cs.skip(dd + 1));
                assert(cs.skip(dd as int)[0] == cs[dd as int]);
            }
            dd = dd + 1;
        }
        proof {
            if dd < comps@.len() {
                assert(cs.skip(dd as int)[0] == cs[dd as int]);
            } else {
                assert(cs.skip(dd as int).len() == 0);
            }
            assert(dd == first_parent_dir(cs));
            assert("/"@.len() != ".."@.len());
            assert(dd >= 1);
        }
        let (term, par) = self.walk(false, &comps, dd);
        proof {
            InputTrie::lemma_after_walk(*old(self), *self, false, cs.take(dd as int), term as int);
        }
        if dd < comps.len() {
            return Err(PathError::DotComponent(path.to_owned()));
        }
        assert(cs.take(dd as int) =~= cs);
        match self.nodes[term].index {
            Some(j) => {
                return Ok(j);
            },
            None => {},
        }
        let pid: usize = if dd == 1 {
            0
        } else {
            proof {
                assert(self.keys@[par as int].1.len() >= 1);
                assert(par >= 2) by {
                    if par < 2 {
                        assert(self.keys@[par as int].1.len() == 0);
                    }
                }
            }
            par - 1
        };
        let last: String = if dd == 1 {
            ".root".to_owned()
        } else {
            comps[dd - 1].clone()
        };
        let guest = match self.guest_inputs_dir {
            Some(d) => Some(guest_string(d, pid, &last)),
            None => None,
        };
        let input = Input {
            kind,
            path: EvaluationPath::Local(path.to_owned()),
            guest_path: guest,
            location: None,
        };
        let ghost mid = *self;
        let index = self.add_input(term, input);
        proof {
            let key = (false, cs);
            if dd > 1 {
                assert(cs.drop_last() =~= cs.take(dd - 1));
                assert forall|a: int, b: int|
                    0 <= a < self.node_keys().len() && 0 <= b < self.node_keys().len() && a != b implies self.node_keys()[a]
                    != self.node_keys()[b] by {
                    assert(self.keys@[a + 2] != self.keys@[b + 2]);
                }
                assert(self.node_keys()[par - 2] == (false, cs.take(dd - 1)));
                lemma_key_index(self.node_keys(), (false, cs.take(dd - 1)), par - 2);
                assert(parent_id(self.node_keys(), key) == pid);
                assert(cs.last() == cs[dd - 1]);
            }
            assert(self.node_keys() == mid.node_keys());
            assert(self.inputs() =~= mid.inputs().push(input@));
            assert(self.node_inputs() =~= mid.node_inputs().update(term - 2, Some(index)));
        }
        Ok(index)
    }
}

/// What inserting a local path `p` does: a path under the guest inputs
/// directory is already a guest path, and a relative path is relative to the
/// working directory, so neither is an input (`Ok(None)`, nothing changes);
/// any other path is inserted as [`path_outcome`] says.
pub open spec fn local_outcome(
    pre: InputTrie,
    post: InputTrie,
    r: Result<Option<usize>, PathError>,
    kind: InputKind,
    p: Seq<char>,
) -> bool {
    if (pre.guest_dir() matches Some(d) && has_base(p, d)) || !is_absolute(p) {
        r == Ok::<Option<usize>, PathError>(None) && same_trie(pre, post)
    } else {
        match r {
            Ok(Some(j)) => path_outcome(pre, post, Ok(j), kind, p),
            Ok(None) => false,
            Err(e) => path_outcome(pre, post, Err(e), kind, p),
        }
    }
}


/// What inserting `path` does: a local path, or the local path of a `file`
/// URL, is inserted as [`local_outcome`] says; another URL is inserted under
/// its scheme, authority and segments as [`insert_outcome`] says; a URL
/// that does not parse, or a `file` URL that names no local path, is refused
/// and changes nothing. The guest inputs directory stays.
pub open spec fn inserted(
    pre: InputTrie,
    post: InputTrie,
    r: Result<Option<usize>, PathError>,
    kind: InputKind,
    path: Seq<char>,
) -> bool {
    &&& (!spec_is_url(path) ==> local_outcome(pre, post, r, kind, path))
    &&& (spec_is_url(path) && !spec_is_file_url(path) ==> match url_parse(path) {
        Some(u) => r matches Ok(Some(j)) && insert_outcome(
            pre,
            post,
            j,
            (true, url_key(u)),
            kind,
            PathView::Remote(u),
            url_last(u),
        ),
        None => (r matches Err(PathError::InvalidUrl(t)) && t@ == path) && same_trie(
            pre,
            post,
        ),
    })
    &&& (spec_is_file_url(path) ==> match url_parse(path) {
        None => (r matches Err(PathError::InvalidUrl(t)) && t@ == path) && same_trie(
            pre,
            post,
        ),
        Some(u) => match url_file_path(u) {
            Some(p) => local_outcome(pre, post, r, kind, p),
            None => (r matches Err(PathError::NotLocal(t)) && t@ == path) && same_trie(
                pre,
                post,
            ),
        },
    })
    &&& post.guest_dir() == pre.guest_dir()
}

impl InputTrie {
    /// Inserts an input with a URL into the trie, under its scheme, its
    /// authority and its path segments.
    pub fn insert_url(&mut self, kind: InputKind, url: ParsedUrl) -> (r: usize)
        requires
            old(self).wf(),
        ensures
            final(self).wf(),
            insert_outcome(
                *old(self),
                *final(self),
                r,
                (true, url_key(url@)),
                kind,
                PathView::Remote(url@),
                url_last(url@),
            ),
    {
        let mut comps: Vec<String> = Vec::new();
        comps.push(url.scheme.clone());
        comps.push(url.authority.clone());
        let mut last: Option<String> = None;
        let ghost segs: Seq<Seq<char>> = match url@.3 {
            Some(s) => s,
            None => Seq::empty(),
        };
        match &url.segments {
            Some(v) => {
                let mut i: usize = 0;
                while i < v.len()
                    invariant
                        i <= v@.len(),
                        segs == texts(v@),
                        views(comps@) == seq![url.scheme@, url.authority@] + segs.take(i as int),
                        match last {
                            Some(l) => last_nonempty(segs.take(i as int)) == Some(l@),
                            None => last_nonempty(segs.take(i as int)) is None,
                        },
                    decreases v@.len() - i,
                {
                    assert(segs.take(i + 1).drop_last() =~= segs.take(i as int));
                    assert(segs[i as int] == v@[i as int]@);
                    let seg = v[i].clone();
                    if !seg.as_str().is_empty() {
                        last = Some(seg.clone());
                    }
                    let ghost prev = comps@;
                    let ghost sv = seg@;
                    assert(sv == segs[i as int]);
                    comps.push(seg);
                    assert(views(comps@) =~= views(prev).push(sv));
                    assert(segs.take(i + 1) =~= segs.take(i as int).push(sv));
                    i = i + 1;
                    assert(views(comps@) =~= seq![url.scheme@, url.authority@] + segs.take(i as int));
                }
                assert(segs.take(i as int) =~= segs);
            },
            None => {
                assert(views(comps@) =~= seq![url.scheme@, url.authority@] + segs);
            },
        }
        let ghost key_comps = url_key(url@);
        assert(views(comps@) == key_comps);
        let len = comps.len();
        let (term, par) = self.walk(true, &comps, len);
        assert(views(comps@).take(len as int) =~= key_comps);
        proof {
            InputTrie::lemma_after_walk(*old(self), *self, true, key_comps, term as int);
        }
        match self.nodes[term].index {
            Some(j) => {
                return j;
            },
            None => {},
        }
        proof {
            assert(self.keys@[par as int].1.len() >= 1) by {
                assert(views(comps@).take(len - 1).len() == len - 1);
            }
            assert(par >= 2) by {
                if par < 2 {
                    assert(self.keys@[par as int].1.len() == 0);
                }
            }
        }
        let pid: usize = par - 1;
        let name: String = match last {
            Some(l) => l,
            None => ".root".to_owned(),
        };
        let guest = match self.guest_inputs_dir {
            Some(d) => Some(guest_string(d, pid, &name)),
            None => None,
        };
        let ghost url_view = url@;
        let input = Input { kind, path: EvaluationPath::Remote(url), guest_path: guest, location: None };
        let ghost mid = *self;
        let index = self.add_input(term, input);
        proof {
            let key = (true, key_comps);
            assert(key_comps.drop_last() =~= views(comps@).take(len - 1));
            assert forall|a: int, b: int|
                0 <= a < self.node_keys().len() && 0 <= b < self.node_keys().len() && a != b implies self.node_keys()[a]
                != self.node_keys()[b] by {
                assert(self.keys@[a + 2] != self.keys@[b + 2]);
            }
            assert(self.node_keys()[par - 2] == (true, views(comps@).take(len - 1)));
            lemma_key_index(self.node_keys(), (true, views(comps@).take(len - 1)), par - 2);
            assert(parent_id(self.node_keys(), key) == pid);
            assert(name@ == url_last(url_view));
            assert(self.node_keys() == mid.node_keys());
            assert(self.inputs() =~= mid.inputs().push(input@));
            assert(self.node_inputs() =~= mid.node_inputs().update(term - 2, Some(index)));
        }
        index
    }

    /// Inserts a new input into the trie.
    ///
    /// Returns `Ok(Some(_))` with the index of the input that the path now
    /// has (new or already there), and `Ok(None)` if the path is already a
    /// guest input path or is relative (relative paths are relative to the
    /// working directory).  Returns an error for an invalid input path.
    pub fn insert(&mut self, kind: InputKind, path: &str) -> (r: Result<Option<usize>, PathError>)
        requires
            old(self).wf(),
        ensures
            final(self).wf(),
            final(self).guest_dir() == old(self).guest_dir(),
            inserted(*old(self), *final(self), r, kind, path@),
    {
        let parsed = EvaluationPath::parse(path);
        match parsed {
            Err(e) => {
                assert(same_trie(*old(self), *self));
                Err(e)
            },
            Ok(EvaluationPath::Remote(u)) => {
                let j = self.insert_url(kind, u);
                Ok(Some(j))
            },
            Ok(EvaluationPath::Local(p)) => {
                let ghost pv = p@;
                let r = self.insert_local(kind, p.as_str());
                assert(local_outcome(*old(self), *self, r, kind, pv));
                r
            },
        }
    }

    /// Inserts an input with a local path, unless the path is a guest path
    /// or relative.
    fn insert_local(&mut self, kind: InputKind, p: &str) -> (r: Result<Option<usize>, PathError>)
        requires
            old(self).wf(),
        ensures
            final(self).wf(),
            final(self).guest_dir() == old(self).guest_dir(),
            local_outcome(*old(self), *final(self), r, kind, p@),
    {
        if let Some(dir) = self.guest_inputs_dir {
            if path_under(p, dir) {
                return Ok(None);
            }
        }
        let pc = chars_of(p);
        if !(pc.len() > 0 && pc[0] == '/') {
            return Ok(None);
        }
        match self.insert_path(kind, p) {
            Ok(j) => Ok(Some(j)),
            Err(e) => Err(e),
        }
    }
}

/// Why a guest path could not be mapped to a host path.
#[derive(Debug, Clone)]
pub enum HostPathError {
    /// The guest path is a `file` URL that does not name a local path.
    NotFileUri(String),
    /// The guest path is in the working directory, which only a task's
    /// output section may name.
    OutputOnly(String),
    /// The guest path is under neither an input nor the working directory.
    NotRelative(String),
    /// The host path could not be formed.
    Join(PathError),
}

/// The number of bytes of the UTF-8 encoding of `s`.
pub open spec fn byte_len(s: Seq<char>) -> nat {
    vstd::utf8::encode_utf8(s).len()
}

/// The guest path `guest` relative to the guest path of the input `i`, if
/// the input has one and it begins `guest`.
pub open spec fn relative_to_input(i: InputView, guest: Seq<char>) -> Option<Seq<char>> {
    match i.2 {
        Some(g) => strip_base(guest, g),
        None => None,
    }
}

/// The input whose guest path `guest` is relative to with the shortest
/// remainder (the first such input if several tie), and that remainder.
pub open spec fn best_input(inputs: Seq<InputView>, guest: Seq<char>) -> Option<(int, Seq<char>)>
    decreases inputs.len(),
{
    if inputs.len() == 0 {
        None
    } else {
        let prev = best_input(inputs.drop_last(), guest);
        match relative_to_input(inputs.last(), guest) {
            Some(rest) => match prev {
                Some(b) => if byte_len(rest) < byte_len(b.1) {
                    Some((inputs.len() - 1, rest))
                } else {
                    prev
                },
                None => Some((inputs.len() - 1, rest)),
            },
            None => prev,
        }
    }
}

/// The input that [`best_input`] finds is one of the inputs.
pub proof fn lemma_best_input_in_range(inputs: Seq<InputView>, guest: Seq<char>)
    ensures
        best_input(inputs, guest) matches Some(b) ==> 0 <= b.0 < inputs.len(),
    decreases inputs.len(),
{
    if inputs.len() > 0 {
        lemma_best_input_in_range(inputs.drop_last(), guest);
    }
}

/// What mapping the remainder `rest` of a guest path under the host path
/// `base` gives: `base` itself for an empty remainder, otherwise `rest`
/// joined onto it.
pub open spec fn mapped_text(base: PathView, rest: Seq<char>) -> Option<Seq<char>> {
    if rest.len() == 0 {
        Some(path_text(base))
    } else {
        match join_total(base, rest) {
            Some(q) => Some(path_text(q)),
            None => None,
        }
    }
}

impl InputTrie {
    /// What [`InputTrie::host_path`] gives for `path` once it has been
    /// read as the guest path `guest0`: the guest path is cleaned; under the
    /// guest working directory it maps into the host working directory,
    /// which only exists for a task's outputs; otherwise it maps under the
    /// input whose guest path it is closest to.
    pub open spec fn host_path_result(
        self,
        guest0: Seq<char>,
        path: Seq<char>,
        guest_work_dir: Seq<char>,
        host_work_dir: Option<&EvaluationPath>,
        r: Result<String, HostPathError>,
    ) -> bool {
        let guest = path_clean(guest0);
        match strip_base(guest, guest_work_dir) {
            Some(rest) => match host_work_dir {
                Some(h) => match join_total(h@, rest) {
                    Some(q) => r matches Ok(t) && t@ == path_text(q),
                    None => r matches Err(HostPathError::Join(_)),
                },
                None => r matches Err(HostPathError::OutputOnly(t)) && t@ == path,
            },
            None => match best_input(self.inputs(), guest) {
                Some(b) => match mapped_text(self.inputs()[b.0].1, b.1) {
                    Some(m) => r matches Ok(t) && t@ == m,
                    None => r matches Err(HostPathError::NotRelative(t)) && t@ == path,
                },
                None => r matches Err(HostPathError::NotRelative(t)) && t@ == path,
            },
        }
    }

    /// Determines the host path of `path` once it has been read as the
    /// guest path `guest0` (see [`InputTrie::host_path_result`]).
    pub fn host_path_of_guest(
        &self,
        guest0: &str,
        path: &str,
        guest_work_dir: &str,
        host_work_dir: Option<&EvaluationPath>,
    ) -> (r: Result<String, HostPathError>)
        ensures
            self.host_path_result(guest0@, path@, guest_work_dir@, host_work_dir, r),
    {
        let guest = clean_path(guest0);
        proof {
            lemma_best_input_in_range(self.inputs(), guest@);
        }
        match strip_prefix(guest.as_str(), guest_work_dir) {
            Some(rest) => match host_work_dir {
                Some(h) => match h.join(rest.as_str()) {
                    Ok(q) => match q.to_str() {
                        Some(t) => Ok(t.to_owned()),
                        None => Err(HostPathError::NotRelative(path.to_owned())),
                    },
                    Err(e) => Err(HostPathError::Join(e)),
                },
                None => Err(HostPathError::OutputOnly(path.to_owned())),
            },
            None => {
                let mut best: Option<(usize, String)> = None;
                let mut i: usize = 0;
                while i < self.inputs.len()
                    invariant
                        i <= self.inputs@.len(),
                        match best {
                            Some(b) => b.0 < i && best_input(self.inputs().take(i as int), guest@) == Some(
                                (b.0 as int, b.1@),
                            ),
                            None => best_input(self.inputs().take(i as int), guest@) is None,
                        },
                    decreases self.inputs@.len() - i,
                {
                    proof {
                        assert(self.inputs().take(i + 1).drop_last() =~= self.inputs().take(i as int));
                        assert(self.inputs().take(i + 1).last() == self.inputs@[i as int]@);
                    }
                    match &self.inputs[i].guest_path {
                        Some(g) => match strip_prefix(guest.as_str(), g.as_str()) {
                            Some(rest) => {
                                let shorter = match &best {
                                    Some(b) => rest.as_str().as_bytes().len() < b.1.as_str().as_bytes().len(),
                                    None => true,
                                };
                                if shorter {
                                    best = Some((i, rest));
                                }
                            },
                            None => {},
                        },
                        None => {},
                    }
                    i = i + 1;
                }
                assert(self.inputs().take(i as int) =~= self.inputs());
                match best {
                    None => Err(HostPathError::NotRelative(path.to_owned())),
                    Some((k, rest)) => {
                        let base = &self.inputs[k].path;
                        if rest.as_str().is_empty() {
                            match base.to_str() {
                                Some(t) => Ok(t.to_owned()),
                                None => Err(HostPathError::NotRelative(path.to_owned())),
                            }
                        } else {
                            match base.join(rest.as_str()) {
                                Ok(q) => match q.to_str() {
                                    Some(t) => Ok(t.to_owned()),
                                    None => Err(HostPathError::NotRelative(path.to_owned())),
                                },
                                Err(_) => Err(HostPathError::NotRelative(path.to_owned())),
                            }
                        }
                    },
                }
            },
        }
    }

    /// Determines the host path of a guest path.
    ///
    /// A URL other than a `file` URL is returned as it is. A `file` URL is
    /// read as the local path it names, which depends on the platform;
    /// any other path is joined onto the guest working directory when
    /// relative. The host path then follows from
    /// [`InputTrie::host_path_result`].
    pub fn host_path(
        &self,
        path: &str,
        guest_work_dir: &str,
        host_work_dir: Option<&EvaluationPath>,
    ) -> (r: Result<String, HostPathError>)
        ensures
            spec_is_url(path@) && !spec_is_file_url(path@) ==> (r matches Ok(t) && t@ == path@),
            !spec_is_url(path@) ==> self.host_path_result(
                spec_join(guest_work_dir@, path@),
                path@,
                guest_work_dir@,
                host_work_dir,
                r,
            ),
            spec_is_file_url(path@) ==> match url_parse(path@) {
                None => r matches Err(HostPathError::NotFileUri(t)) && t@ == path@,
                Some(u) => match url_file_path(u) {
                    None => r matches Err(HostPathError::NotFileUri(t)) && t@ == path@,
                    Some(g) => self.host_path_result(g, path@, guest_work_dir@, host_work_dir, r),
                },
            },
    {
        let guest0: String = if is_file_url(path) {
            assert(spec_is_url(path@));
            match parse_url(path) {
                Some(u) => match file_url_path(&u) {
                    Some(p) => p,
                    None => {
                        return Err(HostPathError::NotFileUri(path.to_owned()));
                    },
                },
                None => {
                    return Err(HostPathError::NotFileUri(path.to_owned()));
                },
            }
        } else if is_url(path) {
            return Ok(path.to_owned());
        } else {
            join(guest_work_dir, path)
        };
        self.host_path_of_guest(guest0.as_str(), path, guest_work_dir, host_work_dir)
    }
}

impl Default for InputTrie {
    /// A trie with no nodes and no inputs, whose inputs are not mapped to
    /// guest paths.
    fn default() -> (t: Self)
        ensures
            t.wf(),
            t.node_keys().len() == 0,
            t.inputs().len() == 0,
            t.guest_dir() is None,
    {
        InputTrie::empty()
    }
}

/// No two keys of `keys` are the same.
pub open spec fn distinct_keys(keys: Seq<TrieKey>) -> bool {
    forall|a: int, b: int| 0 <= a < keys.len() && 0 <= b < keys.len() && a != b ==> keys[a] != keys[b]
}

/// The nodes of a trie have distinct keys, and the key of each node but
/// those at the top, less its last component, is the key of a node created
/// before it.
pub proof fn lemma_trie_keys(t: InputTrie)
    requires
        t.wf(),
    ensures
        distinct_keys(t.node_keys()),
        forall|i: int|
            0 <= i < t.node_keys().len() ==> (#[trigger] t.node_keys()[i]).1.len() >= 1,
        forall|i: int|
            0 <= i < t.node_keys().len() && (#[trigger] t.node_keys()[i]).1.len() > 1 ==> exists|j: int|
                0 <= j < i && t.node_keys()[j] == (t.node_keys()[i].0, t.node_keys()[i].1.drop_last()),
{
    assert forall|a: int, b: int|
        0 <= a < t.node_keys().len() && 0 <= b < t.node_keys().len() && a != b implies t.node_keys()[a]
        != t.node_keys()[b] by {
        assert(t.keys@[a + 2] != t.keys@[b + 2]);
    }
    assert forall|i: int| 0 <= i < t.node_keys().len() implies (#[trigger] t.node_keys()[i]).1.len() >= 1 by {
        assert(node_ok_at(t.keys@, t.nodes@, i + 2));
    }
    assert forall|i: int|
        0 <= i < t.node_keys().len() && (#[trigger] t.node_keys()[i]).1.len() > 1 implies exists|j: int|
            0 <= j < i && t.node_keys()[j] == (t.node_keys()[i].0, t.node_keys()[i].1.drop_last()) by {
        assert(node_ok_at(t.keys@, t.nodes@, i + 2));
        let p = t.nodes@[i + 2].parent as int;
        if p < 2 {
            assert(t.keys@[p].1.len() == 0);
        }
        assert(t.node_keys()[p - 2] == (t.node_keys()[i].0, t.node_keys()[i].1.drop_last()));
    }
}

/// A key that occurs has its position in range, and is there.
pub proof fn lemma_key_index_found(keys: Seq<TrieKey>, k: TrieKey)
    requires
        keys.contains(k),
    ensures
        0 <= key_index(keys, k) < keys.len(),
        keys[key_index(keys, k)] == k,
    decreases keys.len(),
{
    if keys.last() != k {
        let i = choose|i: int| 0 <= i < keys.len() && keys[i] == k;
        assert(keys.drop_last()[i] == k);
        lemma_key_index_found(keys.drop_last(), k);
    }
}

/// A position that is not `-1` is that of the key.
pub proof fn lemma_key_index_pos(keys: Seq<TrieKey>, k: TrieKey)
    ensures
        key_index(keys, k) >= 0 ==> key_index(keys, k) < keys.len() && keys[key_index(keys, k)] == k,
        -1 <= key_index(keys, k),
    decreases keys.len(),
{
    if keys.len() > 0 && keys.last() != k {
        lemma_key_index_pos(keys.drop_last(), k);
    }
}


/// The key at which an inserted input ends is a node of the trie after the
/// insertion, and that input ends there.
proof fn lemma_outcome_input(
    pre: InputTrie,
    post: InputTrie,
    r: usize,
    key: TrieKey,
    kind: InputKind,
    path: PathView,
    last: Seq<char>,
)
    requires
        pre.wf(),
        post.wf(),
        key.1.len() >= 1,
        insert_outcome(pre, post, r, key, kind, path, last),
    ensures
        post.node_keys().contains(key),
        post.input_of(key) == Some(r),
{
    lemma_trie_keys(pre);
    lemma_trie_keys(post);
    let added = added_keys(pre.node_keys(), key.0, key.1);
    if pre.node_keys().contains(key) {
        lemma_key_index_found(pre.node_keys(), key);
        let i = key_index(pre.node_keys(), key);
        assert(post.node_keys()[i] == key);
    } else {
        lemma_known_depth_le(pre.node_keys(), key.0, key.1.drop_last());
        let m = known_depth(pre.node_keys(), key.0, key.1);
        assert(m < key.1.len());
        assert(added[key.1.len() - m - 1] == (key.0, key.1.take(key.1.len() as int)));
        assert(key.1.take(key.1.len() as int) =~= key.1);
        assert(post.node_keys()[pre.node_keys().len() + key.1.len() - m - 1] == key);
    }
    lemma_key_index_found(post.node_keys(), key);
    let idx = key_index(post.node_keys(), key);
    match pre.input_of(key) {
        Some(j) => {
            lemma_key_index_pos(pre.node_keys(), key);
            let i = key_index(pre.node_keys(), key);
            lemma_key_index(post.node_keys(), key, i);
            assert(post.node_inputs()[i] == pre.node_inputs()[i]);
        },
        None => {
            assert(post.node_inputs()[idx] == Some(r));
        },
    }
}

/// The first `..` is at most at the end.
proof fn lemma_first_parent_dir_le(comps: Seq<Seq<char>>)
    ensures
        first_parent_dir(comps) <= comps.len(),
    decreases comps.len(),
{
    if comps.len() > 0 && comps[0] != ".."@ {
        lemma_first_parent_dir_le(comps.drop_first());
    }
}

/// Inserting the same local path again gives the same input and changes
/// nothing.
pub proof fn lemma_insert_path_again(
    t0: InputTrie,
    t1: InputTrie,
    t2: InputTrie,
    kind1: InputKind,
    kind2: InputKind,
    p: Seq<char>,
    r1: Result<usize, PathError>,
    r2: Result<usize, PathError>,
)
    requires
        t0.wf(),
        t1.wf(),
        is_absolute(p),
        path_outcome(t0, t1, r1, kind1, p),
        path_outcome(t1, t2, r2, kind2, p),
        r1 is Ok,
    ensures
        r2 == r1,
        same_trie(t1, t2),
{
    let comps = components(p);
    let key = (false, comps);
    let j = r1->Ok_0;
    lemma_first_parent_dir_le(comps);
    assert(first_parent_dir(comps) == comps.len());
    assert(comps.len() >= 1);
    lemma_outcome_input(
        t0,
        t1,
        j,
        key,
        kind1,
        PathView::Local(p),
        if comps.len() == 1 { ".root"@ } else { comps.last() },
    );
    lemma_added_known(t1.node_keys(), false, comps);
    assert(t2.node_keys() =~= t1.node_keys());
    assert(t2.node_inputs() =~= t1.node_inputs());
}

/// Inserting the same key again, whatever the input's kind, gives the same
/// input and changes nothing: the law behind inserting a path or a URL
/// twice.
pub proof fn lemma_insert_again(
    t0: InputTrie,
    t1: InputTrie,
    t2: InputTrie,
    key: TrieKey,
    kind1: InputKind,
    kind2: InputKind,
    path1: PathView,
    path2: PathView,
    last1: Seq<char>,
    last2: Seq<char>,
    r1: usize,
    r2: usize,
)
    requires
        t0.wf(),
        t1.wf(),
        key.1.len() >= 1,
        insert_outcome(t0, t1, r1, key, kind1, path1, last1),
        insert_outcome(t1, t2, r2, key, kind2, path2, last2),
    ensures
        r2 == r1,
        same_trie(t1, t2),
{
    lemma_outcome_input(t0, t1, r1, key, kind1, path1, last1);
    lemma_added_known(t1.node_keys(), key.0, key.1);
    assert(t2.node_keys() =~= t1.node_keys());
    assert(t2.node_inputs() =~= t1.node_inputs());
}

/// Inserting the same local path again through [`InputTrie::insert`] gives
/// the same input, as first stored (with the kind of its first insertion),
/// and changes nothing.
pub proof fn lemma_insert_local_again(
    t0: InputTrie,
    t1: InputTrie,
    t2: InputTrie,
    kind1: InputKind,
    kind2: InputKind,
    p: Seq<char>,
    r1: Result<Option<usize>, PathError>,
    r2: Result<Option<usize>, PathError>,
)
    requires
        t0.wf(),
        t1.wf(),
        local_outcome(t0, t1, r1, kind1, p),
        local_outcome(t1, t2, r2, kind2, p),
        r1 is Ok,
    ensures
        r2 == r1,
        same_trie(t1, t2),
        r1 matches Ok(Some(j)) ==> t2.inputs()[j as int] == t1.inputs()[j as int],
{
    if (t0.guest_dir() matches Some(d) && has_base(p, d)) || !is_absolute(p) {
    } else {
        match r1 {
            Ok(Some(j)) => {
                match r2 {
                    Ok(Some(k)) => {
                        lemma_insert_path_again(t0, t1, t2, kind1, kind2, p, Ok(j), Ok(k));
                    },
                    Ok(None) => {},
                    Err(e) => {
                        lemma_insert_path_again(t0, t1, t2, kind1, kind2, p, Ok(j), Err(e));
                    },
                }
            },
            _ => {},
        }
    }
}

/// Whether every input of a trie has a guest path exactly when the trie
/// maps inputs to guest paths, and that guest path lies under the guest
/// inputs directory.
pub open spec fn guests_under(t: InputTrie) -> bool {
    forall|i: int|
        0 <= i < t.inputs().len() ==> match t.guest_dir() {
            None => (#[trigger] t.inputs()[i]).2 is None,
            Some(d) => t.inputs()[i].2 matches Some(g) && has_base_text(g, d + "/"@),
        }
}

/// Whether `s` begins with `prefix`.
pub open spec fn has_base_text(s: Seq<char>, prefix: Seq<char>) -> bool {
    prefix.len() <= s.len() && s.take(prefix.len() as int) == prefix
}

/// Inserting at a key keeps the earlier inputs in place, in their order,
/// and keeps every guest path under the guest inputs directory.
pub proof fn lemma_insert_keeps_inputs(
    pre: InputTrie,
    post: InputTrie,
    r: usize,
    key: TrieKey,
    kind: InputKind,
    path: PathView,
    last: Seq<char>,
)
    requires
        insert_outcome(pre, post, r, key, kind, path, last),
        guests_under(pre),
    ensures
        pre.inputs().len() <= post.inputs().len(),
        post.inputs().take(pre.inputs().len() as int) == pre.inputs(),
        guests_under(post),
{
    if pre.input_of(key) is None {
        assert(post.inputs().take(pre.inputs().len() as int) =~= pre.inputs());
        assert forall|i: int| 0 <= i < post.inputs().len() implies match post.guest_dir() {
            None => (#[trigger] post.inputs()[i]).2 is None,
            Some(d) => post.inputs()[i].2 matches Some(g) && has_base_text(g, d + "/"@),
        } by {
            if i < pre.inputs().len() {
                assert(post.inputs()[i] == pre.inputs()[i]);
            } else {
                match post.guest_dir() {
                    Some(d) => {
                        let g = guest_text(d, parent_id(post.node_keys(), key), last);
                        assert(g =~= (d + "/"@) + (spec_decimal(parent_id(post.node_keys(), key)) + "/"@ + last));
                        assert(g.take((d + "/"@).len() as int) =~= d + "/"@);
                    },
                    None => {},
                }
            }
        }
    } else {
        assert(post.inputs().take(pre.inputs().len() as int) =~= pre.inputs());
    }
}

/// Inserting a local path keeps the earlier inputs in place, in their
/// order, and keeps every guest path under the guest inputs directory.
pub proof fn lemma_insert_local_keeps_inputs(
    pre: InputTrie,
    post: InputTrie,
    r: Result<Option<usize>, PathError>,
    kind: InputKind,
    p: Seq<char>,
)
    requires
        local_outcome(pre, post, r, kind, p),
        guests_under(pre),
    ensures
        pre.inputs().len() <= post.inputs().len(),
        post.inputs().take(pre.inputs().len() as int) == pre.inputs(),
        guests_under(post),
{
    if (pre.guest_dir() matches Some(d) && has_base(p, d)) || !is_absolute(p) {
        assert(post.inputs().take(pre.inputs().len() as int) =~= pre.inputs());
    } else {
        let comps = components(p);
        let dd = first_parent_dir(comps);
        if dd < comps.len() {
            assert(post.inputs().take(pre.inputs().len() as int) =~= pre.inputs());
        } else {
            let j = match r {
                Ok(Some(j)) => j,
                _ => 0,
            };
            lemma_insert_keeps_inputs(
                pre,
                post,
                j,
                (false, comps),
                kind,
                PathView::Local(p),
                if comps.len() == 1 { ".root"@ } else { comps.last() },
            );
        }
    }
}

/// One insertion keeps the earlier inputs in place, in their order, and
/// keeps every guest path under the guest inputs directory.
pub proof fn lemma_inserted_keeps_inputs(
    pre: InputTrie,
    post: InputTrie,
    r: Result<Option<usize>, PathError>,
    kind: InputKind,
    path: Seq<char>,
)
    requires
        inserted(pre, post, r, kind, path),
        guests_under(pre),
    ensures
        pre.inputs().len() <= post.inputs().len(),
        post.inputs().take(pre.inputs().len() as int) == pre.inputs(),
        guests_under(post),
{
    if !spec_is_url(path) {
        lemma_insert_local_keeps_inputs(pre, post, r, kind, path);
    } else if !spec_is_file_url(path) {
        match url_parse(path) {
            Some(u) => {
                let j = match r {
                    Ok(Some(j)) => j,
                    _ => 0,
                };
                lemma_insert_keeps_inputs(
                    pre,
                    post,
                    j,
                    (true, url_key(u)),
                    kind,
                    PathView::Remote(u),
                    url_last(u),
                );
            },
            None => {
                assert(post.inputs().take(pre.inputs().len() as int) =~= pre.inputs());
            },
        }
    } else {
        match url_parse(path) {
            Some(u) => match url_file_path(u) {
                Some(p) => {
                    lemma_insert_local_keeps_inputs(pre, post, r, kind, p);
                },
                None => {
                    assert(post.inputs().take(pre.inputs().len() as int) =~= pre.inputs());
                },
            },
            None => {
                assert(post.inputs().take(pre.inputs().len() as int) =~= pre.inputs());
            },
        }
    }
}

/// Inputs inserted one after another (`tries[i + 1]` is `tries[i]` after
/// inserting `paths[i]`) into a trie that had none keep its guest inputs
/// directory, and every input has a guest path under that directory, or
/// none at all when the trie maps no guest paths (one made by
/// [`InputTrie::default`] rather than [`InputTrie::new`]).
pub proof fn lemma_guest_paths_under_directory(
    tries: Seq<InputTrie>,
    results: Seq<Result<Option<usize>, PathError>>,
    kinds: Seq<InputKind>,
    paths: Seq<Seq<char>>,
)
    requires
        tries.len() == paths.len() + 1,
        results.len() == paths.len(),
        kinds.len() == paths.len(),
        tries[0].inputs().len() == 0,
        forall|i: int|
            0 <= i < paths.len() ==> #[trigger] inserted(
                tries[i],
                tries[i + 1],
                results[i],
                kinds[i],
                paths[i],
            ),
    ensures
        tries.last().guest_dir() == tries[0].guest_dir(),
        forall|j: int|
            0 <= j < tries.last().inputs().len() ==> match tries[0].guest_dir() {
                None => (#[trigger] tries.last().inputs()[j]).2 is None,
                Some(d) => tries.last().inputs()[j].2 matches Some(g) && has_base_text(g, d + "/"@),
            },
    decreases paths.len(),
{
    if paths.len() == 0 {
        lemma_empty_guests_under(tries[0]);
    } else {
        let n = paths.len() - 1;
        assert forall|i: int| 0 <= i < n implies #[trigger] inserted(
            tries.drop_last()[i],
            tries.drop_last()[i + 1],
            results.drop_last()[i],
            kinds.drop_last()[i],
            paths.drop_last()[i],
        ) by {
            assert(inserted(tries[i], tries[i + 1], results[i], kinds[i], paths[i]));
        }
        lemma_guest_paths_under_directory(
            tries.drop_last(),
            results.drop_last(),
            kinds.drop_last(),
            paths.drop_last(),
        );
        assert(inserted(tries[n], tries[n + 1], results[n], kinds[n], paths[n]));
        lemma_inserted_keeps_inputs(tries[n], tries[n + 1], results[n], kinds[n], paths[n]);
    }
}

/// A guest path maps back through an input exactly when the guest path of
/// some input begins it; the input it maps through is then the one with the
/// shortest remainder, the first of those that tie.
pub proof fn lemma_best_input_choice(inputs: Seq<InputView>, guest: Seq<char>)
    ensures
        best_input(inputs, guest) is Some <==> exists|i: int|
            0 <= i < inputs.len() && (#[trigger] relative_to_input(inputs[i], guest)) is Some,
        best_input(inputs, guest) matches Some(b) ==> {
            &&& 0 <= b.0 < inputs.len()
            &&& relative_to_input(inputs[b.0], guest) == Some(b.1)
            &&& forall|i: int|
                0 <= i < inputs.len() && (#[trigger] relative_to_input(inputs[i], guest)) is Some
                    ==> byte_len(b.1) <= byte_len(relative_to_input(inputs[i], guest)->0)
            &&& forall|i: int|
                0 <= i < b.0 && (#[trigger] relative_to_input(inputs[i], guest)) is Some
                    ==> byte_len(b.1) < byte_len(relative_to_input(inputs[i], guest)->0)
        },
    decreases inputs.len(),
{
    if inputs.len() > 0 {
        let prev = inputs.drop_last();
        lemma_best_input_choice(prev, guest);
        assert forall|i: int| 0 <= i < prev.len() implies #[trigger] relative_to_input(prev[i], guest)
            == relative_to_input(inputs[i], guest) by {}
        let n = inputs.len() - 1;
        assert(inputs[n] == inputs.last());
        if best_input(inputs, guest) is Some {
            let b = best_input(inputs, guest)->0;
            assert(relative_to_input(inputs[b.0], guest) is Some);
            assert forall|i: int|
                0 <= i < inputs.len() && (#[trigger] relative_to_input(inputs[i], guest)) is Some
                    implies byte_len(b.1) <= byte_len(relative_to_input(inputs[i], guest)->0) by {
                if i < n {
                    assert(relative_to_input(prev[i], guest) == relative_to_input(inputs[i], guest));
                }
            }
            assert forall|i: int|
                0 <= i < b.0 && (#[trigger] relative_to_input(inputs[i], guest)) is Some
                    implies byte_len(b.1) < byte_len(relative_to_input(inputs[i], guest)->0) by {
                assert(relative_to_input(prev[i], guest) == relative_to_input(inputs[i], guest));
            }
        } else {
            assert forall|i: int| 0 <= i < inputs.len() implies !(#[trigger] relative_to_input(
                inputs[i],
                guest,
            ) is Some) by {
                if i < n {
                    assert(relative_to_input(prev[i], guest) == relative_to_input(inputs[i], guest));
                }
            }
        }
    }
}

/// Whether every local input of a trie ends at the node of an absolute
/// path's components and has the guest path that node gives.
pub open spec fn locals_keyed(t: InputTrie) -> bool {
    forall|j: int|
        0 <= j < t.inputs().len() && (#[trigger] t.inputs()[j]).1 is Local ==> exists|
            comps: Seq<Seq<char>>,
        |
            {
                &&& #[trigger] t.node_keys().contains((false, comps))
                &&& comps.len() >= 1
                &&& comps[0] == seq!['/']
                &&& t.input_of((false, comps)) matches Some(x) && x == j
                &&& t.inputs()[j].2 == guest_of(
                    t.guest_dir(),
                    parent_id(t.node_keys(), (false, comps)),
                    local_last(comps),
                )
            }
}

/// A key of a trie keeps its position, its parent identifier and its input
/// when nodes are added after the existing ones and no existing node with
/// an input changes.
proof fn lemma_old_key_kept(pre: InputTrie, post: InputTrie, k: TrieKey)
    requires
        pre.wf(),
        post.wf(),
        pre.node_keys().len() <= post.node_keys().len(),
        post.node_keys().take(pre.node_keys().len() as int) == pre.node_keys(),
        pre.node_keys().contains(k),
    ensures
        post.node_keys().contains(k),
        key_index(post.node_keys(), k) == key_index(pre.node_keys(), k),
        0 <= key_index(pre.node_keys(), k) < pre.node_keys().len(),
        parent_id(post.node_keys(), k) == parent_id(pre.node_keys(), k),
{
    lemma_trie_keys(pre);
    lemma_trie_keys(post);
    lemma_key_index_found(pre.node_keys(), k);
    let i = key_index(pre.node_keys(), k);
    assert(post.node_keys()[i] == pre.node_keys()[i]);
    lemma_key_index(post.node_keys(), k, i);
    if k.1.len() > 1 {
        let q = (k.0, k.1.drop_last());
        let j = choose|j: int| 0 <= j < i && pre.node_keys()[j] == q;
        lemma_key_index(pre.node_keys(), q, j);
        assert(post.node_keys()[j] == pre.node_keys()[j]);
        lemma_key_index(post.node_keys(), q, j);
    }
}

/// One insertion keeps every local input keyed by its node, and keys the
/// input it adds.
proof fn lemma_inserted_keeps_locals_keyed(
    pre: InputTrie,
    post: InputTrie,
    r: Result<Option<usize>, PathError>,
    kind: InputKind,
    path: Seq<char>,
)
    requires
        pre.wf(),
        post.wf(),
        inserted(pre, post, r, kind, path),
        locals_keyed(pre),
    ensures
        locals_keyed(post),
{
    lemma_inserted_keeps_inputs_shape(pre, post, r, kind, path);
    let n = pre.inputs().len();
    assert forall|j: int|
        0 <= j < post.inputs().len() && (#[trigger] post.inputs()[j]).1 is Local implies exists|
            comps: Seq<Seq<char>>,
        |
            {
                &&& #[trigger] post.node_keys().contains((false, comps))
                &&& comps.len() >= 1
                &&& comps[0] == seq!['/']
                &&& post.input_of((false, comps)) matches Some(x) && x == j
                &&& post.inputs()[j].2 == guest_of(
                    post.guest_dir(),
                    parent_id(post.node_keys(), (false, comps)),
                    local_last(comps),
                )
            } by {
        if j < n {
            assert(post.inputs()[j] == pre.inputs()[j]);
            let comps = choose|comps: Seq<Seq<char>>|
                {
                    &&& #[trigger] pre.node_keys().contains((false, comps))
                    &&& comps.len() >= 1
                    &&& comps[0] == seq!['/']
                    &&& pre.input_of((false, comps)) matches Some(x) && x == j
                    &&& pre.inputs()[j].2 == guest_of(
                        pre.guest_dir(),
                        parent_id(pre.node_keys(), (false, comps)),
                        local_last(comps),
                    )
                };
            let k = (false, comps);
            lemma_old_key_kept(pre, post, k);
            let idx = key_index(pre.node_keys(), k);
            assert(post.node_inputs()[idx] == pre.node_inputs()[idx]);
            assert(post.node_keys().contains(k));
        } else {
            lemma_new_local_keyed(pre, post, r, kind, path);
        }
    }
}

/// What an insertion at a key keeps: the existing nodes in their places,
/// the inputs of existing nodes, the existing inputs and the guest inputs
/// directory.
proof fn lemma_outcome_shape(
    pre: InputTrie,
    post: InputTrie,
    r: usize,
    key: TrieKey,
    kind: InputKind,
    path: PathView,
    last: Seq<char>,
)
    requires
        pre.wf(),
        post.wf(),
        key.1.len() >= 1,
        insert_outcome(pre, post, r, key, kind, path, last),
    ensures
        pre.node_keys().len() <= post.node_keys().len(),
        post.node_keys().take(pre.node_keys().len() as int) == pre.node_keys(),
        forall|i: int|
            0 <= i < pre.node_keys().len() && (#[trigger] pre.node_inputs()[i]) is Some
                ==> post.node_inputs()[i] == pre.node_inputs()[i],
        post.inputs().len() >= pre.inputs().len(),
        post.inputs().take(pre.inputs().len() as int) == pre.inputs(),
        post.guest_dir() == pre.guest_dir(),
{
    let added = added_keys(pre.node_keys(), key.0, key.1);
    assert(post.node_keys().take(pre.node_keys().len() as int) =~= pre.node_keys());
    assert(post.inputs().take(pre.inputs().len() as int) =~= pre.inputs());
    lemma_trie_keys(pre);
    lemma_trie_keys(post);
    lemma_outcome_input(pre, post, r, key, kind, path, last);
    if pre.input_of(key) is None {
        let ki = key_index(post.node_keys(), key);
        lemma_key_index_pos(post.node_keys(), key);
        assert forall|i: int|
            0 <= i < pre.node_keys().len() && (#[trigger] pre.node_inputs()[i]) is Some
                implies post.node_inputs()[i] == pre.node_inputs()[i] by {
            if i == ki {
                assert(post.node_keys()[i] == pre.node_keys()[i]);
                lemma_key_index(pre.node_keys(), key, i);
            }
            assert((pre.node_inputs() + nones(added.len()))[i] == pre.node_inputs()[i]);
        }
    } else {
        assert forall|i: int|
            0 <= i < pre.node_keys().len() && (#[trigger] pre.node_inputs()[i]) is Some
                implies post.node_inputs()[i] == pre.node_inputs()[i] by {
            assert((pre.node_inputs() + nones(added.len()))[i] == pre.node_inputs()[i]);
        }
    }
}

/// What inserting a local path keeps (see [`lemma_outcome_shape`]).
proof fn lemma_local_shape(
    pre: InputTrie,
    post: InputTrie,
    r: Result<Option<usize>, PathError>,
    kind: InputKind,
    p: Seq<char>,
)
    requires
        pre.wf(),
        post.wf(),
        local_outcome(pre, post, r, kind, p),
    ensures
        pre.node_keys().len() <= post.node_keys().len(),
        post.node_keys().take(pre.node_keys().len() as int) == pre.node_keys(),
        forall|i: int|
            0 <= i < pre.node_keys().len() && (#[trigger] pre.node_inputs()[i]) is Some
                ==> post.node_inputs()[i] == pre.node_inputs()[i],
        post.inputs().len() >= pre.inputs().len(),
        post.inputs().take(pre.inputs().len() as int) == pre.inputs(),
        post.guest_dir() == pre.guest_dir(),
        post.inputs().len() > pre.inputs().len() ==> is_absolute(p) && first_parent_dir(
            components(p),
        ) >= components(p).len() && exists|j: usize|
            insert_outcome(
                pre,
                post,
                j,
                (false, components(p)),
                kind,
                PathView::Local(p),
                local_last(components(p)),
            ),
{
    assert(post.inputs().take(pre.inputs().len() as int) =~= pre.inputs());
    assert(post.node_keys().take(pre.node_keys().len() as int) =~= pre.node_keys());
    if !((pre.guest_dir() matches Some(d) && has_base(p, d)) || !is_absolute(p)) {
        let comps = components(p);
        let dd = first_parent_dir(comps);
        if p.len() != 0 {
            if dd < comps.len() {
                let added = added_keys(pre.node_keys(), false, comps.take(dd as int));
                assert forall|i: int|
                    0 <= i < pre.node_keys().len() && (#[trigger] pre.node_inputs()[i]) is Some
                        implies post.node_inputs()[i] == pre.node_inputs()[i] by {
                    assert((pre.node_inputs() + nones(added.len()))[i] == pre.node_inputs()[i]);
                }
            } else {
                let j = match r {
                    Ok(Some(j)) => j,
                    _ => 0,
                };
                lemma_outcome_shape(
                    pre,
                    post,
                    j,
                    (false, comps),
                    kind,
                    PathView::Local(p),
                    local_last(comps),
                );
            }
        }
    }
}

/// What an insertion keeps (see [`lemma_outcome_shape`]); an input it adds
/// with a local path comes from inserting an absolute local path.
proof fn lemma_inserted_keeps_inputs_shape(
    pre: InputTrie,
    post: InputTrie,
    r: Result<Option<usize>, PathError>,
    kind: InputKind,
    path: Seq<char>,
)
    requires
        pre.wf(),
        post.wf(),
        inserted(pre, post, r, kind, path),
    ensures
        pre.node_keys().len() <= post.node_keys().len(),
        post.node_keys().take(pre.node_keys().len() as int) == pre.node_keys(),
        forall|i: int|
            0 <= i < pre.node_keys().len() && (#[trigger] pre.node_inputs()[i]) is Some
                ==> post.node_inputs()[i] == pre.node_inputs()[i],
        post.inputs().len() >= pre.inputs().len(),
        post.inputs().take(pre.inputs().len() as int) == pre.inputs(),
        post.guest_dir() == pre.guest_dir(),
{
    assert(post.inputs().take(pre.inputs().len() as int) =~= pre.inputs());
    assert(post.node_keys().take(pre.node_keys().len() as int) =~= pre.node_keys());
    if !spec_is_url(path) {
        lemma_local_shape(pre, post, r, kind, path);
    } else if !spec_is_file_url(path) {
        if let Some(u) = url_parse(path) {
            let j = match r {
                Ok(Some(j)) => j,
                _ => 0,
            };
            lemma_outcome_shape(
                pre,
                post,
                j,
                (true, url_key(u)),
                kind,
                PathView::Remote(u),
                url_last(u),
            );
        }
    } else {
        if let Some(u) = url_parse(path) {
            if let Some(p) = url_file_path(u) {
                lemma_local_shape(pre, post, r, kind, p);
            }
        }
    }
}

/// An input that an insertion adds with a local path ends at the node of
/// its path's components and has the guest path that node gives.
proof fn lemma_new_local_keyed(
    pre: InputTrie,
    post: InputTrie,
    r: Result<Option<usize>, PathError>,
    kind: InputKind,
    path: Seq<char>,
)
    requires
        pre.wf(),
        post.wf(),
        inserted(pre, post, r, kind, path),
        post.inputs().len() > pre.inputs().len(),
        post.inputs()[pre.inputs().len() as int].1 is Local,
    ensures
        exists|comps: Seq<Seq<char>>|
            {
                &&& #[trigger] post.node_keys().contains((false, comps))
                &&& comps.len() >= 1
                &&& comps[0] == seq!['/']
                &&& post.input_of((false, comps)) matches Some(x) && x == pre.inputs().len()
                &&& post.inputs()[pre.inputs().len() as int].2 == guest_of(
                    post.guest_dir(),
                    parent_id(post.node_keys(), (false, comps)),
                    local_last(comps),
                )
            },
{
    let n = pre.inputs().len();
    let p = if !spec_is_url(path) {
        path
    } else {
        match url_parse(path) {
            Some(u) => match url_file_path(u) {
                Some(q) => q,
                None => path,
            },
            None => path,
        }
    };
    if spec_is_url(path) && !spec_is_file_url(path) {
        if let Some(u) = url_parse(path) {
            let j = match r {
                Ok(Some(j)) => j,
                _ => 0,
            };
            if pre.input_of((true, url_key(u))) is None {
                assert(post.inputs()[n as int].1 == PathView::Remote(u));
            }
        }
        assert(false);
    }
    lemma_local_shape(pre, post, r, kind, p);
    let comps = components(p);
    let j = choose|j: usize|
        insert_outcome(
            pre,
            post,
            j,
            (false, comps),
            kind,
            PathView::Local(p),
            local_last(comps),
        );
    lemma_outcome_input(pre, post, j, (false, comps), kind, PathView::Local(p), local_last(comps));
    assert(pre.input_of((false, comps)) is None);
    assert(comps[0] == seq!['/']);
    assert(post.node_keys().contains((false, comps)));
}

/// Inputs inserted one after another (`tries[i + 1]` is `tries[i]` after
/// inserting `paths[i]`) into a trie that had none get distinct guest paths
/// when they have local paths: two local inputs never share a guest path.
pub proof fn lemma_local_guest_paths_distinct(
    tries: Seq<InputTrie>,
    results: Seq<Result<Option<usize>, PathError>>,
    kinds: Seq<InputKind>,
    paths: Seq<Seq<char>>,
)
    requires
        tries.len() == paths.len() + 1,
        results.len() == paths.len(),
        kinds.len() == paths.len(),
        tries[0].inputs().len() == 0,
        forall|i: int| 0 <= i < tries.len() ==> (#[trigger] tries[i]).wf(),
        forall|i: int|
            0 <= i < paths.len() ==> #[trigger] inserted(
                tries[i],
                tries[i + 1],
                results[i],
                kinds[i],
                paths[i],
            ),
    ensures
        forall|a: int, b: int|
            0 <= a < b < tries.last().inputs().len() && (#[trigger] tries.last().inputs()[a]).1 is Local
                && (#[trigger] tries.last().inputs()[b]).1 is Local ==> tries.last().inputs()[a].2
                != tries.last().inputs()[b].2 || tries.last().guest_dir() is None,
{
    lemma_locals_keyed_along(tries, results, kinds, paths);
    let t = tries.last();
    assert(t.wf());
    assert forall|a: int, b: int|
        0 <= a < b < t.inputs().len() && (#[trigger] t.inputs()[a]).1 is Local
            && (#[trigger] t.inputs()[b]).1 is Local implies t.inputs()[a].2 != t.inputs()[b].2
        || t.guest_dir() is None by {
        if let Some(d) = t.guest_dir() {
            let ca = choose|comps: Seq<Seq<char>>|
                {
                    &&& #[trigger] t.node_keys().contains((false, comps))
                    &&& comps.len() >= 1
                    &&& comps[0] == seq!['/']
                    &&& t.input_of((false, comps)) matches Some(x) && x == a
                    &&& t.inputs()[a].2 == guest_of(
                        t.guest_dir(),
                        parent_id(t.node_keys(), (false, comps)),
                        local_last(comps),
                    )
                };
            let cb = choose|comps: Seq<Seq<char>>|
                {
                    &&& #[trigger] t.node_keys().contains((false, comps))
                    &&& comps.len() >= 1
                    &&& comps[0] == seq!['/']
                    &&& t.input_of((false, comps)) matches Some(x) && x == b
                    &&& t.inputs()[b].2 == guest_of(
                        t.guest_dir(),
                        parent_id(t.node_keys(), (false, comps)),
                        local_last(comps),
                    )
                };
            assert(ca != cb);
            reveal_strlit("/");
            assert("/"@ =~= seq!['/']);
            lemma_guest_paths_distinct(t, d, ca, cb);
        }
    }
}

/// Along a run of insertions into a trie that had no inputs, every local
/// input stays keyed by its node.
proof fn lemma_locals_keyed_along(
    tries: Seq<InputTrie>,
    results: Seq<Result<Option<usize>, PathError>>,
    kinds: Seq<InputKind>,
    paths: Seq<Seq<char>>,
)
    requires
        tries.len() == paths.len() + 1,
        results.len() == paths.len(),
        kinds.len() == paths.len(),
        tries[0].inputs().len() == 0,
        forall|i: int| 0 <= i < tries.len() ==> (#[trigger] tries[i]).wf(),
        forall|i: int|
            0 <= i < paths.len() ==> #[trigger] inserted(
                tries[i],
                tries[i + 1],
                results[i],
                kinds[i],
                paths[i],
            ),
    ensures
        locals_keyed(tries.last()),
    decreases paths.len(),
{
    if paths.len() > 0 {
        let n = paths.len() - 1;
        assert forall|i: int| 0 <= i < n + 1 implies (#[trigger] tries.drop_last()[i]).wf() by {
            assert(tries.drop_last()[i] == tries[i]);
        }
        assert forall|i: int| 0 <= i < n implies #[trigger] inserted(
            tries.drop_last()[i],
            tries.drop_last()[i + 1],
            results.drop_last()[i],
            kinds.drop_last()[i],
            paths.drop_last()[i],
        ) by {
            assert(inserted(tries[i], tries[i + 1], results[i], kinds[i], paths[i]));
        }
        lemma_locals_keyed_along(
            tries.drop_last(),
            results.drop_last(),
            kinds.drop_last(),
            paths.drop_last(),
        );
        assert(inserted(tries[n], tries[n + 1], results[n], kinds[n], paths[n]));
        assert(tries[n].wf() && tries[n + 1].wf());
        lemma_inserted_keeps_locals_keyed(tries[n], tries[n + 1], results[n], kinds[n], paths[n]);
    }
}

/// A trie made by [`InputTrie::new`] or [`InputTrie::default`] has no
/// inputs, so every one of its guest paths lies under its directory.
pub proof fn lemma_empty_guests_under(t: InputTrie)
    requires
        t.inputs().len() == 0,
    ensures
        guests_under(t),
{
}

/// A guest path under a directory spells one node number and one name.
pub proof fn lemma_guest_text_injective(d: Seq<char>, n1: nat, l1: Seq<char>, n2: nat, l2: Seq<char>)
    requires
        guest_text(d, n1, l1) == guest_text(d, n2, l2),
    ensures
        n1 == n2,
        l1 == l2,
{
    reveal_strlit("/");
    let sl = "/"@;
    assert(sl.len() == 1 && sl[0] == '/');
    let d1 = spec_decimal(n1);
    let d2 = spec_decimal(n2);
    lemma_decimal_digits(n1);
    lemma_decimal_digits(n2);
    let s1 = guest_text(d, n1, l1);
    let s2 = guest_text(d, n2, l2);
    let off: int = d.len() as int + 1;
    assert(s1 =~= d + sl + d1 + sl + l1);
    assert(s2 =~= d + sl + d2 + sl + l2);
    if d1.len() < d2.len() {
        assert(s1[off + d1.len() as int] == '/');
        assert(s2[off + d1.len() as int] == d2[d1.len() as int]);
    } else if d2.len() < d1.len() {
        assert(s2[off + d2.len() as int] == '/');
        assert(s1[off + d2.len() as int] == d1[d2.len() as int]);
    } else {
        assert(d1 =~= s1.subrange(off, off + d1.len() as int));
        assert(d2 =~= s2.subrange(off, off + d2.len() as int));
        lemma_decimal_injective(n1, n2);
        assert(l1 =~= s1.skip(off + d1.len() as int + 1));
        assert(l2 =~= s2.skip(off + d2.len() as int + 1));
    }
}

/// The name a local path's input keeps in its guest path: its last
/// component, or `.root` for the root.
pub open spec fn local_last(comps: Seq<Seq<char>>) -> Seq<char> {
    if comps.len() == 1 {
        ".root"@
    } else {
        comps.last()
    }
}

/// In a trie, two different absolute local paths (given by their
/// components, both nodes of the trie) get different guest paths: the node
/// number above them or their last names differ.
pub proof fn lemma_guest_paths_distinct(t: InputTrie, d: Seq<char>, a: Seq<Seq<char>>, b: Seq<Seq<char>>)
    requires
        t.wf(),
        t.node_keys().contains((false, a)),
        t.node_keys().contains((false, b)),
        a != b,
        a.len() >= 1 && a[0] == "/"@,
        b.len() >= 1 && b[0] == "/"@,
    ensures
        guest_text(d, parent_id(t.node_keys(), (false, a)), local_last(a)) != guest_text(
            d,
            parent_id(t.node_keys(), (false, b)),
            local_last(b),
        ),
{
    let keys = t.node_keys();
    lemma_trie_keys(t);
    let pa = parent_id(keys, (false, a));
    let pb = parent_id(keys, (false, b));
    if guest_text(d, pa, local_last(a)) == guest_text(d, pb, local_last(b)) {
        lemma_guest_text_injective(d, pa, local_last(a), pb, local_last(b));
        if a.len() == 1 && b.len() == 1 {
            assert(a =~= b);
        } else if a.len() == 1 || b.len() == 1 {
            let (long, short) = if a.len() == 1 { (b, a) } else { (a, b) };
            let i = choose|i: int| 0 <= i < keys.len() && keys[i] == (false, long);
            assert(keys[i].1.len() > 1);
            let j = choose|j: int| 0 <= j < i && keys[j] == (keys[i].0, keys[i].1.drop_last());
            lemma_key_index(keys, (false, long.drop_last()), j);
        } else {
            let i = choose|i: int| 0 <= i < keys.len() && keys[i] == (false, a);
            assert(keys[i].1.len() > 1);
            let ja = choose|j: int| 0 <= j < i && keys[j] == (keys[i].0, keys[i].1.drop_last());
            lemma_key_index(keys, (false, a.drop_last()), ja);
            let k = choose|k: int| 0 <= k < keys.len() && keys[k] == (false, b);
            assert(keys[k].1.len() > 1);
            let jb = choose|j: int| 0 <= j < k && keys[j] == (keys[k].0, keys[k].1.drop_last());
            lemma_key_index(keys, (false, b.drop_last()), jb);
            assert(ja == jb);
            assert(a.drop_last() == b.drop_last());
            assert(a =~= a.drop_last().push(a.last()));
            assert(b =~= b.drop_last().push(b.last()));
        }
    }
}

/// Two inputs whose keys have the same components above their last one get
/// the same parent identifier in their guest paths.
pub proof fn lemma_same_parent(keys: Seq<TrieKey>, a: TrieKey, b: TrieKey)
    requires
        a.0 == b.0,
        a.1.len() == b.1.len(),
        a.1.drop_last() == b.1.drop_last(),
    ensures
        parent_id(keys, a) == parent_id(keys, b),
{
}

/// A key with a component pushed below it.
proof fn lemma_key_push(k: Seq<Seq<char>>, c: Seq<char>, full: Seq<Seq<char>>)
    requires
        full.len() >= 1,
        full.drop_last() == k,
        full.last() == c,
    ensures
        full == k.push(c),
{
    assert(full =~= k.push(c));
}

/// In a sequence with no repeats, the position of an element is where it is.
pub proof fn lemma_key_index(keys: Seq<TrieKey>, k: TrieKey, i: int)
    requires
        0 <= i < keys.len(),
        keys[i] == k,
        forall|a: int, b: int| 0 <= a < keys.len() && 0 <= b < keys.len() && a != b ==> keys[a] != keys[b],
    ensures
        key_index(keys, k) == i,
    decreases keys.len(),
{
    if keys.last() != k {
        assert(keys.drop_last()[i] == k);
        lemma_key_index(keys.drop_last(), k, i);
    }
}

/// A key that does not occur has no position.
pub proof fn lemma_key_index_absent(keys: Seq<TrieKey>, k: TrieKey)
    requires
        !keys.contains(k),
    ensures
        key_index(keys, k) == -1,
    decreases keys.len(),
{
    if keys.len() > 0 {
        assert(keys.last() == keys[keys.len() - 1]);
        assert forall|i: int| 0 <= i < keys.drop_last().len() implies keys.drop_last()[i] != k by {
            assert(keys[i] != k);
        }
        lemma_key_index_absent(keys.drop_last(), k);
    }
}

/// The known depth of a prefix: when the prefix of length `d + 1` is not a
/// key, it adds one key to those added for the prefix of length `d`.
proof fn lemma_added_step(keys: Seq<TrieKey>, ns: bool, comps: Seq<Seq<char>>, d: int)
    requires
        0 <= d < comps.len(),
        !keys.contains((ns, comps.take(d + 1))),
    ensures
        added_keys(keys, ns, comps.take(d + 1)) == added_keys(keys, ns, comps.take(d)).push(
            (ns, comps.take(d + 1)),
        ),
{
    assert(comps.take(d + 1).drop_last() =~= comps.take(d));
    lemma_known_depth_le(keys, ns, comps.take(d));
    let m = known_depth(keys, ns, comps.take(d));
    assert(known_depth(keys, ns, comps.take(d + 1)) == m);
    assert forall|t: int| 0 <= t < d - m implies #[trigger] added_keys(keys, ns, comps.take(d + 1))[t]
        == added_keys(keys, ns, comps.take(d))[t] by {
        assert(comps.take(d + 1).take(m + 1 + t) =~= comps.take(d).take(m + 1 + t));
    }
    assert(comps.take(d + 1).take(m + 1 + (d - m)) =~= comps.take(d + 1));
    assert(added_keys(keys, ns, comps.take(d + 1)) =~= added_keys(keys, ns, comps.take(d)).push(
        (ns, comps.take(d + 1)),
    ));
}

/// The known depth never exceeds the number of components.
proof fn lemma_known_depth_le(keys: Seq<TrieKey>, ns: bool, comps: Seq<Seq<char>>)
    ensures
        known_depth(keys, ns, comps) <= comps.len(),
    decreases comps.len(),
{
    if comps.len() > 0 && !keys.contains((ns, comps)) {
        lemma_known_depth_le(keys, ns, comps.drop_last());
    }
}

/// A prefix that is already a key adds nothing.
proof fn lemma_added_known(keys: Seq<TrieKey>, ns: bool, comps: Seq<Seq<char>>)
    requires
        comps.len() == 0 || keys.contains((ns, comps)),
    ensures
        added_keys(keys, ns, comps).len() == 0,
{
    assert(added_keys(keys, ns, comps) =~= Seq::<TrieKey>::empty());
}

/// Return codes given as an array accept an exit whose code is any integer
/// of the array, wherever it stands in it, and refuse an exit whose code is
/// none of them ([`EvaluatedTask::handle_exit`] returns `Ok` exactly when
/// the exit is accepted).
pub proof fn lemma_array_codes_accept_any_element(code: i32, t: crate::engine::types::TypeView, es: Seq<ValueView>)
    ensures
        forall|i: int|
            0 <= i < es.len() && (#[trigger] es[i] matches ValueView::Integer(n) && code_of(n)
                == code) ==> exit_error(code, Some(ValueView::Array(t, es))) == Some(false),
        (forall|i: int|
            0 <= i < es.len() ==> !(#[trigger] es[i] matches ValueView::Integer(n) && code_of(n)
                == code)) ==> exit_error(code, Some(ValueView::Array(t, es))) == Some(true),
{
}

/// Adding return codes to an array never turns an accepted exit into a
/// refused one, whether they go before or after the codes already there.
pub proof fn lemma_array_codes_grow(code: i32, t: crate::engine::types::TypeView, es: Seq<ValueView>, more: Seq<ValueView>)
    requires
        exit_error(code, Some(ValueView::Array(t, es))) == Some(false),
    ensures
        exit_error(code, Some(ValueView::Array(t, es + more))) == Some(false),
        exit_error(code, Some(ValueView::Array(t, more + es))) == Some(false),
{
    let i = choose|i: int|
        0 <= i < es.len() && (#[trigger] es[i] matches ValueView::Integer(n) && code_of(n) == code);
    assert((es + more)[i] == es[i]);
    assert((more + es)[more.len() + i] == es[i]);
}

} // verus!
