//! Task and workflow inputs, checked against what the analyzed document
//! declares.
//!
//! The declarations are read from signatures: a task's inputs, a workflow's
//! inputs and calls, and the types that the document's WDL version allows
//! for each requirement and hint.
use vstd::prelude::*;

use crate::engine::json::{json_parse, json_to_value, json_value, parse_json, Json};
use crate::engine::types::{coercible, Type, TypeView};
use crate::engine::value::{value_type, Value, ValueView};
use crate::text::{chars_of, push_char};

verus! {

/// The first index of an entry keyed `k`.
pub open spec fn key_pos<V>(s: Seq<(Seq<char>, V)>, k: Seq<char>) -> Option<int>
    decreases s.len(),
{
    if s.len() == 0 {
        None
    } else {
        match key_pos(s.drop_last(), k) {
            Some(i) => Some(i),
            None => if s.last().0 == k {
                Some(s.len() - 1)
            } else {
                None
            },
        }
    }
}

/// The index found by [`key_pos`] holds the key and no earlier entry does;
/// when none is found, no entry does.
pub proof fn lemma_key_pos<V>(s: Seq<(Seq<char>, V)>, k: Seq<char>)
    ensures
        match key_pos(s, k) {
            Some(i) => 0 <= i < s.len() && s[i].0 == k && forall|j: int|
                0 <= j < i ==> #[trigger] s[j].0 != k,
            None => forall|j: int| 0 <= j < s.len() ==> #[trigger] s[j].0 != k,
        },
    decreases s.len(),
{
    if s.len() > 0 {
        let init = s.drop_last();
        lemma_key_pos(init, k);
        match key_pos(init, k) {
            Some(i) => {
                assert forall|j: int| 0 <= j < i implies #[trigger] s[j].0 != k by {
                    assert(init[j] == s[j]);
                }
            },
            None => {
                assert forall|j: int| 0 <= j < s.len() - 1 implies #[trigger] s[j].0 != k by {
                    assert(init[j] == s[j]);
                }
            },
        }
    }
}

/// The value of the entry keyed `k`.
pub open spec fn map_get<V>(s: Seq<(Seq<char>, V)>, k: Seq<char>) -> Option<V> {
    match key_pos(s, k) {
        Some(i) => Some(s[i].1),
        None => None,
    }
}

/// The entries after setting `k` to `v`: the entry keyed `k` gets the new
/// value in place, or a new entry goes last.
pub open spec fn map_set<V>(s: Seq<(Seq<char>, V)>, k: Seq<char>, v: V) -> Seq<(Seq<char>, V)> {
    match key_pos(s, k) {
        Some(i) => s.update(i, (k, v)),
        None => s.push((k, v)),
    }
}

/// Reading a key after setting it gives the value set; reading any other
/// key gives what it gave before.
pub proof fn lemma_get_after_set<V>(s: Seq<(Seq<char>, V)>, k: Seq<char>, v: V, k2: Seq<char>)
    ensures
        map_get(map_set(s, k, v), k2) == (if k2 == k {
            Some(v)
        } else {
            map_get(s, k2)
        }),
{
    let t = map_set(s, k, v);
    lemma_key_pos(s, k);
    lemma_key_pos(s, k2);
    lemma_key_pos(t, k2);
    match key_pos(s, k) {
        Some(i) => {
            assert(t.len() == s.len());
            match key_pos(t, k2) {
                Some(j) => {
                    if k2 == k {
                        if j < i {
                            assert(t[j] == s[j]);
                        } else if j > i {
                            assert(t[i].0 == k);
                        }
                    } else {
                        assert(j != i);
                        assert(t[j] == s[j]);
                        match key_pos(s, k2) {
                            Some(j2) => {
                                if j2 < j {
                                    assert(t[j2] == s[j2]);
                                } else if j2 > j {
                                    assert(s[j].0 == k2);
                                }
                            },
                            None => {
                                assert(s[j].0 == k2);
                            },
                        }
                    }
                },
                None => {
                    if k2 == k {
                        assert(t[i].0 == k);
                    } else {
                        match key_pos(s, k2) {
                            Some(j2) => {
                                assert(t[j2] == s[j2]);
                            },
                            None => {},
                        }
                    }
                },
            }
        },
        None => {
            assert(t.len() == s.len() + 1);
            match key_pos(t, k2) {
                Some(j) => {
                    if j < s.len() {
                        assert(t[j] == s[j]);
                        if k2 == k {
                            assert(s[j].0 == k);
                        } else {
                            match key_pos(s, k2) {
                                Some(j2) => {
                                    if j2 < j {
                                        assert(t[j2] == s[j2]);
                                    } else if j2 > j {
                                        assert(s[j].0 == k2);
                                    }
                                },
                                None => {
                                    assert(s[j].0 == k2);
                                },
                            }
                        }
                    } else {
                        assert(t[j] == (k, v));
                        match key_pos(s, k2) {
                            Some(j2) => {
                                assert(t[j2] == s[j2]);
                            },
                            None => {},
                        }
                    }
                },
                None => {
                    assert(t[s.len() as int] == (k, v));
                    match key_pos(s, k2) {
                        Some(j2) => {
                            assert(t[j2] == s[j2]);
                        },
                        None => {},
                    }
                },
            }
        },
    }
}

/// Entries of names and values, taken by their views.
pub open spec fn entries(s: Seq<(String, Value)>) -> Seq<(Seq<char>, ValueView)> {
    s.map_values(|e: (String, Value)| (e.0@, e.1@))
}

/// Entries of names and types, taken by their views.
pub open spec fn type_entries(s: Seq<(String, Vec<Type>)>) -> Seq<(Seq<char>, Seq<TypeView>)> {
    s.map_values(|e: (String, Vec<Type>)| (e.0@, e.1@.map_values(|t: Type| t@)))
}

/// Finds the first entry of `s` keyed `k`.
fn find_key<V>(s: &[(String, V)], k: &str) -> (r: Option<usize>)
    ensures
        match r {
            Some(i) => i < s@.len() && s@[i as int].0@ == k@ && forall|j: int|
                0 <= j < i ==> #[trigger] s@[j].0@ != k@,
            None => forall|j: int| 0 <= j < s@.len() ==> #[trigger] s@[j].0@ != k@,
        },
{
    let key = k.to_owned();
    let mut i: usize = 0;
    while i < s.len()
        invariant
            i <= s@.len(),
            key@ == k@,
            forall|j: int| 0 <= j < i ==> #[trigger] s@[j].0@ != k@,
        decreases s@.len() - i,
    {
        if s[i].0 == key {
            return Some(i);
        }
        i = i + 1;
    }
    None
}

/// The position [`find_key`] finds is the one of [`key_pos`] on the views.
proof fn lemma_find_key_pos<V, W>(s: Seq<(String, V)>, v: Seq<(Seq<char>, W)>, k: Seq<char>)
    requires
        v.len() == s.len(),
        forall|j: int| 0 <= j < s.len() ==> #[trigger] v[j].0 == s[j].0@,
    ensures
        match key_pos(v, k) {
            Some(i) => 0 <= i < s.len() && s[i].0@ == k && forall|j: int|
                0 <= j < i ==> #[trigger] s[j].0@ != k,
            None => forall|j: int| 0 <= j < s.len() ==> #[trigger] s[j].0@ != k,
        },
{
    lemma_key_pos(v, k);
    match key_pos(v, k) {
        Some(i) => {
            assert(v[i].0 == s[i].0@);
            assert forall|j: int| 0 <= j < i implies #[trigger] s[j].0@ != k by {
                assert(v[j].0 == s[j].0@);
            }
        },
        None => {
            assert forall|j: int| 0 <= j < s.len() implies #[trigger] s[j].0@ != k by {
                assert(v[j].0 == s[j].0@);
            }
        },
    }
}

/// Sets `k` to `v` in `s`: in place when `k` is there, else last.
fn set_entry(s: &mut Vec<(String, Value)>, k: String, v: Value)
    ensures
        entries(final(s)@) == map_set(entries(old(s)@), k@, v@),
{
    proof {
        lemma_find_key_pos(old(s)@, entries(old(s)@), k@);
    }
    match find_key(s.as_slice(), k.as_str()) {
        Some(i) => {
            proof {
                lemma_key_pos(entries(old(s)@), k@);
            }
            let ghost kv = k@;
            let ghost vv = v@;
            s.set(i, (k, v));
            assert(entries(s@) =~= entries(old(s)@).update(i as int, (kv, vv)));
        },
        None => {
            let ghost kv = k@;
            let ghost vv = v@;
            s.push((k, v));
            assert(entries(s@) =~= entries(old(s)@).push((kv, vv)));
        },
    }
}

/// The index of the first `.` in `s`.
pub open spec fn dot_index(s: Seq<char>) -> Option<int>
    decreases s.len(),
{
    if s.len() == 0 {
        None
    } else {
        match dot_index(s.drop_last()) {
            Some(i) => Some(i),
            None => if s.last() == '.' {
                Some(s.len() - 1)
            } else {
                None
            },
        }
    }
}

/// `s` split at its first `.`: the part before and the part after.
pub open spec fn split_dot(s: Seq<char>) -> Option<(Seq<char>, Seq<char>)> {
    match dot_index(s) {
        Some(i) => Some((s.take(i), s.skip(i + 1))),
        None => None,
    }
}

/// The index found by [`dot_index`] holds a `.` and no earlier one does;
/// when none is found, there is no `.`.
pub proof fn lemma_dot_index(s: Seq<char>)
    ensures
        match dot_index(s) {
            Some(i) => 0 <= i < s.len() && s[i] == '.' && forall|j: int|
                0 <= j < i ==> #[trigger] s[j] != '.',
            None => forall|j: int| 0 <= j < s.len() ==> #[trigger] s[j] != '.',
        },
    decreases s.len(),
{
    if s.len() > 0 {
        let init = s.drop_last();
        lemma_dot_index(init);
        match dot_index(init) {
            Some(i) => {
                assert forall|j: int| 0 <= j < i implies #[trigger] s[j] != '.' by {
                    assert(init[j] == s[j]);
                }
            },
            None => {
                assert forall|j: int| 0 <= j < s.len() - 1 implies #[trigger] s[j] != '.' by {
                    assert(init[j] == s[j]);
                }
            },
        }
    }
}

/// The characters `chars[lo..hi]` as a string.
fn string_between(chars: &Vec<char>, lo: usize, hi: usize) -> (s: String)
    requires
        lo <= hi <= chars@.len(),
    ensures
        s@ == chars@.subrange(lo as int, hi as int),
{
    let mut s = String::new();
    let mut i = lo;
    while i < hi
        invariant
            lo <= i <= hi <= chars@.len(),
            s@ == chars@.subrange(lo as int, i as int),
        decreases hi - i,
    {
        push_char(&mut s, chars[i]);
        assert(s@ =~= chars@.subrange(lo as int, i + 1));
        i = i + 1;
    }
    s
}

/// Splits `path` at its first `.`.
fn split_path(path: &str) -> (r: Option<(String, String)>)
    ensures
        match split_dot(path@) {
            Some((a, b)) => r matches Some((x, y)) && x@ == a && y@ == b,
            None => r is None,
        },
{
    let chars = chars_of(path);
    proof {
        lemma_dot_index(path@);
    }
    let mut i: usize = 0;
    while i < chars.len()
        invariant
            i <= chars@.len(),
            chars@ == path@,
            forall|j: int| 0 <= j < i ==> #[trigger] chars@[j] != '.',
        decreases chars@.len() - i,
    {
        if chars[i] == '.' {
            proof {
                lemma_dot_index(path@);
                match dot_index(path@) {
                    Some(d) => {
                        if d < i {
                            assert(chars@[d] != '.');
                        } else if d > i {
                            assert(path@[i as int] != '.');
                        }
                        assert(d == i);
                    },
                    None => {
                        assert(path@[i as int] != '.');
                    },
                }
            }
            let key = string_between(&chars, 0, i);
            let rest = string_between(&chars, i + 1, chars.len());
            assert(chars@.subrange(0, i as int) =~= path@.take(i as int));
            assert(chars@.subrange(i + 1, chars@.len() as int) =~= path@.skip(i + 1));
            return Some((key, rest));
        }
        i = i + 1;
    }
    None
}

/// The first `Some` that `f` gives over `s`, in order.
pub open spec fn first_some<A, B>(s: Seq<A>, f: spec_fn(A) -> Option<B>) -> Option<B>
    decreases s.len(),
{
    if s.len() == 0 {
        None
    } else {
        match first_some(s.drop_last(), f) {
            Some(b) => Some(b),
            None => f(s.last()),
        }
    }
}

/// Extending `s` by one element extends [`first_some`] by that element.
proof fn lemma_first_some_push<A, B>(s: Seq<A>, a: A, f: spec_fn(A) -> Option<B>)
    ensures
        first_some(s.push(a), f) == match first_some(s, f) {
            Some(b) => Some(b),
            None => f(a),
        },
{
    assert(s.push(a).drop_last() =~= s);
}

/// An input declared by a task or workflow.
#[derive(Debug)]
pub struct InputSpec {
    /// The name of the input.
    pub name: String,
    /// The declared type of the input.
    pub ty: Type,
    /// Whether the input must be given.
    pub required: bool,
}

/// What checking inputs reads of a task: its name and its inputs.
#[derive(Debug)]
pub struct TaskSignature {
    /// The name of the task.
    pub name: String,
    /// The inputs of the task.
    pub inputs: Vec<InputSpec>,
}

/// What the WDL version of a document allows: whether the document has a
/// version at all, and the types allowed for each requirement and hint.
#[derive(Debug)]
pub struct VersionRules {
    /// Whether the document declares a version.
    pub has_version: bool,
    /// The types allowed for each requirement.
    pub requirement_types: Vec<(String, Vec<Type>)>,
    /// The types allowed for each hint.
    pub hint_types: Vec<(String, Vec<Type>)>,
}

/// Declared inputs as entries of names, types and whether they are required.
pub open spec fn spec_entries(s: Seq<InputSpec>) -> Seq<(Seq<char>, (TypeView, bool))> {
    s.map_values(|i: InputSpec| (i.name@, (i.ty@, i.required)))
}

/// Why inputs were refused.
#[derive(Debug)]
pub enum InputError {
    /// The document declares no version.
    MissingVersion,
    /// An input that the task or workflow does not declare.
    UnknownInput(String),
    /// An input whose value's type does not coerce to the declared type.
    InputType {
        /// The input.
        name: String,
        /// The declared type.
        expected: Type,
        /// The type of the value.
        found: Type,
    },
    /// A required input that was not given.
    MissingInput(String),
    /// A requirement whose value's type coerces to none of the allowed types.
    RequirementType {
        /// The requirement.
        name: String,
        /// The allowed types.
        expected: Vec<Type>,
        /// The type of the value.
        found: Type,
    },
    /// A requirement that the document's version does not know.
    UnsupportedRequirement(String),
    /// A hint whose value's type coerces to none of the allowed types.
    HintType {
        /// The hint.
        name: String,
        /// The allowed types.
        expected: Vec<Type>,
        /// The type of the value.
        found: Type,
    },
    /// A dotted key that names nothing the task or workflow has.
    NoSuchInput {
        /// The task or workflow.
        owner: String,
        /// The key.
        path: String,
    },
    /// A `requirements.` key that the document's version does not know.
    UnsupportedKey {
        /// The part before the dot.
        key: String,
        /// The part after the dot.
        name: String,
    },
    /// A requirement or hint key whose value's type coerces to none of the
    /// allowed types.
    KeyType {
        /// The part before the dot.
        key: String,
        /// The part after the dot.
        name: String,
        /// The allowed types.
        expected: Vec<Type>,
        /// The type of the value.
        found: Type,
    },
    /// Nested call inputs for a workflow that does not allow them.
    NestedInputsNotAllowed(String),
    /// A dotted key that names no call of the workflow.
    NoSuchCall {
        /// The workflow.
        workflow: String,
        /// The call.
        name: String,
    },
    /// Nested inputs for a call that the workflow does not have.
    UnknownCall(String),
    /// Workflow inputs given for a call to a task.
    TaskInputsExpected(String),
    /// Task inputs given for a call to a workflow.
    WorkflowInputsExpected(String),
    /// A nested input that the call statement already gives.
    SpecifiedNestedInput {
        /// The input.
        input: String,
        /// The call.
        call: String,
    },
    /// A required input of a call that was given nowhere.
    MissingCallInput {
        /// The input.
        input: String,
        /// The call.
        call: String,
    },
    /// An inputs key that does not start with the name of a task or
    /// workflow and a dot.
    InvalidKey(String),
    /// An inputs key whose prefix names no task or workflow of the document.
    UnknownTarget {
        /// The key.
        key: String,
        /// The name it starts with.
        name: String,
    },
    /// An inputs key that does not start with the name of the task or
    /// workflow that the first key named.
    WrongPrefix {
        /// The key.
        key: String,
        /// The expected prefix.
        expected: String,
    },
    /// An inputs text that is not JSON.
    InvalidJson,
    /// An inputs text whose JSON is not an object.
    NotAnObject,
    /// An inputs key whose JSON value has no WDL value.
    InvalidValue(String),
    /// An inputs key whose value could not be set.
    AtKey {
        /// The key.
        key: String,
        /// Why the value could not be set.
        error: Box<InputError>,
    },
}

/// An [`InputError`] with its texts and types taken as values.
pub enum InputErrorView {
    MissingVersion,
    UnknownInput(Seq<char>),
    InputType(Seq<char>, TypeView, TypeView),
    MissingInput(Seq<char>),
    RequirementType(Seq<char>, Seq<TypeView>, TypeView),
    UnsupportedRequirement(Seq<char>),
    HintType(Seq<char>, Seq<TypeView>, TypeView),
    NoSuchInput(Seq<char>, Seq<char>),
    UnsupportedKey(Seq<char>, Seq<char>),
    KeyType(Seq<char>, Seq<char>, Seq<TypeView>, TypeView),
    NestedInputsNotAllowed(Seq<char>),
    NoSuchCall(Seq<char>, Seq<char>),
    UnknownCall(Seq<char>),
    TaskInputsExpected(Seq<char>),
    WorkflowInputsExpected(Seq<char>),
    SpecifiedNestedInput(Seq<char>, Seq<char>),
    MissingCallInput(Seq<char>, Seq<char>),
    InvalidKey(Seq<char>),
    UnknownTarget(Seq<char>, Seq<char>),
    WrongPrefix(Seq<char>, Seq<char>),
    InvalidJson,
    NotAnObject,
    InvalidValue(Seq<char>),
    AtKey(Seq<char>, Box<InputErrorView>),
}

/// The views of a list of types.
pub open spec fn types_view(ts: Seq<Type>) -> Seq<TypeView> {
    ts.map_values(|t: Type| t@)
}

/// The view of an [`InputError`].
pub open spec fn error_view(e: InputError) -> InputErrorView
    decreases e,
{
        match e {
            InputError::MissingVersion => InputErrorView::MissingVersion,
            InputError::UnknownInput(n) => InputErrorView::UnknownInput(n@),
            InputError::InputType { name, expected, found } => InputErrorView::InputType(
                name@,
                expected@,
                found@,
            ),
            InputError::MissingInput(n) => InputErrorView::MissingInput(n@),
            InputError::RequirementType { name, expected, found } =>
                InputErrorView::RequirementType(name@, types_view(expected@), found@),
            InputError::UnsupportedRequirement(n) => InputErrorView::UnsupportedRequirement(n@),
            InputError::HintType { name, expected, found } => InputErrorView::HintType(
                name@,
                types_view(expected@),
                found@,
            ),
            InputError::NoSuchInput { owner, path } => InputErrorView::NoSuchInput(owner@, path@),
            InputError::UnsupportedKey { key, name } => InputErrorView::UnsupportedKey(key@, name@),
            InputError::KeyType { key, name, expected, found } => InputErrorView::KeyType(
                key@,
                name@,
                types_view(expected@),
                found@,
            ),
            InputError::NestedInputsNotAllowed(w) => InputErrorView::NestedInputsNotAllowed(w@),
            InputError::NoSuchCall { workflow, name } => InputErrorView::NoSuchCall(
                workflow@,
                name@,
            ),
            InputError::UnknownCall(n) => InputErrorView::UnknownCall(n@),
            InputError::TaskInputsExpected(n) => InputErrorView::TaskInputsExpected(n@),
            InputError::WorkflowInputsExpected(n) => InputErrorView::WorkflowInputsExpected(n@),
            InputError::SpecifiedNestedInput { input, call } =>
                InputErrorView::SpecifiedNestedInput(input@, call@),
            InputError::MissingCallInput { input, call } => InputErrorView::MissingCallInput(
                input@,
                call@,
            ),
            InputError::InvalidKey(k) => InputErrorView::InvalidKey(k@),
            InputError::UnknownTarget { key, name } => InputErrorView::UnknownTarget(key@, name@),
            InputError::WrongPrefix { key, expected } => InputErrorView::WrongPrefix(
                key@,
                expected@,
            ),
            InputError::InvalidJson => InputErrorView::InvalidJson,
            InputError::NotAnObject => InputErrorView::NotAnObject,
            InputError::InvalidValue(k) => InputErrorView::InvalidValue(k@),
            InputError::AtKey { key, error } => InputErrorView::AtKey(
                key@,
                Box::new(error_view(*error)),
            ),
        }
}

impl View for InputError {
    type V = InputErrorView;

    open spec fn view(&self) -> InputErrorView {
        error_view(*self)
    }
}

/// Whether the type `t` coerces to one of `targets`.
pub open spec fn coerces_to_any(t: TypeView, targets: Seq<TypeView>) -> bool {
    exists|i: int| 0 <= i < targets.len() && coercible(t, #[trigger] targets[i])
}

/// What is wrong with an input given as `value`, if anything: it is not
/// declared, or its value's type does not coerce to the declared type.
pub open spec fn input_problem(
    name: Seq<char>,
    value: ValueView,
    specs: Seq<(Seq<char>, (TypeView, bool))>,
) -> Option<InputErrorView> {
    match map_get(specs, name) {
        None => Some(InputErrorView::UnknownInput(name)),
        Some((t, _)) => if coercible(value_type(value), t) {
            None
        } else {
            Some(InputErrorView::InputType(name, t, value_type(value)))
        },
    }
}

/// The declared input `spec` is required and missing from `given`.
pub open spec fn missing_problem(
    spec: (Seq<char>, (TypeView, bool)),
    given: Seq<(Seq<char>, ValueView)>,
) -> Option<InputErrorView> {
    if spec.1.1 && map_get(given, spec.0) is None {
        Some(InputErrorView::MissingInput(spec.0))
    } else {
        None
    }
}

/// What is wrong with a requirement given as `value`, if anything: the
/// version does not know it, or its value's type coerces to none of the
/// allowed types.
pub open spec fn requirement_problem(
    name: Seq<char>,
    value: ValueView,
    table: Seq<(Seq<char>, Seq<TypeView>)>,
) -> Option<InputErrorView> {
    match map_get(table, name) {
        Some(ts) => if coerces_to_any(value_type(value), ts) {
            None
        } else {
            Some(InputErrorView::RequirementType(name, ts, value_type(value)))
        },
        None => Some(InputErrorView::UnsupportedRequirement(name)),
    }
}

/// What is wrong with a hint given as `value`, if anything: its value's
/// type coerces to none of the types allowed for a known hint.
pub open spec fn hint_problem(
    name: Seq<char>,
    value: ValueView,
    table: Seq<(Seq<char>, Seq<TypeView>)>,
) -> Option<InputErrorView> {
    match map_get(table, name) {
        Some(ts) => if coerces_to_any(value_type(value), ts) {
            None
        } else {
            Some(InputErrorView::HintType(name, ts, value_type(value)))
        },
        None => None,
    }
}

/// [`input_problem`] against the declared inputs `specs`.
pub open spec fn input_check(specs: Seq<(Seq<char>, (TypeView, bool))>) -> spec_fn(
    (Seq<char>, ValueView),
) -> Option<InputErrorView> {
    |e: (Seq<char>, ValueView)| input_problem(e.0, e.1, specs)
}

/// [`missing_problem`] against the given inputs `given`.
pub open spec fn missing_check(given: Seq<(Seq<char>, ValueView)>) -> spec_fn(
    (Seq<char>, (TypeView, bool)),
) -> Option<InputErrorView> {
    |s: (Seq<char>, (TypeView, bool))| missing_problem(s, given)
}

/// [`requirement_problem`] against the table `table`.
pub open spec fn requirement_check(table: Seq<(Seq<char>, Seq<TypeView>)>) -> spec_fn(
    (Seq<char>, ValueView),
) -> Option<InputErrorView> {
    |e: (Seq<char>, ValueView)| requirement_problem(e.0, e.1, table)
}

/// [`hint_problem`] against the table `table`.
pub open spec fn hint_check(table: Seq<(Seq<char>, Seq<TypeView>)>) -> spec_fn(
    (Seq<char>, ValueView),
) -> Option<InputErrorView> {
    |e: (Seq<char>, ValueView)| hint_problem(e.0, e.1, table)
}

/// The first of two possible problems.
pub open spec fn or_else(a: Option<InputErrorView>, b: Option<InputErrorView>) -> Option<
    InputErrorView,
> {
    match a {
        Some(p) => Some(p),
        None => b,
    }
}

/// The first problem with the task inputs `inputs`, requirements `reqs`
/// and hints `hints`: a missing version, then each input in order, then each
/// missing required input in declaration order, then each requirement, then
/// each hint.
pub open spec fn task_problem(
    inputs: Seq<(Seq<char>, ValueView)>,
    reqs: Seq<(Seq<char>, ValueView)>,
    hints: Seq<(Seq<char>, ValueView)>,
    has_version: bool,
    specs: Seq<(Seq<char>, (TypeView, bool))>,
    req_table: Seq<(Seq<char>, Seq<TypeView>)>,
    hint_table: Seq<(Seq<char>, Seq<TypeView>)>,
) -> Option<InputErrorView> {
    if !has_version {
        Some(InputErrorView::MissingVersion)
    } else {
        or_else(
            first_some(inputs, input_check(specs)),
            or_else(
                first_some(specs, missing_check(inputs)),
                or_else(
                    first_some(reqs, requirement_check(req_table)),
                    first_some(hints, hint_check(hint_table)),
                ),
            ),
        )
    }
}

/// Once a prefix of `s` has a problem, so has `s`: the same one.
proof fn lemma_first_some_prefix<A, B>(s: Seq<A>, k: int, f: spec_fn(A) -> Option<B>)
    requires
        0 <= k <= s.len(),
        first_some(s.take(k), f) is Some,
    ensures
        first_some(s, f) == first_some(s.take(k), f),
    decreases s.len() - k,
{
    if k < s.len() {
        assert(s.drop_last().take(k) =~= s.take(k));
        lemma_first_some_prefix(s.drop_last(), k, f);
    } else {
        assert(s.take(k) =~= s);
    }
}

/// One more element of `s` extends the prefix by it.
proof fn lemma_first_some_step<A, B>(s: Seq<A>, i: int, f: spec_fn(A) -> Option<B>)
    requires
        0 <= i < s.len(),
    ensures
        first_some(s.take(i + 1), f) == match first_some(s.take(i), f) {
            Some(b) => Some(b),
            None => f(s[i]),
        },
{
    assert(s.take(i + 1) =~= s.take(i).push(s[i]));
    lemma_first_some_push(s.take(i), s[i], f);
}

/// Clones a list of types.
fn clone_types(ts: &Vec<Type>) -> (r: Vec<Type>)
    ensures
        types_view(r@) == types_view(ts@),
{
    let mut r: Vec<Type> = Vec::new();
    let mut i: usize = 0;
    while i < ts.len()
        invariant
            i <= ts@.len(),
            r@.len() == i,
            forall|j: int| 0 <= j < i ==> #[trigger] r@[j]@ == ts@[j]@,
        decreases ts@.len() - i,
    {
        let c = ts[i].clone();
        r.push(c);
        i = i + 1;
    }
    assert(types_view(r@) =~= types_view(ts@));
    r
}

/// Whether the type `t` coerces to one of `targets`.
fn coerces_to_one(t: &Type, targets: &Vec<Type>) -> (b: bool)
    ensures
        b == coerces_to_any(t@, types_view(targets@)),
{
    let mut i: usize = 0;
    while i < targets.len()
        invariant
            i <= targets@.len(),
            forall|j: int| 0 <= j < i ==> !coercible(t@, #[trigger] types_view(targets@)[j]),
        decreases targets@.len() - i,
    {
        if t.is_coercible_to(&targets[i]) {
            assert(coercible(t@, types_view(targets@)[i as int]));
            return true;
        }
        i = i + 1;
    }
    false
}

/// Finds the declared input named `name`.
fn find_spec(specs: &Vec<InputSpec>, name: &str) -> (r: Option<usize>)
    ensures
        match r {
            Some(i) => key_pos(spec_entries(specs@), name@) == Some(i as int),
            None => key_pos(spec_entries(specs@), name@) is None,
        },
{
    proof {
        lemma_key_pos(spec_entries(specs@), name@);
    }
    let key = name.to_owned();
    let mut i: usize = 0;
    while i < specs.len()
        invariant
            i <= specs@.len(),
            key@ == name@,
            forall|j: int| 0 <= j < i ==> #[trigger] specs@[j].name@ != name@,
        decreases specs@.len() - i,
    {
        if specs[i].name == key {
            proof {
                lemma_key_pos(spec_entries(specs@), name@);
                let p = key_pos(spec_entries(specs@), name@);
                assert(spec_entries(specs@)[i as int].0 == name@);
                if let Some(d) = p {
                    if d < i {
                        assert(spec_entries(specs@)[d].0 == specs@[d].name@);
                    }
                    if d > i {
                        assert(spec_entries(specs@)[i as int].0 != name@);
                    }
                }
            }
            return Some(i);
        }
        i = i + 1;
    }
    proof {
        if let Some(d) = key_pos(spec_entries(specs@), name@) {
            assert(spec_entries(specs@)[d].0 == specs@[d].name@);
        }
    }
    None
}

/// Finds the allowed types of the entry named `name` in a table.
fn find_types(table: &Vec<(String, Vec<Type>)>, name: &str) -> (r: Option<usize>)
    ensures
        match r {
            Some(i) => key_pos(type_entries(table@), name@) == Some(i as int),
            None => key_pos(type_entries(table@), name@) is None,
        },
{
    proof {
        lemma_find_key_pos(table@, type_entries(table@), name@);
        lemma_key_pos(type_entries(table@), name@);
    }
    let r = find_key(table.as_slice(), name);
    proof {
        match key_pos(type_entries(table@), name@) {
            Some(d) => {
                if let Some(i) = r {
                    if (i as int) < d {
                        assert(type_entries(table@)[i as int].0 == table@[i as int].0@);
                    }
                }
            },
            None => {},
        }
    }
    r
}

/// Which requirement or hint table a dotted key `key.name` reads, with the
/// allowed types: `runtime` reads the requirements, then the hints;
/// `requirements` and `hints` read their own. `true` marks a requirement.
pub open spec fn key_match(
    key: Seq<char>,
    name: Seq<char>,
    req_table: Seq<(Seq<char>, Seq<TypeView>)>,
    hint_table: Seq<(Seq<char>, Seq<TypeView>)>,
) -> Option<(bool, Seq<TypeView>)> {
    let req = match map_get(req_table, name) {
        Some(t) => Some((true, t)),
        None => None,
    };
    let hint = match map_get(hint_table, name) {
        Some(t) => Some((false, t)),
        None => None,
    };
    if key == "runtime"@ {
        match req {
            Some(r) => Some(r),
            None => hint,
        }
    } else if key == "requirements"@ {
        req
    } else {
        hint
    }
}

/// The effect of [`TaskInputs::set_path_value`] on the inputs, requirements
/// and hints of a task named `task`, or the error. A key without a dot names
/// an input, which must be declared and take the value's type; a key
/// `runtime.x`, `requirements.x` or `hints.x` sets requirement or hint `x`
/// when its table knows it and the value's type coerces to an allowed type.
/// An unknown `requirements.x` is an error; an unknown `runtime.x` or
/// `hints.x` changes nothing.
pub open spec fn task_set_path(
    inputs: Seq<(Seq<char>, ValueView)>,
    reqs: Seq<(Seq<char>, ValueView)>,
    hints: Seq<(Seq<char>, ValueView)>,
    task: Seq<char>,
    specs: Seq<(Seq<char>, (TypeView, bool))>,
    req_table: Seq<(Seq<char>, Seq<TypeView>)>,
    hint_table: Seq<(Seq<char>, Seq<TypeView>)>,
    path: Seq<char>,
    value: ValueView,
) -> Result<
    (Seq<(Seq<char>, ValueView)>, Seq<(Seq<char>, ValueView)>, Seq<(Seq<char>, ValueView)>),
    InputErrorView,
> {
    let vt = value_type(value);
    match split_dot(path) {
        Some((key, rest)) => if key == "runtime"@ || key == "requirements"@ || key == "hints"@ {
            match key_match(key, rest, req_table, hint_table) {
                Some((is_req, ts)) => if coerces_to_any(vt, ts) {
                    if is_req {
                        Ok((inputs, map_set(reqs, rest, value), hints))
                    } else {
                        Ok((inputs, reqs, map_set(hints, rest, value)))
                    }
                } else {
                    Err(InputErrorView::KeyType(key, rest, ts, vt))
                },
                None => if key == "requirements"@ {
                    Err(InputErrorView::UnsupportedKey(key, rest))
                } else {
                    Ok((inputs, reqs, hints))
                },
            }
        } else {
            Err(InputErrorView::NoSuchInput(task, path))
        },
        None => match map_get(specs, path) {
            None => Err(InputErrorView::NoSuchInput(task, path)),
            Some((t, _)) => if coercible(vt, t) {
                Ok((map_set(inputs, path, value), reqs, hints))
            } else {
                Err(InputErrorView::InputType(path, t, vt))
            },
        },
    }
}

/// Inputs to a task: its input values, and requirement and hint values that
/// override the task's own.
#[derive(Debug)]
pub struct TaskInputs {
    /// The task input values.
    inputs: Vec<(String, Value)>,
    /// The overridden requirement values.
    requirements: Vec<(String, Value)>,
    /// The overridden hint values.
    hints: Vec<(String, Value)>,
}

impl Default for TaskInputs {
    fn default() -> (t: Self)
        ensures
            t.spec_inputs() == Seq::<(Seq<char>, ValueView)>::empty(),
            t.spec_requirements() == Seq::<(Seq<char>, ValueView)>::empty(),
            t.spec_hints() == Seq::<(Seq<char>, ValueView)>::empty(),
    {
        let t = TaskInputs { inputs: Vec::new(), requirements: Vec::new(), hints: Vec::new() };
        assert(entries(t.inputs@) =~= Seq::<(Seq<char>, ValueView)>::empty());
        assert(entries(t.requirements@) =~= Seq::<(Seq<char>, ValueView)>::empty());
        assert(entries(t.hints@) =~= Seq::<(Seq<char>, ValueView)>::empty());
        t
    }
}

/// Looks up `name` among entries.
fn get_entry<'a>(s: &'a Vec<(String, Value)>, name: &str) -> (r: Option<&'a Value>)
    ensures
        match map_get(entries(s@), name@) {
            Some(v) => r matches Some(x) && x@ == v,
            None => r is None,
        },
{
    proof {
        lemma_find_key_pos(s@, entries(s@), name@);
    }
    match find_key(s.as_slice(), name) {
        Some(i) => {
            proof {
                lemma_key_pos(entries(s@), name@);
                match key_pos(entries(s@), name@) {
                    Some(d) => {
                        if d < i {
                            assert(entries(s@)[d].0 == s@[d].0@);
                        }
                        if d > i {
                            assert(entries(s@)[i as int].0 == s@[i as int].0@);
                        }
                    },
                    None => {
                        assert(entries(s@)[i as int].0 == s@[i as int].0@);
                    },
                }
            }
            Some(&s[i].1)
        },
        None => None,
    }
}

impl TaskInputs {
    /// The input values.
    pub closed spec fn spec_inputs(self) -> Seq<(Seq<char>, ValueView)> {
        entries(self.inputs@)
    }

    /// The overridden requirement values.
    pub closed spec fn spec_requirements(self) -> Seq<(Seq<char>, ValueView)> {
        entries(self.requirements@)
    }

    /// The overridden hint values.
    pub closed spec fn spec_hints(self) -> Seq<(Seq<char>, ValueView)> {
        entries(self.hints@)
    }

    /// The inputs to the task, with their values.
    pub fn iter(&self) -> (r: &[(String, Value)])
        ensures
            entries(r@) == self.spec_inputs(),
    {
        self.inputs.as_slice()
    }

    /// Gets an input by name.
    pub fn get(&self, name: &str) -> (r: Option<&Value>)
        ensures
            match map_get(self.spec_inputs(), name@) {
                Some(v) => r matches Some(x) && x@ == v,
                None => r is None,
            },
    {
        get_entry(&self.inputs, name)
    }

    /// Sets a task input, replacing any value it had.
    pub fn set(&mut self, name: String, value: Value)
        ensures
            final(self).spec_inputs() == map_set(old(self).spec_inputs(), name@, value@),
            final(self).spec_requirements() == old(self).spec_requirements(),
            final(self).spec_hints() == old(self).spec_hints(),
    {
        set_entry(&mut self.inputs, name, value);
    }

    /// Gets an overridden requirement by name.
    pub fn requirement(&self, name: &str) -> (r: Option<&Value>)
        ensures
            match map_get(self.spec_requirements(), name@) {
                Some(v) => r matches Some(x) && x@ == v,
                None => r is None,
            },
    {
        get_entry(&self.requirements, name)
    }

    /// Overrides a requirement by name.
    pub fn override_requirement(&mut self, name: String, value: Value)
        ensures
            final(self).spec_requirements() == map_set(
                old(self).spec_requirements(),
                name@,
                value@,
            ),
            final(self).spec_inputs() == old(self).spec_inputs(),
            final(self).spec_hints() == old(self).spec_hints(),
    {
        set_entry(&mut self.requirements, name, value);
    }

    /// Gets an overridden hint by name.
    pub fn hint(&self, name: &str) -> (r: Option<&Value>)
        ensures
            match map_get(self.spec_hints(), name@) {
                Some(v) => r matches Some(x) && x@ == v,
                None => r is None,
            },
    {
        get_entry(&self.hints, name)
    }

    /// Overrides a hint by name.
    pub fn override_hint(&mut self, name: String, value: Value)
        ensures
            final(self).spec_hints() == map_set(old(self).spec_hints(), name@, value@),
            final(self).spec_inputs() == old(self).spec_inputs(),
            final(self).spec_requirements() == old(self).spec_requirements(),
    {
        set_entry(&mut self.hints, name, value);
    }

    /// Validates the inputs for a task: the document has a version; every
    /// input is declared and its value coerces to the declared type; every
    /// required input is given; every requirement is known to the version
    /// and its value coerces to an allowed type; the value of every known
    /// hint coerces to an allowed type. The first problem found, in that
    /// order, is the error.
    pub fn validate(&self, rules: &VersionRules, task: &TaskSignature) -> (r: Result<(), InputError>)
        ensures
            match task_problem(
                self.spec_inputs(),
                self.spec_requirements(),
                self.spec_hints(),
                rules.has_version,
                spec_entries(task.inputs@),
                type_entries(rules.requirement_types@),
                type_entries(rules.hint_types@),
            ) {
                Some(p) => r matches Err(e) && e@ == p,
                None => r is Ok,
            },
    {
        if !rules.has_version {
            return Err(InputError::MissingVersion);
        }
        let ghost specs = spec_entries(task.inputs@);
        let ghost inputs = entries(self.inputs@);
        let mut i: usize = 0;
        while i < self.inputs.len()
            invariant
                rules.has_version,
                i <= self.inputs@.len(),
                specs == spec_entries(task.inputs@),
                inputs == entries(self.inputs@),
                first_some(inputs.take(i as int), input_check(specs)) is None,
            decreases self.inputs@.len() - i,
        {
            proof {
                lemma_first_some_step(inputs, i as int, input_check(specs));
            }
            let name = &self.inputs[i].0;
            let value = &self.inputs[i].1;
            proof {
                lemma_key_pos(specs, name@);
                assert(inputs[i as int] == (name@, value@));
                assert(input_check(specs)(inputs[i as int]) == input_problem(
                    name@,
                    value@,
                    specs,
                ));
            }
            match find_spec(&task.inputs, name.as_str()) {
                None => {
                    proof {
                        lemma_first_some_prefix(inputs, i + 1, input_check(specs));
                    }
                    return Err(InputError::UnknownInput(name.clone()));
                },
                Some(j) => {
                    let ty = value.ty();
                    assert(specs[j as int] == (
                        task.inputs@[j as int].name@,
                        (task.inputs@[j as int].ty@, task.inputs@[j as int].required),
                    ));
                    if !ty.is_coercible_to(&task.inputs[j].ty) {
                        proof {
                            lemma_first_some_prefix(inputs, i + 1, input_check(specs));
                        }
                        return Err(
                            InputError::InputType {
                                name: name.clone(),
                                expected: task.inputs[j].ty.clone(),
                                found: ty,
                            },
                        );
                    }
                },
            }
            i = i + 1;
        }
        assert(inputs.take(i as int) =~= inputs);
        let mut j: usize = 0;
        while j < task.inputs.len()
            invariant
                rules.has_version,
                j <= task.inputs@.len(),
                specs == spec_entries(task.inputs@),
                inputs == entries(self.inputs@),
                first_some(inputs, input_check(specs)) is None,
                first_some(specs.take(j as int), missing_check(inputs)) is None,
            decreases task.inputs@.len() - j,
        {
            proof {
                lemma_first_some_step(specs, j as int, missing_check(inputs));
            }
            let spec = &task.inputs[j];
            assert(specs[j as int] == (spec.name@, (spec.ty@, spec.required)));
            assert(missing_check(inputs)(specs[j as int]) == missing_problem(specs[j as int], inputs));
            if spec.required && get_entry(&self.inputs, spec.name.as_str()).is_none() {
                proof {
                    lemma_first_some_prefix(specs, j + 1, missing_check(inputs));
                }
                return Err(InputError::MissingInput(spec.name.clone()));
            }
            j = j + 1;
        }
        assert(specs.take(j as int) =~= specs);
        let ghost reqs = entries(self.requirements@);
        let ghost req_table = type_entries(rules.requirement_types@);
        let mut k: usize = 0;
        while k < self.requirements.len()
            invariant
                rules.has_version,
                k <= self.requirements@.len(),
                reqs == entries(self.requirements@),
                req_table == type_entries(rules.requirement_types@),
                specs == spec_entries(task.inputs@),
                inputs == entries(self.inputs@),
                first_some(inputs, input_check(specs)) is None,
                first_some(specs, missing_check(inputs)) is None,
                first_some(reqs.take(k as int), requirement_check(req_table)) is None,
            decreases self.requirements@.len() - k,
        {
            proof {
                lemma_first_some_step(reqs, k as int, requirement_check(req_table));
                lemma_key_pos(req_table, self.requirements@[k as int].0@);
            }
            let name = &self.requirements[k].0;
            let ty = self.requirements[k].1.ty();
            assert(reqs[k as int] == (name@, self.requirements@[k as int].1@));
            assert(requirement_check(req_table)(reqs[k as int]) == requirement_problem(
                name@,
                self.requirements@[k as int].1@,
                req_table,
            ));
            match find_types(&rules.requirement_types, name.as_str()) {
                Some(t) => {
                    assert(req_table[t as int] == (
                        rules.requirement_types@[t as int].0@,
                        types_view(rules.requirement_types@[t as int].1@),
                    ));
                    if !coerces_to_one(&ty, &rules.requirement_types[t].1) {
                        proof {
                            lemma_first_some_prefix(reqs, k + 1, requirement_check(req_table));
                        }
                        return Err(
                            InputError::RequirementType {
                                name: name.clone(),
                                expected: clone_types(&rules.requirement_types[t].1),
                                found: ty,
                            },
                        );
                    }
                },
                None => {
                    proof {
                        lemma_first_some_prefix(reqs, k + 1, requirement_check(req_table));
                    }
                    return Err(InputError::UnsupportedRequirement(name.clone()));
                },
            }
            k = k + 1;
        }
        assert(reqs.take(k as int) =~= reqs);
        let ghost hints = entries(self.hints@);
        let ghost hint_table = type_entries(rules.hint_types@);
        let mut h: usize = 0;
        while h < self.hints.len()
            invariant
                rules.has_version,
                h <= self.hints@.len(),
                hints == entries(self.hints@),
                hint_table == type_entries(rules.hint_types@),
                reqs == entries(self.requirements@),
                req_table == type_entries(rules.requirement_types@),
                specs == spec_entries(task.inputs@),
                inputs == entries(self.inputs@),
                first_some(inputs, input_check(specs)) is None,
                first_some(specs, missing_check(inputs)) is None,
                first_some(reqs, requirement_check(req_table)) is None,
                first_some(hints.take(h as int), hint_check(hint_table)) is None,
            decreases self.hints@.len() - h,
        {
            proof {
                lemma_first_some_step(hints, h as int, hint_check(hint_table));
                lemma_key_pos(hint_table, self.hints@[h as int].0@);
            }
            let name = &self.hints[h].0;
            let ty = self.hints[h].1.ty();
            assert(hints[h as int] == (name@, self.hints@[h as int].1@));
            assert(hint_check(hint_table)(hints[h as int]) == hint_problem(
                name@,
                self.hints@[h as int].1@,
                hint_table,
            ));
            match find_types(&rules.hint_types, name.as_str()) {
                Some(t) => {
                    assert(hint_table[t as int] == (
                        rules.hint_types@[t as int].0@,
                        types_view(rules.hint_types@[t as int].1@),
                    ));
                    if !coerces_to_one(&ty, &rules.hint_types[t].1) {
                        proof {
                            lemma_first_some_prefix(hints, h + 1, hint_check(hint_table));
                        }
                        return Err(
                            InputError::HintType {
                                name: name.clone(),
                                expected: clone_types(&rules.hint_types[t].1),
                                found: ty,
                            },
                        );
                    }
                },
                None => {},
            }
            h = h + 1;
        }
        assert(hints.take(h as int) =~= hints);
        Ok(())
    }

    /// Sets a value by a dotted key (see [`task_set_path`]): an input, a
    /// requirement or a hint. On an error nothing changes.
    pub fn set_path_value(
        &mut self,
        rules: &VersionRules,
        task: &TaskSignature,
        path: &str,
        value: Value,
    ) -> (r: Result<(), InputError>)
        requires
            rules.has_version,
        ensures
            match task_set_path(
                old(self).spec_inputs(),
                old(self).spec_requirements(),
                old(self).spec_hints(),
                task.name@,
                spec_entries(task.inputs@),
                type_entries(rules.requirement_types@),
                type_entries(rules.hint_types@),
                path@,
                value@,
            ) {
                Ok((i, q, h)) => r is Ok && final(self).spec_inputs() == i
                    && final(self).spec_requirements() == q && final(self).spec_hints() == h,
                Err(e) => r matches Err(x) && x@ == e && final(self).spec_inputs()
                    == old(self).spec_inputs() && final(self).spec_requirements()
                    == old(self).spec_requirements() && final(self).spec_hints()
                    == old(self).spec_hints(),
            },
    {
        let ty = value.ty();
        proof {
            reveal_strlit("runtime");
            reveal_strlit("requirements");
            reveal_strlit("hints");
        }
        match split_path(path) {
            Some((key, rest)) => {
                let runtime = key == "runtime".to_owned();
                let requirements = key == "requirements".to_owned();
                let hints = key == "hints".to_owned();
                if !runtime && !requirements && !hints {
                    return Err(
                        InputError::NoSuchInput { owner: task.name.clone(), path: path.to_owned() },
                    );
                }
                let ghost req_table = type_entries(rules.requirement_types@);
                let ghost hint_table = type_entries(rules.hint_types@);
                proof {
                    lemma_key_pos(req_table, rest@);
                    lemma_key_pos(hint_table, rest@);
                }
                let req = if hints {
                    None
                } else {
                    find_types(&rules.requirement_types, rest.as_str())
                };
                let hint = if requirements {
                    None
                } else {
                    find_types(&rules.hint_types, rest.as_str())
                };
                let matched: Option<(bool, &Vec<Type>)> = match req {
                    Some(t) => Some((true, &rules.requirement_types[t].1)),
                    None => match hint {
                        Some(t) => Some((false, &rules.hint_types[t].1)),
                        None => None,
                    },
                };
                proof {
                    if let Some(t) = req {
                        assert(req_table[t as int].1 == types_view(
                            rules.requirement_types@[t as int].1@,
                        ));
                    }
                    if let Some(t) = hint {
                        assert(hint_table[t as int].1 == types_view(
                            rules.hint_types@[t as int].1@,
                        ));
                    }
                }
                proof {
                    assert("runtime"@.len() == 7);
                    assert("requirements"@.len() == 12);
                    assert("hints"@.len() == 5);
                    match req {
                        Some(t) => {
                            assert(map_get(req_table, rest@) == Some(req_table[t as int].1));
                        },
                        None => {
                            assert(hints || map_get(req_table, rest@) is None);
                        },
                    }
                    match hint {
                        Some(t) => {
                            assert(map_get(hint_table, rest@) == Some(hint_table[t as int].1));
                        },
                        None => {
                            assert(requirements || map_get(hint_table, rest@) is None);
                        },
                    }
                }
                match matched {
                    Some((is_req, types)) => {
                        if coerces_to_one(&ty, types) {
                            if is_req {
                                set_entry(&mut self.requirements, rest, value);
                            } else {
                                set_entry(&mut self.hints, rest, value);
                            }
                            Ok(())
                        } else {
                            Err(
                                InputError::KeyType {
                                    key,
                                    name: rest,
                                    expected: clone_types(types),
                                    found: ty,
                                },
                            )
                        }
                    },
                    None => {
                        if requirements {
                            Err(InputError::UnsupportedKey { key, name: rest })
                        } else {
                            Ok(())
                        }
                    },
                }
            },
            None => {
                let ghost specs = spec_entries(task.inputs@);
                proof {
                    lemma_key_pos(specs, path@);
                }
                match find_spec(&task.inputs, path) {
                    None => Err(
                        InputError::NoSuchInput { owner: task.name.clone(), path: path.to_owned() },
                    ),
                    Some(j) => {
                        assert(specs[j as int] == (
                            task.inputs@[j as int].name@,
                            (task.inputs@[j as int].ty@, task.inputs@[j as int].required),
                        ));
                        if ty.is_coercible_to(&task.inputs[j].ty) {
                            set_entry(&mut self.inputs, path.to_owned(), value);
                            Ok(())
                        } else {
                            Err(
                                InputError::InputType {
                                    name: path.to_owned(),
                                    expected: task.inputs[j].ty.clone(),
                                    found: ty,
                                },
                            )
                        }
                    },
                }
            },
        }
    }
}

/// The kind of the target of a call.
#[derive(Debug)]
pub enum CallTarget {
    /// A task, with what its document's version allows.
    Task {
        /// The task.
        task: TaskSignature,
        /// What the version of the task's document allows.
        rules: VersionRules,
    },
    /// A workflow.
    Workflow(WorkflowSignature),
}

/// What checking inputs reads of a call in a workflow.
#[derive(Debug)]
pub struct CallSignature {
    /// The name of the call in the workflow.
    pub name: String,
    /// The inputs that the call statement gives.
    pub specified: Vec<String>,
    /// The inputs of the called task or workflow.
    pub inputs: Vec<InputSpec>,
    /// The called task or workflow.
    pub target: CallTarget,
}

/// What checking inputs reads of a workflow.
#[derive(Debug)]
pub struct WorkflowSignature {
    /// The name of the workflow.
    pub name: String,
    /// The inputs of the workflow.
    pub inputs: Vec<InputSpec>,
    /// Whether inputs may be given to the workflow's calls.
    pub allows_nested_inputs: bool,
    /// The calls in the workflow.
    pub calls: Vec<CallSignature>,
}

/// Inputs to a workflow: its input values and the inputs to its calls.
#[derive(Debug)]
pub struct WorkflowInputs {
    /// The workflow input values.
    inputs: Vec<(String, Value)>,
    /// The inputs to calls, by call name.
    calls: Vec<(String, Inputs)>,
}

/// Inputs to a task or a workflow.
#[derive(Debug)]
pub enum Inputs {
    /// Inputs to a task.
    Task(TaskInputs),
    /// Inputs to a workflow.
    Workflow(WorkflowInputs),
}

/// Task inputs as values.
pub struct TaskInputsView {
    /// The input values.
    pub inputs: Seq<(Seq<char>, ValueView)>,
    /// The overridden requirement values.
    pub requirements: Seq<(Seq<char>, ValueView)>,
    /// The overridden hint values.
    pub hints: Seq<(Seq<char>, ValueView)>,
}

/// Workflow inputs as values.
pub struct WorkflowInputsView {
    /// The input values.
    pub inputs: Seq<(Seq<char>, ValueView)>,
    /// The inputs to calls, by call name.
    pub calls: Seq<(Seq<char>, InputsView)>,
}

/// Task or workflow inputs as values.
pub enum InputsView {
    /// Inputs to a task.
    Task(TaskInputsView),
    /// Inputs to a workflow.
    Workflow(WorkflowInputsView),
}

impl View for TaskInputs {
    type V = TaskInputsView;

    closed spec fn view(&self) -> TaskInputsView {
        TaskInputsView {
            inputs: entries(self.inputs@),
            requirements: entries(self.requirements@),
            hints: entries(self.hints@),
        }
    }
}

/// The view of task or workflow inputs.
pub closed spec fn inputs_view(i: Inputs) -> InputsView
    decreases i, 0int,
{
    match i {
        Inputs::Task(t) => InputsView::Task(t@),
        Inputs::Workflow(w) => InputsView::Workflow(workflow_view(w)),
    }
}

/// The view of workflow inputs.
pub closed spec fn workflow_view(w: WorkflowInputs) -> WorkflowInputsView
    decreases w, 1int,
{
    proof {
        lemma_workflow_decreases(w);
    }
    WorkflowInputsView { inputs: entries(w.inputs@), calls: calls_view(w.calls@) }
}

/// The views of call inputs, by call name.
pub closed spec fn calls_view(cs: Seq<(String, Inputs)>) -> Seq<(Seq<char>, InputsView)>
    decreases cs, 0int,
{
    if cs.len() == 0 {
        Seq::empty()
    } else {
        calls_view(cs.drop_last()).push((cs.last().0@, inputs_view(cs.last().1)))
    }
}

/// Workflow inputs are larger than their call inputs.
proof fn lemma_workflow_decreases(w: WorkflowInputs)
    ensures
        decreases_to!(w => w.calls@),
{
    broadcast use vstd::std_specs::vec::axiom_vec_decreases_to_view;

    assert(decreases_to!(w => w.calls));
    assert(decreases_to!(w.calls => w.calls@));
}

impl View for WorkflowInputs {
    type V = WorkflowInputsView;

    closed spec fn view(&self) -> WorkflowInputsView {
        workflow_view(*self)
    }
}

impl View for Inputs {
    type V = InputsView;

    closed spec fn view(&self) -> InputsView {
        inputs_view(*self)
    }
}

/// The views of call inputs have one entry per call input, in order.
proof fn lemma_calls_view(cs: Seq<(String, Inputs)>)
    ensures
        calls_view(cs).len() == cs.len(),
        forall|i: int|
            0 <= i < cs.len() ==> #[trigger] calls_view(cs)[i] == (cs[i].0@, cs[i].1@),
    decreases cs.len(),
{
    if cs.len() > 0 {
        lemma_calls_view(cs.drop_last());
    }
}

/// The calls of a workflow, by name.
pub open spec fn call_entries(calls: Seq<CallSignature>) -> Seq<(Seq<char>, CallSignature)> {
    calls.map_values(|c: CallSignature| (c.name@, c))
}

/// Texts taken as character sequences.
pub open spec fn texts_of(ss: Seq<String>) -> Seq<Seq<char>> {
    ss.map_values(|s: String| s@)
}

/// The names of entries.
pub open spec fn keys_of<V>(s: Seq<(Seq<char>, V)>) -> Seq<Seq<char>> {
    s.map_values(|e: (Seq<char>, V)| e.0)
}

/// The value of the input named `name` among task or workflow inputs.
pub open spec fn nested_get(i: InputsView, name: Seq<char>) -> Option<ValueView> {
    match i {
        InputsView::Task(t) => map_get(t.inputs, name),
        InputsView::Workflow(w) => map_get(w.inputs, name),
    }
}

/// A nested input named `input` that the call statement `call` already
/// gives.
pub open spec fn specified_check(call: CallSignature) -> spec_fn(Seq<char>) -> Option<
    InputErrorView,
> {
    |input: Seq<char>|
        if texts_of(call.specified@).contains(input) {
            Some(InputErrorView::SpecifiedNestedInput(input, call.name@))
        } else {
            None
        }
}

/// A required input of `call`, not given by the call statement, that the
/// nested inputs `given` do not give either.
pub open spec fn missing_call_check(given: Seq<(Seq<char>, InputsView)>) -> spec_fn(
    CallSignature,
) -> Option<InputErrorView> {
    |call: CallSignature|
        first_some(
            spec_entries(call.inputs@),
            |inp: (Seq<char>, (TypeView, bool))|
                if inp.1.1 && !texts_of(call.specified@).contains(inp.0) && !(match map_get(
                    given,
                    call.name@,
                ) {
                    Some(i) => nested_get(i, inp.0) is Some,
                    None => false,
                }) {
                    Some(InputErrorView::MissingCallInput(inp.0, call.name@))
                } else {
                    None
                },
        )
}

/// The first problem with workflow inputs `w` for the workflow `sig`: each
/// input in order, then each missing required input, then nested inputs for
/// a workflow that allows none, then each call's inputs in order (an unknown
/// call, inputs of the wrong kind, a problem of the nested inputs, or a nested
/// input that the call statement already gives), then, when nested inputs are
/// allowed, each required input of each call that is given nowhere.
pub open spec fn workflow_problem(w: WorkflowInputsView, sig: WorkflowSignature) -> Option<
    InputErrorView,
>
    decreases w, w.calls.len() + 2,
{
    or_else(
        first_some(w.inputs, input_check(spec_entries(sig.inputs@))),
        or_else(
            first_some(spec_entries(sig.inputs@), missing_check(w.inputs)),
            or_else(
                if w.calls.len() > 0 && !sig.allows_nested_inputs {
                    Some(InputErrorView::NestedInputsNotAllowed(sig.name@))
                } else {
                    None
                },
                or_else(
                    calls_problem(w, sig, w.calls.len() as int),
                    if sig.allows_nested_inputs {
                        first_some(sig.calls@, missing_call_check(w.calls))
                    } else {
                        None
                    },
                ),
            ),
        ),
    )
}

/// The first problem with the first `n` call inputs of `w`.
pub open spec fn calls_problem(w: WorkflowInputsView, sig: WorkflowSignature, n: int) -> Option<
    InputErrorView,
>
    decreases w, n,
{
    if n <= 0 || n > w.calls.len() {
        None
    } else {
        or_else(calls_problem(w, sig, n - 1), call_problem(w, sig, n - 1))
    }
}

/// Once the first `n` call inputs have a problem, every longer prefix has
/// the same one.
proof fn lemma_calls_problem_prefix(w: WorkflowInputsView, sig: WorkflowSignature, n: int, m: int)
    requires
        0 <= n <= m <= w.calls.len(),
        calls_problem(w, sig, n) is Some,
    ensures
        calls_problem(w, sig, m) == calls_problem(w, sig, n),
    decreases m - n,
{
    if m > n {
        lemma_calls_problem_prefix(w, sig, n, m - 1);
    }
}

/// The problem with the call inputs at index `k` of `w`: an unknown call,
/// inputs of the wrong kind, a problem of the nested inputs, or a nested
/// input that the call statement already gives.
pub open spec fn call_problem(w: WorkflowInputsView, sig: WorkflowSignature, k: int) -> Option<
    InputErrorView,
>
    decreases w, 0int,
{
    if 0 <= k < w.calls.len() {
        let name = w.calls[k].0;
        match map_get(call_entries(sig.calls@), name) {
            None => Some(InputErrorView::UnknownCall(name)),
            Some(call) => match (call.target, w.calls[k].1) {
                (CallTarget::Task { task, rules }, InputsView::Task(t)) => or_else(
                    task_problem(
                        t.inputs,
                        t.requirements,
                        t.hints,
                        rules.has_version,
                        spec_entries(task.inputs@),
                        type_entries(rules.requirement_types@),
                        type_entries(rules.hint_types@),
                    ),
                    first_some(keys_of(t.inputs), specified_check(call)),
                ),
                (CallTarget::Task { .. }, InputsView::Workflow(_)) => Some(
                    InputErrorView::TaskInputsExpected(name),
                ),
                (CallTarget::Workflow(wf), InputsView::Workflow(w2)) => or_else(
                    workflow_problem(w2, wf),
                    first_some(keys_of(w2.inputs), specified_check(call)),
                ),
                (CallTarget::Workflow(_), InputsView::Task(_)) => Some(
                    InputErrorView::WorkflowInputsExpected(name),
                ),
            },
        }
    } else {
        None
    }
}

/// The part after the first `.` of a key is shorter than the key.
pub proof fn lemma_split_dot(s: Seq<char>)
    ensures
        split_dot(s) matches Some((a, b)) ==> a.len() < s.len() && b.len() < s.len(),
{
    lemma_dot_index(s);
}

/// The first part of a dotted key, or the whole key.
pub open spec fn first_part(s: Seq<char>) -> Seq<char> {
    match split_dot(s) {
        Some((a, _)) => a,
        None => s,
    }
}

/// Empty inputs for the target of a call.
pub open spec fn empty_inputs(target: CallTarget) -> InputsView {
    match target {
        CallTarget::Task { .. } => InputsView::Task(
            TaskInputsView {
                inputs: Seq::empty(),
                requirements: Seq::empty(),
                hints: Seq::empty(),
            },
        ),
        CallTarget::Workflow(_) => InputsView::Workflow(
            WorkflowInputsView { inputs: Seq::empty(), calls: Seq::empty() },
        ),
    }
}

/// Whether setting `path` for the workflow `sig` stays within what the
/// code accepts: each call inputs it descends into have the kind of their
/// call, and a task it reaches has a document version.
pub open spec fn workflow_set_ok(w: WorkflowInputsView, sig: WorkflowSignature, path: Seq<char>) -> bool
    decreases path.len(),
{
    proof {
        lemma_split_dot(path);
    }
    match split_dot(path) {
        Some((name, rest)) => if !sig.allows_nested_inputs {
            true
        } else {
            match map_get(call_entries(sig.calls@), name) {
                None => true,
                Some(call) => if texts_of(call.specified@).contains(first_part(rest)) {
                    true
                } else {
                    match (call.target, map_get(w.calls, name)) {
                        (CallTarget::Task { rules, .. }, None) => rules.has_version,
                        (CallTarget::Task { rules, .. }, Some(InputsView::Task(_))) =>
                            rules.has_version,
                        (CallTarget::Workflow(wf), None) => workflow_set_ok(
                            WorkflowInputsView { inputs: Seq::empty(), calls: Seq::empty() },
                            wf,
                            rest,
                        ),
                        (CallTarget::Workflow(wf), Some(InputsView::Workflow(w2))) =>
                            workflow_set_ok(w2, wf, rest),
                        _ => false,
                    }
                },
            }
        },
        None => true,
    }
}

/// The effect of [`WorkflowInputs::set_path_value`]: the new inputs and
/// whether it failed. A key without a dot names a workflow input, which must
/// be declared and take the value's type. A key `call.rest` sets `rest` in
/// the inputs of the call (created empty, of the call's kind, if missing),
/// when the workflow allows nested inputs, the call exists and the call
/// statement does not give the first part of `rest` itself.
pub open spec fn workflow_set_path(
    w: WorkflowInputsView,
    sig: WorkflowSignature,
    path: Seq<char>,
    value: ValueView,
) -> (WorkflowInputsView, Result<(), InputErrorView>)
    decreases path.len(),
{
    proof {
        lemma_split_dot(path);
    }
    let vt = value_type(value);
    match split_dot(path) {
        Some((name, rest)) => if !sig.allows_nested_inputs {
            (w, Err(InputErrorView::NestedInputsNotAllowed(sig.name@)))
        } else {
            match map_get(call_entries(sig.calls@), name) {
                None => (w, Err(InputErrorView::NoSuchCall(sig.name@, name))),
                Some(call) => {
                    let w1 = match key_pos(w.calls, name) {
                        Some(_) => w,
                        None => WorkflowInputsView {
                            inputs: w.inputs,
                            calls: w.calls.push((name, empty_inputs(call.target))),
                        },
                    };
                    if texts_of(call.specified@).contains(first_part(rest)) {
                        (
                            w1,
                            Err(InputErrorView::SpecifiedNestedInput(first_part(rest), name)),
                        )
                    } else {
                        match key_pos(w1.calls, name) {
                            Some(k) => match (call.target, w1.calls[k].1) {
                                (CallTarget::Task { task, rules }, InputsView::Task(t)) => match
                                task_set_path(
                                    t.inputs,
                                    t.requirements,
                                    t.hints,
                                    task.name@,
                                    spec_entries(task.inputs@),
                                    type_entries(rules.requirement_types@),
                                    type_entries(rules.hint_types@),
                                    rest,
                                    value,
                                ) {
                                    Ok((i, q, h)) => (
                                        WorkflowInputsView {
                                            inputs: w1.inputs,
                                            calls: w1.calls.update(
                                                k,
                                                (
                                                    name,
                                                    InputsView::Task(
                                                        TaskInputsView {
                                                            inputs: i,
                                                            requirements: q,
                                                            hints: h,
                                                        },
                                                    ),
                                                ),
                                            ),
                                        },
                                        Ok(()),
                                    ),
                                    Err(e) => (w1, Err(e)),
                                },
                                (CallTarget::Workflow(wf), InputsView::Workflow(w2)) => {
                                    let (w3, r) = workflow_set_path(w2, wf, rest, value);
                                    (
                                        WorkflowInputsView {
                                            inputs: w1.inputs,
                                            calls: w1.calls.update(
                                                k,
                                                (name, InputsView::Workflow(w3)),
                                            ),
                                        },
                                        r,
                                    )
                                },
                                _ => (w1, Ok(())),
                            },
                            None => (w1, Ok(())),
                        }
                    }
                },
            }
        },
        None => match map_get(spec_entries(sig.inputs@), path) {
            None => (w, Err(InputErrorView::NoSuchInput(sig.name@, path))),
            Some((t, _)) => if coercible(vt, t) {
                (
                    WorkflowInputsView { inputs: map_set(w.inputs, path, value), calls: w.calls },
                    Ok(()),
                )
            } else {
                (w, Err(InputErrorView::InputType(path, t, vt)))
            },
        },
    }
}

/// A workflow signature is larger than its calls.
pub proof fn lemma_signature_decreases(sig: WorkflowSignature)
    ensures
        decreases_to!(sig => sig.calls@),
{
    broadcast use vstd::std_specs::vec::axiom_vec_decreases_to_view;

    assert(decreases_to!(sig => sig.calls));
    assert(decreases_to!(sig.calls => sig.calls@));
}

/// Whether every task reachable through the calls of `sig` has a document
/// version.
pub open spec fn versions_ok(sig: WorkflowSignature) -> bool
    decreases sig,
{
    proof {
        lemma_signature_decreases(sig);
    }
    forall|i: int|
        0 <= i < sig.calls@.len() ==> match (#[trigger] sig.calls@[i]).target {
            CallTarget::Task { rules, .. } => rules.has_version,
            CallTarget::Workflow(wf) => versions_ok(wf),
        }
}

/// Whether each call inputs of `w` have the kind of the call of `sig` with
/// their name, all the way down.
pub open spec fn kinds_ok(w: WorkflowInputsView, sig: WorkflowSignature) -> bool
    decreases w,
{
    forall|i: int|
        0 <= i < w.calls.len() ==> match map_get(call_entries(sig.calls@), (#[trigger] w.calls[i]).0) {
            None => true,
            Some(call) => match (call.target, w.calls[i].1) {
                (CallTarget::Task { .. }, InputsView::Task(_)) => true,
                (CallTarget::Workflow(wf), InputsView::Workflow(w2)) => kinds_ok(w2, wf),
                _ => false,
            },
        }
}

/// The call found by name is one of the calls.
proof fn lemma_call_entry(calls: Seq<CallSignature>, name: Seq<char>)
    ensures
        match key_pos(call_entries(calls), name) {
            Some(j) => 0 <= j < calls.len() && map_get(call_entries(calls), name) == Some(
                calls[j],
            ),
            None => map_get(call_entries(calls), name) is None,
        },
{
    lemma_key_pos(call_entries(calls), name);
}

/// Setting any key is within what the code accepts when the call inputs
/// have the kinds of their calls and every reachable task has a version.
pub proof fn lemma_set_ok(w: WorkflowInputsView, sig: WorkflowSignature, path: Seq<char>)
    requires
        kinds_ok(w, sig),
        versions_ok(sig),
    ensures
        workflow_set_ok(w, sig, path),
    decreases path.len(),
{
    lemma_split_dot(path);
    match split_dot(path) {
        Some((name, rest)) => {
            if sig.allows_nested_inputs {
                lemma_call_entry(sig.calls@, name);
                match key_pos(call_entries(sig.calls@), name) {
                    Some(j) => {
                        let call = sig.calls@[j];
                        assert(versions_ok(sig));
                        let _ = sig.calls@[j];
                        lemma_key_pos(w.calls, name);
                        match key_pos(w.calls, name) {
                            Some(k) => {
                                let _ = w.calls[k];
                                match (call.target, w.calls[k].1) {
                                    (CallTarget::Workflow(wf), InputsView::Workflow(w2)) => {
                                        lemma_set_ok(w2, wf, rest);
                                    },
                                    _ => {},
                                }
                            },
                            None => {
                                match call.target {
                                    CallTarget::Workflow(wf) => {
                                        let e = WorkflowInputsView {
                                            inputs: Seq::empty(),
                                            calls: Seq::empty(),
                                        };
                                        lemma_set_ok(e, wf, rest);
                                    },
                                    _ => {},
                                }
                            },
                        }
                    },
                    None => {},
                }
            }
        },
        None => {},
    }
}

/// Setting a key keeps the call inputs of the kinds of their calls.
pub proof fn lemma_set_keeps_kinds(
    w: WorkflowInputsView,
    sig: WorkflowSignature,
    path: Seq<char>,
    value: ValueView,
)
    requires
        kinds_ok(w, sig),
        versions_ok(sig),
    ensures
        kinds_ok(workflow_set_path(w, sig, path, value).0, sig),
    decreases path.len(),
{
    lemma_split_dot(path);
    match split_dot(path) {
        Some((name, rest)) => {
            if sig.allows_nested_inputs {
                lemma_call_entry(sig.calls@, name);
                match key_pos(call_entries(sig.calls@), name) {
                    Some(j) => {
                        let call = sig.calls@[j];
                        let _ = sig.calls@[j];
                        lemma_key_pos(w.calls, name);
                        let w1 = match key_pos(w.calls, name) {
                            Some(_) => w,
                            None => WorkflowInputsView {
                                inputs: w.inputs,
                                calls: w.calls.push((name, empty_inputs(call.target))),
                            },
                        };
                        let e = WorkflowInputsView { inputs: Seq::empty(), calls: Seq::empty() };
                        assert(kinds_ok(e, sig));
                        assert forall|i: int| 0 <= i < w1.calls.len() implies match map_get(
                            call_entries(sig.calls@),
                            (#[trigger] w1.calls[i]).0,
                        ) {
                            None => true,
                            Some(c) => match (c.target, w1.calls[i].1) {
                                (CallTarget::Task { .. }, InputsView::Task(_)) => true,
                                (CallTarget::Workflow(wf), InputsView::Workflow(w2)) => kinds_ok(
                                    w2,
                                    wf,
                                ),
                                _ => false,
                            },
                        } by {
                            if i < w.calls.len() {
                                assert(w1.calls[i] == w.calls[i]);
                            } else {
                                match call.target {
                                    CallTarget::Workflow(wf) => {
                                        assert(kinds_ok(e, wf));
                                    },
                                    _ => {},
                                }
                            }
                        }
                        assert(kinds_ok(w1, sig));
                        lemma_key_pos(w1.calls, name);
                        if !texts_of(call.specified@).contains(first_part(rest)) {
                            match key_pos(w1.calls, name) {
                                Some(k) => {
                                    match (call.target, w1.calls[k].1) {
                                        (CallTarget::Workflow(wf), InputsView::Workflow(w2)) => {
                                            let _ = w1.calls[k];
                                            lemma_set_keeps_kinds(w2, wf, rest, value);
                                            let (w3, _) = workflow_set_path(w2, wf, rest, value);
                                            let nw = WorkflowInputsView {
                                                inputs: w1.inputs,
                                                calls: w1.calls.update(
                                                    k,
                                                    (name, InputsView::Workflow(w3)),
                                                ),
                                            };
                                            assert forall|i: int| 0 <= i < nw.calls.len() implies match map_get(
                                                call_entries(sig.calls@),
                                                (#[trigger] nw.calls[i]).0,
                                            ) {
                                                None => true,
                                                Some(c) => match (c.target, nw.calls[i].1) {
                                                    (
                                                        CallTarget::Task { .. },
                                                        InputsView::Task(_),
                                                    ) => true,
                                                    (
                                                        CallTarget::Workflow(wf2),
                                                        InputsView::Workflow(w4),
                                                    ) => kinds_ok(w4, wf2),
                                                    _ => false,
                                                },
                                            } by {
                                                if i != k {
                                                    assert(nw.calls[i] == w1.calls[i]);
                                                }
                                            }
                                        },
                                        (CallTarget::Task { .. }, InputsView::Task(_)) => {
                                            let _ = w1.calls[k];
                                        },
                                        _ => {},
                                    }
                                },
                                None => {},
                            }
                        }
                    },
                    None => {},
                }
            }
        },
        None => {},
    }
}

/// The view of a result that carries no value.
pub open spec fn result_view(r: Result<(), InputError>) -> Result<(), InputErrorView> {
    match r {
        Ok(()) => Ok(()),
        Err(e) => Err(e@),
    }
}

/// Whether `v` holds `k`.
fn contains_text(v: &Vec<String>, k: &String) -> (b: bool)
    ensures
        b == texts_of(v@).contains(k@),
{
    let mut i: usize = 0;
    while i < v.len()
        invariant
            i <= v@.len(),
            forall|j: int| 0 <= j < i ==> #[trigger] v@[j]@ != k@,
        decreases v@.len() - i,
    {
        if v[i] == *k {
            assert(texts_of(v@)[i as int] == k@);
            return true;
        }
        i = i + 1;
    }
    assert forall|j: int| 0 <= j < texts_of(v@).len() implies #[trigger] texts_of(v@)[j] != k@ by {
        assert(texts_of(v@)[j] == v@[j]@);
    }
    false
}

/// Finds the first call named `name`.
fn find_call(calls: &Vec<CallSignature>, name: &str) -> (r: Option<usize>)
    ensures
        match r {
            Some(i) => key_pos(call_entries(calls@), name@) == Some(i as int),
            None => key_pos(call_entries(calls@), name@) is None,
        },
{
    proof {
        lemma_key_pos(call_entries(calls@), name@);
    }
    let key = name.to_owned();
    let mut i: usize = 0;
    while i < calls.len()
        invariant
            i <= calls@.len(),
            key@ == name@,
            forall|j: int| 0 <= j < i ==> #[trigger] calls@[j].name@ != name@,
        decreases calls@.len() - i,
    {
        if calls[i].name == key {
            proof {
                lemma_key_pos(call_entries(calls@), name@);
                assert(call_entries(calls@)[i as int].0 == name@);
                if let Some(d) = key_pos(call_entries(calls@), name@) {
                    if d < i {
                        assert(call_entries(calls@)[d].0 == calls@[d].name@);
                    }
                }
            }
            return Some(i);
        }
        i = i + 1;
    }
    proof {
        if let Some(d) = key_pos(call_entries(calls@), name@) {
            assert(call_entries(calls@)[d].0 == calls@[d].name@);
        }
    }
    None
}

/// The first nested input among `given` that the call statement `call`
/// already gives.
fn check_specified(given: &Vec<(String, Value)>, call: &CallSignature) -> (r: Result<(), InputError>)
    ensures
        match first_some(keys_of(entries(given@)), specified_check(*call)) {
            Some(p) => r matches Err(e) && e@ == p,
            None => r is Ok,
        },
{
    let ghost keys = keys_of(entries(given@));
    let mut i: usize = 0;
    while i < given.len()
        invariant
            i <= given@.len(),
            keys == keys_of(entries(given@)),
            first_some(keys.take(i as int), specified_check(*call)) is None,
        decreases given@.len() - i,
    {
        proof {
            lemma_first_some_step(keys, i as int, specified_check(*call));
            assert(keys[i as int] == given@[i as int].0@);
        }
        if contains_text(&call.specified, &given[i].0) {
            proof {
                lemma_first_some_prefix(keys, i + 1, specified_check(*call));
            }
            return Err(
                InputError::SpecifiedNestedInput {
                    input: given[i].0.clone(),
                    call: call.name.clone(),
                },
            );
        }
        i = i + 1;
    }
    assert(keys.take(i as int) =~= keys);
    Ok(())
}

/// Whether the nested inputs `calls` give input `input` to call `call`.
fn nested_has(calls: &Vec<(String, Inputs)>, call: &String, input: &String) -> (b: bool)
    ensures
        b == match map_get(calls_view(calls@), call@) {
            Some(i) => nested_get(i, input@) is Some,
            None => false,
        },
{
    proof {
        lemma_calls_view(calls@);
        lemma_find_key_pos(calls@, calls_view(calls@), call@);
        lemma_key_pos(calls_view(calls@), call@);
    }
    match find_key(calls.as_slice(), call.as_str()) {
        Some(k) => {
            proof {
                if let Some(d) = key_pos(calls_view(calls@), call@) {
                    if d < k {
                        assert(calls_view(calls@)[d].0 == calls@[d].0@);
                    }
                    if d > k {
                        assert(calls_view(calls@)[k as int].0 == calls@[k as int].0@);
                    }
                } else {
                    assert(calls_view(calls@)[k as int].0 == calls@[k as int].0@);
                }
            }
            match &calls[k].1 {
                Inputs::Task(t) => get_entry(&t.inputs, input.as_str()).is_some(),
                Inputs::Workflow(w) => get_entry(&w.inputs, input.as_str()).is_some(),
            }
        },
        None => false,
    }
}

impl Default for WorkflowInputs {
    fn default() -> (w: Self)
        ensures
            w@.inputs == Seq::<(Seq<char>, ValueView)>::empty(),
            w@.calls == Seq::<(Seq<char>, InputsView)>::empty(),
    {
        let w = WorkflowInputs { inputs: Vec::new(), calls: Vec::new() };
        assert(entries(w.inputs@) =~= Seq::<(Seq<char>, ValueView)>::empty());
        assert(calls_view(w.calls@) =~= Seq::<(Seq<char>, InputsView)>::empty());
        w
    }
}

impl WorkflowInputs {
    /// The inputs to the workflow, with their values.
    pub fn iter(&self) -> (r: &[(String, Value)])
        ensures
            entries(r@) == self@.inputs,
    {
        self.inputs.as_slice()
    }

    /// Gets an input by name.
    pub fn get(&self, name: &str) -> (r: Option<&Value>)
        ensures
            match map_get(self@.inputs, name@) {
                Some(v) => r matches Some(x) && x@ == v,
                None => r is None,
            },
    {
        get_entry(&self.inputs, name)
    }

    /// The inputs to the workflow's calls, by call name.
    pub fn calls(&self) -> (r: &[(String, Inputs)])
        ensures
            calls_view(r@) == self@.calls,
    {
        self.calls.as_slice()
    }

    /// Sets a workflow input, replacing any value it had.
    pub fn set(&mut self, name: String, value: Value)
        ensures
            final(self)@.inputs == map_set(old(self)@.inputs, name@, value@),
            final(self)@.calls == old(self)@.calls,
    {
        set_entry(&mut self.inputs, name, value);
    }

    /// Sets the inputs of a call, replacing any it had.
    pub fn set_call(&mut self, name: String, inputs: Inputs)
        ensures
            final(self)@.calls == map_set(old(self)@.calls, name@, inputs@),
            final(self)@.inputs == old(self)@.inputs,
    {
        proof {
            lemma_calls_view(self.calls@);
            lemma_find_key_pos(self.calls@, calls_view(self.calls@), name@);
            lemma_key_pos(calls_view(self.calls@), name@);
        }
        let ghost old_calls = self.calls@;
        match find_key(self.calls.as_slice(), name.as_str()) {
            Some(i) => {
                proof {
                    if let Some(d) = key_pos(calls_view(old_calls), name@) {
                        if d < i {
                            assert(calls_view(old_calls)[d].0 == old_calls[d].0@);
                        }
                        if d > i {
                            assert(calls_view(old_calls)[i as int].0 == old_calls[i as int].0@);
                        }
                    } else {
                        assert(calls_view(old_calls)[i as int].0 == old_calls[i as int].0@);
                    }
                }
                let ghost entry = (name, inputs);
                self.calls.set(i, (name, inputs));
                proof {
                    lemma_calls_view(self.calls@);
                    assert(calls_view(self.calls@) =~= calls_view(old_calls).update(
                        i as int,
                        (entry.0@, entry.1@),
                    ));
                }
            },
            None => {
                let ghost entry = (name, inputs);
                self.calls.push((name, inputs));
                proof {
                    lemma_calls_view(self.calls@);
                    assert(calls_view(self.calls@) =~= calls_view(old_calls).push(
                        (entry.0@, entry.1@),
                    ));
                }
            },
        }
    }

    /// Validates the inputs for a workflow (see [`workflow_problem`]): the
    /// first problem found is the error.
    #[verifier::loop_isolation(false)]
    pub fn validate(&self, sig: &WorkflowSignature) -> (r: Result<(), InputError>)
        ensures
            match workflow_problem(self@, *sig) {
                Some(p) => r matches Err(e) && e@ == p,
                None => r is Ok,
            },
        decreases self,
    {
        let ghost w = self@;
        let ghost specs = spec_entries(sig.inputs@);
        let ghost inputs = entries(self.inputs@);
        assert(w.inputs == inputs);
        let mut i: usize = 0;
        while i < self.inputs.len()
            invariant
                i <= self.inputs@.len(),
                specs == spec_entries(sig.inputs@),
                inputs == entries(self.inputs@),
                w == self@,
                w.inputs == inputs,
                first_some(inputs.take(i as int), input_check(specs)) is None,
            decreases self.inputs@.len() - i,
        {
            proof {
                lemma_first_some_step(inputs, i as int, input_check(specs));
            }
            let name = &self.inputs[i].0;
            let value = &self.inputs[i].1;
            proof {
                lemma_key_pos(specs, name@);
                assert(inputs[i as int] == (name@, value@));
                assert(input_check(specs)(inputs[i as int]) == input_problem(
                    name@,
                    value@,
                    specs,
                ));
            }
            match find_spec(&sig.inputs, name.as_str()) {
                None => {
                    proof {
                        lemma_first_some_prefix(inputs, i + 1, input_check(specs));
                    }
                    return Err(InputError::UnknownInput(name.clone()));
                },
                Some(j) => {
                    let ty = value.ty();
                    assert(specs[j as int] == (
                        sig.inputs@[j as int].name@,
                        (sig.inputs@[j as int].ty@, sig.inputs@[j as int].required),
                    ));
                    if !ty.is_coercible_to(&sig.inputs[j].ty) {
                        proof {
                            lemma_first_some_prefix(inputs, i + 1, input_check(specs));
                        }
                        return Err(
                            InputError::InputType {
                                name: name.clone(),
                                expected: sig.inputs[j].ty.clone(),
                                found: ty,
                            },
                        );
                    }
                },
            }
            i = i + 1;
        }
        assert(inputs.take(i as int) =~= inputs);
        let mut j: usize = 0;
        while j < sig.inputs.len()
            invariant
                j <= sig.inputs@.len(),
                specs == spec_entries(sig.inputs@),
                inputs == entries(self.inputs@),
                w == self@,
                w.inputs == inputs,
                first_some(inputs, input_check(specs)) is None,
                first_some(specs.take(j as int), missing_check(inputs)) is None,
            decreases sig.inputs@.len() - j,
        {
            proof {
                lemma_first_some_step(specs, j as int, missing_check(inputs));
            }
            let spec = &sig.inputs[j];
            assert(specs[j as int] == (spec.name@, (spec.ty@, spec.required)));
            assert(missing_check(inputs)(specs[j as int]) == missing_problem(specs[j as int], inputs));
            if spec.required && get_entry(&self.inputs, spec.name.as_str()).is_none() {
                proof {
                    lemma_first_some_prefix(specs, j + 1, missing_check(inputs));
                }
                return Err(InputError::MissingInput(spec.name.clone()));
            }
            j = j + 1;
        }
        assert(specs.take(j as int) =~= specs);
        proof {
            lemma_calls_view(self.calls@);
        }
        if self.calls.len() > 0 && !sig.allows_nested_inputs {
            return Err(InputError::NestedInputsNotAllowed(sig.name.clone()));
        }
        let mut c: usize = 0;
        while c < self.calls.len()
            invariant
                c <= self.calls@.len(),
                w == self@,
                w.calls == calls_view(self.calls@),
                w.calls.len() == self.calls@.len(),
                forall|k: int|
                    0 <= k < self.calls@.len() ==> #[trigger] w.calls[k] == (
                        self.calls@[k].0@,
                        self.calls@[k].1@,
                    ),
                calls_problem(w, *sig, c as int) is None,
            decreases self.calls@.len() - c,
        {
            let name = &self.calls[c].0;
            let nested = &self.calls[c].1;
            assert(w.calls[c as int] == (name@, nested@));
            proof {
                lemma_key_pos(call_entries(sig.calls@), name@);
            }
            let found = find_call(&sig.calls, name.as_str());
            match found {
                None => {
                    proof {
                        assert(map_get(call_entries(sig.calls@), name@) is None);
                        assert(w.calls[c as int].0 == name@);
                        assert(call_problem(w, *sig, c as int) == Some(
                            InputErrorView::UnknownCall(name@),
                        ));
                        assert(calls_problem(w, *sig, c + 1) == Some(
                            InputErrorView::UnknownCall(name@),
                        ));
                        lemma_calls_problem_prefix(w, *sig, c + 1, w.calls.len() as int);
                    }
                    return Err(InputError::UnknownCall(name.clone()));
                },
                Some(ci) => {
                    let call = &sig.calls[ci];
                    assert(call_entries(sig.calls@)[ci as int] == (call.name@, *call));
                    match (&call.target, nested) {
                        (CallTarget::Task { task, rules }, Inputs::Task(t)) => {
                            match t.validate(rules, task) {
                                Err(e) => {
                                    proof {
                                        lemma_calls_problem_prefix(
                                            w,
                                            *sig,
                                            c + 1,
                                            w.calls.len() as int,
                                        );
                                    }
                                    return Err(e);
                                },
                                Ok(()) => {},
                            }
                            match check_specified(&t.inputs, call) {
                                Err(e) => {
                                    proof {
                                        lemma_calls_problem_prefix(
                                            w,
                                            *sig,
                                            c + 1,
                                            w.calls.len() as int,
                                        );
                                    }
                                    return Err(e);
                                },
                                Ok(()) => {},
                            }
                        },
                        (CallTarget::Task { .. }, Inputs::Workflow(_)) => {
                            proof {
                                lemma_calls_problem_prefix(w, *sig, c + 1, w.calls.len() as int);
                            }
                            return Err(InputError::TaskInputsExpected(name.clone()));
                        },
                        (CallTarget::Workflow(wf), Inputs::Workflow(w2)) => {
                            proof {
                                lemma_workflow_decreases(*self);
                                assert(decreases_to!(self.calls@ => self.calls@[c as int]));
                            }
                            match w2.validate(wf) {
                                Err(e) => {
                                    proof {
                                        lemma_calls_problem_prefix(
                                            w,
                                            *sig,
                                            c + 1,
                                            w.calls.len() as int,
                                        );
                                    }
                                    return Err(e);
                                },
                                Ok(()) => {},
                            }
                            match check_specified(&w2.inputs, call) {
                                Err(e) => {
                                    proof {
                                        lemma_calls_problem_prefix(
                                            w,
                                            *sig,
                                            c + 1,
                                            w.calls.len() as int,
                                        );
                                    }
                                    return Err(e);
                                },
                                Ok(()) => {},
                            }
                        },
                        (CallTarget::Workflow(_), Inputs::Task(_)) => {
                            proof {
                                lemma_calls_problem_prefix(w, *sig, c + 1, w.calls.len() as int);
                            }
                            return Err(InputError::WorkflowInputsExpected(name.clone()));
                        },
                    }
                },
            }
            c = c + 1;
        }
        if sig.allows_nested_inputs {
            let ghost check = missing_call_check(w.calls);
            let mut k: usize = 0;
            while k < sig.calls.len()
                invariant
                    k <= sig.calls@.len(),
                    w == self@,
                    w.calls == calls_view(self.calls@),
                    check == missing_call_check(w.calls),
                    first_some(sig.calls@.take(k as int), check) is None,
                decreases sig.calls@.len() - k,
            {
                proof {
                    lemma_first_some_step(sig.calls@, k as int, check);
                }
                let call = &sig.calls[k];
                let ghost inner = |inp: (Seq<char>, (TypeView, bool))|
                    if inp.1.1 && !texts_of(call.specified@).contains(inp.0) && !(match map_get(
                        w.calls,
                        call.name@,
                    ) {
                        Some(i) => nested_get(i, inp.0) is Some,
                        None => false,
                    }) {
                        Some(InputErrorView::MissingCallInput(inp.0, call.name@))
                    } else {
                        None
                    };
                let ghost ins = spec_entries(call.inputs@);
                assert(check(*call) == first_some(ins, inner));
                let mut m: usize = 0;
                while m < call.inputs.len()
                    invariant
                        m <= call.inputs@.len(),
                        ins == spec_entries(call.inputs@),
                        w.calls == calls_view(self.calls@),
                        first_some(ins.take(m as int), inner) is None,
                    decreases call.inputs@.len() - m,
                {
                    proof {
                        lemma_first_some_step(ins, m as int, inner);
                    }
                    let inp = &call.inputs[m];
                    assert(ins[m as int] == (inp.name@, (inp.ty@, inp.required)));
                    if inp.required && !contains_text(&call.specified, &inp.name) && !nested_has(
                        &self.calls,
                        &call.name,
                        &inp.name,
                    ) {
                        proof {
                            lemma_first_some_prefix(ins, m + 1, inner);
                            lemma_first_some_prefix(sig.calls@, k + 1, check);
                        }
                        return Err(
                            InputError::MissingCallInput {
                                input: inp.name.clone(),
                                call: call.name.clone(),
                            },
                        );
                    }
                    m = m + 1;
                }
                assert(ins.take(m as int) =~= ins);
                k = k + 1;
            }
            assert(sig.calls@.take(k as int) =~= sig.calls@);
        }
        Ok(())
    }

    /// Sets a value by a dotted key (see [`workflow_set_path`]): a workflow
    /// input, or, through a call's name, a value in the inputs of that call.
    #[verifier::rlimit(60)]
    pub fn set_path_value(&mut self, sig: &WorkflowSignature, path: &str, value: Value) -> (r:
        Result<(), InputError>)
        requires
            workflow_set_ok(old(self)@, *sig, path@),
        ensures
            (final(self)@, result_view(r)) == workflow_set_path(old(self)@, *sig, path@, value@),
        decreases path@.len(),
    {
        proof {
            lemma_split_dot(path@);
            lemma_calls_view(self.calls@);
        }
        let ty = value.ty();
        match split_path(path) {
            Some((name, rest)) => {
                if !sig.allows_nested_inputs {
                    return Err(InputError::NestedInputsNotAllowed(sig.name.clone()));
                }
                proof {
                    lemma_key_pos(call_entries(sig.calls@), name@);
                }
                let ci = match find_call(&sig.calls, name.as_str()) {
                    None => {
                        return Err(InputError::NoSuchCall { workflow: sig.name.clone(), name });
                    },
                    Some(ci) => ci,
                };
                let call = &sig.calls[ci];
                assert(call_entries(sig.calls@)[ci as int] == (call.name@, *call));
                let ghost w0 = self@;
                proof {
                    lemma_find_key_pos(self.calls@, calls_view(self.calls@), name@);
                    lemma_key_pos(calls_view(self.calls@), name@);
                }
                let k = match find_key(self.calls.as_slice(), name.as_str()) {
                    Some(k) => {
                        proof {
                            if let Some(d) = key_pos(w0.calls, name@) {
                                if d < k {
                                    assert(w0.calls[d].0 == self.calls@[d].0@);
                                }
                                if d > k {
                                    assert(w0.calls[k as int].0 == self.calls@[k as int].0@);
                                }
                            } else {
                                assert(w0.calls[k as int].0 == self.calls@[k as int].0@);
                            }
                        }
                        k
                    },
                    None => {
                        let fresh = match &call.target {
                            CallTarget::Task { .. } => Inputs::Task(TaskInputs::default()),
                            CallTarget::Workflow(_) => Inputs::Workflow(WorkflowInputs::default()),
                        };
                        let ghost fv = fresh@;
                        assert(fv == empty_inputs(call.target));
                        let ghost before = self.calls@;
                        self.calls.push((name.clone(), fresh));
                        proof {
                            lemma_calls_view(self.calls@);
                            assert(calls_view(self.calls@) =~= calls_view(before).push((name@, fv)));
                        }
                        self.calls.len() - 1
                    },
                };
                let ghost w1 = self@;
                proof {
                    lemma_calls_view(self.calls@);
                    lemma_key_pos(w1.calls, name@);
                    assert(w1.calls[k as int].0 == self.calls@[k as int].0@);
                    if let Some(d) = key_pos(w1.calls, name@) {
                        if d < k {
                            assert(w1.calls[d].0 == self.calls@[d].0@);
                        }
                    }
                }
                let next = match split_path(rest.as_str()) {
                    Some((n, _)) => n,
                    None => rest.clone(),
                };
                if contains_text(&call.specified, &next) {
                    return Err(InputError::SpecifiedNestedInput { input: next, call: name });
                }
                let (entry_name, entry) = self.calls.remove(k);
                proof {
                    assert(w1.calls[k as int] == (entry_name@, entry@));
                    assert(entry_name@ == name@);
                }
                match entry {
                    Inputs::Task(mut t) => match &call.target {
                        CallTarget::Task { task, rules } => {
                            let ghost tv = t@;
                            assert(w1.calls[k as int].1 == InputsView::Task(tv));
                            let r = t.set_path_value(rules, task, rest.as_str(), value);
                            let ghost nv = InputsView::Task(t@);
                            self.calls.insert(k, (entry_name, Inputs::Task(t)));
                            proof {
                                lemma_calls_view(self.calls@);
                                assert(calls_view(self.calls@) =~= w1.calls.update(
                                    k as int,
                                    (name@, nv),
                                ));
                                match task_set_path(
                                    tv.inputs,
                                    tv.requirements,
                                    tv.hints,
                                    task.name@,
                                    spec_entries(task.inputs@),
                                    type_entries(rules.requirement_types@),
                                    type_entries(rules.hint_types@),
                                    rest@,
                                    value@,
                                ) {
                                    Ok(_) => {},
                                    Err(_) => {
                                        assert(nv == w1.calls[k as int].1);
                                        assert(w1.calls.update(k as int, (name@, nv)) =~= w1.calls);
                                    },
                                }
                            }
                            r
                        },
                        CallTarget::Workflow(_) => {
                            self.calls.insert(k, (entry_name, Inputs::Task(t)));
                            proof {
                                lemma_calls_view(self.calls@);
                                assert(calls_view(self.calls@) =~= w1.calls);
                            }
                            Ok(())
                        },
                    },
                    Inputs::Workflow(mut w2) => match &call.target {
                        CallTarget::Workflow(wf) => {
                            let ghost wv = w2@;
                            assert(w1.calls[k as int].1 == InputsView::Workflow(wv));
                            let r = w2.set_path_value(wf, rest.as_str(), value);
                            let ghost nv = InputsView::Workflow(w2@);
                            self.calls.insert(k, (entry_name, Inputs::Workflow(w2)));
                            proof {
                                lemma_calls_view(self.calls@);
                                assert(calls_view(self.calls@) =~= w1.calls.update(
                                    k as int,
                                    (name@, nv),
                                ));
                            }
                            r
                        },
                        CallTarget::Task { .. } => {
                            self.calls.insert(k, (entry_name, Inputs::Workflow(w2)));
                            proof {
                                lemma_calls_view(self.calls@);
                                assert(calls_view(self.calls@) =~= w1.calls);
                            }
                            Ok(())
                        },
                    },
                }
            },
            None => {
                let ghost specs = spec_entries(sig.inputs@);
                proof {
                    lemma_key_pos(specs, path@);
                }
                match find_spec(&sig.inputs, path) {
                    None => Err(
                        InputError::NoSuchInput { owner: sig.name.clone(), path: path.to_owned() },
                    ),
                    Some(j) => {
                        assert(specs[j as int] == (
                            sig.inputs@[j as int].name@,
                            (sig.inputs@[j as int].ty@, sig.inputs@[j as int].required),
                        ));
                        if ty.is_coercible_to(&sig.inputs[j].ty) {
                            set_entry(&mut self.inputs, path.to_owned(), value);
                            Ok(())
                        } else {
                            Err(
                                InputError::InputType {
                                    name: path.to_owned(),
                                    expected: sig.inputs[j].ty.clone(),
                                    found: ty,
                                },
                            )
                        }
                    },
                }
            },
        }
    }
}

impl Inputs {
    /// Gets an input value: of the task or of the workflow.
    pub fn get(&self, name: &str) -> (r: Option<&Value>)
        ensures
            match nested_get(self@, name@) {
                Some(v) => r matches Some(x) && x@ == v,
                None => r is None,
            },
    {
        match self {
            Inputs::Task(t) => get_entry(&t.inputs, name),
            Inputs::Workflow(w) => get_entry(&w.inputs, name),
        }
    }

    /// Gets the task inputs; `None` for workflow inputs.
    pub fn as_task_inputs(&self) -> (r: Option<&TaskInputs>)
        ensures
            match *self {
                Inputs::Task(t) => r == Some(&t),
                Inputs::Workflow(_) => r is None,
            },
    {
        match self {
            Inputs::Task(t) => Some(t),
            Inputs::Workflow(_) => None,
        }
    }

    /// Gets the workflow inputs; `None` for task inputs.
    pub fn as_workflow_inputs(&self) -> (r: Option<&WorkflowInputs>)
        ensures
            match *self {
                Inputs::Workflow(w) => r == Some(&w),
                Inputs::Task(_) => r is None,
            },
    {
        match self {
            Inputs::Task(_) => None,
            Inputs::Workflow(w) => Some(w),
        }
    }
}

/// What parsing an inputs file reads of a document: what its version
/// allows, its tasks and its workflow.
#[derive(Debug)]
pub struct DocumentSignature {
    /// What the document's version allows.
    pub rules: VersionRules,
    /// The tasks of the document.
    pub tasks: Vec<TaskSignature>,
    /// The workflow of the document, if any.
    pub workflow: Option<WorkflowSignature>,
}

/// The tasks of a document, by name.
pub open spec fn task_entries(tasks: Seq<TaskSignature>) -> Seq<(Seq<char>, TaskSignature)> {
    tasks.map_values(|t: TaskSignature| (t.name@, t))
}

/// Empty task inputs.
pub open spec fn empty_task() -> TaskInputsView {
    TaskInputsView { inputs: Seq::empty(), requirements: Seq::empty(), hints: Seq::empty() }
}

/// Task inputs after the entries `es` of an inputs file, each key being
/// the task's name, a dot and what to set; or the first error, with its key.
pub open spec fn task_parse(
    es: Seq<(Seq<char>, ValueView)>,
    task: TaskSignature,
    rules: VersionRules,
) -> Result<TaskInputsView, InputErrorView>
    decreases es.len(),
{
    if es.len() == 0 {
        Ok(empty_task())
    } else {
        match task_parse(es.drop_last(), task, rules) {
            Err(e) => Err(e),
            Ok(t) => {
                let (key, value) = es.last();
                match split_dot(key) {
                    Some((prefix, rest)) => if prefix == task.name@ {
                        match task_set_path(
                            t.inputs,
                            t.requirements,
                            t.hints,
                            task.name@,
                            spec_entries(task.inputs@),
                            type_entries(rules.requirement_types@),
                            type_entries(rules.hint_types@),
                            rest,
                            value,
                        ) {
                            Ok((i, q, h)) => Ok(TaskInputsView { inputs: i, requirements: q, hints: h }),
                            Err(e) => Err(InputErrorView::AtKey(key, Box::new(e))),
                        }
                    } else {
                        Err(InputErrorView::WrongPrefix(key, task.name@))
                    },
                    None => Err(InputErrorView::WrongPrefix(key, task.name@)),
                }
            },
        }
    }
}

/// Workflow inputs after the entries `es` of an inputs file, each key being
/// the workflow's name, a dot and what to set; or the first error, with its
/// key.
pub open spec fn workflow_parse(es: Seq<(Seq<char>, ValueView)>, wf: WorkflowSignature) -> Result<
    WorkflowInputsView,
    InputErrorView,
>
    decreases es.len(),
{
    if es.len() == 0 {
        Ok(WorkflowInputsView { inputs: Seq::empty(), calls: Seq::empty() })
    } else {
        match workflow_parse(es.drop_last(), wf) {
            Err(e) => Err(e),
            Ok(w) => {
                let (key, value) = es.last();
                match split_dot(key) {
                    Some((prefix, rest)) => if prefix == wf.name@ {
                        match workflow_set_path(w, wf, rest, value) {
                            (nw, Ok(())) => Ok(nw),
                            (_, Err(e)) => Err(InputErrorView::AtKey(key, Box::new(e))),
                        }
                    } else {
                        Err(InputErrorView::WrongPrefix(key, wf.name@))
                    },
                    None => Err(InputErrorView::WrongPrefix(key, wf.name@)),
                }
            },
        }
    }
}

/// What parsing the root object `es` of an inputs file gives: nothing for
/// an empty object; else the first key's part before its first dot names the
/// task (looked up first) or the workflow whose inputs all the keys set.
pub open spec fn parse_view(es: Seq<(Seq<char>, ValueView)>, doc: DocumentSignature) -> Result<
    Option<(Seq<char>, InputsView)>,
    InputErrorView,
> {
    if es.len() == 0 {
        Ok(None)
    } else {
        let key = es[0].0;
        match split_dot(key) {
            None => Err(InputErrorView::InvalidKey(key)),
            Some((name, _)) => match map_get(task_entries(doc.tasks@), name) {
                Some(task) => match task_parse(es, task, doc.rules) {
                    Ok(t) => Ok(Some((task.name@, InputsView::Task(t)))),
                    Err(e) => Err(e),
                },
                None => match doc.workflow {
                    Some(wf) => if wf.name@ == name {
                        match workflow_parse(es, wf) {
                            Ok(w) => Ok(Some((wf.name@, InputsView::Workflow(w)))),
                            Err(e) => Err(e),
                        }
                    } else {
                        Err(InputErrorView::UnknownTarget(key, name))
                    },
                    None => Err(InputErrorView::UnknownTarget(key, name)),
                },
            },
        }
    }
}

/// The view of a parse result.
pub open spec fn parsed_view(r: Result<Option<(String, Inputs)>, InputError>) -> Result<
    Option<(Seq<char>, InputsView)>,
    InputErrorView,
> {
    match r {
        Ok(None) => Ok(None),
        Ok(Some((n, i))) => Ok(Some((n@, i@))),
        Err(e) => Err(e@),
    }
}


/// Finds the first task named `name`.
fn find_task(tasks: &Vec<TaskSignature>, name: &String) -> (r: Option<usize>)
    ensures
        match r {
            Some(i) => key_pos(task_entries(tasks@), name@) == Some(i as int),
            None => key_pos(task_entries(tasks@), name@) is None,
        },
{
    proof {
        lemma_key_pos(task_entries(tasks@), name@);
    }
    let mut i: usize = 0;
    while i < tasks.len()
        invariant
            i <= tasks@.len(),
            forall|j: int| 0 <= j < i ==> #[trigger] tasks@[j].name@ != name@,
        decreases tasks@.len() - i,
    {
        if tasks[i].name == *name {
            proof {
                lemma_key_pos(task_entries(tasks@), name@);
                assert(task_entries(tasks@)[i as int].0 == name@);
                if let Some(d) = key_pos(task_entries(tasks@), name@) {
                    if d < i {
                        assert(task_entries(tasks@)[d].0 == tasks@[d].name@);
                    }
                }
            }
            return Some(i);
        }
        i = i + 1;
    }
    proof {
        if let Some(d) = key_pos(task_entries(tasks@), name@) {
            assert(task_entries(tasks@)[d].0 == tasks@[d].name@);
        }
    }
    None
}

/// Whether the part of `key` before its first dot is `name`.
fn prefix_is(key: &String, name: &String) -> (r: Option<String>)
    ensures
        match split_dot(key@) {
            Some((p, rest)) => if p == name@ {
                r matches Some(x) && x@ == rest
            } else {
                r is None
            },
            None => r is None,
        },
{
    match split_path(key.as_str()) {
        Some((p, rest)) => if p == *name {
            Some(rest)
        } else {
            None
        },
        None => None,
    }
}

/// Parses the inputs of a task from the entries of an inputs file.
fn parse_task_inputs(task: &TaskSignature, rules: &VersionRules, object: Vec<(String, Value)>) -> (r:
    Result<TaskInputs, InputError>)
    requires
        rules.has_version,
    ensures
        match task_parse(entries(object@), *task, *rules) {
            Ok(t) => r matches Ok(x) && x@ == t,
            Err(e) => r matches Err(x) && x@ == e,
        },
{
    let ghost all = entries(object@);
    let mut rest = object;
    let mut inputs = TaskInputs::default();
    let ghost mut i: int = 0;
    assert(all.take(0) =~= Seq::<(Seq<char>, ValueView)>::empty());
    while rest.len() > 0
        invariant
            0 <= i <= all.len(),
            all == entries(object@),
            rules.has_version,
            entries(rest@) == all.skip(i),
            task_parse(all.take(i), *task, *rules) == Ok::<TaskInputsView, InputErrorView>(
                inputs@,
            ),
        decreases rest@.len(),
    {
        let ghost before = rest@;
        let (key, value) = rest.remove(0);
        proof {
            assert(entries(before)[0] == (key@, value@));
            assert(entries(before).len() == all.len() - i);
            assert(all.skip(i)[0] == all[i]);
            assert(all[i] == entries(before)[0]);
            assert(rest@ =~= before.subrange(1, before.len() as int));
            assert forall|j: int| 0 <= j < entries(rest@).len() implies #[trigger] entries(rest@)[j]
                == all.skip(i + 1)[j] by {
                assert(entries(rest@)[j] == entries(before)[j + 1]);
                assert(all.skip(i)[j + 1] == all.skip(i + 1)[j]);
            }
            assert(entries(rest@) =~= all.skip(i + 1));
            assert(all.take(i + 1).drop_last() =~= all.take(i));
            assert(all.take(i + 1).last() == all[i]);
        }
        match prefix_is(&key, &task.name) {
            Some(path) => {
                match inputs.set_path_value(rules, task, path.as_str(), value) {
                    Ok(()) => {},
                    Err(e) => {
                        proof {
                            lemma_task_parse_prefix(all, i + 1, *task, *rules);
                        }
                        return Err(InputError::AtKey { key, error: Box::new(e) });
                    },
                }
            },
            None => {
                proof {
                    lemma_task_parse_prefix(all, i + 1, *task, *rules);
                }
                let expected = task.name.clone();
                return Err(InputError::WrongPrefix { key, expected });
            },
        }
        proof {
            i = i + 1;
        }
    }
    assert(all.take(i) =~= all);
    Ok(inputs)
}

/// Once a prefix of the entries fails, all of them fail the same way.
proof fn lemma_task_parse_prefix(
    es: Seq<(Seq<char>, ValueView)>,
    k: int,
    task: TaskSignature,
    rules: VersionRules,
)
    requires
        0 <= k <= es.len(),
        task_parse(es.take(k), task, rules) is Err,
    ensures
        task_parse(es, task, rules) == task_parse(es.take(k), task, rules),
    decreases es.len() - k,
{
    if k < es.len() {
        assert(es.drop_last().take(k) =~= es.take(k));
        lemma_task_parse_prefix(es.drop_last(), k, task, rules);
    } else {
        assert(es.take(k) =~= es);
    }
}

/// Once a prefix of the entries fails, all of them fail the same way.
proof fn lemma_workflow_parse_prefix(es: Seq<(Seq<char>, ValueView)>, k: int, wf: WorkflowSignature)
    requires
        0 <= k <= es.len(),
        workflow_parse(es.take(k), wf) is Err,
    ensures
        workflow_parse(es, wf) == workflow_parse(es.take(k), wf),
    decreases es.len() - k,
{
    if k < es.len() {
        assert(es.drop_last().take(k) =~= es.take(k));
        lemma_workflow_parse_prefix(es.drop_last(), k, wf);
    } else {
        assert(es.take(k) =~= es);
    }
}

/// Parses the inputs of a workflow from the entries of an inputs file.
fn parse_workflow_inputs(wf: &WorkflowSignature, object: Vec<(String, Value)>) -> (r: Result<
    WorkflowInputs,
    InputError,
>)
    requires
        versions_ok(*wf),
    ensures
        match workflow_parse(entries(object@), *wf) {
            Ok(w) => r matches Ok(x) && x@ == w,
            Err(e) => r matches Err(x) && x@ == e,
        },
{
    let ghost all = entries(object@);
    let mut rest = object;
    let mut inputs = WorkflowInputs::default();
    let ghost mut i: int = 0;
    assert(all.take(0) =~= Seq::<(Seq<char>, ValueView)>::empty());
    assert(kinds_ok(inputs@, *wf));
    while rest.len() > 0
        invariant
            0 <= i <= all.len(),
            all == entries(object@),
            versions_ok(*wf),
            kinds_ok(inputs@, *wf),
            entries(rest@) == all.skip(i),
            workflow_parse(all.take(i), *wf) == Ok::<WorkflowInputsView, InputErrorView>(
                inputs@,
            ),
        decreases rest@.len(),
    {
        let ghost before = rest@;
        let (key, value) = rest.remove(0);
        proof {
            assert(entries(before)[0] == (key@, value@));
            assert(entries(before).len() == all.len() - i);
            assert(all.skip(i)[0] == all[i]);
            assert(all[i] == entries(before)[0]);
            assert(rest@ =~= before.subrange(1, before.len() as int));
            assert forall|j: int| 0 <= j < entries(rest@).len() implies #[trigger] entries(rest@)[j]
                == all.skip(i + 1)[j] by {
                assert(entries(rest@)[j] == entries(before)[j + 1]);
                assert(all.skip(i)[j + 1] == all.skip(i + 1)[j]);
            }
            assert(entries(rest@) =~= all.skip(i + 1));
            assert(all.take(i + 1).drop_last() =~= all.take(i));
            assert(all.take(i + 1).last() == all[i]);
        }
        match prefix_is(&key, &wf.name) {
            Some(path) => {
                proof {
                    lemma_set_ok(inputs@, *wf, path@);
                    lemma_set_keeps_kinds(inputs@, *wf, path@, value@);
                }
                match inputs.set_path_value(wf, path.as_str(), value) {
                    Ok(()) => {},
                    Err(e) => {
                        proof {
                            lemma_workflow_parse_prefix(all, i + 1, *wf);
                        }
                        return Err(InputError::AtKey { key, error: Box::new(e) });
                    },
                }
            },
            None => {
                proof {
                    lemma_workflow_parse_prefix(all, i + 1, *wf);
                }
                let expected = wf.name.clone();
                return Err(InputError::WrongPrefix { key, expected });
            },
        }
        proof {
            i = i + 1;
        }
    }
    assert(all.take(i) =~= all);
    Ok(inputs)
}

impl Inputs {
    /// Parses the root object of an inputs file, given as its keys and
    /// values in order (see [`parse_view`]).
    pub fn parse_object(document: &DocumentSignature, object: Vec<(String, Value)>) -> (r: Result<
        Option<(String, Inputs)>,
        InputError,
    >)
        requires
            document.rules.has_version,
            match document.workflow {
                Some(wf) => versions_ok(wf),
                None => true,
            },
        ensures
            parsed_view(r) == parse_view(entries(object@), *document),
    {
        if object.len() == 0 {
            return Ok(None);
        }
        assert(entries(object@)[0] == (object@[0].0@, object@[0].1@));
        let (name, _) = match split_path(object[0].0.as_str()) {
            Some(parts) => parts,
            None => {
                return Err(InputError::InvalidKey(object[0].0.clone()));
            },
        };
        proof {
            lemma_key_pos(task_entries(document.tasks@), name@);
        }
        match find_task(&document.tasks, &name) {
            Some(t) => {
                let task = &document.tasks[t];
                assert(task_entries(document.tasks@)[t as int] == (task.name@, *task));
                match parse_task_inputs(task, &document.rules, object) {
                    Ok(inputs) => Ok(Some((task.name.clone(), Inputs::Task(inputs)))),
                    Err(e) => Err(e),
                }
            },
            None => match &document.workflow {
                Some(wf) => {
                    if wf.name == name {
                        match parse_workflow_inputs(wf, object) {
                            Ok(inputs) => Ok(Some((wf.name.clone(), Inputs::Workflow(inputs)))),
                            Err(e) => Err(e),
                        }
                    } else {
                        Err(InputError::UnknownTarget { key: object[0].0.clone(), name })
                    }
                },
                None => Err(InputError::UnknownTarget { key: object[0].0.clone(), name }),
            },
        }
    }
}

/// The index of the first member of `ms` (among the first `n`) whose JSON
/// value has no WDL value.
pub open spec fn first_bad(ms: Seq<(String, Json)>, n: int) -> Option<int>
    decreases n,
{
    if n <= 0 {
        None
    } else {
        match first_bad(ms, n - 1) {
            Some(k) => Some(k),
            None => if json_value(ms[n - 1].1) is None {
                Some(n - 1)
            } else {
                None
            },
        }
    }
}

/// The first `n` members of `ms` with their WDL values.
pub open spec fn converted(ms: Seq<(String, Json)>, n: int) -> Seq<(Seq<char>, ValueView)> {
    Seq::new(n as nat, |i: int| (ms[i].0@, json_value(ms[i].1)->Some_0))
}

/// What the first key of an inputs object says of its target: an error
/// where it has no dot or names no task or workflow of the document.
pub open spec fn target_error(key: Seq<char>, doc: DocumentSignature) -> Option<InputErrorView> {
    match split_dot(key) {
        None => Some(InputErrorView::InvalidKey(key)),
        Some((name, _)) => match map_get(task_entries(doc.tasks@), name) {
            Some(_) => None,
            None => match doc.workflow {
                Some(wf) => if wf.name@ == name {
                    None
                } else {
                    Some(InputErrorView::UnknownTarget(key, name))
                },
                None => Some(InputErrorView::UnknownTarget(key, name)),
            },
        },
    }
}

/// What [`parse_inputs_text`] gives for the text `text`: an error where the
/// text is not JSON or its JSON is not an object. Otherwise the members are
/// taken in order as [`parse_view`] says; a member whose value has no WDL
/// value is an error at its key, reached after the members before it (and,
/// for the first member, after its key has named a task or workflow).
pub open spec fn parse_text_view(text: Seq<char>, doc: DocumentSignature) -> Result<
    Option<(Seq<char>, InputsView)>,
    InputErrorView,
> {
    match json_parse(text) {
        None => Err(InputErrorView::InvalidJson),
        Some(Json::Object(members)) => {
            let ms = members@;
            match first_bad(ms, ms.len() as int) {
                None => parse_view(converted(ms, ms.len() as int), doc),
                Some(k) => if k == 0 {
                    match target_error(ms[0].0@, doc) {
                        Some(e) => Err(e),
                        None => Err(InputErrorView::InvalidValue(ms[0].0@)),
                    }
                } else {
                    match parse_view(converted(ms, k), doc) {
                        Err(e) => Err(e),
                        Ok(_) => Err(InputErrorView::InvalidValue(ms[k].0@)),
                    }
                },
            }
        },
        Some(_) => Err(InputErrorView::NotAnObject),
    }
}

/// Parses the text of an inputs file: a JSON object whose keys start with
/// the name of a task or of the workflow (see [`parse_text_view`]).
#[verifier::loop_isolation(false)]
pub fn parse_inputs_text(document: &DocumentSignature, text: &str) -> (r: Result<
    Option<(String, Inputs)>,
    InputError,
>)
    requires
        document.rules.has_version,
        match document.workflow {
            Some(wf) => versions_ok(wf),
            None => true,
        },
    ensures
        parsed_view(r) == parse_text_view(text@, *document),
{
    match parse_json(text) {
        None => Err(InputError::InvalidJson),
        Some(Json::Object(members)) => {
            let ghost ms = members@;
            let mut object: Vec<(String, Value)> = Vec::new();
            let mut i: usize = 0;
            while i < members.len()
                invariant
                    i <= members@.len(),
                    ms == members@,
                    object@.len() == i,
                    first_bad(ms, i as int) is None,
                    entries(object@) =~= converted(ms, i as int),
                decreases members@.len() - i,
            {
                let (k, m) = &members[i];
                match json_to_value(m) {
                    Some(v) => {
                        let ghost before = object@;
                        let key = k.clone();
                        object.push((key, v));
                        proof {
                            assert(object@ =~= before.push((key, v)));
                            assert(entries(object@) =~= entries(before).push((key@, v@)));
                            assert(ms[i as int].0@ == key@);
                            assert(entries(object@) =~= converted(ms, i + 1));
                        }
                    },
                    None => {
                        assert(first_bad(ms, i + 1) == Some(i as int));
                        proof {
                            lemma_first_bad_extends(ms, i as int + 1, ms.len() as int);
                        }
                        if i == 0 {
                            return first_key_error(document, k);
                        } else {
                            return match Inputs::parse_object(document, object) {
                                Err(e) => Err(e),
                                Ok(_) => Err(InputError::InvalidValue(k.clone())),
                            };
                        }
                    },
                }
                i = i + 1;
            }
            Inputs::parse_object(document, object)
        },
        Some(_) => Err(InputError::NotAnObject),
    }
}

/// A first bad member stays the first as more members are looked at.
proof fn lemma_first_bad_extends(ms: Seq<(String, Json)>, a: int, b: int)
    requires
        0 <= a <= b,
        first_bad(ms, a) is Some,
    ensures
        first_bad(ms, b) == first_bad(ms, a),
    decreases b - a,
{
    if b > a {
        lemma_first_bad_extends(ms, a, b - 1);
    }
}

/// The error for an inputs object whose first member has no WDL value: its
/// key's own error if the key names no task or workflow, else an invalid
/// value at that key.
fn first_key_error(document: &DocumentSignature, key: &String) -> (r: Result<
    Option<(String, Inputs)>,
    InputError,
>)
    ensures
        r is Err,
        parsed_view(r) == match target_error(key@, *document) {
            Some(e) => Err::<Option<(Seq<char>, InputsView)>, InputErrorView>(e),
            None => Err(InputErrorView::InvalidValue(key@)),
        },
{
    match split_path(key.as_str()) {
        None => Err(InputError::InvalidKey(key.clone())),
        Some((name, _)) => {
            proof {
                lemma_key_pos(task_entries(document.tasks@), name@);
            }
            match find_task(&document.tasks, &name) {
                Some(t) => {
                    assert(task_entries(document.tasks@)[t as int].0 == document.tasks@[t as int].name@);
                    Err(InputError::InvalidValue(key.clone()))
                },
                None => match &document.workflow {
                    Some(wf) => if wf.name == name {
                        Err(InputError::InvalidValue(key.clone()))
                    } else {
                        Err(InputError::UnknownTarget { key: key.clone(), name })
                    },
                    None => Err(InputError::UnknownTarget { key: key.clone(), name }),
                },
            }
        },
    }
}

/// A value's type is accepted for a requirement or hint when it coerces to
/// any of the allowed types, wherever that type stands among them.
pub proof fn lemma_coerces_to_any_position(t: TypeView, targets: Seq<TypeView>, i: int)
    requires
        0 <= i < targets.len(),
        coercible(t, targets[i]),
    ensures
        coerces_to_any(t, targets),
{
}

/// Allowing more types accepts what was accepted before and what the new
/// types accept, and nothing else: the allowed types of two lists together
/// accept a type exactly when one of the lists does.
pub proof fn lemma_coerces_to_any_concat(t: TypeView, a: Seq<TypeView>, b: Seq<TypeView>)
    ensures
        coerces_to_any(t, a + b) == (coerces_to_any(t, a) || coerces_to_any(t, b)),
        !coerces_to_any(t, Seq::<TypeView>::empty()),
{
    if coerces_to_any(t, a + b) {
        let i = choose|i: int| 0 <= i < (a + b).len() && coercible(t, #[trigger] (a + b)[i]);
        if i < a.len() {
            assert(a[i] == (a + b)[i]);
        } else {
            assert(b[i - a.len()] == (a + b)[i]);
        }
    }
    if coerces_to_any(t, a) {
        let i = choose|i: int| 0 <= i < a.len() && coercible(t, #[trigger] a[i]);
        assert((a + b)[i] == a[i]);
    }
    if coerces_to_any(t, b) {
        let i = choose|i: int| 0 <= i < b.len() && coercible(t, #[trigger] b[i]);
        assert((a + b)[a.len() + i] == b[i]);
    }
}

} // verus!
