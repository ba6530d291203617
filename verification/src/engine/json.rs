//! JSON documents, as read from inputs files, and their WDL values.
use serde_json::Value as SerdeJson;
use serde_json::Value::{Array as JArray, Bool as JBool, Null as JNull, Number as JNumber};
use serde_json::Value::{Object as JObject, String as JString};
use vstd::prelude::*;

use crate::engine::types::{Type, TypeView};
use crate::engine::value::{collect_fields, lemma_value_view, Engine, Value, ValueView};

verus! {

/// A JSON value, its numbers in the three forms the parser tells apart.
#[derive(Debug)]
pub enum Json {
    /// `null`.
    Null,
    /// `true` or `false`.
    Bool(bool),
    /// A non-negative integer.
    UInt(u64),
    /// A negative integer.
    Int(i64),
    /// Any other number, as the bits of its binary64 value.
    Float(u64),
    /// A string.
    Str(String),
    /// An array.
    Array(Vec<Json>),
    /// An object, its members in the order the parser gives them.
    Object(Vec<(String, Json)>),
}

/// What `serde_json` makes of `text` when it parses it as a
/// `serde_json::Value`: `None` where the text is not JSON.
pub uninterp spec fn json_parse(text: Seq<char>) -> Option<Json>;

/// Calls `serde_json::from_str::<serde_json::Value>` on `text`; the result,
/// converted variant by variant, is named [`json_parse`]. A number is taken
/// in the form the parser holds it in (`as_u64`, else `as_i64`, else
/// `as_f64`). The elements and members of arrays and objects are converted
/// by converting their own JSON text in turn.
#[verifier::external_body]
pub(crate) fn parse_json(text: &str) -> (r: Option<Json>)
    ensures
        r == json_parse(text@),
{
    let each = |v: SerdeJson| parse_json(&v.to_string());
    Some(match serde_json::from_str(text).ok()? {
        JNull => Json::Null,
        JBool(b) => Json::Bool(b),
        JNumber(n) => n.as_u64().map_or(n.as_i64().map_or(Json::Float(n.as_f64()?.to_bits()), Json::Int), Json::UInt),
        JString(s) => Json::Str(s),
        JArray(a) => Json::Array(a.into_iter().map(each).collect::<Option<_>>()?),
        JObject(m) => Json::Object(m.into_iter().map(|(k, v)| Some((k, each(v)?))).collect::<Option<_>>()?),
    })
}

/// The type that arrays read from JSON get: an array of any values.
pub open spec fn json_array_type() -> TypeView {
    TypeView::Array(Box::new(TypeView::Union), false, false)
}

/// The WDL value of a JSON value: `null` is `None`; booleans, floats and
/// strings are themselves; an integer is an `Int`, and one above `i64::MAX`
/// has no WDL value (`None`); an array is an `Array[Union]` of the
/// elements' values and an object an `Object` of the members' values, where
/// every element and member has one.
pub open spec fn json_value(j: Json) -> Option<ValueView>
    decreases j, 1int,
{
    match j {
        Json::Null => Some(ValueView::NoneValue),
        Json::Bool(b) => Some(ValueView::Boolean(b)),
        Json::UInt(u) => if u <= i64::MAX {
            Some(ValueView::Integer(u as i64))
        } else {
            None
        },
        Json::Int(i) => Some(ValueView::Integer(i)),
        Json::Float(f) => Some(ValueView::Float(f)),
        Json::Str(s) => Some(ValueView::String(s@)),
        Json::Array(items) => {
            proof {
                broadcast use vstd::std_specs::vec::axiom_vec_decreases_to_view;
                assert(decreases_to!(items => items@));
            }
            match json_values(items@) {
                Some(vs) => Some(ValueView::Array(json_array_type(), vs)),
                None => None,
            }
        },
        Json::Object(members) => {
            proof {
                broadcast use vstd::std_specs::vec::axiom_vec_decreases_to_view;
                assert(decreases_to!(members => members@));
            }
            match json_members(members@) {
                Some(ms) => Some(ValueView::Object(collect_fields(ms))),
                None => None,
            }
        },
    }
}

/// The WDL values of JSON values, in order, where each has one.
pub open spec fn json_values(s: Seq<Json>) -> Option<Seq<ValueView>>
    decreases s, 0int,
{
    if s.len() == 0 {
        Some(Seq::empty())
    } else {
        match (json_values(s.drop_last()), json_value(s.last())) {
            (Some(vs), Some(v)) => Some(vs.push(v)),
            _ => None,
        }
    }
}

/// The names and WDL values of JSON object members, in order, where each
/// has one.
pub open spec fn json_members(s: Seq<(String, Json)>) -> Option<Seq<(Seq<char>, ValueView)>>
    decreases s, 0int,
{
    if s.len() == 0 {
        Some(Seq::empty())
    } else {
        proof {
            assert(decreases_to!(s.last() => s.last().1));
        }
        match (json_members(s.drop_last()), json_value(s.last().1)) {
            (Some(ms), Some(v)) => Some(ms.push((s.last().0@, v))),
            _ => None,
        }
    }
}

/// Values of JSON values exist exactly when each element has one, and are
/// then those values in order.
pub proof fn lemma_json_values(s: Seq<Json>)
    ensures
        json_values(s) is Some <==> forall|i: int| 0 <= i < s.len() ==> (#[trigger] json_value(s[i])) is Some,
        json_values(s) matches Some(vs) ==> vs.len() == s.len() && forall|i: int|
            0 <= i < s.len() ==> Some(#[trigger] vs[i]) == json_value(s[i]),
    decreases s.len(),
{
    if s.len() > 0 {
        let init = s.drop_last();
        lemma_json_values(init);
        assert forall|i: int| 0 <= i < s.len() - 1 implies init[i] == s[i] by {}
        if forall|i: int| 0 <= i < s.len() ==> (#[trigger] json_value(s[i])) is Some {
            assert forall|i: int| 0 <= i < init.len() implies (#[trigger] json_value(init[i])) is Some by {
                assert(json_value(s[i]) is Some);
            }
            assert(json_value(s[s.len() - 1]) is Some);
        }
        if json_values(s) is Some {
            assert forall|i: int| 0 <= i < s.len() implies (#[trigger] json_value(s[i])) is Some by {
                if i < s.len() - 1 {
                    assert(json_value(init[i]) is Some);
                }
            }
        }
    }
}

/// Members of JSON members exist exactly when each member's value has one,
/// and are then those members in order.
pub proof fn lemma_json_members(s: Seq<(String, Json)>)
    ensures
        json_members(s) is Some <==> forall|i: int| 0 <= i < s.len() ==> (#[trigger] json_value(s[i].1)) is Some,
        json_members(s) matches Some(ms) ==> ms.len() == s.len() && forall|i: int|
            0 <= i < s.len() ==> #[trigger] ms[i] == (s[i].0@, json_value(s[i].1)->Some_0),
    decreases s.len(),
{
    if s.len() > 0 {
        let init = s.drop_last();
        lemma_json_members(init);
        assert forall|i: int| 0 <= i < s.len() - 1 implies init[i] == s[i] by {}
        if forall|i: int| 0 <= i < s.len() ==> (#[trigger] json_value(s[i].1)) is Some {
            assert forall|i: int| 0 <= i < init.len() implies (#[trigger] json_value(init[i].1)) is Some by {
                assert(json_value(s[i].1) is Some);
            }
            assert(json_value(s[s.len() - 1].1) is Some);
        }
        if json_members(s) is Some {
            assert forall|i: int| 0 <= i < s.len() implies (#[trigger] json_value(s[i].1)) is Some by {
                if i < s.len() - 1 {
                    assert(json_value(init[i].1) is Some);
                }
            }
        }
    }
}

/// Converts a JSON value to its WDL value (see [`json_value`]).
#[verifier::loop_isolation(false)]
pub fn json_to_value(j: &Json) -> (v: Option<Value>)
    ensures
        match v {
            Some(x) => json_value(*j) == Some(x@),
            None => json_value(*j) is None,
        },
    decreases j,
{
    match j {
        Json::Null => {
            proof {
                lemma_value_view(Value::NoneValue);
            }
            Some(Value::NoneValue)
        },
        Json::Bool(b) => {
            proof {
                lemma_value_view(Value::Boolean(*b));
            }
            Some(Value::Boolean(*b))
        },
        Json::UInt(u) => {
            if *u <= 9223372036854775807u64 {
                let i = *u as i64;
                proof {
                    lemma_value_view(Value::Integer(i));
                }
                Some(Value::Integer(i))
            } else {
                None
            }
        },
        Json::Int(i) => {
            proof {
                lemma_value_view(Value::Integer(*i));
            }
            Some(Value::Integer(*i))
        },
        Json::Float(f) => {
            proof {
                lemma_value_view(Value::Float(*f));
            }
            Some(Value::Float(*f))
        },
        Json::Str(s) => {
            let v = Value::String(s.clone());
            proof {
                lemma_value_view(v);
            }
            Some(v)
        },
        Json::Array(items) => {
            proof {
                lemma_json_values(items@);
            }
            let mut out: Vec<Value> = Vec::new();
            let mut i: usize = 0;
            while i < items.len()
                invariant
                    i <= items@.len(),
                    out@.len() == i,
                    forall|k: int| 0 <= k < i ==> Some((#[trigger] out@[k])@) == json_value(items@[k]),
                decreases items@.len() - i,
            {
                proof {
                    broadcast use vstd::std_specs::vec::axiom_vec_decreases_to_view;
                    assert(decreases_to!(items => items@));
                    assert(decreases_to!(items@ => items@[i as int]));
                }
                match json_to_value(&items[i]) {
                    Some(v) => out.push(v),
                    None => {
                        return None;
                    },
                }
                i = i + 1;
            }
            proof {
                crate::engine::value::lemma_values_view(out@);
                assert forall|k: int| 0 <= k < items@.len() implies (#[trigger] json_value(items@[k])) is Some by {
                    assert(Some(out@[k]@) == json_value(items@[k]));
                }
                let vs = json_values(items@)->Some_0;
                assert(crate::engine::value::values_view(out@) =~= vs);
            }
            Some(Value::array_unchecked(Type::array(Type::Union, false), out))
        },
        Json::Object(members) => {
            proof {
                lemma_json_members(members@);
            }
            let mut out: Vec<(String, Value)> = Vec::new();
            let mut i: usize = 0;
            while i < members.len()
                invariant
                    i <= members@.len(),
                    out@.len() == i,
                    forall|k: int|
                        0 <= k < i ==> (#[trigger] out@[k]).0@ == members@[k].0@ && json_value(members@[k].1)
                            == Some(out@[k].1@),
                decreases members@.len() - i,
            {
                proof {
                    broadcast use vstd::std_specs::vec::axiom_vec_decreases_to_view;
                    assert(decreases_to!(members => members@));
                    assert(decreases_to!(members@ => members@[i as int]));
                    assert(decreases_to!(members@[i as int] => members@[i as int].1));
                }
                let (k, m) = &members[i];
                match json_to_value(m) {
                    Some(v) => out.push((k.clone(), v)),
                    None => {
                        return None;
                    },
                }
                i = i + 1;
            }
            proof {
                crate::engine::value::lemma_fields_view(out@);
                assert forall|k: int| 0 <= k < members@.len() implies (#[trigger] json_value(members@[k].1)) is Some by {
                    assert(json_value(members@[k].1) == Some(out@[k].1@));
                }
                let ms = json_members(members@)->Some_0;
                assert(crate::engine::value::fields_view(out@) =~= ms);
            }
            let mut engine = Engine::new();
            Some(engine.new_object(out))
        },
    }
}

} // verus!
