//! WDL runtime values, and their coercion to other types.
use vstd::arithmetic::power2::pow2;
use vstd::prelude::*;

use crate::text::{chars_of, decimal, push_chars, spec_decimal};

use crate::engine::types::{
    coercible, find_member, is_optional, lemma_members_view, member_type, members_view, type_view,
    CompoundType, CompoundTypeDef, PrimitiveType, PrimitiveTypeKind, Type, TypeView,
};

verus! {

/// A WDL runtime value.
///
/// A `Float` is held as the bits of its IEEE 754 binary64 value.
#[derive(Debug)]
pub enum Value {
    /// The value is a `Boolean`.
    Boolean(bool),
    /// The value is an `Int`.
    Integer(i64),
    /// The value is a `Float`, as the bits of its binary64 value.
    Float(u64),
    /// The value is a `String`.
    String(String),
    /// The value is a `File`.
    File(String),
    /// The value is a `Directory`.
    Directory(String),
    /// The value is the literal `None`.
    NoneValue,
    /// The value is a compound value.
    Compound(Box<CompoundValue>),
}

/// A `Pair` value.
#[derive(Debug)]
pub struct Pair {
    /// The type of the pair.
    ty: Type,
    /// The left value of the pair.
    left: Value,
    /// The right value of the pair.
    right: Value,
}

/// An `Array` value.
#[derive(Debug)]
pub struct Array {
    /// The type of the array.
    ty: Type,
    /// The array's elements.
    elements: Vec<Value>,
}

/// A `Map` value: its entries in insertion order, no two with equal keys.
#[derive(Debug)]
pub struct MapValue {
    /// The type of the map value.
    ty: Type,
    /// The entries of the map value.
    elements: Vec<(Value, Value)>,
}

/// An `Object` value: its members in insertion order, no two with the same
/// name.
#[derive(Debug)]
pub struct Object {
    /// The members of the object.
    members: Vec<(String, Value)>,
}

/// A struct value: its members in insertion order, no two with the same
/// name.
#[derive(Debug)]
pub struct Struct {
    /// The type of the struct value.
    ty: Type,
    /// The members of the struct value.
    members: Vec<(String, Value)>,
}

/// A compound value.
#[derive(Debug)]
pub enum CompoundValue {
    /// The value is a `Pair` of values.
    Pair(Pair),
    /// The value is an `Array` of values.
    Array(Array),
    /// The value is a `Map` of values.
    Mapping(MapValue),
    /// The value is an `Object`.
    Object(Object),
    /// The value is a struct.
    Struct(Struct),
}

/// The mathematical form of a [`Value`].
pub enum ValueView {
    /// A `Boolean`.
    Boolean(bool),
    /// An `Int`.
    Integer(i64),
    /// A `Float`, as binary64 bits.
    Float(u64),
    /// A `String`.
    String(Seq<char>),
    /// A `File`.
    File(Seq<char>),
    /// A `Directory`.
    Directory(Seq<char>),
    /// `None`.
    NoneValue,
    /// A `Pair`: its type, left and right values.
    Pair(TypeView, Box<ValueView>, Box<ValueView>),
    /// An `Array`: its type and elements.
    Array(TypeView, Seq<ValueView>),
    /// A `Map`: its type and entries.
    Mapping(TypeView, Seq<(ValueView, ValueView)>),
    /// An `Object`: its members.
    Object(Seq<(Seq<char>, ValueView)>),
    /// A struct: its type and members.
    Struct(TypeView, Seq<(Seq<char>, ValueView)>),
}

/// The view of a value.
pub closed spec fn value_view(v: Value) -> ValueView
    decreases v,
{
    match v {
        Value::Boolean(b) => ValueView::Boolean(b),
        Value::Integer(i) => ValueView::Integer(i),
        Value::Float(f) => ValueView::Float(f),
        Value::String(s) => ValueView::String(s@),
        Value::File(s) => ValueView::File(s@),
        Value::Directory(s) => ValueView::Directory(s@),
        Value::NoneValue => ValueView::NoneValue,
        Value::Compound(c) => match *c {
            CompoundValue::Pair(p) => ValueView::Pair(
                type_view(p.ty),
                Box::new(value_view(p.left)),
                Box::new(value_view(p.right)),
            ),
            CompoundValue::Array(a) => ValueView::Array(type_view(a.ty), values_view(a.elements@)),
            CompoundValue::Mapping(m) => ValueView::Mapping(
                type_view(m.ty),
                entries_view(m.elements@),
            ),
            CompoundValue::Object(o) => ValueView::Object(fields_view(o.members@)),
            CompoundValue::Struct(s) => ValueView::Struct(type_view(s.ty), fields_view(s.members@)),
        },
    }
}

/// The views of a sequence of values.
pub closed spec fn values_view(vs: Seq<Value>) -> Seq<ValueView>
    decreases vs,
{
    if vs.len() == 0 {
        Seq::empty()
    } else {
        values_view(vs.drop_last()).push(value_view(vs.last()))
    }
}

/// The views of a sequence of map entries.
pub closed spec fn entries_view(es: Seq<(Value, Value)>) -> Seq<(ValueView, ValueView)>
    decreases es,
{
    if es.len() == 0 {
        Seq::empty()
    } else {
        entries_view(es.drop_last()).push((value_view(es.last().0), value_view(es.last().1)))
    }
}

/// The views of a sequence of named members.
pub closed spec fn fields_view(ms: Seq<(String, Value)>) -> Seq<(Seq<char>, ValueView)>
    decreases ms,
{
    if ms.len() == 0 {
        Seq::empty()
    } else {
        fields_view(ms.drop_last()).push((ms.last().0@, value_view(ms.last().1)))
    }
}

impl View for Value {
    type V = ValueView;

    open spec fn view(&self) -> ValueView {
        value_view(*self)
    }
}

/// The views of values have one entry per value, in order.
pub proof fn lemma_values_view(vs: Seq<Value>)
    ensures
        values_view(vs).len() == vs.len(),
        forall|i: int| 0 <= i < vs.len() ==> #[trigger] values_view(vs)[i] == value_view(vs[i]),
    decreases vs.len(),
{
    if vs.len() > 0 {
        lemma_values_view(vs.drop_last());
    }
}

/// The views of entries have one entry per entry, in order.
pub proof fn lemma_entries_view(es: Seq<(Value, Value)>)
    ensures
        entries_view(es).len() == es.len(),
        forall|i: int|
            0 <= i < es.len() ==> #[trigger] entries_view(es)[i] == (
                value_view(es[i].0),
                value_view(es[i].1),
            ),
    decreases es.len(),
{
    if es.len() > 0 {
        lemma_entries_view(es.drop_last());
    }
}

/// The views of members have one entry per member, in order.
pub proof fn lemma_fields_view(ms: Seq<(String, Value)>)
    ensures
        fields_view(ms).len() == ms.len(),
        forall|i: int| 0 <= i < ms.len() ==> #[trigger] fields_view(ms)[i] == (ms[i].0@, value_view(ms[i].1)),
    decreases ms.len(),
{
    if ms.len() > 0 {
        lemma_fields_view(ms.drop_last());
    }
}

/// The position of the highest set bit of `m > 0` (`0` for `m <= 1`).
pub open spec fn log2_floor(m: nat) -> nat
    decreases m,
{
    if m < 2 {
        0
    } else {
        1 + log2_floor(m / 2)
    }
}

/// `q` rounded to an integer after dropping `s` low bits of it, to the
/// nearest, ties to even: `m / 2^s` rounded.
pub open spec fn round_shift(m: nat, s: nat) -> nat {
    if s == 0 {
        m
    } else {
        let q = m / pow2(s);
        let r = m % pow2(s);
        let half = pow2((s - 1) as nat);
        if r > half || (r == half && q % 2 == 1) {
            q + 1
        } else {
            q
        }
    }
}

/// The binary64 bits of the magnitude `m > 0`, rounded to 53 significant
/// bits (to the nearest, ties to even), with the sign bit `neg`.
pub open spec fn magnitude_bits(neg: bool, m: nat) -> nat {
    let p = log2_floor(m);
    let sign: nat = if neg { pow2(63) } else { 0 };
    if p <= 52 {
        (sign + (p + 1023) * pow2(52) + (m - pow2(p)) * pow2((52 - p) as nat)) as nat
    } else {
        let q = round_shift(m, (p - 52) as nat);
        if q == pow2(53) {
            sign + (p + 1024) * pow2(52)
        } else {
            (sign + (p + 1023) * pow2(52) + (q - pow2(52))) as nat
        }
    }
}

/// The bits of the binary64 value nearest to `i` (ties to even): what
/// converting an `Int` to a `Float` gives.
pub open spec fn int_to_float(i: i64) -> u64 {
    if i == 0 {
        0
    } else if i < 0 {
        magnitude_bits(true, (-i) as nat) as u64
    } else {
        magnitude_bits(false, i as nat) as u64
    }
}

/// The highest set bit of `m >= 1` is where [`log2_floor`] says.
pub proof fn lemma_log2_bounds(m: nat)
    requires
        m >= 1,
    ensures
        pow2(log2_floor(m)) <= m < pow2(log2_floor(m) + 1),
    decreases m,
{
    broadcast use vstd::arithmetic::power2::lemma_pow2_unfold;

    if m < 2 {
        vstd::arithmetic::power2::lemma2_to64();
    } else {
        lemma_log2_bounds(m / 2);
        let l = log2_floor(m);
        assert(pow2(l) == 2 * pow2((l - 1) as nat));
        assert(pow2(l + 1) == 2 * pow2(l));
    }
}

/// `2` to the power `n`, for `n <= 64`.
fn pow2_u128(n: u64) -> (r: u128)
    requires
        n <= 64,
    ensures
        r == pow2(n as nat),
        r <= 0x1_0000_0000_0000_0000,
{
    proof {
        vstd::arithmetic::power2::lemma2_to64();
    }
    let mut r: u128 = 1;
    let mut k: u64 = 0;
    while k < n
        invariant
            k <= n <= 64,
            r == pow2(k as nat),
            r <= pow2(64),
            pow2(64) == 0x1_0000_0000_0000_0000,
        decreases n - k,
    {
        proof {
            vstd::arithmetic::power2::lemma_pow2_unfold((k + 1) as nat);
            if k + 1 < 64 {
                vstd::arithmetic::power2::lemma_pow2_strictly_increases((k + 1) as nat, 64);
            }
        }
        r = r * 2;
        k = k + 1;
    }
    r
}

/// The position of the highest set bit of `m >= 1`.
fn bit_length(m: u64) -> (p: u64)
    requires
        m >= 1,
    ensures
        p == log2_floor(m as nat),
        p <= 63,
{
    proof {
        vstd::arithmetic::power2::lemma2_to64();
    }
    let mut x: u64 = m;
    let mut p: u64 = 0;
    while x >= 2
        invariant
            1 <= x,
            p + log2_floor(x as nat) == log2_floor(m as nat),
            x < pow2((64 - p) as nat),
            p <= 63,
            pow2(1) == 2,
        decreases x,
    {
        proof {
            vstd::arithmetic::power2::lemma_pow2_unfold((64 - p) as nat);
            assert(((64 - p) as nat - 1) as nat == (63 - p) as nat);
        }
        x = x / 2;
        p = p + 1;
    }
    p
}

/// The bits of a magnitude with at most 53 significant bits, which is
/// exact.
fn exact_bits(sign: u128, m: u64, p: u64) -> (b: u128)
    requires
        p <= 52,
        m >= 1,
        p == log2_floor(m as nat),
        sign <= 0x8000_0000_0000_0000,
    ensures
        b == sign + (p + 1023) * pow2(52) + (m - pow2(p as nat)) * pow2((52 - p) as nat),
{
    proof {
        lemma_log2_bounds(m as nat);
        vstd::arithmetic::power2::lemma2_to64_rest();
    }
    let pw = pow2_u128(p);
    let scale = pow2_u128(52 - p);
    proof {
        if 52 - p < 52 {
            vstd::arithmetic::power2::lemma_pow2_strictly_increases((52 - p) as nat, 52);
        }
        assert((m as u128 - pw) * scale <= 0x1_0000_0000_0000_0000 * 0x10_0000_0000_0000) by (nonlinear_arith)
            requires
                m as u128 - pw <= 0x1_0000_0000_0000_0000,
                scale <= 0x10_0000_0000_0000,
        ;
    }
    sign + (p as u128 + 1023) * 0x10_0000_0000_0000 + (m as u128 - pw) * scale
}

/// The bits of a magnitude with more than 53 significant bits, rounded to
/// 53 of them.
fn rounded_bits(sign: u128, m: u64, p: u64) -> (b: u128)
    requires
        52 < p <= 63,
        m >= 1,
        p == log2_floor(m as nat),
        sign <= 0x8000_0000_0000_0000,
    ensures
        b == ({
            let q = round_shift(m as nat, (p - 52) as nat);
            if q == pow2(53) {
                sign + (p + 1024) * pow2(52)
            } else {
                sign + (p + 1023) * pow2(52) + (q - pow2(52))
            }
        }),
{
    proof {
        lemma_log2_bounds(m as nat);
        vstd::arithmetic::power2::lemma2_to64_rest();
    }
    let sh = p - 52;
    let ps = pow2_u128(sh);
    let half = pow2_u128(sh - 1);
    proof {
        vstd::arithmetic::power2::lemma_pow2_adds(52, sh as nat);
        vstd::arithmetic::power2::lemma_pow2_pos(sh as nat);
        assert((52 + sh) as nat == p as nat);
        assert(m as nat >= pow2(52) * pow2(sh as nat));
        assert((m as nat) / pow2(sh as nat) >= pow2(52)) by (nonlinear_arith)
            requires
                m as nat >= pow2(52) * pow2(sh as nat),
                pow2(sh as nat) > 0,
        ;
        assert((m as nat) / pow2(sh as nat) <= m as nat) by (nonlinear_arith)
            requires
                pow2(sh as nat) > 0,
        ;
    }
    let q = m as u128 / ps;
    let r = m as u128 % ps;
    let q2 = if r > half || (r == half && q % 2 == 1) {
        q + 1
    } else {
        q
    };
    assert(q2 == round_shift(m as nat, sh as nat));
    if q2 == 0x20_0000_0000_0000 {
        sign + (p as u128 + 1024) * 0x10_0000_0000_0000
    } else {
        sign + (p as u128 + 1023) * 0x10_0000_0000_0000 + (q2 - 0x10_0000_0000_0000)
    }
}

/// Converts an `Int` to the bits of the nearest `Float` (ties to even).
pub fn int_to_float_bits(i: i64) -> (b: u64)
    ensures
        b == int_to_float(i),
{
    if i == 0 {
        return 0;
    }
    let neg = i < 0;
    let wide: i128 = i as i128;
    let m: u64 = if neg {
        (0i128 - wide) as u64
    } else {
        i as u64
    };
    proof {
        vstd::arithmetic::power2::lemma2_to64_rest();
    }
    let sign: u128 = if neg {
        0x8000_0000_0000_0000
    } else {
        0
    };
    let p = bit_length(m);
    let bits: u128 = if p <= 52 {
        exact_bits(sign, m, p)
    } else {
        rounded_bits(sign, m, p)
    };
    assert(bits == magnitude_bits(neg, m as nat));
    bits as u64
}

/// Whether the binary64 bits `x` stand for a NaN.
pub open spec fn is_nan_bits(x: u64) -> bool {
    (x as nat / pow2(52)) % 2048 == 2047 && x as nat % pow2(52) != 0
}

/// Whether two floats are equal as ordered floats compare them: as numbers
/// (so `0.0 == -0.0`), with every NaN equal to every other NaN.
pub open spec fn float_eq(x: u64, y: u64) -> bool {
    if is_nan_bits(x) || is_nan_bits(y) {
        is_nan_bits(x) && is_nan_bits(y)
    } else {
        x == y || (x as nat % pow2(63) == 0 && y as nat % pow2(63) == 0)
    }
}

/// Whether two map keys are the same key: primitive values of the same kind
/// that are equal (floats as [`float_eq`] says), or both `None`.  Compound
/// keys are never the same key, for every coerced compound value is a new
/// value.
pub open spec fn key_eq(a: ValueView, b: ValueView) -> bool {
    match (a, b) {
        (ValueView::Boolean(x), ValueView::Boolean(y)) => x == y,
        (ValueView::Integer(x), ValueView::Integer(y)) => x == y,
        (ValueView::Float(x), ValueView::Float(y)) => float_eq(x, y),
        (ValueView::String(x), ValueView::String(y)) => x == y,
        (ValueView::File(x), ValueView::File(y)) => x == y,
        (ValueView::Directory(x), ValueView::Directory(y)) => x == y,
        (ValueView::NoneValue, ValueView::NoneValue) => true,
        _ => false,
    }
}

/// The position of the last entry of `es` whose key is the same key as `k`,
/// or `-1`.
pub open spec fn find_entry(es: Seq<(ValueView, ValueView)>, k: ValueView) -> int
    decreases es.len(),
{
    if es.len() == 0 {
        -1
    } else if key_eq(es.last().0, k) {
        es.len() - 1
    } else {
        find_entry(es.drop_last(), k)
    }
}

/// Inserting an entry into a map: an entry with the same key keeps its key
/// and place and takes the new value; otherwise the entry goes at the end.
pub open spec fn map_insert(es: Seq<(ValueView, ValueView)>, k: ValueView, v: ValueView) -> Seq<
    (ValueView, ValueView),
> {
    let i = find_entry(es, k);
    if i >= 0 {
        es.update(i, (es[i].0, v))
    } else {
        es.push((k, v))
    }
}

/// The position of the last member of `ms` named `n`, or `-1`.
pub open spec fn find_field(ms: Seq<(Seq<char>, ValueView)>, n: Seq<char>) -> int
    decreases ms.len(),
{
    if ms.len() == 0 {
        -1
    } else if ms.last().0 == n {
        ms.len() - 1
    } else {
        find_field(ms.drop_last(), n)
    }
}

/// Inserting a member: a member of the same name keeps its place and takes
/// the new value; otherwise the member goes at the end.
pub open spec fn field_insert(ms: Seq<(Seq<char>, ValueView)>, n: Seq<char>, v: ValueView) -> Seq<
    (Seq<char>, ValueView),
> {
    let i = find_field(ms, n);
    if i >= 0 {
        ms.update(i, (n, v))
    } else {
        ms.push((n, v))
    }
}

/// The type of a value.
pub open spec fn value_type(v: ValueView) -> TypeView {
    match v {
        ValueView::Boolean(_) => TypeView::Primitive(
            PrimitiveType { kind: PrimitiveTypeKind::Boolean, optional: false },
        ),
        ValueView::Integer(_) => TypeView::Primitive(
            PrimitiveType { kind: PrimitiveTypeKind::Integer, optional: false },
        ),
        ValueView::Float(_) => TypeView::Primitive(
            PrimitiveType { kind: PrimitiveTypeKind::Float, optional: false },
        ),
        ValueView::String(_) => TypeView::Primitive(
            PrimitiveType { kind: PrimitiveTypeKind::String, optional: false },
        ),
        ValueView::File(_) => TypeView::Primitive(
            PrimitiveType { kind: PrimitiveTypeKind::File, optional: false },
        ),
        ValueView::Directory(_) => TypeView::Primitive(
            PrimitiveType { kind: PrimitiveTypeKind::Directory, optional: false },
        ),
        ValueView::NoneValue => TypeView::NoneType,
        ValueView::Pair(t, _, _) => t,
        ValueView::Array(t, _) => t,
        ValueView::Mapping(t, _) => t,
        ValueView::Object(_) => TypeView::Object,
        ValueView::Struct(t, _) => t,
    }
}

/// The text of a `String`, `File` or `Directory` value.
pub open spec fn text_of(v: ValueView) -> Option<Seq<char>> {
    match v {
        ValueView::String(s) => Some(s),
        ValueView::File(s) => Some(s),
        ValueView::Directory(s) => Some(s),
        _ => None,
    }
}

/// The text of a `String` value.
pub open spec fn string_of(v: ValueView) -> Option<Seq<char>> {
    match v {
        ValueView::String(s) => Some(s),
        _ => None,
    }
}

/// Whether `t` is the (required) `String` type.
pub open spec fn is_plain_string(t: TypeView) -> bool {
    t == TypeView::Primitive(PrimitiveType { kind: PrimitiveTypeKind::String, optional: false })
}

/// Each value coerced to `t`, or `None` if one does not coerce.
pub open spec fn coerce_each(vs: Seq<ValueView>, t: TypeView) -> Option<Seq<ValueView>>
    decreases vs, 0nat,
{
    if vs.len() == 0 {
        Some(Seq::empty())
    } else {
        match (coerce_each(vs.drop_last(), t), coerce_value(vs.last(), t)) {
            (Some(prev), Some(c)) => Some(prev.push(c)),
            _ => None,
        }
    }
}

/// The entries with keys coerced to `kt` and values to `vt`, inserted in
/// order into a new map, or `None` if one does not coerce.
pub open spec fn coerce_entries(es: Seq<(ValueView, ValueView)>, kt: TypeView, vt: TypeView) -> Option<
    Seq<(ValueView, ValueView)>,
>
    decreases es, 0nat,
{
    if es.len() == 0 {
        Some(Seq::empty())
    } else {
        match (
            coerce_entries(es.drop_last(), kt, vt),
            coerce_value(es.last().0, kt),
            coerce_value(es.last().1, vt),
        ) {
            (Some(prev), Some(k), Some(v)) => Some(map_insert(prev, k, v)),
            _ => None,
        }
    }
}

/// The members as map entries keyed by `String` names, with values coerced
/// to `vt`, or `None` if one does not coerce.
pub open spec fn coerce_fields_to_entries(ms: Seq<(Seq<char>, ValueView)>, vt: TypeView) -> Option<
    Seq<(ValueView, ValueView)>,
>
    decreases ms, 0nat,
{
    if ms.len() == 0 {
        Some(Seq::empty())
    } else {
        match (coerce_fields_to_entries(ms.drop_last(), vt), coerce_value(ms.last().1, vt)) {
            (Some(prev), Some(v)) => Some(map_insert(prev, ValueView::String(ms.last().0), v)),
            _ => None,
        }
    }
}

/// The entries as struct members named by their (textual) keys, each value
/// coerced to the type of the member of that name in `tms`, or `None` if a
/// key is not text, names no member, or a value does not coerce.
pub open spec fn coerce_entries_to_fields(
    es: Seq<(ValueView, ValueView)>,
    tms: Seq<(Seq<char>, TypeView)>,
) -> Option<Seq<(Seq<char>, ValueView)>>
    decreases es, 0nat,
{
    if es.len() == 0 {
        Some(Seq::empty())
    } else {
        match coerce_entries_to_fields(es.drop_last(), tms) {
            Some(prev) => match text_of(es.last().0) {
                Some(n) => match member_type(tms, n) {
                    Some(t) => match coerce_value(es.last().1, t) {
                        Some(v) => Some(field_insert(prev, n, v)),
                        None => None,
                    },
                    None => None,
                },
                None => None,
            },
            None => None,
        }
    }
}

/// The members, each value coerced to the type of the member of the same
/// name in `tms`, or `None` if a name is missing there or a value does not
/// coerce.
pub open spec fn coerce_fields(ms: Seq<(Seq<char>, ValueView)>, tms: Seq<(Seq<char>, TypeView)>) -> Option<
    Seq<(Seq<char>, ValueView)>,
>
    decreases ms, 0nat,
{
    if ms.len() == 0 {
        Some(Seq::empty())
    } else {
        match coerce_fields(ms.drop_last(), tms) {
            Some(prev) => match member_type(tms, ms.last().0) {
                Some(t) => match coerce_value(ms.last().1, t) {
                    Some(v) => Some(field_insert(prev, ms.last().0, v)),
                    None => None,
                },
                None => None,
            },
            None => None,
        }
    }
}

/// The entries as object members named by their `String` keys, or `None`
/// if a key is not a `String`.
pub open spec fn entries_to_object(es: Seq<(ValueView, ValueView)>) -> Option<Seq<(Seq<char>, ValueView)>>
    decreases es.len(),
{
    if es.len() == 0 {
        Some(Seq::empty())
    } else {
        match (entries_to_object(es.drop_last()), string_of(es.last().0)) {
            (Some(prev), Some(n)) => Some(field_insert(prev, n, es.last().1)),
            _ => None,
        }
    }
}

/// A compound value coerced to `t`: arrays, maps and pairs element-wise
/// (an empty array never becomes a non-empty one), maps with `String` keys
/// and objects and structs into each other, and maps and structs into
/// objects.
pub open spec fn coerce_compound(v: ValueView, t: TypeView) -> Option<ValueView>
    decreases v, 0nat,
{
    match t {
        TypeView::Array(e, non_empty, _) => match v {
            ValueView::Array(_, els) => if non_empty && els.len() == 0 {
                None
            } else {
                match coerce_each(els, *e) {
                    Some(c) => Some(ValueView::Array(t, c)),
                    None => None,
                }
            },
            _ => None,
        },
        TypeView::Mapping(kt, vt, _) => match v {
            ValueView::Mapping(_, es) => match coerce_entries(es, *kt, *vt) {
                Some(c) => Some(ValueView::Mapping(t, c)),
                None => None,
            },
            ValueView::Struct(_, ms) => if is_plain_string(*kt) {
                match coerce_fields_to_entries(ms, *vt) {
                    Some(c) => Some(ValueView::Mapping(t, c)),
                    None => None,
                }
            } else {
                None
            },
            ValueView::Object(ms) => if is_plain_string(*kt) {
                match coerce_fields_to_entries(ms, *vt) {
                    Some(c) => Some(ValueView::Mapping(t, c)),
                    None => None,
                }
            } else {
                None
            },
            _ => None,
        },
        TypeView::Pair(lt, rt, _) => match v {
            ValueView::Pair(_, l, r) => match (coerce_value(*l, *lt), coerce_value(*r, *rt)) {
                (Some(a), Some(b)) => Some(ValueView::Pair(t, Box::new(a), Box::new(b))),
                _ => None,
            },
            _ => None,
        },
        TypeView::Struct(_, tms, _) => match v {
            ValueView::Mapping(_, es) => if es.len() != tms.len() {
                None
            } else {
                match coerce_entries_to_fields(es, tms) {
                    Some(c) => Some(ValueView::Struct(t, c)),
                    None => None,
                }
            },
            ValueView::Object(ms) => if ms.len() != tms.len() {
                None
            } else {
                match coerce_fields(ms, tms) {
                    Some(c) => Some(ValueView::Struct(t, c)),
                    None => None,
                }
            },
            ValueView::Struct(_, ms) => if ms.len() != tms.len() {
                None
            } else {
                match coerce_fields(ms, tms) {
                    Some(c) => Some(ValueView::Struct(t, c)),
                    None => None,
                }
            },
            _ => None,
        },
        TypeView::Object => match v {
            ValueView::Mapping(_, es) => match entries_to_object(es) {
                Some(c) => Some(ValueView::Object(c)),
                None => None,
            },
            ValueView::Struct(_, ms) => Some(ValueView::Object(ms)),
            _ => None,
        },
        _ => None,
    }
}

/// A value coerced to the type `t`, or `None` where it does not coerce.
///
/// A primitive value coerces by its kind and the kind of a primitive `t`
/// (see [`crate::engine::types::kind_coercible`]); `None` coerces to an
/// optional type; a compound value coerces when its type does and
/// [`coerce_compound`] succeeds.
pub open spec fn coerce_value(v: ValueView, t: TypeView) -> Option<ValueView>
    decreases v, 1nat,
{
    match v {
        ValueView::Boolean(_) => match t {
            TypeView::Primitive(p) => if p.kind == PrimitiveTypeKind::Boolean {
                Some(v)
            } else {
                None
            },
            _ => None,
        },
        ValueView::Integer(i) => match t {
            TypeView::Primitive(p) => if p.kind == PrimitiveTypeKind::Integer {
                Some(v)
            } else if p.kind == PrimitiveTypeKind::Float {
                Some(ValueView::Float(int_to_float(i)))
            } else {
                None
            },
            _ => None,
        },
        ValueView::Float(_) => match t {
            TypeView::Primitive(p) => if p.kind == PrimitiveTypeKind::Float {
                Some(v)
            } else {
                None
            },
            _ => None,
        },
        ValueView::String(s) => match t {
            TypeView::Primitive(p) => if p.kind == PrimitiveTypeKind::String {
                Some(ValueView::String(s))
            } else if p.kind == PrimitiveTypeKind::File {
                Some(ValueView::File(s))
            } else if p.kind == PrimitiveTypeKind::Directory {
                Some(ValueView::Directory(s))
            } else {
                None
            },
            _ => None,
        },
        ValueView::File(s) => match t {
            TypeView::Primitive(p) => if p.kind == PrimitiveTypeKind::File {
                Some(ValueView::File(s))
            } else if p.kind == PrimitiveTypeKind::String {
                Some(ValueView::String(s))
            } else {
                None
            },
            _ => None,
        },
        ValueView::Directory(s) => match t {
            TypeView::Primitive(p) => if p.kind == PrimitiveTypeKind::Directory {
                Some(ValueView::Directory(s))
            } else if p.kind == PrimitiveTypeKind::String {
                Some(ValueView::String(s))
            } else {
                None
            },
            _ => None,
        },
        ValueView::NoneValue => if is_optional(t) {
            Some(ValueView::NoneValue)
        } else {
            None
        },
        _ => if coercible(value_type(v), t) {
            coerce_compound(v, t)
        } else {
            None
        },
    }
}

/// The view of an optional value.
pub open spec fn opt_view(o: Option<Value>) -> Option<ValueView> {
    match o {
        Some(v) => Some(v@),
        None => None,
    }
}

/// Copies a value.
pub fn clone_value(v: &Value) -> (c: Value)
    ensures
        c@ == v@,
    decreases v,
{
    match v {
        Value::Boolean(b) => Value::Boolean(*b),
        Value::Integer(i) => Value::Integer(*i),
        Value::Float(f) => Value::Float(*f),
        Value::String(s) => Value::String(s.clone()),
        Value::File(s) => Value::File(s.clone()),
        Value::Directory(s) => Value::Directory(s.clone()),
        Value::NoneValue => Value::NoneValue,
        Value::Compound(c) => {
            let cc: CompoundValue = match &**c {
                CompoundValue::Pair(p) => CompoundValue::Pair(
                    Pair { ty: p.ty.clone(), left: clone_value(&p.left), right: clone_value(&p.right) },
                ),
                CompoundValue::Array(a) => {
                    let mut out: Vec<Value> = Vec::new();
                    let mut i: usize = 0;
                    #[verifier::loop_isolation(false)]
                    while i < a.elements.len()
                        invariant
                            i <= a.elements@.len(),
                            values_view(out@) == values_view(a.elements@.take(i as int)),
                        decreases a.elements@.len() - i,
                    {
                        proof {
                            assert(decreases_to!(a.elements => a.elements@));
                            assert(decreases_to!(a.elements@ => a.elements@[i as int]));
                            assert(a.elements@.take(i + 1).drop_last() =~= a.elements@.take(i as int));
                        }
                        let e = clone_value(&a.elements[i]);
                        let ghost prev = out@;
                        out.push(e);
                        assert(out@.drop_last() =~= prev);
                        i = i + 1;
                    }
                    assert(a.elements@.take(i as int) =~= a.elements@);
                    CompoundValue::Array(Array { ty: a.ty.clone(), elements: out })
                },
                CompoundValue::Mapping(m) => {
                    let mut out: Vec<(Value, Value)> = Vec::new();
                    let mut i: usize = 0;
                    #[verifier::loop_isolation(false)]
                    while i < m.elements.len()
                        invariant
                            i <= m.elements@.len(),
                            entries_view(out@) == entries_view(m.elements@.take(i as int)),
                        decreases m.elements@.len() - i,
                    {
                        proof {
                            assert(decreases_to!(m.elements => m.elements@));
                            assert(decreases_to!(m.elements@ => m.elements@[i as int]));
                            assert(decreases_to!(m.elements@[i as int] => m.elements@[i as int].0));
                            assert(decreases_to!(m.elements@[i as int] => m.elements@[i as int].1));
                            assert(m.elements@.take(i + 1).drop_last() =~= m.elements@.take(i as int));
                        }
                        let k = clone_value(&m.elements[i].0);
                        let x = clone_value(&m.elements[i].1);
                        let ghost prev = out@;
                        out.push((k, x));
                        assert(out@.drop_last() =~= prev);
                        i = i + 1;
                    }
                    assert(m.elements@.take(i as int) =~= m.elements@);
                    CompoundValue::Mapping(MapValue { ty: m.ty.clone(), elements: out })
                },
                CompoundValue::Object(o) => {
                    let members = clone_fields(&o.members, Ghost(v));
                    CompoundValue::Object(Object { members })
                },
                CompoundValue::Struct(st) => {
                    let members = clone_fields(&st.members, Ghost(v));
                    CompoundValue::Struct(Struct { ty: st.ty.clone(), members })
                },
            };
            Value::Compound(Box::new(cc))
        },
    }
}

/// Copies named members, all parts of the value `whole`.
fn clone_fields(ms: &Vec<(String, Value)>, whole: Ghost<&Value>) -> (c: Vec<(String, Value)>)
    requires
        forall|i: int| 0 <= i < ms@.len() ==> decreases_to!(*whole@ => ms@[i].1),
    ensures
        fields_view(c@) == fields_view(ms@),
    decreases *whole@, 0nat,
{
    let mut out: Vec<(String, Value)> = Vec::new();
    let mut i: usize = 0;
    while i < ms.len()
        invariant
            i <= ms@.len(),
            forall|j: int| 0 <= j < ms@.len() ==> decreases_to!(*whole@ => ms@[j].1),
            fields_view(out@) == fields_view(ms@.take(i as int)),
        decreases ms@.len() - i,
    {
        assert(ms@.take(i + 1).drop_last() =~= ms@.take(i as int));
        assert(decreases_to!(*whole@ => ms@[i as int].1));
        let n = ms[i].0.clone();
        let x = clone_value(&ms[i].1);
        let ghost prev = out@;
        out.push((n, x));
        assert(out@.drop_last() =~= prev);
        i = i + 1;
    }
    assert(ms@.take(i as int) =~= ms@);
    out
}

impl Clone for Value {
    fn clone(&self) -> (c: Self)
        ensures
            c@ == self@,
    {
        clone_value(self)
    }
}

/// Whether the bits `x` stand for a NaN.
fn is_nan(x: u64) -> (b: bool)
    ensures
        b == is_nan_bits(x),
{
    proof {
        vstd::arithmetic::power2::lemma2_to64_rest();
    }
    (x / 0x10_0000_0000_0000) % 2048 == 2047 && x % 0x10_0000_0000_0000 != 0
}

/// Whether two floats are equal as ordered floats.
fn floats_equal(x: u64, y: u64) -> (b: bool)
    ensures
        b == float_eq(x, y),
{
    proof {
        vstd::arithmetic::power2::lemma2_to64_rest();
    }
    let nx = is_nan(x);
    let ny = is_nan(y);
    if nx || ny {
        nx && ny
    } else {
        x == y || (x % 0x8000_0000_0000_0000 == 0 && y % 0x8000_0000_0000_0000 == 0)
    }
}

/// Whether two values are the same map key.
fn same_key(a: &Value, b: &Value) -> (r: bool)
    ensures
        r == key_eq(a@, b@),
{
    match (a, b) {
        (Value::Boolean(x), Value::Boolean(y)) => *x == *y,
        (Value::Integer(x), Value::Integer(y)) => *x == *y,
        (Value::Float(x), Value::Float(y)) => floats_equal(*x, *y),
        (Value::String(x), Value::String(y)) => *x == *y,
        (Value::File(x), Value::File(y)) => *x == *y,
        (Value::Directory(x), Value::Directory(y)) => *x == *y,
        (Value::NoneValue, Value::NoneValue) => true,
        _ => false,
    }
}

/// Replacing an entry changes its view in place.
proof fn lemma_entries_update(es: Seq<(Value, Value)>, i: int, e: (Value, Value))
    requires
        0 <= i < es.len(),
    ensures
        entries_view(es.update(i, e)) == entries_view(es).update(i, (value_view(e.0), value_view(e.1))),
{
    lemma_entries_view(es);
    lemma_entries_view(es.update(i, e));
    assert(entries_view(es.update(i, e)) =~= entries_view(es).update(i, (value_view(e.0), value_view(e.1))));
}

/// Replacing a member changes its view in place.
proof fn lemma_fields_update(ms: Seq<(String, Value)>, i: int, m: (String, Value))
    requires
        0 <= i < ms.len(),
    ensures
        fields_view(ms.update(i, m)) == fields_view(ms).update(i, (m.0@, value_view(m.1))),
{
    lemma_fields_view(ms);
    lemma_fields_view(ms.update(i, m));
    assert(fields_view(ms.update(i, m)) =~= fields_view(ms).update(i, (m.0@, value_view(m.1))));
}

/// Inserts an entry into a map's entries.
fn insert_entry(es: &mut Vec<(Value, Value)>, k: Value, v: Value)
    ensures
        entries_view(final(es)@) == map_insert(entries_view(old(es)@), k@, v@),
{
    proof {
        lemma_entries_view(es@);
    }
    let ghost ev = entries_view(es@);
    let mut i: usize = es.len();
    let mut found: Option<usize> = None;
    assert(ev.take(i as int) =~= ev);
    while i > 0 && found.is_none()
        invariant
            i <= es@.len(),
            es@ == old(es)@,
            ev == entries_view(es@),
            ev.len() == es@.len(),
            forall|j: int| 0 <= j < es@.len() ==> #[trigger] ev[j] == (value_view(es@[j].0), value_view(es@[j].1)),
            found is None ==> find_entry(ev, k@) == find_entry(ev.take(i as int), k@),
            found matches Some(f) ==> find_entry(ev, k@) == f && f < es@.len(),
        decreases i,
    {
        assert(ev.take(i as int).drop_last() =~= ev.take(i - 1));
        assert(ev.take(i as int).last() == ev[i - 1]);
        if same_key(&es[i - 1].0, &k) {
            found = Some(i - 1);
        }
        i = i - 1;
    }
    match found {
        Some(f) => {
            let key = clone_value(&es[f].0);
            proof {
                lemma_entries_update(es@, f as int, (key, v));
            }
            es.set(f, (key, v));
        },
        None => {
            assert(ev.take(i as int) =~= Seq::<(ValueView, ValueView)>::empty());
            let ghost prev = es@;
            es.push((k, v));
            assert(es@.drop_last() =~= prev);
        },
    }
}

/// Inserts a member into named members.
fn insert_field(ms: &mut Vec<(String, Value)>, n: String, v: Value)
    ensures
        fields_view(final(ms)@) == field_insert(fields_view(old(ms)@), n@, v@),
{
    proof {
        lemma_fields_view(ms@);
    }
    let ghost fv = fields_view(ms@);
    let mut i: usize = ms.len();
    let mut found: Option<usize> = None;
    assert(fv.take(i as int) =~= fv);
    while i > 0 && found.is_none()
        invariant
            i <= ms@.len(),
            ms@ == old(ms)@,
            fv == fields_view(ms@),
            fv.len() == ms@.len(),
            forall|j: int| 0 <= j < ms@.len() ==> #[trigger] fv[j] == (ms@[j].0@, value_view(ms@[j].1)),
            found is None ==> find_field(fv, n@) == find_field(fv.take(i as int), n@),
            found matches Some(f) ==> find_field(fv, n@) == f && f < ms@.len(),
        decreases i,
    {
        assert(fv.take(i as int).drop_last() =~= fv.take(i - 1));
        assert(fv.take(i as int).last() == fv[i - 1]);
        if ms[i - 1].0 == n {
            found = Some(i - 1);
        }
        i = i - 1;
    }
    match found {
        Some(f) => {
            proof {
                lemma_fields_update(ms@, f as int, (n, v));
            }
            ms.set(f, (n, v));
        },
        None => {
            assert(fv.take(i as int) =~= Seq::<(Seq<char>, ValueView)>::empty());
            let ghost prev = ms@;
            ms.push((n, v));
            assert(ms@.drop_last() =~= prev);
        },
    }
}

/// The view of a compound value, as a value.
pub closed spec fn cview(c: CompoundValue) -> ValueView {
    value_view(Value::Compound(Box::new(c)))
}

/// Once a prefix of the values fails to coerce, all of them do.
proof fn lemma_each_none(vs: Seq<ValueView>, t: TypeView, i: int)
    requires
        0 <= i <= vs.len(),
        coerce_each(vs.take(i), t) is None,
    ensures
        coerce_each(vs, t) is None,
    decreases vs.len() - i,
{
    if i < vs.len() {
        assert(vs.take(i + 1).drop_last() =~= vs.take(i));
        lemma_each_none(vs, t, i + 1);
    } else {
        assert(vs.take(i) =~= vs);
    }
}

/// Once a prefix of the entries fails to coerce, all of them do.
proof fn lemma_entries_none(es: Seq<(ValueView, ValueView)>, kt: TypeView, vt: TypeView, i: int)
    requires
        0 <= i <= es.len(),
        coerce_entries(es.take(i), kt, vt) is None,
    ensures
        coerce_entries(es, kt, vt) is None,
    decreases es.len() - i,
{
    if i < es.len() {
        assert(es.take(i + 1).drop_last() =~= es.take(i));
        lemma_entries_none(es, kt, vt, i + 1);
    } else {
        assert(es.take(i) =~= es);
    }
}

/// Once a prefix of the members fails to coerce, all of them do.
proof fn lemma_fields_to_entries_none(ms: Seq<(Seq<char>, ValueView)>, vt: TypeView, i: int)
    requires
        0 <= i <= ms.len(),
        coerce_fields_to_entries(ms.take(i), vt) is None,
    ensures
        coerce_fields_to_entries(ms, vt) is None,
    decreases ms.len() - i,
{
    if i < ms.len() {
        assert(ms.take(i + 1).drop_last() =~= ms.take(i));
        lemma_fields_to_entries_none(ms, vt, i + 1);
    } else {
        assert(ms.take(i) =~= ms);
    }
}

/// Once a prefix of the entries fails to become members, all of them do.
proof fn lemma_entries_to_fields_none(
    es: Seq<(ValueView, ValueView)>,
    tms: Seq<(Seq<char>, TypeView)>,
    i: int,
)
    requires
        0 <= i <= es.len(),
        coerce_entries_to_fields(es.take(i), tms) is None,
    ensures
        coerce_entries_to_fields(es, tms) is None,
    decreases es.len() - i,
{
    if i < es.len() {
        assert(es.take(i + 1).drop_last() =~= es.take(i));
        lemma_entries_to_fields_none(es, tms, i + 1);
    } else {
        assert(es.take(i) =~= es);
    }
}

/// Once a prefix of the members fails to coerce, all of them do.
proof fn lemma_fields_none(ms: Seq<(Seq<char>, ValueView)>, tms: Seq<(Seq<char>, TypeView)>, i: int)
    requires
        0 <= i <= ms.len(),
        coerce_fields(ms.take(i), tms) is None,
    ensures
        coerce_fields(ms, tms) is None,
    decreases ms.len() - i,
{
    if i < ms.len() {
        assert(ms.take(i + 1).drop_last() =~= ms.take(i));
        lemma_fields_none(ms, tms, i + 1);
    } else {
        assert(ms.take(i) =~= ms);
    }
}

/// Once a prefix of the entries has a key that is not a `String`, all of
/// them do.
proof fn lemma_object_none(es: Seq<(ValueView, ValueView)>, i: int)
    requires
        0 <= i <= es.len(),
        entries_to_object(es.take(i)) is None,
    ensures
        entries_to_object(es) is None,
    decreases es.len() - i,
{
    if i < es.len() {
        assert(es.take(i + 1).drop_last() =~= es.take(i));
        lemma_object_none(es, i + 1);
    } else {
        assert(es.take(i) =~= es);
    }
}

/// The text of a `String`, `File` or `Directory` value.
fn text_value(v: &Value) -> (r: Option<String>)
    ensures
        match r {
            Some(t) => text_of(v@) == Some(t@),
            None => text_of(v@) is None,
        },
{
    match v {
        Value::String(s) => Some(s.clone()),
        Value::File(s) => Some(s.clone()),
        Value::Directory(s) => Some(s.clone()),
        _ => None,
    }
}

/// Each element coerced to `t`.
fn coerce_elements(els: &Vec<Value>, t: &Type, whole: Ghost<&CompoundValue>) -> (r: Option<Vec<Value>>)
    requires
        forall|i: int| 0 <= i < els@.len() ==> decreases_to!(*whole@ => els@[i]),
    ensures
        match r {
            Some(out) => coerce_each(values_view(els@), t@) == Some(values_view(out@)),
            None => coerce_each(values_view(els@), t@) is None,
        },
    decreases *whole@, 0nat,
{
    proof {
        lemma_values_view(els@);
    }
    let ghost vs = values_view(els@);
    let mut out: Vec<Value> = Vec::new();
    let mut i: usize = 0;
    assert(vs.take(0) =~= Seq::<ValueView>::empty());
    while i < els.len()
        invariant
            i <= els@.len(),
            vs == values_view(els@),
            vs.len() == els@.len(),
            forall|j: int| 0 <= j < els@.len() ==> #[trigger] vs[j] == value_view(els@[j]),
            forall|j: int| 0 <= j < els@.len() ==> decreases_to!(*whole@ => els@[j]),
            coerce_each(vs.take(i as int), t@) == Some(values_view(out@)),
        decreases els@.len() - i,
    {
        assert(vs.take(i + 1).drop_last() =~= vs.take(i as int));
        assert(vs.take(i + 1).last() == vs[i as int]);
        assert(decreases_to!(*whole@ => els@[i as int]));
        match els[i].coerce(t) {
            Some(c) => {
                let ghost prev = out@;
                out.push(c);
                assert(out@.drop_last() =~= prev);
            },
            None => {
                proof {
                    lemma_each_none(vs, t@, i + 1);
                }
                return None;
            },
        }
        i = i + 1;
    }
    assert(vs.take(i as int) =~= vs);
    Some(out)
}

/// Each entry with its key coerced to `kt` and its value to `vt`, inserted
/// into a new map.
fn coerce_map_entries(
    es: &Vec<(Value, Value)>,
    kt: &Type,
    vt: &Type,
    whole: Ghost<&CompoundValue>,
) -> (r: Option<Vec<(Value, Value)>>)
    requires
        forall|i: int|
            0 <= i < es@.len() ==> decreases_to!(*whole@ => es@[i].0) && decreases_to!(*whole@ => es@[i].1),
    ensures
        match r {
            Some(out) => coerce_entries(entries_view(es@), kt@, vt@) == Some(entries_view(out@)),
            None => coerce_entries(entries_view(es@), kt@, vt@) is None,
        },
    decreases *whole@, 0nat,
{
    proof {
        lemma_entries_view(es@);
    }
    let ghost ev = entries_view(es@);
    let mut out: Vec<(Value, Value)> = Vec::new();
    let mut i: usize = 0;
    assert(ev.take(0) =~= Seq::<(ValueView, ValueView)>::empty());
    while i < es.len()
        invariant
            i <= es@.len(),
            ev == entries_view(es@),
            ev.len() == es@.len(),
            forall|j: int| 0 <= j < es@.len() ==> #[trigger] ev[j] == (value_view(es@[j].0), value_view(es@[j].1)),
            forall|j: int|
                0 <= j < es@.len() ==> decreases_to!(*whole@ => es@[j].0) && decreases_to!(*whole@ => es@[j].1),
            coerce_entries(ev.take(i as int), kt@, vt@) == Some(entries_view(out@)),
        decreases es@.len() - i,
    {
        assert(ev.take(i + 1).drop_last() =~= ev.take(i as int));
        assert(ev.take(i + 1).last() == ev[i as int]);
        assert(decreases_to!(*whole@ => es@[i as int].0));
        assert(decreases_to!(*whole@ => es@[i as int].1));
        let k = es[i].0.coerce(kt);
        let v = es[i].1.coerce(vt);
        match (k, v) {
            (Some(k), Some(v)) => {
                insert_entry(&mut out, k, v);
            },
            _ => {
                proof {
                    lemma_entries_none(ev, kt@, vt@, i + 1);
                }
                return None;
            },
        }
        i = i + 1;
    }
    assert(ev.take(i as int) =~= ev);
    Some(out)
}

/// Named members as map entries keyed by `String` names, each value
/// coerced to `vt`.
fn coerce_fields_into_entries(
    ms: &Vec<(String, Value)>,
    vt: &Type,
    whole: Ghost<&CompoundValue>,
) -> (r: Option<Vec<(Value, Value)>>)
    requires
        forall|i: int| 0 <= i < ms@.len() ==> decreases_to!(*whole@ => ms@[i].1),
    ensures
        match r {
            Some(out) => coerce_fields_to_entries(fields_view(ms@), vt@) == Some(entries_view(out@)),
            None => coerce_fields_to_entries(fields_view(ms@), vt@) is None,
        },
    decreases *whole@, 0nat,
{
    proof {
        lemma_fields_view(ms@);
    }
    let ghost fv = fields_view(ms@);
    let mut out: Vec<(Value, Value)> = Vec::new();
    let mut i: usize = 0;
    assert(fv.take(0) =~= Seq::<(Seq<char>, ValueView)>::empty());
    while i < ms.len()
        invariant
            i <= ms@.len(),
            fv == fields_view(ms@),
            fv.len() == ms@.len(),
            forall|j: int| 0 <= j < ms@.len() ==> #[trigger] fv[j] == (ms@[j].0@, value_view(ms@[j].1)),
            forall|j: int| 0 <= j < ms@.len() ==> decreases_to!(*whole@ => ms@[j].1),
            coerce_fields_to_entries(fv.take(i as int), vt@) == Some(entries_view(out@)),
        decreases ms@.len() - i,
    {
        assert(fv.take(i + 1).drop_last() =~= fv.take(i as int));
        assert(fv.take(i + 1).last() == fv[i as int]);
        assert(decreases_to!(*whole@ => ms@[i as int].1));
        match ms[i].1.coerce(vt) {
            Some(v) => {
                let k = Value::String(ms[i].0.clone());
                insert_entry(&mut out, k, v);
            },
            None => {
                proof {
                    lemma_fields_to_entries_none(fv, vt@, i + 1);
                }
                return None;
            },
        }
        i = i + 1;
    }
    assert(fv.take(i as int) =~= fv);
    Some(out)
}

/// Map entries as struct members named by their textual keys, each value
/// coerced to the type of that member.
fn coerce_entries_into_fields(
    es: &Vec<(Value, Value)>,
    tms: &Vec<(String, Type)>,
    whole: Ghost<&CompoundValue>,
) -> (r: Option<Vec<(String, Value)>>)
    requires
        forall|i: int| 0 <= i < es@.len() ==> decreases_to!(*whole@ => es@[i].1),
    ensures
        match r {
            Some(out) => coerce_entries_to_fields(entries_view(es@), members_view(tms@)) == Some(
                fields_view(out@),
            ),
            None => coerce_entries_to_fields(entries_view(es@), members_view(tms@)) is None,
        },
    decreases *whole@, 0nat,
{
    proof {
        lemma_entries_view(es@);
    }
    let ghost ev = entries_view(es@);
    let mut out: Vec<(String, Value)> = Vec::new();
    let mut i: usize = 0;
    assert(ev.take(0) =~= Seq::<(ValueView, ValueView)>::empty());
    while i < es.len()
        invariant
            i <= es@.len(),
            ev == entries_view(es@),
            ev.len() == es@.len(),
            forall|j: int| 0 <= j < es@.len() ==> #[trigger] ev[j] == (value_view(es@[j].0), value_view(es@[j].1)),
            forall|j: int| 0 <= j < es@.len() ==> decreases_to!(*whole@ => es@[j].1),
            coerce_entries_to_fields(ev.take(i as int), members_view(tms@)) == Some(fields_view(out@)),
        decreases es@.len() - i,
    {
        assert(ev.take(i + 1).drop_last() =~= ev.take(i as int));
        assert(ev.take(i + 1).last() == ev[i as int]);
        assert(decreases_to!(*whole@ => es@[i as int].1));
        let name = match text_value(&es[i].0) {
            Some(n) => n,
            None => {
                proof {
                    lemma_entries_to_fields_none(ev, members_view(tms@), i + 1);
                }
                return None;
            },
        };
        let ty = match find_member(tms, &name) {
            Some(t) => t,
            None => {
                proof {
                    lemma_entries_to_fields_none(ev, members_view(tms@), i + 1);
                }
                return None;
            },
        };
        match es[i].1.coerce(ty) {
            Some(v) => {
                insert_field(&mut out, name, v);
            },
            None => {
                proof {
                    lemma_entries_to_fields_none(ev, members_view(tms@), i + 1);
                }
                return None;
            },
        }
        i = i + 1;
    }
    assert(ev.take(i as int) =~= ev);
    Some(out)
}

/// Named members, each value coerced to the type of the member of the same
/// name in `tms`.
fn coerce_members(
    ms: &Vec<(String, Value)>,
    tms: &Vec<(String, Type)>,
    whole: Ghost<&CompoundValue>,
) -> (r: Option<Vec<(String, Value)>>)
    requires
        forall|i: int| 0 <= i < ms@.len() ==> decreases_to!(*whole@ => ms@[i].1),
    ensures
        match r {
            Some(out) => coerce_fields(fields_view(ms@), members_view(tms@)) == Some(fields_view(out@)),
            None => coerce_fields(fields_view(ms@), members_view(tms@)) is None,
        },
    decreases *whole@, 0nat,
{
    proof {
        lemma_fields_view(ms@);
    }
    let ghost fv = fields_view(ms@);
    let mut out: Vec<(String, Value)> = Vec::new();
    let mut i: usize = 0;
    assert(fv.take(0) =~= Seq::<(Seq<char>, ValueView)>::empty());
    while i < ms.len()
        invariant
            i <= ms@.len(),
            fv == fields_view(ms@),
            fv.len() == ms@.len(),
            forall|j: int| 0 <= j < ms@.len() ==> #[trigger] fv[j] == (ms@[j].0@, value_view(ms@[j].1)),
            forall|j: int| 0 <= j < ms@.len() ==> decreases_to!(*whole@ => ms@[j].1),
            coerce_fields(fv.take(i as int), members_view(tms@)) == Some(fields_view(out@)),
        decreases ms@.len() - i,
    {
        assert(fv.take(i + 1).drop_last() =~= fv.take(i as int));
        assert(fv.take(i + 1).last() == fv[i as int]);
        assert(decreases_to!(*whole@ => ms@[i as int].1));
        let ty = match find_member(tms, &ms[i].0) {
            Some(t) => t,
            None => {
                proof {
                    lemma_fields_none(fv, members_view(tms@), i + 1);
                }
                return None;
            },
        };
        match ms[i].1.coerce(ty) {
            Some(v) => {
                insert_field(&mut out, ms[i].0.clone(), v);
            },
            None => {
                proof {
                    lemma_fields_none(fv, members_view(tms@), i + 1);
                }
                return None;
            },
        }
        i = i + 1;
    }
    assert(fv.take(i as int) =~= fv);
    Some(out)
}

/// Map entries as object members named by their `String` keys.
fn entries_into_object(es: &Vec<(Value, Value)>) -> (r: Option<Vec<(String, Value)>>)
    ensures
        match r {
            Some(out) => entries_to_object(entries_view(es@)) == Some(fields_view(out@)),
            None => entries_to_object(entries_view(es@)) is None,
        },
{
    proof {
        lemma_entries_view(es@);
    }
    let ghost ev = entries_view(es@);
    let mut out: Vec<(String, Value)> = Vec::new();
    let mut i: usize = 0;
    assert(ev.take(0) =~= Seq::<(ValueView, ValueView)>::empty());
    while i < es.len()
        invariant
            i <= es@.len(),
            ev == entries_view(es@),
            ev.len() == es@.len(),
            forall|j: int| 0 <= j < es@.len() ==> #[trigger] ev[j] == (value_view(es@[j].0), value_view(es@[j].1)),
            entries_to_object(ev.take(i as int)) == Some(fields_view(out@)),
        decreases es@.len() - i,
    {
        assert(ev.take(i + 1).drop_last() =~= ev.take(i as int));
        assert(ev.take(i + 1).last() == ev[i as int]);
        match &es[i].0 {
            Value::String(n) => {
                insert_field(&mut out, n.clone(), clone_value(&es[i].1));
            },
            _ => {
                proof {
                    lemma_object_none(ev, i + 1);
                }
                return None;
            },
        }
        i = i + 1;
    }
    assert(ev.take(i as int) =~= ev);
    Some(out)
}

/// Copies named members.
fn copy_fields(ms: &Vec<(String, Value)>) -> (c: Vec<(String, Value)>)
    ensures
        fields_view(c@) == fields_view(ms@),
{
    let mut out: Vec<(String, Value)> = Vec::new();
    let mut i: usize = 0;
    while i < ms.len()
        invariant
            i <= ms@.len(),
            fields_view(out@) == fields_view(ms@.take(i as int)),
        decreases ms@.len() - i,
    {
        assert(ms@.take(i + 1).drop_last() =~= ms@.take(i as int));
        let n = ms[i].0.clone();
        let x = clone_value(&ms[i].1);
        let ghost prev = out@;
        out.push((n, x));
        assert(out@.drop_last() =~= prev);
        i = i + 1;
    }
    assert(ms@.take(i as int) =~= ms@);
    out
}

/// The type of a compound value.
fn compound_type(c: &CompoundValue) -> (t: Type)
    ensures
        t@ == value_type(cview(*c)),
{
    match c {
        CompoundValue::Pair(p) => p.ty.clone(),
        CompoundValue::Array(a) => a.ty.clone(),
        CompoundValue::Mapping(m) => m.ty.clone(),
        CompoundValue::Object(_) => Type::Object,
        CompoundValue::Struct(s) => s.ty.clone(),
    }
}

/// Whether `t` is the required `String` type.
fn plain_string(t: &Type) -> (b: bool)
    ensures
        b == is_plain_string(t@),
{
    match t {
        Type::Primitive(p) => p.kind == PrimitiveTypeKind::String && !p.optional,
        _ => false,
    }
}

/// A compound value coerced to `target`.
fn coerce_compound_value(c: &CompoundValue, target: &Type) -> (r: Option<Value>)
    ensures
        opt_view(r) == coerce_compound(cview(*c), target@),
    decreases c, 1nat,
{
    match target {
        Type::Compound(ct) => match &ct.definition {
            CompoundTypeDef::Array(at) => match c {
                CompoundValue::Array(a) => {
                    proof {
                        lemma_values_view(a.elements@);
                    }
                    if at.non_empty && a.elements.len() == 0 {
                        return None;
                    }
                    assert forall|i: int| 0 <= i < a.elements@.len() implies decreases_to!(*c => a.elements@[i]) by {
                        assert(decreases_to!(a.elements => a.elements@));
                        assert(decreases_to!(a.elements@ => a.elements@[i]));
                    }
                    match coerce_elements(&a.elements, &*at.element_type, Ghost(c)) {
                        Some(out) => Some(
                            Value::Compound(
                                Box::new(CompoundValue::Array(Array { ty: target.clone(), elements: out })),
                            ),
                        ),
                        None => None,
                    }
                },
                _ => None,
            },
            CompoundTypeDef::Mapping(mt) => match c {
                CompoundValue::Mapping(m) => {
                    assert forall|i: int| 0 <= i < m.elements@.len() implies decreases_to!(*c => m.elements@[i].0) && decreases_to!(*c => m.elements@[i].1) by {
                        assert(decreases_to!(m.elements => m.elements@));
                        assert(decreases_to!(m.elements@ => m.elements@[i]));
                        assert(decreases_to!(m.elements@[i] => m.elements@[i].0));
                        assert(decreases_to!(m.elements@[i] => m.elements@[i].1));
                    }
                    match coerce_map_entries(&m.elements, &*mt.key_type, &*mt.value_type, Ghost(c)) {
                        Some(out) => Some(
                            Value::Compound(
                                Box::new(CompoundValue::Mapping(MapValue { ty: target.clone(), elements: out })),
                            ),
                        ),
                        None => None,
                    }
                },
                CompoundValue::Struct(st) => {
                    if !plain_string(&*mt.key_type) {
                        return None;
                    }
                    assert forall|i: int| 0 <= i < st.members@.len() implies decreases_to!(*c => st.members@[i].1) by {
                        assert(decreases_to!(st.members => st.members@));
                        assert(decreases_to!(st.members@ => st.members@[i]));
                        assert(decreases_to!(st.members@[i] => st.members@[i].1));
                    }
                    match coerce_fields_into_entries(&st.members, &*mt.value_type, Ghost(c)) {
                        Some(out) => Some(
                            Value::Compound(
                                Box::new(CompoundValue::Mapping(MapValue { ty: target.clone(), elements: out })),
                            ),
                        ),
                        None => None,
                    }
                },
                CompoundValue::Object(o) => {
                    if !plain_string(&*mt.key_type) {
                        return None;
                    }
                    assert forall|i: int| 0 <= i < o.members@.len() implies decreases_to!(*c => o.members@[i].1) by {
                        assert(decreases_to!(o.members => o.members@));
                        assert(decreases_to!(o.members@ => o.members@[i]));
                        assert(decreases_to!(o.members@[i] => o.members@[i].1));
                    }
                    match coerce_fields_into_entries(&o.members, &*mt.value_type, Ghost(c)) {
                        Some(out) => Some(
                            Value::Compound(
                                Box::new(CompoundValue::Mapping(MapValue { ty: target.clone(), elements: out })),
                            ),
                        ),
                        None => None,
                    }
                },
                _ => None,
            },
            CompoundTypeDef::Pair(pt) => match c {
                CompoundValue::Pair(p) => {
                    let l = p.left.coerce(&*pt.left_type);
                    let r = p.right.coerce(&*pt.right_type);
                    match (l, r) {
                        (Some(a), Some(b)) => Some(
                            Value::Compound(
                                Box::new(CompoundValue::Pair(Pair { ty: target.clone(), left: a, right: b })),
                            ),
                        ),
                        _ => None,
                    }
                },
                _ => None,
            },
            CompoundTypeDef::Struct(stt) => {
                proof {
                    lemma_members_view(stt.members@);
                }
                match c {
                    CompoundValue::Mapping(m) => {
                        proof {
                            lemma_entries_view(m.elements@);
                        }
                        if m.elements.len() != stt.members.len() {
                            return None;
                        }
                        assert forall|i: int| 0 <= i < m.elements@.len() implies decreases_to!(*c => m.elements@[i].1) by {
                            assert(decreases_to!(m.elements => m.elements@));
                            assert(decreases_to!(m.elements@ => m.elements@[i]));
                            assert(decreases_to!(m.elements@[i] => m.elements@[i].1));
                        }
                        match coerce_entries_into_fields(&m.elements, &stt.members, Ghost(c)) {
                            Some(out) => Some(
                                Value::Compound(
                                    Box::new(CompoundValue::Struct(Struct { ty: target.clone(), members: out })),
                                ),
                            ),
                            None => None,
                        }
                    },
                    CompoundValue::Object(o) => {
                        proof {
                            lemma_fields_view(o.members@);
                        }
                        if o.members.len() != stt.members.len() {
                            return None;
                        }
                        assert forall|i: int| 0 <= i < o.members@.len() implies decreases_to!(*c => o.members@[i].1) by {
                            assert(decreases_to!(o.members => o.members@));
                            assert(decreases_to!(o.members@ => o.members@[i]));
                            assert(decreases_to!(o.members@[i] => o.members@[i].1));
                        }
                        match coerce_members(&o.members, &stt.members, Ghost(c)) {
                            Some(out) => Some(
                                Value::Compound(
                                    Box::new(CompoundValue::Struct(Struct { ty: target.clone(), members: out })),
                                ),
                            ),
                            None => None,
                        }
                    },
                    CompoundValue::Struct(sv) => {
                        proof {
                            lemma_fields_view(sv.members@);
                        }
                        if sv.members.len() != stt.members.len() {
                            return None;
                        }
                        assert forall|i: int| 0 <= i < sv.members@.len() implies decreases_to!(*c => sv.members@[i].1) by {
                            assert(decreases_to!(sv.members => sv.members@));
                            assert(decreases_to!(sv.members@ => sv.members@[i]));
                            assert(decreases_to!(sv.members@[i] => sv.members@[i].1));
                        }
                        match coerce_members(&sv.members, &stt.members, Ghost(c)) {
                            Some(out) => Some(
                                Value::Compound(
                                    Box::new(CompoundValue::Struct(Struct { ty: target.clone(), members: out })),
                                ),
                            ),
                            None => None,
                        }
                    },
                    _ => None,
                }
            },
        },
        Type::Object => match c {
            CompoundValue::Mapping(m) => match entries_into_object(&m.elements) {
                Some(out) => Some(Value::Compound(Box::new(CompoundValue::Object(Object { members: out })))),
                None => None,
            },
            CompoundValue::Struct(sv) => Some(
                Value::Compound(Box::new(CompoundValue::Object(Object { members: copy_fields(&sv.members) }))),
            ),
            _ => None,
        },
        _ => None,
    }
}

impl Value {
    /// Gets the type of the value.
    pub fn ty(&self) -> (t: Type)
        ensures
            t@ == value_type(self@),
    {
        match self {
            Value::Boolean(_) => Type::Primitive(PrimitiveType { kind: PrimitiveTypeKind::Boolean, optional: false }),
            Value::Integer(_) => Type::Primitive(PrimitiveType { kind: PrimitiveTypeKind::Integer, optional: false }),
            Value::Float(_) => Type::Primitive(PrimitiveType { kind: PrimitiveTypeKind::Float, optional: false }),
            Value::String(_) => Type::Primitive(PrimitiveType { kind: PrimitiveTypeKind::String, optional: false }),
            Value::File(_) => Type::Primitive(PrimitiveType { kind: PrimitiveTypeKind::File, optional: false }),
            Value::Directory(_) => Type::Primitive(PrimitiveType { kind: PrimitiveTypeKind::Directory, optional: false }),
            Value::NoneValue => Type::NoneType,
            Value::Compound(c) => compound_type(&**c),
        }
    }

    /// Coerces the value into the given type; returns `None` if the
    /// coercion is not supported.
    pub fn coerce(&self, target: &Type) -> (r: Option<Value>)
        ensures
            opt_view(r) == coerce_value(self@, target@),
        decreases self, 2nat,
    {
        match self {
            Value::Boolean(b) => match target {
                Type::Primitive(p) => if p.kind == PrimitiveTypeKind::Boolean {
                    Some(Value::Boolean(*b))
                } else {
                    None
                },
                _ => None,
            },
            Value::Integer(i) => match target {
                Type::Primitive(p) => if p.kind == PrimitiveTypeKind::Integer {
                    Some(Value::Integer(*i))
                } else if p.kind == PrimitiveTypeKind::Float {
                    Some(Value::Float(int_to_float_bits(*i)))
                } else {
                    None
                },
                _ => None,
            },
            Value::Float(f) => match target {
                Type::Primitive(p) => if p.kind == PrimitiveTypeKind::Float {
                    Some(Value::Float(*f))
                } else {
                    None
                },
                _ => None,
            },
            Value::String(s) => match target {
                Type::Primitive(p) => if p.kind == PrimitiveTypeKind::String {
                    Some(Value::String(s.clone()))
                } else if p.kind == PrimitiveTypeKind::File {
                    Some(Value::File(s.clone()))
                } else if p.kind == PrimitiveTypeKind::Directory {
                    Some(Value::Directory(s.clone()))
                } else {
                    None
                },
                _ => None,
            },
            Value::File(s) => match target {
                Type::Primitive(p) => if p.kind == PrimitiveTypeKind::File {
                    Some(Value::File(s.clone()))
                } else if p.kind == PrimitiveTypeKind::String {
                    Some(Value::String(s.clone()))
                } else {
                    None
                },
                _ => None,
            },
            Value::Directory(s) => match target {
                Type::Primitive(p) => if p.kind == PrimitiveTypeKind::Directory {
                    Some(Value::Directory(s.clone()))
                } else if p.kind == PrimitiveTypeKind::String {
                    Some(Value::String(s.clone()))
                } else {
                    None
                },
                _ => None,
            },
            Value::NoneValue => if target.is_optional() {
                Some(Value::NoneValue)
            } else {
                None
            },
            Value::Compound(c) => {
                let t = compound_type(&**c);
                if t.is_coercible_to(target) {
                    coerce_compound_value(&**c, target)
                } else {
                    None
                }
            },
        }
    }
}

impl Value {
    /// Gets the value as a `Boolean`; `None` if it is not one.
    pub fn as_boolean(&self) -> (r: Option<bool>)
        ensures
            match self@ {
                ValueView::Boolean(b) => r == Some(b),
                _ => r is None,
            },
    {
        match self {
            Value::Boolean(b) => Some(*b),
            _ => None,
        }
    }

    /// Unwraps the value into a `Boolean`.
    pub fn unwrap_boolean(&self) -> (b: bool)
        requires
            self@ is Boolean,
        ensures
            self@ == ValueView::Boolean(b),
    {
        match self {
            Value::Boolean(b) => *b,
            _ => false,
        }
    }

    /// Gets the value as an `Int`; `None` if it is not one.
    pub fn as_integer(&self) -> (r: Option<i64>)
        ensures
            match self@ {
                ValueView::Integer(i) => r == Some(i),
                _ => r is None,
            },
    {
        match self {
            Value::Integer(i) => Some(*i),
            _ => None,
        }
    }

    /// Unwraps the value into an `Int`.
    pub fn unwrap_integer(&self) -> (i: i64)
        requires
            self@ is Integer,
        ensures
            self@ == ValueView::Integer(i),
    {
        match self {
            Value::Integer(i) => *i,
            _ => 0,
        }
    }

    /// Gets the bits of the value as a `Float`; `None` if it is not one.
    pub fn as_float(&self) -> (r: Option<u64>)
        ensures
            match self@ {
                ValueView::Float(f) => r == Some(f),
                _ => r is None,
            },
    {
        match self {
            Value::Float(f) => Some(*f),
            _ => None,
        }
    }

    /// Unwraps the bits of the value as a `Float`.
    pub fn unwrap_float(&self) -> (f: u64)
        requires
            self@ is Float,
        ensures
            self@ == ValueView::Float(f),
    {
        match self {
            Value::Float(f) => *f,
            _ => 0,
        }
    }

    /// Gets the text of a `String`, `File` or `Directory` value; `None` for
    /// any other value.
    pub fn as_str(&self) -> (r: Option<&str>)
        ensures
            match r {
                Some(t) => text_of(self@) == Some(t@),
                None => text_of(self@) is None,
            },
    {
        match self {
            Value::String(s) => Some(s.as_str()),
            Value::File(s) => Some(s.as_str()),
            Value::Directory(s) => Some(s.as_str()),
            _ => None,
        }
    }

    /// Gets the value as a `String`; `None` if it is not one.
    pub fn as_string(&self) -> (r: Option<&str>)
        ensures
            match self@ {
                ValueView::String(s) => r matches Some(t) && t@ == s,
                _ => r is None,
            },
    {
        match self {
            Value::String(s) => Some(s.as_str()),
            _ => None,
        }
    }

    /// Unwraps the value into a `String`.
    pub fn unwrap_string(&self) -> (t: &str)
        requires
            self@ is String,
        ensures
            self@ == ValueView::String(t@),
    {
        match self {
            Value::String(s) => s.as_str(),
            _ => "",
        }
    }

    /// Gets the value as a `File`; `None` if it is not one.
    pub fn as_file(&self) -> (r: Option<&str>)
        ensures
            match self@ {
                ValueView::File(s) => r matches Some(t) && t@ == s,
                _ => r is None,
            },
    {
        match self {
            Value::File(s) => Some(s.as_str()),
            _ => None,
        }
    }

    /// Unwraps the value into a `File`.
    pub fn unwrap_file(&self) -> (t: &str)
        requires
            self@ is File,
        ensures
            self@ == ValueView::File(t@),
    {
        match self {
            Value::File(s) => s.as_str(),
            _ => "",
        }
    }

    /// Gets the value as a `Directory`; `None` if it is not one.
    pub fn as_directory(&self) -> (r: Option<&str>)
        ensures
            match self@ {
                ValueView::Directory(s) => r matches Some(t) && t@ == s,
                _ => r is None,
            },
    {
        match self {
            Value::Directory(s) => Some(s.as_str()),
            _ => None,
        }
    }

    /// Unwraps the value into a `Directory`.
    pub fn unwrap_directory(&self) -> (t: &str)
        requires
            self@ is Directory,
        ensures
            self@ == ValueView::Directory(t@),
    {
        match self {
            Value::Directory(s) => s.as_str(),
            _ => "",
        }
    }

    /// Gets the value as a `Pair`; `None` if it is not one.
    pub fn as_pair(&self) -> (r: Option<&Pair>)
        ensures
            r is Some <==> self@ is Pair,
            r matches Some(p) ==> self@ == cview(CompoundValue::Pair(*p)),
    {
        match self {
            Value::Compound(c) => match &**c {
                CompoundValue::Pair(p) => Some(p),
                _ => None,
            },
            _ => None,
        }
    }

    /// Gets the value as an `Array`; `None` if it is not one.
    pub fn as_array(&self) -> (r: Option<&Array>)
        ensures
            r is Some <==> self@ is Array,
            r matches Some(a) ==> self@ == cview(CompoundValue::Array(*a)),
    {
        match self {
            Value::Compound(c) => match &**c {
                CompoundValue::Array(a) => Some(a),
                _ => None,
            },
            _ => None,
        }
    }

    /// Gets the value as a `Map`; `None` if it is not one.
    pub fn as_map(&self) -> (r: Option<&MapValue>)
        ensures
            r is Some <==> self@ is Mapping,
            r matches Some(m) ==> self@ == cview(CompoundValue::Mapping(*m)),
    {
        match self {
            Value::Compound(c) => match &**c {
                CompoundValue::Mapping(m) => Some(m),
                _ => None,
            },
            _ => None,
        }
    }

    /// Gets the value as an `Object`; `None` if it is not one.
    pub fn as_object(&self) -> (r: Option<&Object>)
        ensures
            r is Some <==> self@ is Object,
            r matches Some(o) ==> self@ == cview(CompoundValue::Object(*o)),
    {
        match self {
            Value::Compound(c) => match &**c {
                CompoundValue::Object(o) => Some(o),
                _ => None,
            },
            _ => None,
        }
    }

    /// Gets the value as a struct; `None` if it is not one.
    pub fn as_struct(&self) -> (r: Option<&Struct>)
        ensures
            r is Some <==> self@ is Struct,
            r matches Some(s) ==> self@ == cview(CompoundValue::Struct(*s)),
    {
        match self {
            Value::Compound(c) => match &**c {
                CompoundValue::Struct(s) => Some(s),
                _ => None,
            },
            _ => None,
        }
    }

    /// Unwraps the value into a `Pair`.
    pub fn unwrap_pair(&self) -> (r: &Pair)
        requires
            self@ is Pair,
        ensures
            self@ == cview(CompoundValue::Pair(*r)),
    {
        self.as_pair().unwrap()
    }

    /// Unwraps the value into an `Array`.
    pub fn unwrap_array(&self) -> (r: &Array)
        requires
            self@ is Array,
        ensures
            self@ == cview(CompoundValue::Array(*r)),
    {
        self.as_array().unwrap()
    }

    /// Unwraps the value into a `Map`.
    pub fn unwrap_map(&self) -> (r: &MapValue)
        requires
            self@ is Mapping,
        ensures
            self@ == cview(CompoundValue::Mapping(*r)),
    {
        self.as_map().unwrap()
    }

    /// Unwraps the value into an `Object`.
    pub fn unwrap_object(&self) -> (r: &Object)
        requires
            self@ is Object,
        ensures
            self@ == cview(CompoundValue::Object(*r)),
    {
        self.as_object().unwrap()
    }

    /// Unwraps the value into a struct.
    pub fn unwrap_struct(&self) -> (r: &Struct)
        requires
            self@ is Struct,
        ensures
            self@ == cview(CompoundValue::Struct(*r)),
    {
        self.as_struct().unwrap()
    }
}

impl Pair {
    /// Gets the type of the pair.
    pub fn ty(&self) -> (t: Type)
        ensures
            cview(CompoundValue::Pair(*self)) matches ValueView::Pair(pt, _, _) && t@ == pt,
    {
        self.ty.clone()
    }

    /// Gets the left value of the pair.
    pub fn left(&self) -> (r: &Value)
        ensures
            cview(CompoundValue::Pair(*self)) matches ValueView::Pair(_, l, _) && *l == r@,
    {
        &self.left
    }

    /// Gets the right value of the pair.
    pub fn right(&self) -> (r: &Value)
        ensures
            cview(CompoundValue::Pair(*self)) matches ValueView::Pair(_, _, rv) && *rv == r@,
    {
        &self.right
    }
}

impl Array {
    /// Gets the type of the array.
    pub fn ty(&self) -> (t: Type)
        ensures
            cview(CompoundValue::Array(*self)) matches ValueView::Array(at, _) && t@ == at,
    {
        self.ty.clone()
    }

    /// Gets the elements of the array.
    pub fn elements(&self) -> (r: &[Value])
        ensures
            cview(CompoundValue::Array(*self)) matches ValueView::Array(_, es) && es == values_view(r@),
    {
        self.elements.as_slice()
    }
}

impl MapValue {
    /// Gets the type of the map.
    pub fn ty(&self) -> (t: Type)
        ensures
            cview(CompoundValue::Mapping(*self)) matches ValueView::Mapping(mt, _) && t@ == mt,
    {
        self.ty.clone()
    }

    /// Gets the entries of the map, in insertion order.
    pub fn elements(&self) -> (r: &[(Value, Value)])
        ensures
            cview(CompoundValue::Mapping(*self)) matches ValueView::Mapping(_, es) && es == entries_view(
                r@,
            ),
    {
        self.elements.as_slice()
    }
}

impl Object {
    /// Gets the type of the object: `Object`.
    pub fn ty(&self) -> (t: Type)
        ensures
            t@ == TypeView::Object,
    {
        Type::Object
    }

    /// Gets the members of the object, in insertion order.
    pub fn members(&self) -> (r: &[(String, Value)])
        ensures
            cview(CompoundValue::Object(*self)) matches ValueView::Object(ms) && ms == fields_view(r@),
    {
        self.members.as_slice()
    }
}

impl Struct {
    /// Gets the type of the struct value.
    pub fn ty(&self) -> (t: Type)
        ensures
            cview(CompoundValue::Struct(*self)) matches ValueView::Struct(st, _) && t@ == st,
    {
        self.ty.clone()
    }

    /// Gets the members of the struct value, in insertion order.
    pub fn members(&self) -> (r: &[(String, Value)])
        ensures
            cview(CompoundValue::Struct(*self)) matches ValueView::Struct(_, ms) && ms == fields_view(r@),
    {
        self.members.as_slice()
    }
}

impl CompoundValue {
    /// Gets the type of the compound value.
    pub fn ty(&self) -> (t: Type)
        ensures
            t@ == value_type(cview(*self)),
    {
        compound_type(self)
    }

    /// Coerces the compound value into the given type; returns `None` if
    /// the coercion is not supported.
    pub fn coerce(&self, target: &Type) -> (r: Option<Value>)
        ensures
            opt_view(r) == coerce_compound(cview(*self), target@),
    {
        coerce_compound_value(self, target)
    }
}

/// The members inserted one after another into an empty object: a later
/// member of the same name replaces the value of an earlier one.
pub open spec fn collect_fields(ms: Seq<(Seq<char>, ValueView)>) -> Seq<(Seq<char>, ValueView)>
    decreases ms.len(),
{
    if ms.len() == 0 {
        Seq::empty()
    } else {
        field_insert(collect_fields(ms.drop_last()), ms.last().0, ms.last().1)
    }
}

/// The element type of an array type.
pub open spec fn element_type(t: TypeView) -> TypeView {
    match t {
        TypeView::Array(e, _, _) => *e,
        _ => t,
    }
}

/// The WDL evaluation engine: it makes values of given types.
#[derive(Debug, Default)]
pub struct Engine {}

impl Engine {
    /// Constructs a new WDL evaluation engine.
    pub fn new() -> (e: Self) {
        Engine {  }
    }

    /// Creates a new `String` value.
    pub fn new_string(&mut self, s: &str) -> (v: Value)
        ensures
            v@ == ValueView::String(s@),
    {
        Value::String(s.to_owned())
    }

    /// Creates a new `File` value.
    pub fn new_file(&mut self, s: &str) -> (v: Value)
        ensures
            v@ == ValueView::File(s@),
    {
        Value::File(s.to_owned())
    }

    /// Creates a new `Directory` value.
    pub fn new_directory(&mut self, s: &str) -> (v: Value)
        ensures
            v@ == ValueView::Directory(s@),
    {
        Value::Directory(s.to_owned())
    }

    /// Creates a new `Pair` value of the pair type `ty`; `None` if a value
    /// does not coerce to its side's type.
    pub fn new_pair(&mut self, ty: &Type, left: Value, right: Value) -> (r: Option<Value>)
        requires
            ty@ is Pair,
        ensures
            match ty@ {
                TypeView::Pair(lt, rt, _) => match (coerce_value(left@, *lt), coerce_value(right@, *rt)) {
                    (Some(a), Some(b)) => opt_view(r) == Some(ValueView::Pair(ty@, Box::new(a), Box::new(b))),
                    _ => r is None,
                },
                _ => false,
            },
    {
        match ty {
            Type::Compound(ct) => match &ct.definition {
                CompoundTypeDef::Pair(pt) => {
                    let l = left.coerce(&*pt.left_type);
                    let r = right.coerce(&*pt.right_type);
                    match (l, r) {
                        (Some(a), Some(b)) => Some(
                            Value::Compound(
                                Box::new(CompoundValue::Pair(Pair { ty: ty.clone(), left: a, right: b })),
                            ),
                        ),
                        _ => None,
                    }
                },
                _ => None,
            },
            _ => None,
        }
    }

    /// Creates a new `Array` value of the array type `ty`; `None` if an
    /// element does not coerce to the element type.
    pub fn new_array(&mut self, ty: &Type, elements: Vec<Value>) -> (r: Option<Value>)
        requires
            ty@ is Array,
        ensures
            match coerce_each(values_view(elements@), element_type(ty@)) {
                Some(c) => opt_view(r) == Some(ValueView::Array(ty@, c)),
                None => r is None,
            },
    {
        match ty {
            Type::Compound(ct) => match &ct.definition {
                CompoundTypeDef::Array(at) => {
                    let ghost ev = values_view(elements@);
                    let tmp = CompoundValue::Array(Array { ty: Type::Object, elements });
                    match &tmp {
                        CompoundValue::Array(a) => {
                            assert(values_view(a.elements@) == ev);
                            assert forall|i: int| 0 <= i < a.elements@.len() implies decreases_to!(tmp => a.elements@[i]) by {
                                assert(decreases_to!(a.elements => a.elements@));
                                assert(decreases_to!(a.elements@ => a.elements@[i]));
                            }
                            match coerce_elements(&a.elements, &*at.element_type, Ghost(&tmp)) {
                                Some(out) => Some(
                                    Value::Compound(
                                        Box::new(CompoundValue::Array(Array { ty: ty.clone(), elements: out })),
                                    ),
                                ),
                                None => None,
                            }
                        },
                        _ => None,
                    }
                },
                _ => None,
            },
            _ => None,
        }
    }

    /// Creates a new empty `Array` value of the array type `ty`.
    pub fn new_empty_array(&mut self, ty: &Type) -> (v: Value)
        requires
            ty@ is Array,
        ensures
            v@ == ValueView::Array(ty@, Seq::empty()),
    {
        let v = Value::Compound(Box::new(CompoundValue::Array(Array { ty: ty.clone(), elements: Vec::new() })));
        assert(values_view(Seq::<Value>::empty()) =~= Seq::<ValueView>::empty());
        v
    }

    /// Creates a new `Map` value of the map type `ty`, inserting the
    /// entries in order; `None` if a key or value does not coerce to the key
    /// or value type.
    pub fn new_map(&mut self, ty: &Type, elements: Vec<(Value, Value)>) -> (r: Option<Value>)
        requires
            ty@ is Mapping,
        ensures
            match ty@ {
                TypeView::Mapping(kt, vt, _) => match coerce_entries(entries_view(elements@), *kt, *vt) {
                    Some(c) => opt_view(r) == Some(ValueView::Mapping(ty@, c)),
                    None => r is None,
                },
                _ => false,
            },
    {
        match ty {
            Type::Compound(ct) => match &ct.definition {
                CompoundTypeDef::Mapping(mt) => {
                    let ghost ev = entries_view(elements@);
                    let tmp = CompoundValue::Mapping(MapValue { ty: Type::Object, elements });
                    match &tmp {
                        CompoundValue::Mapping(m) => {
                            assert(entries_view(m.elements@) == ev);
                            assert forall|i: int| 0 <= i < m.elements@.len() implies decreases_to!(tmp => m.elements@[i].0) && decreases_to!(tmp => m.elements@[i].1) by {
                                assert(decreases_to!(m.elements => m.elements@));
                                assert(decreases_to!(m.elements@ => m.elements@[i]));
                                assert(decreases_to!(m.elements@[i] => m.elements@[i].0));
                                assert(decreases_to!(m.elements@[i] => m.elements@[i].1));
                            }
                            match coerce_map_entries(&m.elements, &*mt.key_type, &*mt.value_type, Ghost(&tmp)) {
                                Some(out) => Some(
                                    Value::Compound(
                                        Box::new(CompoundValue::Mapping(MapValue { ty: ty.clone(), elements: out })),
                                    ),
                                ),
                                None => None,
                            }
                        },
                        _ => None,
                    }
                },
                _ => None,
            },
            _ => None,
        }
    }

    /// Creates a new `Object` value, inserting the members in order.
    pub fn new_object(&mut self, items: Vec<(String, Value)>) -> (v: Value)
        ensures
            v@ == ValueView::Object(collect_fields(fields_view(items@))),
    {
        proof {
            lemma_fields_view(items@);
        }
        let ghost fv = fields_view(items@);
        let mut out: Vec<(String, Value)> = Vec::new();
        let mut i: usize = 0;
        assert(fv.take(0) =~= Seq::<(Seq<char>, ValueView)>::empty());
        while i < items.len()
            invariant
                i <= items@.len(),
                fv == fields_view(items@),
                fv.len() == items@.len(),
                forall|j: int| 0 <= j < items@.len() ==> #[trigger] fv[j] == (items@[j].0@, value_view(items@[j].1)),
                fields_view(out@) == collect_fields(fv.take(i as int)),
            decreases items@.len() - i,
        {
            assert(fv.take(i + 1).drop_last() =~= fv.take(i as int));
            assert(fv.take(i + 1).last() == fv[i as int]);
            insert_field(&mut out, items[i].0.clone(), clone_value(&items[i].1));
            i = i + 1;
        }
        assert(fv.take(i as int) =~= fv);
        Value::Compound(Box::new(CompoundValue::Object(Object { members: out })))
    }

    /// Creates a new struct value of the struct type `ty`, inserting the
    /// members in order; `None` if a member is not one of the type or its
    /// value does not coerce to the member's type.
    pub fn new_struct(&mut self, ty: &Type, members: Vec<(String, Value)>) -> (r: Option<Value>)
        requires
            ty@ is Struct,
        ensures
            match ty@ {
                TypeView::Struct(_, tms, _) => match coerce_fields(fields_view(members@), tms) {
                    Some(c) => opt_view(r) == Some(ValueView::Struct(ty@, c)),
                    None => r is None,
                },
                _ => false,
            },
    {
        match ty {
            Type::Compound(ct) => match &ct.definition {
                CompoundTypeDef::Struct(st) => {
                    let ghost fv = fields_view(members@);
                    let tmp = CompoundValue::Object(Object { members });
                    match &tmp {
                        CompoundValue::Object(o) => {
                            assert(fields_view(o.members@) == fv);
                            assert forall|i: int| 0 <= i < o.members@.len() implies decreases_to!(tmp => o.members@[i].1) by {
                                assert(decreases_to!(o.members => o.members@));
                                assert(decreases_to!(o.members@ => o.members@[i]));
                                assert(decreases_to!(o.members@[i] => o.members@[i].1));
                            }
                            match coerce_members(&o.members, &st.members, Ghost(&tmp)) {
                                Some(out) => Some(
                                    Value::Compound(
                                        Box::new(CompoundValue::Struct(Struct { ty: ty.clone(), members: out })),
                                    ),
                                ),
                                None => None,
                            }
                        },
                        _ => None,
                    }
                },
                _ => None,
            },
            _ => None,
        }
    }
}

/// A piece of the text of a value: literal text, or a `Float` (by its
/// bits), whose text is the shortest decimal form that reads back as the
/// same float.
#[derive(Debug)]
pub enum DisplayPiece {
    /// Literal text.
    Text(String),
    /// A float, by its bits.
    Float(u64),
}

/// The mathematical form of a [`DisplayPiece`].
pub enum PieceView {
    /// Literal text.
    Text(Seq<char>),
    /// A float, by its bits.
    Float(u64),
}

impl View for DisplayPiece {
    type V = PieceView;

    open spec fn view(&self) -> PieceView {
        match self {
            DisplayPiece::Text(s) => PieceView::Text(s@),
            DisplayPiece::Float(f) => PieceView::Float(*f),
        }
    }
}

/// The views of pieces.
pub open spec fn pieces_view(ps: Seq<DisplayPiece>) -> Seq<PieceView> {
    ps.map_values(|p: DisplayPiece| p@)
}

/// One text piece.
pub open spec fn text_piece(s: Seq<char>) -> Seq<PieceView> {
    seq![PieceView::Text(s)]
}

/// The decimal text of an integer, with a `-` for a negative one.
pub open spec fn int_text(i: i64) -> Seq<char> {
    if i < 0 {
        "-"@ + spec_decimal((-i) as nat)
    } else {
        spec_decimal(i as nat)
    }
}

/// The name of a struct type.
pub open spec fn struct_name(t: TypeView) -> Seq<char> {
    match t {
        TypeView::Struct(n, _, _) => n,
        _ => Seq::empty(),
    }
}

/// The text of values separated by `, `.
pub open spec fn display_list(vs: Seq<ValueView>) -> Seq<PieceView>
    decreases vs, 0nat,
{
    if vs.len() == 0 {
        Seq::empty()
    } else {
        display_list(vs.drop_last()) + (if vs.len() > 1 {
            text_piece(", "@)
        } else {
            Seq::empty()
        }) + display_of(vs.last())
    }
}

/// The text of map entries, `key: value`, separated by `, `.
pub open spec fn display_entries(es: Seq<(ValueView, ValueView)>) -> Seq<PieceView>
    decreases es, 0nat,
{
    if es.len() == 0 {
        Seq::empty()
    } else {
        display_entries(es.drop_last()) + (if es.len() > 1 {
            text_piece(", "@)
        } else {
            Seq::empty()
        }) + display_of(es.last().0) + text_piece(": "@) + display_of(es.last().1)
    }
}

/// The text of members, `name: value`, separated by `, `.
pub open spec fn display_fields(ms: Seq<(Seq<char>, ValueView)>) -> Seq<PieceView>
    decreases ms, 0nat,
{
    if ms.len() == 0 {
        Seq::empty()
    } else {
        display_fields(ms.drop_last()) + (if ms.len() > 1 {
            text_piece(", "@)
        } else {
            Seq::empty()
        }) + text_piece(ms.last().0 + ": "@) + display_of(ms.last().1)
    }
}

/// The text of a value: `true`/`false`, the decimal integer, the float,
/// the text of a string, file or directory in double quotes, `None`,
/// `(left, right)`, `[a, b]`, `{k: v}`, `object {name: v}` and
/// `Name {name: v}`.
pub open spec fn display_of(v: ValueView) -> Seq<PieceView>
    decreases v, 1nat,
{
    match v {
        ValueView::Boolean(b) => text_piece(if b { "true"@ } else { "false"@ }),
        ValueView::Integer(i) => text_piece(int_text(i)),
        ValueView::Float(f) => seq![PieceView::Float(f)],
        ValueView::String(s) => text_piece("\""@ + s + "\""@),
        ValueView::File(s) => text_piece("\""@ + s + "\""@),
        ValueView::Directory(s) => text_piece("\""@ + s + "\""@),
        ValueView::NoneValue => text_piece("None"@),
        ValueView::Pair(_, l, r) => text_piece("("@) + display_of(*l) + text_piece(", "@) + display_of(
            *r,
        ) + text_piece(")"@),
        ValueView::Array(_, es) => text_piece("["@) + display_list(es) + text_piece("]"@),
        ValueView::Mapping(_, es) => text_piece("{"@) + display_entries(es) + text_piece("}"@),
        ValueView::Object(ms) => text_piece("object {"@) + display_fields(ms) + text_piece("}"@),
        ValueView::Struct(t, ms) => text_piece(struct_name(t) + " {"@) + display_fields(ms) + text_piece(
            "}"@,
        ),
    }
}

/// Appends a text piece.
fn push_text(out: &mut Vec<DisplayPiece>, s: String)
    ensures
        pieces_view(final(out)@) == pieces_view(old(out)@) + text_piece(s@),
{
    let ghost prev = out@;
    out.push(DisplayPiece::Text(s));
    assert(pieces_view(out@) =~= pieces_view(prev) + text_piece(s@));
}

/// The decimal text of an integer.
pub(crate) fn int_string(i: i64) -> (s: String)
    ensures
        s@ == int_text(i),
{
    if i < 0 {
        let wide: i128 = i as i128;
        let m: u64 = (0i128 - wide) as u64;
        let mut s = "-".to_owned();
        let d = decimal(m);
        let dc = chars_of(d.as_str());
        push_chars(&mut s, dc.as_slice());
        proof {
            reveal_strlit("-");
        }
        s
    } else {
        decimal(i as u64)
    }
}

/// The name of the struct type `t`, or nothing.
fn struct_name_of(t: &Type) -> (s: String)
    ensures
        s@ == struct_name(t@),
{
    match t {
        Type::Compound(ct) => match &ct.definition {
            CompoundTypeDef::Struct(st) => st.name.clone(),
            _ => String::new(),
        },
        _ => String::new(),
    }
}

/// `a` followed by `b`.
fn concat(a: &str, b: &str) -> (s: String)
    ensures
        s@ == a@ + b@,
{
    let mut s = a.to_owned();
    let bc = chars_of(b);
    push_chars(&mut s, bc.as_slice());
    s
}

/// Appends the text of `v`.
fn display_into(v: &Value, out: &mut Vec<DisplayPiece>)
    ensures
        pieces_view(final(out)@) == pieces_view(old(out)@) + display_of(v@),
    decreases v,
{
    proof {
        reveal_strlit("true");
        reveal_strlit("false");
        reveal_strlit("None");
        reveal_strlit("\"");
    }
    match v {
        Value::Boolean(b) => push_text(out, if *b { "true".to_owned() } else { "false".to_owned() }),
        Value::Integer(i) => push_text(out, int_string(*i)),
        Value::Float(f) => {
            let ghost prev = out@;
            out.push(DisplayPiece::Float(*f));
            assert(pieces_view(out@) =~= pieces_view(prev) + seq![PieceView::Float(*f)]);
        },
        Value::String(s) | Value::File(s) | Value::Directory(s) => {
            let q = concat("\"", s.as_str());
            push_text(out, concat(q.as_str(), "\""));
        },
        Value::NoneValue => push_text(out, "None".to_owned()),
        Value::Compound(c) => match &**c {
            CompoundValue::Pair(p) => {
                let ghost start = pieces_view(out@);
                push_text(out, "(".to_owned());
                display_into(&p.left, out);
                push_text(out, ", ".to_owned());
                display_into(&p.right, out);
                push_text(out, ")".to_owned());
                assert(pieces_view(out@) =~= start + display_of(v@));
            },
            CompoundValue::Array(a) => {
                proof {
                    lemma_values_view(a.elements@);
                }
                let ghost start = pieces_view(out@);
                push_text(out, "[".to_owned());
                let ghost mid = pieces_view(out@);
                let ghost vs = values_view(a.elements@);
                let mut i: usize = 0;
                #[verifier::loop_isolation(false)]
                while i < a.elements.len()
                    invariant
                        i <= a.elements@.len(),
                        pieces_view(out@) == mid + display_list(vs.take(i as int)),
                    decreases a.elements@.len() - i,
                {
                    proof {
                        assert(decreases_to!(a.elements => a.elements@));
                        assert(decreases_to!(a.elements@ => a.elements@[i as int]));
                        assert(vs.take(i + 1).drop_last() =~= vs.take(i as int));
                        assert(vs.take(i + 1).last() == vs[i as int]);
                    }
                    if i > 0 {
                        push_text(out, ", ".to_owned());
                    }
                    display_into(&a.elements[i], out);
                    i = i + 1;
                    assert(pieces_view(out@) =~= mid + display_list(vs.take(i as int)));
                }
                assert(vs.take(i as int) =~= vs);
                push_text(out, "]".to_owned());
                assert(pieces_view(out@) =~= start + display_of(v@));
            },
            CompoundValue::Mapping(m) => {
                proof {
                    lemma_entries_view(m.elements@);
                }
                let ghost start = pieces_view(out@);
                push_text(out, "{".to_owned());
                let ghost mid = pieces_view(out@);
                let ghost es = entries_view(m.elements@);
                let mut i: usize = 0;
                #[verifier::loop_isolation(false)]
                while i < m.elements.len()
                    invariant
                        i <= m.elements@.len(),
                        pieces_view(out@) == mid + display_entries(es.take(i as int)),
                    decreases m.elements@.len() - i,
                {
                    proof {
                        assert(decreases_to!(m.elements => m.elements@));
                        assert(decreases_to!(m.elements@ => m.elements@[i as int]));
                        assert(decreases_to!(m.elements@[i as int] => m.elements@[i as int].0));
                        assert(decreases_to!(m.elements@[i as int] => m.elements@[i as int].1));
                        assert(es.take(i + 1).drop_last() =~= es.take(i as int));
                        assert(es.take(i + 1).last() == es[i as int]);
                    }
                    if i > 0 {
                        push_text(out, ", ".to_owned());
                    }
                    display_into(&m.elements[i].0, out);
                    push_text(out, ": ".to_owned());
                    display_into(&m.elements[i].1, out);
                    i = i + 1;
                    assert(pieces_view(out@) =~= mid + display_entries(es.take(i as int)));
                }
                assert(es.take(i as int) =~= es);
                push_text(out, "}".to_owned());
                assert(pieces_view(out@) =~= start + display_of(v@));
            },
            CompoundValue::Object(o) => {
                let ghost start = pieces_view(out@);
                push_text(out, "object {".to_owned());
                display_fields_into(&o.members, out, Ghost(v));
                push_text(out, "}".to_owned());
                assert(pieces_view(out@) =~= start + display_of(v@));
            },
            CompoundValue::Struct(st) => {
                let ghost start = pieces_view(out@);
                let name = struct_name_of(&st.ty);
                push_text(out, concat(name.as_str(), " {"));
                display_fields_into(&st.members, out, Ghost(v));
                push_text(out, "}".to_owned());
                assert(pieces_view(out@) =~= start + display_of(v@));
            },
        },
    }
}

/// Appends the text of named members, all parts of the value `whole`.
fn display_fields_into(ms: &Vec<(String, Value)>, out: &mut Vec<DisplayPiece>, whole: Ghost<&Value>)
    requires
        forall|i: int| 0 <= i < ms@.len() ==> decreases_to!(*whole@ => ms@[i].1),
    ensures
        pieces_view(final(out)@) == pieces_view(old(out)@) + display_fields(fields_view(ms@)),
    decreases *whole@, 0nat,
{
    proof {
        lemma_fields_view(ms@);
    }
    let ghost mid = pieces_view(out@);
    let ghost fs = fields_view(ms@);
    let mut i: usize = 0;
    assert(fs.take(0) =~= Seq::<(Seq<char>, ValueView)>::empty());
    assert(mid + display_fields(fs.take(0)) =~= mid);
    while i < ms.len()
        invariant
            i <= ms@.len(),
            fs == fields_view(ms@),
            fs.len() == ms@.len(),
            forall|j: int| 0 <= j < ms@.len() ==> #[trigger] fs[j] == (ms@[j].0@, value_view(ms@[j].1)),
            forall|j: int| 0 <= j < ms@.len() ==> decreases_to!(*whole@ => ms@[j].1),
            pieces_view(out@) == mid + display_fields(fs.take(i as int)),
        decreases ms@.len() - i,
    {
        assert(fs.take(i + 1).drop_last() =~= fs.take(i as int));
        assert(fs.take(i + 1).last() == fs[i as int]);
        assert(decreases_to!(*whole@ => ms@[i as int].1));
        if i > 0 {
            push_text(out, ", ".to_owned());
        }
        push_text(out, concat(ms[i].0.as_str(), ": "));
        display_into(&ms[i].1, out);
        i = i + 1;
        assert(pieces_view(out@) =~= mid + display_fields(fs.take(i as int)));
    }
    assert(fs.take(i as int) =~= fs);
}

impl Value {
    /// The text of the value, in pieces; a float's text is left to the
    /// caller.
    pub fn display(&self) -> (r: Vec<DisplayPiece>)
        ensures
            pieces_view(r@) == display_of(self@),
    {
        let mut out: Vec<DisplayPiece> = Vec::new();
        display_into(self, &mut out);
        assert(pieces_view(out@) =~= display_of(self@));
        out
    }
}

impl Value {
    /// A pair of the given type holding `left` and `right` as they are.
    pub fn pair_unchecked(ty: Type, left: Value, right: Value) -> (v: Value)
        ensures
            v@ == ValueView::Pair(ty@, Box::new(left@), Box::new(right@)),
    {
        Value::Compound(Box::new(CompoundValue::Pair(Pair { ty, left, right })))
    }

    /// An array of the given type holding `elements` as they are.
    pub fn array_unchecked(ty: Type, elements: Vec<Value>) -> (v: Value)
        ensures
            v@ == ValueView::Array(ty@, values_view(elements@)),
    {
        Value::Compound(Box::new(CompoundValue::Array(Array { ty, elements })))
    }
}

/// The pieces of `ps` that are text, joined into one text with the floats
/// written by `float_text`.
pub open spec fn render_pieces(ps: Seq<PieceView>, float_text: spec_fn(u64) -> Seq<char>) -> Seq<char>
    decreases ps.len(),
{
    if ps.len() == 0 {
        Seq::empty()
    } else {
        render_pieces(ps.drop_last(), float_text) + match ps.last() {
            PieceView::Text(t) => t,
            PieceView::Float(f) => float_text(f),
        }
    }
}

/// What the view of a value is, by its variant: a primitive value's view
/// holds the same payload, and a compound value's view is compound.
pub proof fn lemma_value_view(v: Value)
    ensures
        v matches Value::Boolean(b) ==> v@ == ValueView::Boolean(b),
        v matches Value::Integer(i) ==> v@ == ValueView::Integer(i),
        v matches Value::Float(f) ==> v@ == ValueView::Float(f),
        v matches Value::String(s) ==> v@ == ValueView::String(s@),
        v matches Value::File(s) ==> v@ == ValueView::File(s@),
        v matches Value::Directory(s) ==> v@ == ValueView::Directory(s@),
        v is NoneValue ==> v@ == ValueView::NoneValue,
        v is Compound ==> (v@ is Pair || v@ is Array || v@ is Mapping || v@ is Object || v@ is Struct),
{
}

/// A value that is not compound coerces to its own type, unchanged.
pub proof fn lemma_coerce_to_own_type(v: ValueView)
    requires
        !(v is Pair || v is Array || v is Mapping || v is Object || v is Struct),
    ensures
        coerce_value(v, value_type(v)) == Some(v),
{
}

/// An object whose member names differ and whose member values each coerce
/// to `vt` coerces to a map with `String` keys and values of type `vt`: one
/// entry per member, in member order, keyed by the member's name and
/// holding its coerced value.
pub proof fn lemma_object_to_map(ms: Seq<(Seq<char>, ValueView)>, t: TypeView, vt: TypeView, opt: bool)
    requires
        t == TypeView::Mapping(
            Box::new(TypeView::Primitive(PrimitiveType { kind: PrimitiveTypeKind::String, optional: false })),
            Box::new(vt),
            opt,
        ),
        forall|i: int| 0 <= i < ms.len() ==> (#[trigger] coerce_value(ms[i].1, vt)) is Some,
        forall|i: int, j: int| 0 <= i < j < ms.len() ==> (#[trigger] ms[i]).0 != (#[trigger] ms[j]).0,
    ensures
        coerce_compound(ValueView::Object(ms), t) matches Some(ValueView::Mapping(u, es)) && u == t
            && es.len() == ms.len() && forall|i: int|
            0 <= i < ms.len() ==> #[trigger] es[i] == (
                ValueView::String(ms[i].0),
                coerce_value(ms[i].1, vt)->0,
            ),
{
    lemma_fields_to_entries(ms, vt);
}

/// The entries made of distinct, coercible members: one per member, in
/// member order.
proof fn lemma_fields_to_entries(ms: Seq<(Seq<char>, ValueView)>, vt: TypeView)
    requires
        forall|i: int| 0 <= i < ms.len() ==> (#[trigger] coerce_value(ms[i].1, vt)) is Some,
        forall|i: int, j: int| 0 <= i < j < ms.len() ==> (#[trigger] ms[i]).0 != (#[trigger] ms[j]).0,
    ensures
        coerce_fields_to_entries(ms, vt) matches Some(es) && es.len() == ms.len() && forall|i: int|
            0 <= i < ms.len() ==> #[trigger] es[i] == (
                ValueView::String(ms[i].0),
                coerce_value(ms[i].1, vt)->0,
            ),
    decreases ms.len(),
{
    if ms.len() > 0 {
        let prev = ms.drop_last();
        assert forall|i: int| 0 <= i < prev.len() implies (#[trigger] coerce_value(prev[i].1, vt)) is Some by {
            assert(prev[i] == ms[i]);
        }
        assert forall|i: int, j: int| 0 <= i < j < prev.len() implies (#[trigger] prev[i]).0 != (#[trigger] prev[j]).0 by {
            assert(prev[i] == ms[i] && prev[j] == ms[j]);
        }
        lemma_fields_to_entries(prev, vt);
        let es = coerce_fields_to_entries(prev, vt)->0;
        let n = ms.len() - 1;
        assert(coerce_value(ms[n].1, vt) is Some);
        let k = ValueView::String(ms.last().0);
        lemma_find_entry_absent(es, k);
        assert forall|i: int| 0 <= i < es.len() implies !key_eq(#[trigger] es[i].0, k) by {
            assert(es[i].0 == ValueView::String(prev[i].0));
            assert(prev[i] == ms[i]);
        }
    }
}

/// A key that no entry's key equals is found nowhere.
proof fn lemma_find_entry_absent(es: Seq<(ValueView, ValueView)>, k: ValueView)
    ensures
        (forall|i: int| 0 <= i < es.len() ==> !key_eq(#[trigger] es[i].0, k)) ==> find_entry(es, k)
            == -1,
    decreases es.len(),
{
    if es.len() > 0 {
        lemma_find_entry_absent(es.drop_last(), k);
        if forall|i: int| 0 <= i < es.len() ==> !key_eq(#[trigger] es[i].0, k) {
            assert(es.last() == es[es.len() - 1]);
            assert forall|i: int| 0 <= i < es.drop_last().len() implies !key_eq(
                #[trigger] es.drop_last()[i].0,
                k,
            ) by {
                assert(es.drop_last()[i] == es[i]);
            }
        }
    }
}

/// An object with a member whose value does not coerce to `vt` does not
/// coerce to a map with values of type `vt`.
pub proof fn lemma_object_to_map_refused(ms: Seq<(Seq<char>, ValueView)>, t: TypeView, kt: TypeView, vt: TypeView, opt: bool, i: int)
    requires
        t == TypeView::Mapping(Box::new(kt), Box::new(vt), opt),
        0 <= i < ms.len(),
        coerce_value(ms[i].1, vt) is None,
    ensures
        coerce_compound(ValueView::Object(ms), t) is None,
{
    lemma_fields_to_entries_refused(ms, vt, i);
}

/// Entries made of members one of which does not coerce: none.
proof fn lemma_fields_to_entries_refused(ms: Seq<(Seq<char>, ValueView)>, vt: TypeView, i: int)
    requires
        0 <= i < ms.len(),
        coerce_value(ms[i].1, vt) is None,
    ensures
        coerce_fields_to_entries(ms, vt) is None,
    decreases ms.len(),
{
    if i < ms.len() - 1 {
        assert(ms.drop_last()[i] == ms[i]);
        lemma_fields_to_entries_refused(ms.drop_last(), vt, i);
    }
}

} // verus!
