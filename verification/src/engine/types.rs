//! The WDL type system, as far as evaluation needs it: types, and which
//! types coerce to which.
use vstd::prelude::*;

verus! {

/// The kind of a primitive type.
#[derive(Clone, Copy, Debug, PartialEq, Eq, Structural)]
pub enum PrimitiveTypeKind {
    /// `Boolean`
    Boolean,
    /// `Int`
    Integer,
    /// `Float`
    Float,
    /// `String`
    String,
    /// `File`
    File,
    /// `Directory`
    Directory,
}

/// A primitive type.
#[derive(Clone, Copy, Debug, PartialEq, Eq, Structural)]
pub struct PrimitiveType {
    /// The kind of primitive type.
    pub kind: PrimitiveTypeKind,
    /// Whether the type is optional.
    pub optional: bool,
}

/// An array type.
#[derive(Debug)]
pub struct ArrayType {
    /// The element type.
    pub element_type: Box<Type>,
    /// Whether the array type is non-empty (`+`).
    pub non_empty: bool,
}

/// A pair type.
#[derive(Debug)]
pub struct PairType {
    /// The left type.
    pub left_type: Box<Type>,
    /// The right type.
    pub right_type: Box<Type>,
}

/// A map type.
#[derive(Debug)]
pub struct MapType {
    /// The key type.
    pub key_type: Box<Type>,
    /// The value type.
    pub value_type: Box<Type>,
}

/// A struct type: a name and named members in declaration order.
#[derive(Debug)]
pub struct StructType {
    /// The name of the struct.
    pub name: String,
    /// The members of the struct and their types.
    pub members: Vec<(String, Type)>,
}

/// The definition of a compound type.
#[derive(Debug)]
pub enum CompoundTypeDef {
    /// An array type.
    Array(ArrayType),
    /// A pair type.
    Pair(PairType),
    /// A map type.
    Mapping(MapType),
    /// A struct type.
    Struct(StructType),
}

/// A compound type.
#[derive(Debug)]
pub struct CompoundType {
    /// The definition of the compound type.
    pub definition: CompoundTypeDef,
    /// Whether the type is optional.
    pub optional: bool,
}

/// A WDL type.
#[derive(Debug)]
pub enum Type {
    /// A primitive type.
    Primitive(PrimitiveType),
    /// A compound type.
    Compound(CompoundType),
    /// `Object`
    Object,
    /// `Object?`
    OptionalObject,
    /// A type that stands for any type.
    Union,
    /// The type of the `None` literal.
    NoneType,
}

/// The mathematical form of a [`Type`].
pub enum TypeView {
    /// A primitive type.
    Primitive(PrimitiveType),
    /// An array type: element type, non-empty, optional.
    Array(Box<TypeView>, bool, bool),
    /// A pair type: left type, right type, optional.
    Pair(Box<TypeView>, Box<TypeView>, bool),
    /// A map type: key type, value type, optional.
    Mapping(Box<TypeView>, Box<TypeView>, bool),
    /// A struct type: name, members, optional.
    Struct(Seq<char>, Seq<(Seq<char>, TypeView)>, bool),
    /// `Object`
    Object,
    /// `Object?`
    OptionalObject,
    /// A type that stands for any type.
    Union,
    /// The type of `None`.
    NoneType,
}

/// The view of a type.
pub open spec fn type_view(t: Type) -> TypeView
    decreases t,
{
    match t {
        Type::Primitive(p) => TypeView::Primitive(p),
        Type::Compound(c) => match c.definition {
            CompoundTypeDef::Array(a) => TypeView::Array(
                Box::new(type_view(*a.element_type)),
                a.non_empty,
                c.optional,
            ),
            CompoundTypeDef::Pair(p) => TypeView::Pair(
                Box::new(type_view(*p.left_type)),
                Box::new(type_view(*p.right_type)),
                c.optional,
            ),
            CompoundTypeDef::Mapping(m) => TypeView::Mapping(
                Box::new(type_view(*m.key_type)),
                Box::new(type_view(*m.value_type)),
                c.optional,
            ),
            CompoundTypeDef::Struct(s) => TypeView::Struct(
                s.name@,
                members_view(s.members@),
                c.optional,
            ),
        },
        Type::Object => TypeView::Object,
        Type::OptionalObject => TypeView::OptionalObject,
        Type::Union => TypeView::Union,
        Type::NoneType => TypeView::NoneType,
    }
}

/// The view of a sequence of struct members.
pub open spec fn members_view(ms: Seq<(String, Type)>) -> Seq<(Seq<char>, TypeView)>
    decreases ms,
{
    if ms.len() == 0 {
        Seq::empty()
    } else {
        members_view(ms.drop_last()).push((ms.last().0@, type_view(ms.last().1)))
    }
}

impl View for Type {
    type V = TypeView;

    open spec fn view(&self) -> TypeView {
        type_view(*self)
    }
}

/// The members view has one entry per member, in order.
pub proof fn lemma_members_view(ms: Seq<(String, Type)>)
    ensures
        members_view(ms).len() == ms.len(),
        forall|i: int|
            0 <= i < ms.len() ==> #[trigger] members_view(ms)[i] == (ms[i].0@, type_view(ms[i].1)),
    decreases ms.len(),
{
    if ms.len() > 0 {
        lemma_members_view(ms.drop_last());
    }
}

impl Clone for Type {
    fn clone(&self) -> (c: Self)
        ensures
            c@ == self@,
        decreases self,
    {
        match self {
            Type::Primitive(p) => Type::Primitive(*p),
            Type::Compound(c) => {
                let def = match &c.definition {
                    CompoundTypeDef::Array(a) => CompoundTypeDef::Array(
                        ArrayType {
                            element_type: Box::new((*a.element_type).clone()),
                            non_empty: a.non_empty,
                        },
                    ),
                    CompoundTypeDef::Pair(p) => CompoundTypeDef::Pair(
                        PairType {
                            left_type: Box::new((*p.left_type).clone()),
                            right_type: Box::new((*p.right_type).clone()),
                        },
                    ),
                    CompoundTypeDef::Mapping(m) => CompoundTypeDef::Mapping(
                        MapType {
                            key_type: Box::new((*m.key_type).clone()),
                            value_type: Box::new((*m.value_type).clone()),
                        },
                    ),
                    CompoundTypeDef::Struct(s) => {
                        let mut members: Vec<(String, Type)> = Vec::new();
                        let mut i: usize = 0;
                        #[verifier::loop_isolation(false)]
                        while i < s.members.len()
                            invariant
                                i <= s.members@.len(),
                                members_view(members@) == members_view(s.members@.take(i as int)),
                            decreases s.members@.len() - i,
                        {
                            proof {
                                broadcast use vstd::std_specs::vec::group_vec_axioms;

                                assert(decreases_to!(s.members => s.members@));
                                assert(decreases_to!(s.members@ => s.members@[i as int]));
                                assert(decreases_to!(s.members@[i as int] => s.members@[i as int].1));
                            }
                            let m = (s.members[i].0.clone(), s.members[i].1.clone());
                            let ghost before = members@;
                            members.push(m);
                            proof {
                                assert(members@.drop_last() =~= before);
                                assert(s.members@.take(i + 1).drop_last() =~= s.members@.take(
                                    i as int,
                                ));
                            }
                            i = i + 1;
                        }
                        assert(s.members@.take(i as int) =~= s.members@);
                        CompoundTypeDef::Struct(StructType { name: s.name.clone(), members })
                    },
                };
                Type::Compound(CompoundType { definition: def, optional: c.optional })
            },
            Type::Object => Type::Object,
            Type::OptionalObject => Type::OptionalObject,
            Type::Union => Type::Union,
            Type::NoneType => Type::NoneType,
        }
    }
}

/// Whether a value of primitive kind `a` coerces to kind `b`: a kind to
/// itself, `Int` to `Float`, `String` to `File` or `Directory`, and `File`
/// or `Directory` to `String`.
pub open spec fn kind_coercible(a: PrimitiveTypeKind, b: PrimitiveTypeKind) -> bool {
    ||| a == b
    ||| (a == PrimitiveTypeKind::Integer && b == PrimitiveTypeKind::Float)
    ||| (a == PrimitiveTypeKind::String && (b == PrimitiveTypeKind::File || b
        == PrimitiveTypeKind::Directory))
    ||| ((a == PrimitiveTypeKind::File || a == PrimitiveTypeKind::Directory) && b
        == PrimitiveTypeKind::String)
}

/// Whether the primitive type `a` coerces to `b`: an optional type never
/// coerces to a required one.
pub open spec fn prim_coercible(a: PrimitiveType, b: PrimitiveType) -> bool {
    !(a.optional && !b.optional) && kind_coercible(a.kind, b.kind)
}

/// Whether `t` is a `String` type (optional or not).
pub open spec fn is_string_type(t: TypeView) -> bool {
    t matches TypeView::Primitive(p) && p.kind == PrimitiveTypeKind::String
}

/// Whether a type is optional.
pub open spec fn is_optional(t: TypeView) -> bool {
    match t {
        TypeView::Primitive(p) => p.optional,
        TypeView::Array(_, _, o) => o,
        TypeView::Pair(_, _, o) => o,
        TypeView::Mapping(_, _, o) => o,
        TypeView::Struct(_, _, o) => o,
        TypeView::OptionalObject => true,
        TypeView::NoneType => true,
        TypeView::Object => false,
        TypeView::Union => false,
    }
}

/// The type of the first member named `name`.
pub open spec fn member_type(members: Seq<(Seq<char>, TypeView)>, name: Seq<char>) -> Option<TypeView>
    decreases members.len(),
{
    if members.len() == 0 {
        None
    } else if members[0].0 == name {
        Some(members[0].1)
    } else {
        member_type(members.drop_first(), name)
    }
}

/// Whether every member of `ms` has a member of the same name in `target`
/// to whose type it coerces.
pub open spec fn members_coerce_to_struct(
    ms: Seq<(Seq<char>, TypeView)>,
    target: Seq<(Seq<char>, TypeView)>,
) -> bool
    decreases ms, 0nat,
{
    if ms.len() == 0 {
        true
    } else {
        members_coerce_to_struct(ms.drop_last(), target) && match member_type(target, ms.last().0) {
            Some(t) => coercible(ms.last().1, t),
            None => false,
        }
    }
}

/// Whether the type of every member of `ms` coerces to `t`.
pub open spec fn members_coerce_to(ms: Seq<(Seq<char>, TypeView)>, t: TypeView) -> bool
    decreases ms, 0nat,
{
    if ms.len() == 0 {
        true
    } else {
        members_coerce_to(ms.drop_last(), t) && coercible(ms.last().1, t)
    }
}

/// Whether `t` coerces to the type of every member of `ms`.
pub open spec fn coerces_to_members(t: TypeView, ms: Seq<(Seq<char>, TypeView)>) -> bool
    decreases t, ms.len() + 1,
{
    if ms.len() == 0 {
        true
    } else {
        coerces_to_members(t, ms.drop_last()) && coercible(t, ms.last().1)
    }
}

/// Whether a value of type `s` coerces to type `t`.
///
/// Compound types coerce element-wise and never from optional to required;
/// `Map[String, X]` and structs coerce to each other and to `Object`, and
/// `Object` to them; the union type coerces to and from anything, and the
/// type of `None` to any optional type.
pub open spec fn coercible(s: TypeView, t: TypeView) -> bool
    decreases s, 0nat,
{
    match (s, t) {
        (TypeView::Primitive(a), TypeView::Primitive(b)) => prim_coercible(a, b),
        (TypeView::Array(e1, _, o1), TypeView::Array(e2, _, o2)) => !(o1 && !o2) && coercible(
            *e1,
            *e2,
        ),
        (TypeView::Pair(l1, r1, o1), TypeView::Pair(l2, r2, o2)) => !(o1 && !o2) && coercible(
            *l1,
            *l2,
        ) && coercible(*r1, *r2),
        (TypeView::Mapping(k1, v1, o1), TypeView::Mapping(k2, v2, o2)) => !(o1 && !o2)
            && coercible(*k1, *k2) && coercible(*v1, *v2),
        (TypeView::Struct(_, m1, o1), TypeView::Struct(_, m2, o2)) => !(o1 && !o2) && m1.len()
            == m2.len() && members_coerce_to_struct(m1, m2),
        (TypeView::Mapping(k1, v1, o1), TypeView::Struct(_, m2, o2)) => !(o1 && !o2)
            && is_string_type(*k1) && coerces_to_members(*v1, m2),
        (TypeView::Struct(_, m1, o1), TypeView::Mapping(k2, v2, o2)) => !(o1 && !o2)
            && is_string_type(*k2) && members_coerce_to(m1, *v2),
        (TypeView::Object, TypeView::Object) => true,
        (TypeView::Object, TypeView::OptionalObject) => true,
        (TypeView::OptionalObject, TypeView::OptionalObject) => true,
        (TypeView::Mapping(k1, _, o1), TypeView::Object) => !o1 && is_string_type(*k1),
        (TypeView::Mapping(k1, _, _), TypeView::OptionalObject) => is_string_type(*k1),
        (TypeView::Struct(_, _, o1), TypeView::Object) => !o1,
        (TypeView::Struct(_, _, _), TypeView::OptionalObject) => true,
        (TypeView::Object, TypeView::Mapping(k2, _, _)) => is_string_type(*k2),
        (TypeView::Object, TypeView::Struct(_, _, _)) => true,
        (TypeView::OptionalObject, TypeView::Mapping(k2, _, o2)) => o2 && is_string_type(*k2),
        (TypeView::OptionalObject, TypeView::Struct(_, _, o2)) => o2,
        (TypeView::Union, _) => true,
        (TypeView::NoneType, _) => is_optional(t) || t is Union,
        (_, TypeView::Union) => true,
        _ => false,
    }
}

impl PrimitiveType {
    /// Whether a value of this type coerces to `target`.
    pub fn is_coercible_to(&self, target: &PrimitiveType) -> (b: bool)
        ensures
            b == prim_coercible(*self, *target),
    {
        if self.optional && !target.optional {
            return false;
        }
        match (self.kind, target.kind) {
            (PrimitiveTypeKind::Boolean, PrimitiveTypeKind::Boolean) => true,
            (PrimitiveTypeKind::Integer, PrimitiveTypeKind::Integer) => true,
            (PrimitiveTypeKind::Integer, PrimitiveTypeKind::Float) => true,
            (PrimitiveTypeKind::Float, PrimitiveTypeKind::Float) => true,
            (PrimitiveTypeKind::String, PrimitiveTypeKind::String) => true,
            (PrimitiveTypeKind::String, PrimitiveTypeKind::File) => true,
            (PrimitiveTypeKind::String, PrimitiveTypeKind::Directory) => true,
            (PrimitiveTypeKind::File, PrimitiveTypeKind::File) => true,
            (PrimitiveTypeKind::File, PrimitiveTypeKind::String) => true,
            (PrimitiveTypeKind::Directory, PrimitiveTypeKind::Directory) => true,
            (PrimitiveTypeKind::Directory, PrimitiveTypeKind::String) => true,
            _ => false,
        }
    }
}

/// Whether `t` is a `String` type.
pub(crate) fn is_string(t: &Type) -> (b: bool)
    ensures
        b == is_string_type(t@),
{
    match t {
        Type::Primitive(p) => p.kind == PrimitiveTypeKind::String,
        _ => false,
    }
}

/// The type of the first member of `members` named `name`.
pub(crate) fn find_member<'a>(members: &'a Vec<(String, Type)>, name: &String) -> (r: Option<&'a Type>)
    ensures
        match r {
            Some(t) => member_type(members_view(members@), name@) == Some(t@),
            None => member_type(members_view(members@), name@) is None,
        },
{
    proof {
        lemma_members_view(members@);
        assert(members_view(members@).skip(0) =~= members_view(members@));
    }
    let mut i: usize = 0;
    while i < members.len()
        invariant
            i <= members@.len(),
            members_view(members@).len() == members@.len(),
            forall|t: int|
                0 <= t < members@.len() ==> #[trigger] members_view(members@)[t] == (
                    members@[t].0@,
                    type_view(members@[t].1),
                ),
            member_type(members_view(members@), name@) == member_type(
                members_view(members@).skip(i as int),
                name@,
            ),
        decreases members@.len() - i,
    {
        let ghost rest = members_view(members@).skip(i as int);
        assert(rest[0] == members_view(members@)[i as int]);
        assert(rest.drop_first() =~= members_view(members@).skip(i + 1));
        if members[i].0 == *name {
            return Some(&members[i].1);
        }
        i = i + 1;
    }
    None
}

impl Type {
    /// Whether a value of this type coerces to `target`.
    pub fn is_coercible_to(&self, target: &Type) -> (b: bool)
        ensures
            b == coercible(self@, target@),
        decreases self,
    {
        match (self, target) {
            (Type::Primitive(a), Type::Primitive(b)) => a.is_coercible_to(b),
            (Type::Compound(a), Type::Compound(b)) => {
                if a.optional && !b.optional {
                    return false;
                }
                match (&a.definition, &b.definition) {
                    (CompoundTypeDef::Array(x), CompoundTypeDef::Array(y)) => (*x.element_type).is_coercible_to(&*y.element_type),
                    (CompoundTypeDef::Pair(x), CompoundTypeDef::Pair(y)) => (*x.left_type).is_coercible_to(&*y.left_type) && (*x.right_type).is_coercible_to(&*y.right_type),
                    (CompoundTypeDef::Mapping(x), CompoundTypeDef::Mapping(y)) => (*x.key_type).is_coercible_to(&*y.key_type) && (*x.value_type).is_coercible_to(&*y.value_type),
                    (CompoundTypeDef::Struct(x), CompoundTypeDef::Struct(y)) => {
                        proof {
                            lemma_members_view(x.members@);
                            lemma_members_view(y.members@);
                        }
                        if x.members.len() != y.members.len() {
                            return false;
                        }
                        let mut i: usize = 0;
                        #[verifier::loop_isolation(false)]
                        while i < x.members.len()
                            invariant
                                i <= x.members@.len(),
                                members_coerce_to_struct(members_view(x.members@).take(i as int), members_view(y.members@)),
                            decreases x.members@.len() - i,
                        {
                            proof {
                                assert(decreases_to!(x.members => x.members@));
                                assert(decreases_to!(x.members@ => x.members@[i as int]));
                                assert(decreases_to!(x.members@[i as int] => x.members@[i as int].1));
                                assert(members_view(x.members@).take(i + 1).drop_last() =~= members_view(x.members@).take(i as int));
                            }
                            let ok = match find_member(&y.members, &x.members[i].0) {
                                Some(t) => x.members[i].1.is_coercible_to(t),
                                None => false,
                            };
                            if !ok {
                                proof {
                                    lemma_prefix_fails(members_view(x.members@), members_view(y.members@), i as int);
                                }
                                return false;
                            }
                            i = i + 1;
                        }
                        assert(members_view(x.members@).take(i as int) =~= members_view(x.members@));
                        true
                    },
                    (CompoundTypeDef::Mapping(x), CompoundTypeDef::Struct(y)) => {
                        if !is_string(&*x.key_type) {
                            return false;
                        }
                        proof {
                            lemma_members_view(y.members@);
                        }
                        let mut i: usize = 0;
                        #[verifier::loop_isolation(false)]
                        while i < y.members.len()
                            invariant
                                i <= y.members@.len(),
                                coerces_to_members(type_view(*x.value_type), members_view(y.members@).take(i as int)),
                            decreases y.members@.len() - i,
                        {
                            proof {
                                lemma_members_view(y.members@);
                                assert(members_view(y.members@).take(i + 1).drop_last() =~= members_view(y.members@).take(i as int));
                            }
                            if !(*x.value_type).is_coercible_to(&y.members[i].1) {
                                proof {
                                    lemma_value_prefix_fails(type_view(*x.value_type), members_view(y.members@), i as int);
                                }
                                return false;
                            }
                            i = i + 1;
                        }
                        assert(members_view(y.members@).take(i as int) =~= members_view(y.members@));
                        true
                    },
                    (CompoundTypeDef::Struct(x), CompoundTypeDef::Mapping(y)) => {
                        if !is_string(&*y.key_type) {
                            return false;
                        }
                        proof {
                            lemma_members_view(x.members@);
                        }
                        let mut i: usize = 0;
                        #[verifier::loop_isolation(false)]
                        while i < x.members.len()
                            invariant
                                i <= x.members@.len(),
                                members_coerce_to(members_view(x.members@).take(i as int), type_view(*y.value_type)),
                            decreases x.members@.len() - i,
                        {
                            proof {
                                lemma_members_view(x.members@);
                                assert(decreases_to!(x.members => x.members@));
                                assert(decreases_to!(x.members@ => x.members@[i as int]));
                                assert(decreases_to!(x.members@[i as int] => x.members@[i as int].1));
                                assert(members_view(x.members@).take(i + 1).drop_last() =~= members_view(x.members@).take(i as int));
                            }
                            if !x.members[i].1.is_coercible_to(&*y.value_type) {
                                proof {
                                    lemma_members_prefix_fails(members_view(x.members@), type_view(*y.value_type), i as int);
                                }
                                return false;
                            }
                            i = i + 1;
                        }
                        assert(members_view(x.members@).take(i as int) =~= members_view(x.members@));
                        true
                    },
                    _ => false,
                }
            },
            (Type::Object, Type::Object) => true,
            (Type::Object, Type::OptionalObject) => true,
            (Type::OptionalObject, Type::OptionalObject) => true,
            (Type::Compound(a), Type::Object) => match &a.definition {
                CompoundTypeDef::Mapping(m) => !a.optional && is_string(&*m.key_type),
                CompoundTypeDef::Struct(_) => !a.optional,
                _ => false,
            },
            (Type::Compound(a), Type::OptionalObject) => match &a.definition {
                CompoundTypeDef::Mapping(m) => is_string(&*m.key_type),
                CompoundTypeDef::Struct(_) => true,
                _ => false,
            },
            (Type::Object, Type::Compound(b)) => match &b.definition {
                CompoundTypeDef::Mapping(m) => is_string(&*m.key_type),
                CompoundTypeDef::Struct(_) => true,
                _ => false,
            },
            (Type::OptionalObject, Type::Compound(b)) => match &b.definition {
                CompoundTypeDef::Mapping(m) => b.optional && is_string(&*m.key_type),
                CompoundTypeDef::Struct(_) => b.optional,
                _ => false,
            },
            (Type::Union, _) => true,
            (Type::NoneType, _) => target.is_optional() || matches!(target, Type::Union),
            (_, Type::Union) => true,
            _ => false,
        }
    }

    /// Whether the type is optional.
    pub fn is_optional(&self) -> (b: bool)
        ensures
            b == is_optional(self@),
    {
        match self {
            Type::Primitive(p) => p.optional,
            Type::Compound(c) => c.optional,
            Type::OptionalObject => true,
            Type::NoneType => true,
            Type::Object => false,
            Type::Union => false,
        }
    }
}

/// Once a member fails to coerce into the target struct, the whole does.
proof fn lemma_prefix_fails(ms: Seq<(Seq<char>, TypeView)>, target: Seq<(Seq<char>, TypeView)>, i: int)
    requires
        0 <= i < ms.len(),
        !(match member_type(target, ms[i].0) {
            Some(t) => coercible(ms[i].1, t),
            None => false,
        }),
    ensures
        !members_coerce_to_struct(ms, target),
    decreases ms.len(),
{
    if i < ms.len() - 1 {
        lemma_prefix_fails(ms.drop_last(), target, i);
    }
}

/// Once `t` fails to coerce to a member type, it fails for all members.
proof fn lemma_value_prefix_fails(t: TypeView, ms: Seq<(Seq<char>, TypeView)>, i: int)
    requires
        0 <= i < ms.len(),
        !coercible(t, ms[i].1),
    ensures
        !coerces_to_members(t, ms),
    decreases ms.len(),
{
    if i < ms.len() - 1 {
        lemma_value_prefix_fails(t, ms.drop_last(), i);
    }
}

/// Once a member type fails to coerce to `t`, the members do.
proof fn lemma_members_prefix_fails(ms: Seq<(Seq<char>, TypeView)>, t: TypeView, i: int)
    requires
        0 <= i < ms.len(),
        !coercible(ms[i].1, t),
    ensures
        !members_coerce_to(ms, t),
    decreases ms.len(),
{
    if i < ms.len() - 1 {
        lemma_members_prefix_fails(ms.drop_last(), t, i);
    }
}

/// The optional form of a type.
pub open spec fn optional_of(t: TypeView) -> TypeView {
    match t {
        TypeView::Primitive(p) => TypeView::Primitive(PrimitiveType { kind: p.kind, optional: true }),
        TypeView::Array(e, n, _) => TypeView::Array(e, n, true),
        TypeView::Pair(l, r, _) => TypeView::Pair(l, r, true),
        TypeView::Mapping(k, v, _) => TypeView::Mapping(k, v, true),
        TypeView::Struct(n, ms, _) => TypeView::Struct(n, ms, true),
        TypeView::Object => TypeView::OptionalObject,
        TypeView::OptionalObject => TypeView::OptionalObject,
        TypeView::Union => TypeView::Union,
        TypeView::NoneType => TypeView::NoneType,
    }
}

impl Type {
    /// The (required) primitive type of the given kind.
    pub fn from_kind(kind: PrimitiveTypeKind) -> (t: Type)
        ensures
            t@ == TypeView::Primitive(PrimitiveType { kind, optional: false }),
    {
        Type::Primitive(PrimitiveType { kind, optional: false })
    }

    /// The optional form of the type.
    pub fn optional(self) -> (t: Type)
        ensures
            t@ == optional_of(self@),
    {
        match self {
            Type::Primitive(p) => Type::Primitive(PrimitiveType { kind: p.kind, optional: true }),
            Type::Compound(c) => Type::Compound(CompoundType { definition: c.definition, optional: true }),
            Type::Object => Type::OptionalObject,
            Type::OptionalObject => Type::OptionalObject,
            Type::Union => Type::Union,
            Type::NoneType => Type::NoneType,
        }
    }

    /// The type `Array[element]` (`Array[element]+` when `non_empty`).
    pub fn array(element: Type, non_empty: bool) -> (t: Type)
        ensures
            t@ == TypeView::Array(Box::new(element@), non_empty, false),
    {
        Type::Compound(
            CompoundType {
                definition: CompoundTypeDef::Array(ArrayType { element_type: Box::new(element), non_empty }),
                optional: false,
            },
        )
    }

    /// The type `Pair[left, right]`.
    pub fn pair(left: Type, right: Type) -> (t: Type)
        ensures
            t@ == TypeView::Pair(Box::new(left@), Box::new(right@), false),
    {
        Type::Compound(
            CompoundType {
                definition: CompoundTypeDef::Pair(
                    PairType { left_type: Box::new(left), right_type: Box::new(right) },
                ),
                optional: false,
            },
        )
    }

    /// The type `Map[key, value]`.
    pub fn map(key: Type, value: Type) -> (t: Type)
        ensures
            t@ == TypeView::Mapping(Box::new(key@), Box::new(value@), false),
    {
        Type::Compound(
            CompoundType {
                definition: CompoundTypeDef::Mapping(
                    MapType { key_type: Box::new(key), value_type: Box::new(value) },
                ),
                optional: false,
            },
        )
    }

    /// The struct type `name` with the given members.
    pub fn structure(name: &str, members: Vec<(String, Type)>) -> (t: Type)
        ensures
            t@ == TypeView::Struct(name@, members_view(members@), false),
    {
        Type::Compound(
            CompoundType {
                definition: CompoundTypeDef::Struct(StructType { name: name.to_owned(), members }),
                optional: false,
            },
        )
    }
}

/// No two members share a name.
pub open spec fn names_unique(ms: Seq<(Seq<char>, TypeView)>) -> bool {
    forall|i: int, j: int| 0 <= i < j < ms.len() ==> ms[i].0 != ms[j].0
}

/// Every struct type within `t` has members with distinct names, as the
/// struct types of a document do.
pub open spec fn type_wf(t: TypeView) -> bool
    decreases t,
{
    match t {
        TypeView::Array(e, _, _) => type_wf(*e),
        TypeView::Pair(l, r, _) => type_wf(*l) && type_wf(*r),
        TypeView::Mapping(k, v, _) => type_wf(*k) && type_wf(*v),
        TypeView::Struct(_, ms, _) => names_unique(ms) && forall|i: int|
            0 <= i < ms.len() ==> type_wf(#[trigger] ms[i].1),
        _ => true,
    }
}

/// In members with distinct names, a member's name finds that member.
pub proof fn lemma_member_type_unique(ms: Seq<(Seq<char>, TypeView)>, j: int)
    requires
        names_unique(ms),
        0 <= j < ms.len(),
    ensures
        member_type(ms, ms[j].0) == Some(ms[j].1),
    decreases ms.len(),
{
    if j > 0 {
        assert(ms[0].0 != ms[j].0);
        assert(ms.drop_first()[j - 1] == ms[j]);
        assert(names_unique(ms.drop_first())) by {
            assert forall|a: int, b: int| 0 <= a < b < ms.drop_first().len() implies ms.drop_first()[a].0
                != ms.drop_first()[b].0 by {
                assert(ms[a + 1].0 != ms[b + 1].0);
            }
        }
        lemma_member_type_unique(ms.drop_first(), j - 1);
    }
}

/// Members with distinct names, each of whose types coerces to itself,
/// coerce into themselves.
proof fn lemma_members_into_themselves(full: Seq<(Seq<char>, TypeView)>, k: int)
    requires
        names_unique(full),
        0 <= k <= full.len(),
        forall|j: int| 0 <= j < full.len() ==> coercible(#[trigger] full[j].1, full[j].1),
    ensures
        members_coerce_to_struct(full.take(k), full),
    decreases k,
{
    if k > 0 {
        lemma_members_into_themselves(full, k - 1);
        assert(full.take(k).drop_last() =~= full.take(k - 1));
        lemma_member_type_unique(full, k - 1);
        assert(coercible(full[k - 1].1, full[k - 1].1));
    }
}

/// Every type coerces to itself.
pub proof fn lemma_coercible_reflexive(t: TypeView)
    requires
        type_wf(t),
    ensures
        coercible(t, t),
    decreases t,
{
    match t {
        TypeView::Array(e, _, _) => {
            lemma_coercible_reflexive(*e);
        },
        TypeView::Pair(l, r, _) => {
            lemma_coercible_reflexive(*l);
            lemma_coercible_reflexive(*r);
        },
        TypeView::Mapping(k, v, _) => {
            lemma_coercible_reflexive(*k);
            lemma_coercible_reflexive(*v);
        },
        TypeView::Struct(_, ms, _) => {
            assert forall|j: int| 0 <= j < ms.len() implies coercible(#[trigger] ms[j].1, ms[j].1) by {
                lemma_coercible_reflexive(ms[j].1);
            }
            lemma_members_into_themselves(ms, ms.len() as int);
            assert(ms.take(ms.len() as int) =~= ms);
        },
        _ => {},
    }
}

} // verus!
