use wdl::engine::types::PrimitiveTypeKind;
use wdl::engine::types::Type;
use wdl::engine::value::int_to_float_bits;
use wdl::engine::value::DisplayPiece;
use wdl::engine::value::Engine;
use wdl::engine::value::Value;

fn float(v: f64) -> Value {
    Value::Float(v.to_bits())
}

fn prim(kind: PrimitiveTypeKind) -> Type {
    Type::from_kind(kind)
}

fn text(value: &Value) -> String {
    let mut s = String::new();
    for piece in value.display() {
        match piece {
            DisplayPiece::Text(t) => s.push_str(&t),
            DisplayPiece::Float(bits) => s.push_str(&format!("{:?}", f64::from_bits(bits))),
        }
    }
    s
}

fn is_float(value: &Option<Value>, expected: f64) -> bool {
    matches!(value, Some(Value::Float(bits)) if *bits == expected.to_bits())
}

#[test]
fn boolean_coercion() {
    // Boolean -> Boolean
    assert!(matches!(
        Value::Boolean(false).coerce(&prim(PrimitiveTypeKind::Boolean)),
        Some(Value::Boolean(false))
    ));
    // Boolean -> String (invalid)
    assert!(Value::Boolean(true).coerce(&prim(PrimitiveTypeKind::String)).is_none());
}

#[test]
fn boolean_display() {
    assert_eq!(text(&Value::Boolean(false)), "false");
    assert_eq!(text(&Value::Boolean(true)), "true");
}

#[test]
fn integer_coercion() {
    // Int -> Int
    assert!(matches!(
        Value::Integer(12345).coerce(&prim(PrimitiveTypeKind::Integer)),
        Some(Value::Integer(12345))
    ));
    // Int -> Float
    assert!(is_float(
        &Value::Integer(12345).coerce(&prim(PrimitiveTypeKind::Float)),
        12345.0
    ));
    // Int -> Boolean (invalid)
    assert!(Value::Integer(12345).coerce(&prim(PrimitiveTypeKind::Boolean)).is_none());
}

#[test]
fn integer_display() {
    assert_eq!(text(&Value::Integer(12345)), "12345");
    assert_eq!(text(&Value::Integer(-12345)), "-12345");
}

#[test]
fn float_coercion() {
    // Float -> Float
    assert!(is_float(&float(12345.0).coerce(&prim(PrimitiveTypeKind::Float)), 12345.0));
    // Float -> Int (invalid)
    assert!(float(12345.0).coerce(&prim(PrimitiveTypeKind::Integer)).is_none());
}

#[test]
fn float_display() {
    assert_eq!(text(&float(12345.12345)), "12345.12345");
    assert_eq!(text(&float(-12345.12345)), "-12345.12345");
}

#[test]
fn string_coercion() {
    let mut engine = Engine::default();
    let value = engine.new_string("foo");

    // String -> String
    assert!(matches!(value.coerce(&prim(PrimitiveTypeKind::String)), Some(Value::String(s)) if s == "foo"));
    // String -> File
    assert!(matches!(value.coerce(&prim(PrimitiveTypeKind::File)), Some(Value::File(s)) if s == "foo"));
    // String -> Directory
    assert!(matches!(value.coerce(&prim(PrimitiveTypeKind::Directory)), Some(Value::Directory(s)) if s == "foo"));
    // String -> Boolean (invalid)
    assert!(value.coerce(&prim(PrimitiveTypeKind::Boolean)).is_none());
}

#[test]
fn string_display() {
    let mut engine = Engine::default();
    let value = engine.new_string("hello world!");
    assert_eq!(text(&value), "\"hello world!\"");
}

#[test]
fn file_coercion() {
    let mut engine = Engine::default();
    let value = engine.new_file("foo");

    // File -> File
    assert!(matches!(value.coerce(&prim(PrimitiveTypeKind::File)), Some(Value::File(s)) if s == "foo"));
    // File -> String
    assert!(matches!(value.coerce(&prim(PrimitiveTypeKind::String)), Some(Value::String(s)) if s == "foo"));
    // File -> Directory (invalid)
    assert!(value.coerce(&prim(PrimitiveTypeKind::Directory)).is_none());
}

#[test]
fn file_display() {
    let mut engine = Engine::default();
    let value = engine.new_file("/foo/bar/baz.txt");
    assert_eq!(text(&value), "\"/foo/bar/baz.txt\"");
}

#[test]
fn directory_coercion() {
    let mut engine = Engine::default();
    let value = engine.new_directory("foo");

    // Directory -> Directory
    assert!(matches!(value.coerce(&prim(PrimitiveTypeKind::Directory)), Some(Value::Directory(s)) if s == "foo"));
    // Directory -> String
    assert!(matches!(value.coerce(&prim(PrimitiveTypeKind::String)), Some(Value::String(s)) if s == "foo"));
    // Directory -> File (invalid)
    assert!(value.coerce(&prim(PrimitiveTypeKind::File)).is_none());
}

#[test]
fn directory_display() {
    let mut engine = Engine::default();
    let value = engine.new_file("/foo/bar/baz");
    assert_eq!(text(&value), "\"/foo/bar/baz\"");
}

#[test]
fn none_coercion() {
    // None -> String?
    assert!(matches!(
        Value::NoneValue.coerce(&prim(PrimitiveTypeKind::String).optional()),
        Some(Value::NoneValue)
    ));
    // None -> String (invalid)
    assert!(Value::NoneValue.coerce(&prim(PrimitiveTypeKind::String)).is_none());
}

#[test]
fn none_display() {
    assert_eq!(text(&Value::NoneValue), "None");
}

#[test]
fn array_coercion() {
    let mut engine = Engine::default();

    let src_ty = Type::array(prim(PrimitiveTypeKind::Integer), false);
    let target_ty = Type::array(prim(PrimitiveTypeKind::Float), false);

    // Array[Int] -> Array[Float]
    let src = engine
        .new_array(&src_ty, vec![Value::Integer(1), Value::Integer(2), Value::Integer(3)])
        .expect("should create array value");
    let target = src.coerce(&target_ty).expect("should coerce");
    let elements: Vec<u64> = target
        .unwrap_array()
        .elements()
        .iter()
        .map(|e| e.unwrap_float())
        .collect();
    assert_eq!(elements, vec![1.0f64.to_bits(), 2.0f64.to_bits(), 3.0f64.to_bits()]);

    // Array[Int] -> Array[String] (invalid)
    let target_ty = Type::array(prim(PrimitiveTypeKind::String), false);
    assert!(src.coerce(&target_ty).is_none(), "should not coerce");
}

#[test]
fn non_empty_array_coercion() {
    let mut engine = Engine::default();

    let ty = Type::array(prim(PrimitiveTypeKind::String), false);
    let target_ty = Type::array(prim(PrimitiveTypeKind::String), true);

    // Array[String] (non-empty) -> Array[String]+
    let string = engine.new_string("foo");
    let value = engine.new_array(&ty, vec![string]).expect("should create array");
    assert!(value.coerce(&target_ty).is_some(), "should coerce");

    // Array[String] (empty) -> Array[String]+ (invalid)
    let value = engine.new_empty_array(&ty);
    assert!(value.coerce(&target_ty).is_none(), "should not coerce");
}

#[test]
fn array_display() {
    let mut engine = Engine::default();

    let ty = Type::array(prim(PrimitiveTypeKind::Integer), false);
    let value = engine
        .new_array(&ty, vec![Value::Integer(1), Value::Integer(2), Value::Integer(3)])
        .expect("should create array value");

    assert_eq!(text(&value), "[1, 2, 3]");
}

#[test]
fn map_coerce() {
    let mut engine = Engine::default();

    let key1 = engine.new_file("foo");
    let value1 = engine.new_string("bar");
    let key2 = engine.new_file("baz");
    let value2 = engine.new_string("qux");

    let ty = Type::map(prim(PrimitiveTypeKind::File), prim(PrimitiveTypeKind::String));
    let value = engine
        .new_map(&ty, vec![(key1, value1), (key2, value2)])
        .expect("should create map value");

    // Map[File, String] -> Map[String, File]
    let ty = Type::map(prim(PrimitiveTypeKind::String), prim(PrimitiveTypeKind::File));
    let value = value.coerce(&ty).expect("value should coerce");
    assert_eq!(text(&value), r#"{"foo": "bar", "baz": "qux"}"#);

    // Map[String, File] -> Map[Int, File] (invalid)
    let ty = Type::map(prim(PrimitiveTypeKind::Integer), prim(PrimitiveTypeKind::File));
    assert!(value.coerce(&ty).is_none(), "value should not coerce");

    // Map[String, File] -> Struct
    let ty = Type::structure(
        "Foo",
        vec![
            ("foo".to_string(), prim(PrimitiveTypeKind::File)),
            ("baz".to_string(), prim(PrimitiveTypeKind::File)),
        ],
    );
    let struct_value = value.coerce(&ty).expect("value should coerce");
    assert_eq!(text(&struct_value), r#"Foo {foo: "bar", baz: "qux"}"#);

    // Map[String, File] -> Struct (invalid)
    let ty = Type::structure(
        "Foo",
        vec![
            ("foo".to_string(), prim(PrimitiveTypeKind::File)),
            ("baz".to_string(), prim(PrimitiveTypeKind::File)),
            ("qux".to_string(), prim(PrimitiveTypeKind::File)),
        ],
    );
    assert!(value.coerce(&ty).is_none());

    // Map[String, File] -> Object
    let object_value = value.coerce(&Type::Object).expect("value should coerce");
    assert_eq!(text(&object_value), r#"object {foo: "bar", baz: "qux"}"#);
}

#[test]
fn map_display() {
    let mut engine = Engine::default();

    let ty = Type::map(prim(PrimitiveTypeKind::Integer), prim(PrimitiveTypeKind::Boolean));
    let value = engine
        .new_map(
            &ty,
            vec![
                (Value::Integer(1), Value::Boolean(true)),
                (Value::Integer(2), Value::Boolean(false)),
            ],
        )
        .expect("should create map value");
    assert_eq!(text(&value), "{1: true, 2: false}");
}

#[test]
fn pair_coercion() {
    let mut engine = Engine::default();

    let left = engine.new_file("foo");
    let right = engine.new_string("bar");

    let ty = Type::pair(prim(PrimitiveTypeKind::File), prim(PrimitiveTypeKind::String));
    let value = engine.new_pair(&ty, left, right).expect("should create map value");

    // Pair[File, String] -> Pair[String, File]
    let ty = Type::pair(prim(PrimitiveTypeKind::String), prim(PrimitiveTypeKind::File));
    let value = value.coerce(&ty).expect("value should coerce");
    assert_eq!(text(&value), r#"("foo", "bar")"#);

    // Pair[String, File] -> Pair[Int, Int]
    let ty = Type::pair(prim(PrimitiveTypeKind::Integer), prim(PrimitiveTypeKind::Integer));
    assert!(value.coerce(&ty).is_none(), "value should not coerce");
}

#[test]
fn pair_display() {
    let mut engine = Engine::default();

    let ty = Type::pair(prim(PrimitiveTypeKind::Integer), prim(PrimitiveTypeKind::Boolean));
    let value = engine
        .new_pair(&ty, Value::Integer(12345), Value::Boolean(false))
        .expect("should create pair value");
    assert_eq!(text(&value), "(12345, false)");
}

#[test]
fn struct_coercion() {
    let mut engine = Engine::default();

    let ty = Type::structure(
        "Foo",
        vec![
            ("foo".to_string(), prim(PrimitiveTypeKind::Float)),
            ("bar".to_string(), prim(PrimitiveTypeKind::Float)),
            ("baz".to_string(), prim(PrimitiveTypeKind::Float)),
        ],
    );
    let value = engine
        .new_struct(
            &ty,
            vec![
                ("foo".to_string(), float(1.0)),
                ("bar".to_string(), float(2.0)),
                ("baz".to_string(), float(3.0)),
            ],
        )
        .expect("should create map value");

    // Struct -> Map[String, Float]
    let ty = Type::map(prim(PrimitiveTypeKind::String), prim(PrimitiveTypeKind::Float));
    let map_value = value.coerce(&ty).expect("value should coerce");
    assert_eq!(text(&map_value), r#"{"foo": 1.0, "bar": 2.0, "baz": 3.0}"#);

    // Struct -> Struct
    let ty = Type::structure(
        "Bar",
        vec![
            ("foo".to_string(), prim(PrimitiveTypeKind::Float)),
            ("bar".to_string(), prim(PrimitiveTypeKind::Float)),
            ("baz".to_string(), prim(PrimitiveTypeKind::Float)),
        ],
    );
    let struct_value = value.coerce(&ty).expect("value should coerce");
    assert_eq!(text(&struct_value), r#"Bar {foo: 1.0, bar: 2.0, baz: 3.0}"#);

    // Struct -> Object
    let object_value = value.coerce(&Type::Object).expect("value should coerce");
    assert_eq!(text(&object_value), r#"object {foo: 1.0, bar: 2.0, baz: 3.0}"#);
}

#[test]
fn struct_display() {}

#[test]
fn int_to_float_matches_conversion() {
    let cases: [i64; 12] = [
        0,
        1,
        -1,
        12345,
        -12345,
        (1i64 << 53) + 1,
        (1i64 << 53) + 3,
        (1i64 << 54) + 2,
        i64::MAX,
        i64::MIN,
        i64::MIN + 1,
        9_007_199_254_740_993,
    ];
    for v in cases {
        assert_eq!(int_to_float_bits(v), (v as f64).to_bits(), "{v}");
    }
}

#[test]
fn map_keys_that_coerce_to_the_same_key_keep_the_first_place() {
    let mut engine = Engine::default();
    let ty = Type::map(prim(PrimitiveTypeKind::String), prim(PrimitiveTypeKind::Integer));
    let a = engine.new_file("a");
    let b = engine.new_string("b");
    let a2 = engine.new_string("a");
    let value = engine
        .new_map(&ty, vec![(a, Value::Integer(1)), (b, Value::Integer(2)), (a2, Value::Integer(3))])
        .expect("should create map value");
    assert_eq!(text(&value), r#"{"a": 3, "b": 2}"#);
}

#[test]
fn zero_and_negative_zero_are_the_same_key() {
    let mut engine = Engine::default();
    let ty = Type::map(prim(PrimitiveTypeKind::Float), prim(PrimitiveTypeKind::Integer));
    let value = engine
        .new_map(&ty, vec![(float(0.0), Value::Integer(1)), (float(-0.0), Value::Integer(2))])
        .expect("should create map value");
    assert_eq!(text(&value), "{0.0: 2}");
}

#[test]
fn struct_with_missing_member_does_not_coerce() {
    let mut engine = Engine::default();
    let ty = Type::structure("Foo", vec![("foo".to_string(), prim(PrimitiveTypeKind::Integer))]);
    assert!(engine.new_struct(&ty, vec![("bar".to_string(), Value::Integer(1))]).is_none());
}

#[test]
fn object_to_struct_and_type_coercibility() {
    let mut engine = Engine::default();
    let object = engine.new_object(vec![("x".to_string(), Value::Integer(1))]);
    let ty = Type::structure("P", vec![("x".to_string(), prim(PrimitiveTypeKind::Float))]);
    let s = object.coerce(&ty).expect("object should coerce");
    assert_eq!(text(&s), "P {x: 1.0}");
    // An optional object type never coerces to a required struct.
    assert!(!Type::OptionalObject.is_coercible_to(&ty));
    assert!(Type::Object.is_coercible_to(&ty));
    // `None` coerces to any optional type.
    assert!(Type::NoneType.is_coercible_to(&prim(PrimitiveTypeKind::Integer).optional()));
    assert!(!Type::NoneType.is_coercible_to(&prim(PrimitiveTypeKind::Integer)));
}

#[test]
fn accessors() {
    let mut engine = Engine::default();
    let s = engine.new_string("x");
    assert_eq!(s.as_string(), Some("x"));
    assert_eq!(s.as_file(), None);
    assert_eq!(s.as_str(), Some("x"));
    assert_eq!(Value::Integer(3).as_integer(), Some(3));
    assert_eq!(Value::Integer(3).as_boolean(), None);
    assert!(Value::Boolean(true).unwrap_boolean());
    assert_eq!(Value::NoneValue.as_str(), None);
}
