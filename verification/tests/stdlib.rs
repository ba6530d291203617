use wdl::engine::stdlib;
use wdl::engine::stdlib::read_boolean_text;
use wdl::engine::stdlib::write_object_table;
use wdl::engine::stdlib::WriteObjectError;
use wdl::engine::types::PrimitiveTypeKind;
use wdl::engine::types::Type;
use wdl::engine::value::DisplayPiece;
use wdl::engine::value::Engine;
use wdl::engine::value::Value;

fn render(pieces: &[DisplayPiece], float: fn(f64) -> String) -> String {
    let mut s = String::new();
    for p in pieces {
        match p {
            DisplayPiece::Text(t) => s.push_str(t),
            DisplayPiece::Float(b) => s.push_str(&float(f64::from_bits(*b))),
        }
    }
    s
}

#[test]
fn read_boolean() {
    assert_eq!(read_boolean_text("true false hello world!"), None);
    assert_eq!(read_boolean_text("\n\t\tTrUe   \n"), Some(true));
    assert_eq!(read_boolean_text("\n\t\tfalse   \n"), Some(false));
    assert_eq!(read_boolean_text(""), None);
}

#[test]
fn as_pairs() {
    let mut engine = Engine::default();
    let string = || Type::from_kind(PrimitiveTypeKind::String);
    let int = || Type::from_kind(PrimitiveTypeKind::Integer);

    let empty = engine.new_map(&Type::map(string(), string()), vec![]).unwrap();
    let ret = Type::array(Type::pair(string(), string()), false);
    let value = stdlib::as_pairs(empty.unwrap_map(), &ret);
    assert_eq!(value.unwrap_array().elements().len(), 0);

    let entries = vec![
        (engine.new_string("foo"), engine.new_string("bar")),
        (engine.new_string("bar"), engine.new_string("baz")),
    ];
    let map = engine.new_map(&Type::map(string(), string()), entries).unwrap();
    let value = stdlib::as_pairs(map.unwrap_map(), &ret);
    let elements: Vec<_> = value
        .as_array()
        .unwrap()
        .elements()
        .iter()
        .map(|v| {
            let pair = v.as_pair().unwrap();
            (pair.left().as_string().unwrap(), pair.right().as_string().unwrap())
        })
        .collect();
    assert_eq!(elements, [("foo", "bar"), ("bar", "baz")]);

    let entries = vec![
        (engine.new_string("a"), Value::Integer(1)),
        (engine.new_string("c"), Value::Integer(3)),
        (engine.new_string("b"), Value::Integer(2)),
    ];
    let map = engine.new_map(&Type::map(string(), int()), entries).unwrap();
    let ret = Type::array(Type::pair(string(), int()), false);
    let value = stdlib::as_pairs(map.unwrap_map(), &ret);
    let elements: Vec<_> = value
        .as_array()
        .unwrap()
        .elements()
        .iter()
        .map(|v| {
            let pair = v.as_pair().unwrap();
            (pair.left().as_string().unwrap(), pair.right().as_integer().unwrap())
        })
        .collect();
    assert_eq!(elements, [("a", 1), ("c", 3), ("b", 2)]);
    let text = render(&value.display(), |f| format!("{f:?}"));
    assert_eq!(text, r#"[("a", 1), ("c", 3), ("b", 2)]"#);
}

#[test]
fn write_object() {
    let mut engine = Engine::default();
    let tsv = |v: &Value| -> Result<String, WriteObjectError> {
        write_object_table(v.unwrap_object()).map(|p| render(&p, |f| format!("{f:.6}")))
    };

    let empty = engine.new_object(vec![]);
    assert_eq!(tsv(&empty).unwrap(), "");

    let o = engine.new_object(vec![
        ("foo".to_string(), Value::String("bar".to_string())),
        ("bar".to_string(), Value::Integer(1)),
        ("baz".to_string(), Value::Float(3.5f64.to_bits())),
    ]);
    assert_eq!(tsv(&o).unwrap(), "foo\tbar\tbaz\nbar\t1\t3.500000\n");

    let o = engine.new_object(vec![
        ("foo".to_string(), Value::Integer(1)),
        ("bar".to_string(), Value::NoneValue),
        ("baz".to_string(), Value::Boolean(true)),
    ]);
    assert_eq!(tsv(&o).unwrap(), "foo\tbar\tbaz\n1\t\ttrue\n");

    let array_ty = Type::array(Type::from_kind(PrimitiveTypeKind::Integer), false);
    let empty_array = engine.new_empty_array(&array_ty);
    let o = engine.new_object(vec![("foo".to_string(), empty_array)]);
    assert!(matches!(tsv(&o), Err(WriteObjectError::NotPrimitive(n)) if n == "foo"));

    let o = engine.new_object(vec![("foo".to_string(), Value::String("\tbar".to_string()))]);
    assert!(matches!(tsv(&o), Err(WriteObjectError::TabCharacter(n)) if n == "foo"));
}
