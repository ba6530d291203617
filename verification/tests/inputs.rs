use wdl::engine::inputs::CallSignature;
use wdl::engine::inputs::CallTarget;
use wdl::engine::inputs::DocumentSignature;
use wdl::engine::inputs::InputError;
use wdl::engine::inputs::InputSpec;
use wdl::engine::inputs::parse_inputs_text;
use wdl::engine::inputs::Inputs;
use wdl::engine::inputs::TaskInputs;
use wdl::engine::inputs::TaskSignature;
use wdl::engine::inputs::VersionRules;
use wdl::engine::inputs::WorkflowInputs;
use wdl::engine::inputs::WorkflowSignature;
use wdl::engine::types::PrimitiveTypeKind;
use wdl::engine::types::Type;
use wdl::engine::value::Value;

fn ty(kind: PrimitiveTypeKind) -> Type {
    Type::from_kind(kind)
}

fn input(name: &str, kind: PrimitiveTypeKind, required: bool) -> InputSpec {
    InputSpec {
        name: name.to_string(),
        ty: ty(kind),
        required,
    }
}

fn rules() -> VersionRules {
    VersionRules {
        has_version: true,
        requirement_types: vec![
            ("memory".to_string(), vec![ty(PrimitiveTypeKind::Integer), ty(PrimitiveTypeKind::String)]),
            ("cpu".to_string(), vec![ty(PrimitiveTypeKind::Float)]),
        ],
        hint_types: vec![("disks".to_string(), vec![ty(PrimitiveTypeKind::String)])],
    }
}

fn task() -> TaskSignature {
    TaskSignature {
        name: "t".to_string(),
        inputs: vec![
            input("x", PrimitiveTypeKind::Integer, true),
            input("name", PrimitiveTypeKind::String, false),
        ],
    }
}

fn int_of(v: Option<&Value>) -> Option<i64> {
    match v {
        Some(Value::Integer(i)) => Some(*i),
        _ => None,
    }
}

#[test]
fn task_inputs_set_and_get() {
    let mut inputs = TaskInputs::default();
    inputs.set("x".to_string(), Value::Integer(1));
    inputs.set("x".to_string(), Value::Integer(2));
    assert_eq!(int_of(inputs.get("x")), Some(2));
    assert_eq!(inputs.iter().len(), 1);
    inputs.override_requirement("memory".to_string(), Value::Integer(1024));
    inputs.override_hint("disks".to_string(), Value::String("local-disk".to_string()));
    assert_eq!(int_of(inputs.requirement("memory")), Some(1024));
    assert!(matches!(inputs.hint("disks"), Some(Value::String(s)) if s == "local-disk"));
    assert!(inputs.hint("memory").is_none());
}

#[test]
fn task_inputs_validate() {
    let task = task();
    let mut inputs = TaskInputs::default();
    assert!(matches!(
        inputs.validate(&rules(), &task),
        Err(InputError::MissingInput(n)) if n == "x"
    ));
    inputs.set("x".to_string(), Value::Integer(1));
    assert!(inputs.validate(&rules(), &task).is_ok());

    let mut no_version = rules();
    no_version.has_version = false;
    assert!(matches!(
        inputs.validate(&no_version, &task),
        Err(InputError::MissingVersion)
    ));

    let mut unknown = TaskInputs::default();
    unknown.set("y".to_string(), Value::Integer(1));
    assert!(matches!(
        unknown.validate(&rules(), &task),
        Err(InputError::UnknownInput(n)) if n == "y"
    ));

    let mut wrong = TaskInputs::default();
    wrong.set("x".to_string(), Value::Boolean(true));
    assert!(matches!(
        wrong.validate(&rules(), &task),
        Err(InputError::InputType { name, .. }) if name == "x"
    ));

    let mut req = TaskInputs::default();
    req.set("x".to_string(), Value::Integer(1));
    req.override_requirement("gpu".to_string(), Value::Boolean(true));
    assert!(matches!(
        req.validate(&rules(), &task),
        Err(InputError::UnsupportedRequirement(n)) if n == "gpu"
    ));

    let mut hint = TaskInputs::default();
    hint.set("x".to_string(), Value::Integer(1));
    hint.override_hint("disks".to_string(), Value::Integer(3));
    assert!(matches!(
        hint.validate(&rules(), &task),
        Err(InputError::HintType { name, expected, .. }) if name == "disks" && expected.len() == 1
    ));
    // Unknown hints are allowed.
    let mut other = TaskInputs::default();
    other.set("x".to_string(), Value::Integer(1));
    other.override_hint("anything".to_string(), Value::Integer(3));
    assert!(other.validate(&rules(), &task).is_ok());
}

#[test]
fn task_inputs_set_path_value() {
    let task = task();
    let mut inputs = TaskInputs::default();
    assert!(inputs
        .set_path_value(&rules(), &task, "x", Value::Integer(5))
        .is_ok());
    assert_eq!(int_of(inputs.get("x")), Some(5));
    assert!(matches!(
        inputs.set_path_value(&rules(), &task, "nope", Value::Integer(5)),
        Err(InputError::NoSuchInput { owner, path }) if owner == "t" && path == "nope"
    ));
    assert!(matches!(
        inputs.set_path_value(&rules(), &task, "x", Value::String("a".to_string())),
        Err(InputError::InputType { .. })
    ));
    // `runtime.` reads the requirements first, then the hints.
    assert!(inputs
        .set_path_value(&rules(), &task, "runtime.memory", Value::Integer(8))
        .is_ok());
    assert_eq!(int_of(inputs.requirement("memory")), Some(8));
    assert!(inputs
        .set_path_value(&rules(), &task, "runtime.disks", Value::String("d".to_string()))
        .is_ok());
    assert!(inputs.hint("disks").is_some());
    // An unknown `runtime.` or `hints.` key is ignored.
    assert!(inputs
        .set_path_value(&rules(), &task, "hints.unknown", Value::Integer(1))
        .is_ok());
    assert!(inputs.hint("unknown").is_none());
    // An unknown `requirements.` key is an error.
    assert!(matches!(
        inputs.set_path_value(&rules(), &task, "requirements.unknown", Value::Integer(1)),
        Err(InputError::UnsupportedKey { key, name }) if key == "requirements" && name == "unknown"
    ));
    assert!(matches!(
        inputs.set_path_value(&rules(), &task, "requirements.cpu", Value::Boolean(true)),
        Err(InputError::KeyType { .. })
    ));
    assert!(matches!(
        inputs.set_path_value(&rules(), &task, "other.cpu", Value::Integer(1)),
        Err(InputError::NoSuchInput { path, .. }) if path == "other.cpu"
    ));
}

fn workflow() -> WorkflowSignature {
    WorkflowSignature {
        name: "w".to_string(),
        inputs: vec![input("n", PrimitiveTypeKind::Integer, false)],
        allows_nested_inputs: true,
        calls: vec![CallSignature {
            name: "step".to_string(),
            specified: vec!["name".to_string()],
            inputs: vec![
                input("x", PrimitiveTypeKind::Integer, true),
                input("name", PrimitiveTypeKind::String, true),
            ],
            target: CallTarget::Task {
                task: task(),
                rules: rules(),
            },
        }],
    }
}

#[test]
fn workflow_inputs_nested() {
    let wf = workflow();
    let mut inputs = WorkflowInputs::default();
    assert!(inputs.set_path_value(&wf, "n", Value::Integer(3)).is_ok());
    assert_eq!(int_of(inputs.get("n")), Some(3));
    // The call's required input `x` is missing.
    assert!(matches!(
        inputs.validate(&wf),
        Err(InputError::MissingCallInput { input, call }) if input == "x" && call == "step"
    ));
    assert!(inputs
        .set_path_value(&wf, "step.x", Value::Integer(4))
        .is_ok());
    assert_eq!(inputs.calls().len(), 1);
    assert!(inputs.validate(&wf).is_ok());
    // `name` is given by the call statement itself.
    assert!(matches!(
        inputs.set_path_value(&wf, "step.name", Value::String("a".to_string())),
        Err(InputError::SpecifiedNestedInput { input, call }) if input == "name" && call == "step"
    ));
    assert!(matches!(
        inputs.set_path_value(&wf, "other.x", Value::Integer(1)),
        Err(InputError::NoSuchCall { workflow, name }) if workflow == "w" && name == "other"
    ));
}

#[test]
fn workflow_without_nested_inputs() {
    let mut wf = workflow();
    wf.allows_nested_inputs = false;
    let mut inputs = WorkflowInputs::default();
    assert!(matches!(
        inputs.set_path_value(&wf, "step.x", Value::Integer(4)),
        Err(InputError::NestedInputsNotAllowed(w)) if w == "w"
    ));
    inputs.set_call("step".to_string(), Inputs::Task(TaskInputs::default()));
    assert!(matches!(
        inputs.validate(&wf),
        Err(InputError::NestedInputsNotAllowed(_))
    ));
}

#[test]
fn parse_inputs_object() {
    let document = DocumentSignature {
        rules: rules(),
        tasks: vec![task()],
        workflow: Some(workflow()),
    };
    assert!(matches!(Inputs::parse_object(&document, Vec::new()), Ok(None)));

    let parsed = Inputs::parse_object(
        &document,
        vec![
            ("t.x".to_string(), Value::Integer(1)),
            ("t.runtime.memory".to_string(), Value::Integer(2)),
        ],
    )
    .unwrap()
    .unwrap();
    assert_eq!(parsed.0, "t");
    let task_inputs = parsed.1.as_task_inputs().unwrap();
    assert_eq!(int_of(task_inputs.get("x")), Some(1));
    assert_eq!(int_of(task_inputs.requirement("memory")), Some(2));

    let parsed = Inputs::parse_object(
        &document,
        vec![
            ("w.n".to_string(), Value::Integer(1)),
            ("w.step.x".to_string(), Value::Integer(2)),
        ],
    )
    .unwrap()
    .unwrap();
    assert_eq!(parsed.0, "w");
    assert_eq!(int_of(parsed.1.get("n")), Some(1));
    assert!(parsed.1.as_task_inputs().is_none());

    assert!(matches!(
        Inputs::parse_object(&document, vec![("x".to_string(), Value::Integer(1))]),
        Err(InputError::InvalidKey(k)) if k == "x"
    ));
    assert!(matches!(
        Inputs::parse_object(&document, vec![("z.x".to_string(), Value::Integer(1))]),
        Err(InputError::UnknownTarget { key, name }) if key == "z.x" && name == "z"
    ));
    assert!(matches!(
        Inputs::parse_object(
            &document,
            vec![
                ("t.x".to_string(), Value::Integer(1)),
                ("w.n".to_string(), Value::Integer(1)),
            ],
        ),
        Err(InputError::WrongPrefix { key, expected }) if key == "w.n" && expected == "t"
    ));
    assert!(matches!(
        Inputs::parse_object(&document, vec![("t.nope".to_string(), Value::Integer(1))]),
        Err(InputError::AtKey { key, .. }) if key == "t.nope"
    ));
}

#[test]
fn parse_inputs_from_text() {
    let document = DocumentSignature {
        rules: rules(),
        tasks: vec![task()],
        workflow: Some(workflow()),
    };
    assert!(matches!(parse_inputs_text(&document, "{}"), Ok(None)));
    assert!(matches!(parse_inputs_text(&document, "{ nope"), Err(InputError::InvalidJson)));
    assert!(matches!(parse_inputs_text(&document, "[1, 2]"), Err(InputError::NotAnObject)));
    assert!(matches!(parse_inputs_text(&document, "3"), Err(InputError::NotAnObject)));

    let parsed = parse_inputs_text(&document, r#"{ "t.x": 7, "t.name": "hi" }"#)
        .unwrap()
        .unwrap();
    assert_eq!(parsed.0, "t");
    let task_inputs = parsed.1.as_task_inputs().unwrap();
    assert_eq!(int_of(task_inputs.get("x")), Some(7));
    assert_eq!(task_inputs.get("name").and_then(|v| v.as_string()), Some("hi"));

    // A float is not an integer, so it does not coerce to `Int`.
    let refused = parse_inputs_text(&document, r#"{ "t.x": 1.5 }"#);
    assert!(matches!(
        refused,
        Err(InputError::AtKey { ref key, ref error })
            if key == "t.x" && matches!(**error, InputError::InputType { .. })
    ));
    if let Err(InputError::AtKey { error, .. }) = refused {
        if let InputError::InputType { found, .. } = *error {
            assert_eq!(format!("{found:?}"), format!("{:?}", Type::from_kind(PrimitiveTypeKind::Float)));
        }
    }

    // An integer above `i64::MAX` has no WDL value.
    assert!(matches!(
        parse_inputs_text(&document, r#"{ "t.x": 18446744073709551615 }"#),
        Err(InputError::InvalidValue(k)) if k == "t.x"
    ));
    assert!(matches!(
        parse_inputs_text(&document, r#"{ "t.zz": 18446744073709551615, "t.nope": 2 }"#),
        Err(InputError::AtKey { key, .. }) if key == "t.nope"
    ));
    assert!(matches!(
        parse_inputs_text(&document, r#"{ "z.x": 18446744073709551615 }"#),
        Err(InputError::UnknownTarget { key, .. }) if key == "z.x"
    ));
    let parsed = parse_inputs_text(&document, r#"{ "t.x": -3 }"#).unwrap().unwrap();
    assert_eq!(int_of(parsed.1.as_task_inputs().unwrap().get("x")), Some(-3));

    // Nested JSON becomes arrays and objects.
    let json = wdl::engine::json::Json::Array(vec![
        wdl::engine::json::Json::UInt(1),
        wdl::engine::json::Json::Array(vec![wdl::engine::json::Json::Bool(true), wdl::engine::json::Json::Null]),
        wdl::engine::json::Json::Object(vec![("a".to_string(), wdl::engine::json::Json::Str("b".to_string()))]),
    ]);
    let value = wdl::engine::json::json_to_value(&json).unwrap();
    let array = value.as_array().unwrap();
    assert_eq!(array.elements().len(), 3);
    assert_eq!(array.elements()[0].as_integer(), Some(1));
    let inner = array.elements()[1].as_array().unwrap();
    assert_eq!(inner.elements()[0].as_boolean(), Some(true));
    assert!(matches!(inner.elements()[1], Value::NoneValue));
    let object = array.elements()[2].as_object().unwrap();
    assert_eq!(object.members().len(), 1);
    assert_eq!(object.members()[0].0, "a");
    assert_eq!(object.members()[0].1.as_string(), Some("b"));

    // A nested array read from text reaches the type check as an array.
    let refused = parse_inputs_text(&document, r#"{ "t.name": [1, [true, null], {"a": "b"}] }"#);
    if let Err(InputError::AtKey { error, .. }) = refused {
        if let InputError::InputType { found, .. } = *error {
            assert!(format!("{found:?}").contains("Array"));
        } else {
            panic!("expected a type error");
        }
    } else {
        panic!("expected a type error");
    }
}
