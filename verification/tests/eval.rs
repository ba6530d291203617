use wdl::engine::backend::TaskExecutionResult;
use wdl::engine::eval::EvaluatedTask;
use wdl::engine::eval::EvaluationPath;
use wdl::engine::eval::HostPathError;
use wdl::engine::eval::InputKind;
use wdl::engine::eval::InputTrie;
use wdl::engine::eval::PathError;
use wdl::engine::eval::Scope;
use wdl::engine::eval::ScopeIndex;
use wdl::engine::eval::ScopeRef;
use wdl::engine::types::PrimitiveTypeKind;
use wdl::engine::types::Type;
use wdl::engine::value::Engine;
use wdl::engine::value::Value;

#[test]
fn empty_trie() {
    let empty = InputTrie::default();
    assert!(empty.as_slice().is_empty());
}

#[test]
fn unmapped_inputs() {
    let mut trie = InputTrie::default();
    trie.insert(InputKind::File, "/foo/bar/baz").unwrap();
    assert_eq!(trie.as_slice().len(), 1);
    assert_eq!(trie.as_slice()[0].path().to_str(), Some("/foo/bar/baz"));
    assert!(trie.as_slice()[0].guest_path().is_none());
}

#[test]
fn non_empty_trie_unix() {
    let mut trie = InputTrie::new("/inputs");
    trie.insert(InputKind::Directory, "/").unwrap().unwrap();
    trie.insert(InputKind::File, "/foo/bar/foo.txt").unwrap().unwrap();
    trie.insert(InputKind::File, "/foo/bar/bar.txt").unwrap().unwrap();
    trie.insert(InputKind::File, "/foo/baz/foo.txt").unwrap().unwrap();
    trie.insert(InputKind::File, "/foo/baz/bar.txt").unwrap().unwrap();
    trie.insert(InputKind::File, "/bar/foo/foo.txt").unwrap().unwrap();
    trie.insert(InputKind::File, "/bar/foo/bar.txt").unwrap().unwrap();
    trie.insert(InputKind::Directory, "/baz").unwrap().unwrap();
    trie.insert(InputKind::File, "https://example.com/").unwrap().unwrap();
    trie.insert(InputKind::File, "https://example.com/foo/bar/foo.txt").unwrap().unwrap();
    trie.insert(InputKind::File, "https://example.com/foo/bar/bar.txt").unwrap().unwrap();
    trie.insert(InputKind::File, "https://example.com/foo/baz/foo.txt").unwrap().unwrap();
    trie.insert(InputKind::File, "https://example.com/foo/baz/bar.txt").unwrap().unwrap();
    trie.insert(InputKind::File, "https://example.com/bar/foo/foo.txt").unwrap().unwrap();
    trie.insert(InputKind::File, "https://example.com/bar/foo/bar.txt").unwrap().unwrap();
    trie.insert(InputKind::File, "https://foo.com/bar").unwrap().unwrap();

    // Can't add relative path inputs
    assert!(trie.insert(InputKind::File, "foo.txt").unwrap().is_none());

    // The important part of the guest paths are:
    // 1) The guest file name should be the same (or `.root` if the path is
    //    considered to be root)
    // 2) Paths with the same parent should have the same guest parent
    let paths: Vec<_> = trie
        .as_slice()
        .iter()
        .map(|i| {
            (
                i.path().to_str().expect("should be a string"),
                i.guest_path().expect("should have guest path"),
            )
        })
        .collect();

    assert_eq!(
        paths,
        [
            ("/", "/inputs/0/.root"),
            ("/foo/bar/foo.txt", "/inputs/3/foo.txt"),
            ("/foo/bar/bar.txt", "/inputs/3/bar.txt"),
            ("/foo/baz/foo.txt", "/inputs/6/foo.txt"),
            ("/foo/baz/bar.txt", "/inputs/6/bar.txt"),
            ("/bar/foo/foo.txt", "/inputs/10/foo.txt"),
            ("/bar/foo/bar.txt", "/inputs/10/bar.txt"),
            ("/baz", "/inputs/1/baz"),
            ("https://example.com/", "/inputs/15/.root"),
            ("https://example.com/foo/bar/foo.txt", "/inputs/18/foo.txt"),
            ("https://example.com/foo/bar/bar.txt", "/inputs/18/bar.txt"),
            ("https://example.com/foo/baz/foo.txt", "/inputs/21/foo.txt"),
            ("https://example.com/foo/baz/bar.txt", "/inputs/21/bar.txt"),
            ("https://example.com/bar/foo/foo.txt", "/inputs/25/foo.txt"),
            ("https://example.com/bar/foo/bar.txt", "/inputs/25/bar.txt"),
            ("https://foo.com/bar", "/inputs/28/bar"),
        ]
    );
}

#[test]
fn inserting_again_gives_the_same_input() {
    let mut trie = InputTrie::new("/inputs");
    let a = trie.insert(InputKind::File, "/a/b.txt").unwrap().unwrap();
    let nodes = trie.node_count();
    let b = trie.insert(InputKind::Directory, "/a/b.txt").unwrap().unwrap();
    assert_eq!(a, b);
    assert_eq!(trie.node_count(), nodes);
    assert_eq!(trie.as_slice().len(), 1);
}

#[test]
fn guest_paths_are_not_inputs() {
    let mut trie = InputTrie::new("/inputs");
    assert!(trie.insert(InputKind::File, "/inputs/3/foo.txt").unwrap().is_none());
    assert!(trie.as_slice().is_empty());
    assert_eq!(trie.node_count(), 0);
}

#[test]
fn parent_dir_components_are_refused() {
    let mut trie = InputTrie::new("/inputs");
    match trie.insert(InputKind::File, "/a/../b") {
        Err(PathError::DotComponent(p)) => assert_eq!(p, "/a/../b"),
        other => panic!("unexpected result {other:?}"),
    }
    // The nodes above the `..` were made.
    assert_eq!(trie.node_count(), 2);
    assert!(trie.as_slice().is_empty());
}

#[test]
fn url_without_segments_keeps_the_root_name() {
    let mut trie = InputTrie::new("/in");
    let i = trie.insert(InputKind::File, "https://example.com/foo/").unwrap().unwrap();
    // The last non-empty segment names the guest file.
    assert_eq!(trie.as_slice()[i].guest_path(), Some("/in/3/foo"));
}

#[test]
fn invalid_url_is_an_error() {
    let mut trie = InputTrie::default();
    assert!(matches!(trie.insert(InputKind::File, "http://[::1"), Err(PathError::InvalidUrl(_))));
}

#[test]
fn evaluation_path_parse_and_join() {
    let local = EvaluationPath::parse("foo/bar").unwrap();
    assert_eq!(local.to_str(), Some("foo/bar"));
    let joined = local.join("baz").unwrap();
    assert_eq!(joined.to_str(), Some("foo/bar/baz"));
    let absolute = local.join("/abs").unwrap();
    assert_eq!(absolute.to_str(), Some("/abs"));
    let remote = EvaluationPath::parse("HTTPS://example.com/a/b").unwrap();
    assert_eq!(remote.to_str(), Some("https://example.com/a/b"));
    let joined = remote.join("c").unwrap();
    assert_eq!(joined.to_str(), Some("https://example.com/a/c"));
}

#[test]
fn host_paths() {
    let mut trie = InputTrie::new("/inputs");
    trie.insert(InputKind::Directory, "/data/dir").unwrap().unwrap();
    trie.insert(InputKind::File, "https://example.com/x/y.txt").unwrap().unwrap();
    let guest_dir = trie.as_slice()[0].guest_path().unwrap().to_string();
    let guest_url = trie.as_slice()[1].guest_path().unwrap().to_string();

    // A URL is returned as it is.
    assert_eq!(
        trie.host_path("https://other.org/z", "/work", None).unwrap(),
        "https://other.org/z"
    );
    // Under the guest working directory it maps to the host working directory.
    let host = EvaluationPath::parse("/host/work").unwrap();
    assert_eq!(
        trie.host_path("out/a.txt", "/work", Some(&host)).unwrap(),
        "/host/work/out/a.txt"
    );
    assert!(matches!(
        trie.host_path("out/a.txt", "/work", None),
        Err(HostPathError::OutputOnly(_))
    ));
    // Under an input's guest path it maps under the input.
    assert_eq!(
        trie.host_path(&format!("{guest_dir}/sub/f.txt"), "/work", None).unwrap(),
        "/data/dir/sub/f.txt"
    );
    assert_eq!(trie.host_path(&guest_dir, "/work", None).unwrap(), "/data/dir");
    assert_eq!(
        trie.host_path(&guest_url, "/work", None).unwrap(),
        "https://example.com/x/y.txt"
    );
    assert!(matches!(
        trie.host_path("/elsewhere/f", "/work", None),
        Err(HostPathError::NotRelative(_))
    ));
    // A guest path read from a `file` URL is cleaned and mapped in turn.
    assert_eq!(
        trie.host_path_of_guest("/work/./out//b.txt", "file:///work/out/b.txt", "/work", Some(&host))
            .unwrap(),
        "/host/work/out/b.txt"
    );
    assert_eq!(
        trie.host_path_of_guest(&format!("{guest_dir}/../{}/g.txt", guest_dir.rsplit('/').next().unwrap()), "x", "/work", None)
            .unwrap(),
        "/data/dir/g.txt"
    );
    assert_eq!(
        trie.host_path("file:///work/out/c.txt", "/work", Some(&host)).unwrap(),
        "/host/work/out/c.txt"
    );
}

#[test]
fn scope_index_round_trip() {
    assert_eq!(ScopeIndex::new(7).get(), 7);
}

fn scopes() -> Vec<Scope> {
    let mut root = Scope::default();
    root.insert("a".to_string(), Value::Integer(1));
    root.insert("b".to_string(), Value::Integer(2));
    let mut child = Scope::new(ScopeIndex::new(0));
    child.insert("b".to_string(), Value::Integer(20));
    child.insert("c".to_string(), Value::Integer(30));
    let mut grandchild = Scope::new(ScopeIndex::new(1));
    grandchild.insert("d".to_string(), Value::Integer(400));
    vec![root, child, grandchild]
}

fn int_of(v: Option<&Value>) -> Option<i64> {
    match v {
        Some(Value::Integer(i)) => Some(*i),
        _ => None,
    }
}

#[test]
fn scope_lookup_walks_parents() {
    let scopes = scopes();
    let scope = ScopeRef::new(&scopes, ScopeIndex::new(2));
    assert_eq!(int_of(scope.lookup("d")), Some(400));
    assert_eq!(int_of(scope.lookup("c")), Some(30));
    // The nearest scope wins over its parents.
    assert_eq!(int_of(scope.lookup("b")), Some(20));
    assert_eq!(int_of(scope.lookup("a")), Some(1));
    assert!(scope.lookup("z").is_none());
    assert_eq!(int_of(scope.local("d")), Some(400));
    assert!(scope.local("a").is_none());
}

#[test]
fn scope_parents_and_names() {
    let scopes = scopes();
    let scope = ScopeRef::new(&scopes, ScopeIndex::new(2));
    let parent = scope.parent().unwrap();
    let names: Vec<&str> = parent.names().iter().map(|(n, _)| n.as_str()).collect();
    assert_eq!(names, vec!["b", "c"]);
    let root = parent.parent().unwrap();
    assert!(root.parent().is_none());
    let visible: Vec<(&str, Option<i64>)> = scope
        .visible()
        .into_iter()
        .map(|(n, v)| (n.as_str(), int_of(Some(v))))
        .collect();
    assert_eq!(
        visible,
        vec![
            ("d", Some(400)),
            ("b", Some(20)),
            ("c", Some(30)),
            ("a", Some(1)),
            ("b", Some(2)),
        ]
    );
}

fn task(exit_code: i32) -> EvaluatedTask {
    EvaluatedTask::new(
        "/tmp/attempt/0".to_string(),
        TaskExecutionResult {
            exit_code,
            work_dir: EvaluationPath::parse("/tmp/attempt/0/work").unwrap(),
            stdout: Value::File("/tmp/attempt/0/stdout".to_string()),
            stderr: Value::File("/tmp/attempt/0/stderr".to_string()),
        },
    )
}

fn codes(name: &str, value: Value) -> Vec<(String, Value)> {
    vec![(name.to_string(), value)]
}

#[test]
fn exit_zero_is_success_by_default() {
    assert!(task(0).handle_exit(&[], &[]).is_ok());
    let t = task(1);
    assert_eq!(t.exit_code(), 1);
    assert_eq!(t.attempt_dir(), "/tmp/attempt/0");
    assert_eq!(
        t.handle_exit(&[], &[]).unwrap_err(),
        "process terminated with exit code 1: see `/tmp/attempt/0/stdout` and \
         `/tmp/attempt/0/stderr` for task output and the related files in `/tmp/attempt/0`"
    );
}

#[test]
fn return_codes_accept_exits() {
    let any = codes("return_codes", Value::String("*".to_string()));
    assert!(task(42).handle_exit(&any, &[]).is_ok());

    let three = codes("returnCodes", Value::Integer(3));
    assert!(task(3).handle_exit(&three, &[]).is_ok());
    assert!(task(0).handle_exit(&three, &[]).is_err());

    // An integer that does not fit in 32 bits stands for 0.
    let huge = codes("return_codes", Value::Integer(1 << 40));
    assert!(task(0).handle_exit(&huge, &[]).is_ok());

    let mut engine = Engine::default();
    let ty = Type::array(Type::from_kind(PrimitiveTypeKind::Integer), false);
    let list = engine
        .new_array(&ty, vec![Value::Integer(1), Value::Integer(2)])
        .unwrap();
    let list = codes("return_codes", list);
    assert!(task(2).handle_exit(&list, &[]).is_ok());
    assert!(task(5).handle_exit(&list, &[]).is_err());
}

#[test]
fn invalid_return_codes_string() {
    let bad = codes("return_codes", Value::String("foo".to_string()));
    assert_eq!(
        task(0).handle_exit(&bad, &[]).unwrap_err(),
        "invalid return code value `foo`: only `*` is accepted when the return code is \
         specified as a string"
    );
}

#[test]
fn failure_shows_last_stderr_lines() {
    let lines: Vec<String> = (1..=12).map(|i| format!("line {i}")).collect();
    let message = task(7).handle_exit(&[], &lines).unwrap_err();
    let expected_tail: Vec<String> = (3..=12).map(|i| format!("  line {i}")).collect();
    assert_eq!(
        message,
        format!(
            "process terminated with exit code 7: see `/tmp/attempt/0/stdout` and \
             `/tmp/attempt/0/stderr` for task output and the related files in \
             `/tmp/attempt/0`\n\ntask stderr output (last 10 lines):\n\n{}\n",
            expected_tail.join("\n")
        )
    );
    let negative = task(-3).handle_exit(&[], &["oops".to_string()]).unwrap_err();
    assert!(negative.starts_with("process terminated with exit code -3: "));
    assert!(negative.ends_with("\n\n  oops\n"));
}

#[test]
fn scope_for_each_stops_at_the_first_error() {
    let scopes = scopes();
    let scope = ScopeRef::new(&scopes, ScopeIndex::new(2));
    let seen = std::cell::RefCell::new(Vec::new());
    let all = scope.for_each(|n: &str, _v: &Value| -> Result<(), String> {
        seen.borrow_mut().push(n.to_string());
        Ok(())
    });
    assert!(all.is_ok());
    assert_eq!(seen.borrow().len(), scope.visible().len());
    seen.borrow_mut().clear();
    let stopped = scope.for_each(|n: &str, _v: &Value| -> Result<(), String> {
        seen.borrow_mut().push(n.to_string());
        if n == "b" { Err(format!("stopped at {n}")) } else { Ok(()) }
    });
    assert_eq!(stopped, Err("stopped at b".to_string()));
    assert_eq!(*seen.borrow(), vec!["d".to_string(), "b".to_string()]);
    assert_eq!(usize::from(ScopeIndex::from(3usize)), 3);
}

#[test]
fn file_urls_name_local_paths() {
    let p = EvaluationPath::parse("file:///data/a%20b.txt").unwrap();
    assert_eq!(p.to_str(), Some("/data/a b.txt"));
    assert!(matches!(p, EvaluationPath::Local(_)));
    let joined = EvaluationPath::parse("/x").unwrap().join("file:///y/z").unwrap();
    assert_eq!(joined.to_str(), Some("/y/z"));
}

#[test]
fn empty_input_path_is_refused() {
    let mut trie = InputTrie::new("/inputs");
    trie.insert(InputKind::File, "/a/b.txt").unwrap().unwrap();
    let before = trie.as_slice().len();
    assert!(matches!(trie.insert_path(InputKind::File, ""), Err(PathError::EmptyPath)));
    assert_eq!(trie.as_slice().len(), before);
    assert!(matches!(trie.insert_path(InputKind::File, "/foo/../bar"), Err(PathError::DotComponent(_))));
    assert_eq!(trie.as_slice().len(), before);
}
