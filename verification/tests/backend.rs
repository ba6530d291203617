use wdl::engine::backend::TaskExecutionRoot;
use wdl::engine::config::cleanup_default;
use wdl::engine::config::BackendConfig;
use wdl::engine::config::CrankshaftBackendConfig;
use wdl::engine::config::DockerBackendConfig;
use wdl::engine::path::join;
use wdl::engine::path::path_components;

#[test]
fn execution_root_layout() {
    let root = TaskExecutionRoot::new("/runs/task");
    assert_eq!(root.temp_dir(), "/runs/task/tmp");
    assert_eq!(root.command(), "/runs/task/command");
    assert_eq!(root.stdout(), "/runs/task/stdout");
    assert_eq!(root.stderr(), "/runs/task/stderr");
    assert_eq!(root.work_dir(0), "/runs/task/work/0");
    assert_eq!(root.work_dir(12), "/runs/task/work/12");
    let root = TaskExecutionRoot::new("/runs/task/");
    assert_eq!(root.command(), "/runs/task/command");
}

#[test]
fn backend_configs_validate() {
    assert!(BackendConfig::default().validate().is_ok());
    assert!(matches!(BackendConfig::default(), BackendConfig::Crankshaft(c) if c.backend.is_none()));
    assert!(CrankshaftBackendConfig { backend: Some("x".to_string()) }.validate().is_ok());
    assert!(DockerBackendConfig::default().cleanup);
    assert!(DockerBackendConfig { cleanup: false }.validate().is_ok());
    assert!(cleanup_default());
}

#[test]
fn path_join_and_components() {
    assert_eq!(join("a", "b"), "a/b");
    assert_eq!(join("a/", "b"), "a/b");
    assert_eq!(join("", "b"), "b");
    assert_eq!(join("a", "/b"), "/b");
    assert_eq!(path_components("/a//b/./c/"), vec!["/", "a", "b", "c"]);
    assert_eq!(path_components("./a/.."), vec![".", "a", ".."]);
    assert_eq!(path_components("a/b"), vec!["a", "b"]);
}
