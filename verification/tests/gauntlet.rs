use wdl::gauntlet::repository::wdl_file_key;
use wdl::gauntlet::repository::Identifier;
use wdl::gauntlet::repository::RawHash;
use wdl::gauntlet::repository::RawHashError;
use wdl::gauntlet::repository::Repository;

const HASH: &str = "0123456789abcdef0123456789ABCDEF01234567";

#[test]
fn raw_hash_round_trip() {
    let hash = RawHash::from_hex(HASH).expect("should read hash");
    assert_eq!(hash.0[0], 0x01);
    assert_eq!(hash.0[7], 0xef);
    assert_eq!(hash.0[15], 0xef);
    assert_eq!(hash.to_string(), HASH.to_lowercase());
    assert_eq!(hash.to_hex(), HASH.to_lowercase());
}

#[test]
fn raw_hash_errors() {
    assert_eq!(RawHash::from_hex("abc"), Err(RawHashError::WrongLength));
    assert_eq!(
        RawHash::from_hex("0123456789abcdef0123456789abcdef0123456g"),
        Err(RawHashError::NotHex)
    );
    assert_eq!(RawHashError::WrongLength.message(), "a commit hash must have 40 characters");
}

#[test]
fn identifier_parse() {
    let id = Identifier::parse("Foo/Bar").unwrap();
    assert_eq!(id.organization(), "Foo");
    assert_eq!(id.name(), "Bar");
    assert_eq!(id.to_string(), "Foo/Bar");
    assert!(Identifier::parse("Foo").is_err());
    assert!(Identifier::parse("a/b/c").is_err());
}

#[test]
fn repository_accessors() {
    let id = Identifier::new("stjudecloud".to_string(), "workflows".to_string());
    let hash = RawHash::from_hex(HASH).unwrap();
    let mut repo = Repository::new(id, hash.clone());
    assert_eq!(repo.commit_hash(), &Some(hash));
    assert!(repo.filters().is_empty());
    assert_eq!(repo.clone_url(), "https://github.com/stjudecloud/workflows.git");
    assert_eq!(repo.checkout_root("/tmp/w"), "/tmp/w/stjudecloud/workflows");
    let newer = RawHash([7u8; 20]);
    repo.update(newer.clone());
    assert_eq!(repo.commit_hash(), &Some(newer));
}

#[test]
fn wdl_file_keys() {
    assert_eq!(wdl_file_key("/r/a/b.wdl", "/r"), Some("/a/b.wdl".to_string()));
    assert_eq!(wdl_file_key("/r/a\\b.wdl", "/r"), Some("/a/b.wdl".to_string()));
    assert_eq!(wdl_file_key("/r/a/b.txt", "/r"), None);
}

#[test]
fn repositories_are_kept_sorted_and_unique() {
    let mut inner = wdl::gauntlet::config::Inner::default();
    inner.extend_repositories(vec![
        Identifier::new("stjude".to_string(), "workflows".to_string()),
        Identifier::new("broad".to_string(), "warp".to_string()),
        Identifier::new("broad".to_string(), "gatk".to_string()),
    ]);
    inner.extend_repositories(vec![
        Identifier::new("broad".to_string(), "warp".to_string()),
        Identifier::new("aws".to_string(), "genomics".to_string()),
    ]);
    let names: Vec<String> = inner
        .repositories()
        .iter()
        .map(|i| format!("{}/{}", i.organization(), i.name()))
        .collect();
    assert_eq!(names, vec!["aws/genomics", "broad/gatk", "broad/warp", "stjude/workflows"]);
}
