use rspass::record::PatchOp;
use rspass::store::Vault;
use rspass::sync::{get_git_credential, set_remote};
use rspass::validators::CredentialItem;
use rspass::Error;

fn meta(pairs: &[(&str, &str)]) -> Vec<(String, String)> {
    pairs
        .iter()
        .map(|(k, v)| ((*k).to_owned(), (*v).to_owned()))
        .collect()
}

fn item_paths(items: &[CredentialItem]) -> (Vec<String>, Vec<String>) {
    let mut files: Vec<String> = Vec::new();
    let mut dirs: Vec<String> = Vec::new();
    for it in items {
        if it.is_dir() {
            dirs.push(it.inner().clone());
        } else {
            files.push(it.inner().clone());
        }
    }
    files.sort();
    dirs.sort();
    (files, dirs)
}

#[test]
fn insert_then_get_returns_record() {
    let mut vault = Vault::new();
    let md = meta(&[("user", "alice")]);
    vault.insert("email/work", "p4ss", Some(&md)).unwrap();
    assert_eq!(vault.get("email/work", true), Ok("p4ss\nuser=alice".to_owned()));
    assert_eq!(vault.get("email/work", false), Ok("p4ss".to_owned()));
}

#[test]
fn insert_duplicate_fails_and_keeps_first() {
    let mut vault = Vault::new();
    vault.insert("x", "s1", None).unwrap();
    assert_eq!(vault.insert("x", "s2", None), Err(Error::AlreadyExists));
    assert_eq!(vault.get("x", false), Ok("s1".to_owned()));
    let items = vault.list(None, true).unwrap();
    assert_eq!(items.len(), 1);
}

#[test]
fn insert_rejects_invalid_paths() {
    let mut vault = Vault::new();
    assert_eq!(vault.insert("", "s", None), Err(Error::InvalidPath));
    assert_eq!(vault.insert("a//b", "s", None), Err(Error::InvalidPath));
    assert_eq!(vault.insert("../a", "s", None), Err(Error::InvalidPath));
}

#[test]
fn insert_rejects_secret_with_line_break() {
    let mut vault = Vault::new();
    assert_eq!(vault.insert("a", "s\nb", None), Err(Error::InvalidSecret));
    assert_eq!(vault.get("a", false), Err(Error::NotFound));
}

#[test]
fn insert_blocks_file_over_namespace_and_below_file() {
    let mut vault = Vault::new();
    vault.insert("a/b", "s", None).unwrap();
    assert_eq!(vault.insert("a", "s", None), Err(Error::AlreadyExists));
    assert_eq!(vault.insert("a/b/c", "s", None), Err(Error::AlreadyExists));
}

#[test]
fn insert_normalizes_trailing_separator() {
    let mut vault = Vault::new();
    vault.insert("a/b/", "s", None).unwrap();
    assert_eq!(vault.get("a/b", false), Ok("s".to_owned()));
}

#[test]
fn get_missing_is_not_found() {
    let vault = Vault::new();
    assert_eq!(vault.get("nope", true), Err(Error::NotFound));
}

#[test]
fn edit_replaces_metadata_value() {
    let mut vault = Vault::new();
    let md = meta(&[("user", "alice")]);
    vault.insert("email/work", "p4ss", Some(&md)).unwrap();
    let patch = vec![PatchOp::Put("user".to_owned(), "bob".to_owned())];
    vault.edit("email/work", None, Some(&patch)).unwrap();
    assert_eq!(
        vault.get("email/work", true),
        Ok("p4ss\nuser=bob".to_owned())
    );
}

#[test]
fn edit_replaces_secret() {
    let mut vault = Vault::new();
    vault.insert("a", "old", None).unwrap();
    vault.edit("a", Some(&"new".to_owned()), None).unwrap();
    assert_eq!(vault.get("a", false), Ok("new".to_owned()));
}

#[test]
fn edit_without_changes_is_rejected() {
    let mut vault = Vault::new();
    vault.insert("a", "s", None).unwrap();
    assert_eq!(vault.edit("a", None, None), Err(Error::NoChange));
    let empty: Vec<PatchOp> = Vec::new();
    assert_eq!(vault.edit("a", None, Some(&empty)), Err(Error::NoChange));
}

#[test]
fn edit_missing_is_not_found() {
    let mut vault = Vault::new();
    assert_eq!(
        vault.edit("a", Some(&"s".to_owned()), None),
        Err(Error::NotFound)
    );
}

#[test]
fn edit_delete_then_add_metadata() {
    let mut vault = Vault::new();
    let md = meta(&[("user", "alice"), ("note", "x")]);
    vault.insert("p", "s", Some(&md)).unwrap();
    let patch = vec![
        PatchOp::Delete("note".to_owned()),
        PatchOp::Put("uri".to_owned(), "example.org".to_owned()),
    ];
    vault.edit("p", None, Some(&patch)).unwrap();
    assert_eq!(
        vault.get("p", true),
        Ok("s\nuser=alice\nuri=example.org".to_owned())
    );
}

#[test]
fn remove_deletes_credential() {
    let mut vault = Vault::new();
    vault.insert("a/b", "s", None).unwrap();
    vault.remove("a/b").unwrap();
    assert_eq!(vault.get("a/b", false), Err(Error::NotFound));
    assert_eq!(vault.remove("a/b"), Err(Error::NotFound));
}

#[test]
fn move_file_preserves_content() {
    let mut vault = Vault::new();
    let md = meta(&[("user", "alice")]);
    vault.insert("src/cred", "p4ss", Some(&md)).unwrap();
    let before = vault.get("src/cred", true).unwrap();
    vault.move_entry("src/cred", "dst/cred").unwrap();
    assert_eq!(vault.get("dst/cred", true), Ok(before));
    assert_eq!(vault.get("src/cred", true), Err(Error::NotFound));
}

#[test]
fn move_to_occupied_destination_fails() {
    let mut vault = Vault::new();
    vault.insert("a", "s1", None).unwrap();
    vault.insert("b", "s2", None).unwrap();
    assert_eq!(vault.move_entry("a", "b"), Err(Error::AlreadyExists));
    assert_eq!(vault.get("a", false), Ok("s1".to_owned()));
}

#[test]
fn move_missing_source_fails() {
    let mut vault = Vault::new();
    assert_eq!(vault.move_entry("a", "b"), Err(Error::NotFound));
}

#[test]
fn move_namespace_renames_every_credential_under_it() {
    let mut vault = Vault::new();
    vault.insert("old/a", "1", None).unwrap();
    vault.insert("old/sub/b", "2", None).unwrap();
    vault.insert("other", "3", None).unwrap();
    vault.move_entry("old", "new").unwrap();
    assert_eq!(vault.get("new/a", false), Ok("1".to_owned()));
    assert_eq!(vault.get("new/sub/b", false), Ok("2".to_owned()));
    assert_eq!(vault.get("other", false), Ok("3".to_owned()));
    assert_eq!(vault.get("old/a", false), Err(Error::NotFound));
}

#[test]
fn list_root_shows_immediate_entries() {
    let mut vault = Vault::new();
    vault.insert("top", "s", None).unwrap();
    vault.insert("a/b", "s", None).unwrap();
    vault.insert("a/c/d", "s", None).unwrap();
    let items = vault.list(None, false).unwrap();
    let (files, dirs) = item_paths(&items);
    assert_eq!(files, vec!["top"]);
    assert_eq!(dirs, vec!["a"]);
}

#[test]
fn list_recursive_shows_all_entries_and_namespaces() {
    let mut vault = Vault::new();
    vault.insert("top", "s", None).unwrap();
    vault.insert("a/b", "s", None).unwrap();
    vault.insert("a/c/d", "s", None).unwrap();
    let items = vault.list(None, true).unwrap();
    let (files, dirs) = item_paths(&items);
    assert_eq!(files, vec!["a/b", "a/c/d", "top"]);
    assert_eq!(dirs, vec!["a", "a/c"]);
}

#[test]
fn list_scoped_to_namespace() {
    let mut vault = Vault::new();
    vault.insert("a/b", "s", None).unwrap();
    vault.insert("a/c/d", "s", None).unwrap();
    vault.insert("e", "s", None).unwrap();
    let items = vault.list(Some(&"a".to_owned()), false).unwrap();
    let (files, dirs) = item_paths(&items);
    assert_eq!(files, vec!["a/b"]);
    assert_eq!(dirs, vec!["a/c"]);
}

#[test]
fn list_scoped_recursive_shows_nested_entries() {
    let mut vault = Vault::new();
    vault.insert("a/b", "s", None).unwrap();
    vault.insert("a/c/d", "s", None).unwrap();
    vault.insert("e", "s", None).unwrap();
    let items = vault.list(Some(&"a".to_owned()), true).unwrap();
    let (files, dirs) = item_paths(&items);
    assert_eq!(files, vec!["a/b", "a/c/d"]);
    assert_eq!(dirs, vec!["a/c"]);
}

#[test]
fn empty_vault_lists_nothing() {
    let vault = Vault::new();
    assert_eq!(vault.list(None, true).unwrap(), Vec::new());
}

#[test]
fn list_missing_namespace_fails() {
    let mut vault = Vault::new();
    vault.insert("a", "s", None).unwrap();
    assert!(vault.list(Some(&"zzz".to_owned()), false).is_err());
    assert!(vault.list(Some(&"a".to_owned()), false).is_err());
}

#[test]
fn list_excludes_reserved_metadata_directory() {
    let mut vault = Vault::new();
    vault.restore(".git/config", "noise").unwrap();
    vault.insert("a", "s", None).unwrap();
    let items = vault.list(None, true).unwrap();
    let (files, dirs) = item_paths(&items);
    assert_eq!(files, vec!["a"]);
    assert!(dirs.is_empty());
}

#[test]
fn restore_loads_record_text_verbatim() {
    let mut vault = Vault::new();
    vault.restore("a/b", "secret\nuser=alice").unwrap();
    assert_eq!(vault.get("a/b", false), Ok("secret".to_owned()));
    assert_eq!(vault.restore("a/b", "other"), Err(Error::AlreadyExists));
}

#[test]
fn get_reports_malformed_stored_record() {
    let mut vault = Vault::new();
    vault.restore("a", "secret\nbroken-line").unwrap();
    assert_eq!(vault.get("a", true), Err(Error::MalformedRecord(1)));
}

#[test]
fn set_remote_stores_credential_at_reserved_path() {
    let mut vault = Vault::new();
    set_remote(&mut vault, "alice", "token123", "git@example.org:pass.git").unwrap();
    assert_eq!(
        vault.get("config/rspass", true),
        Ok("token123\nuri=git@example.org:pass.git\nusername=alice".to_owned())
    );
}

#[test]
fn set_remote_twice_fails() {
    let mut vault = Vault::new();
    set_remote(&mut vault, "alice", "t", "uri").unwrap();
    assert_eq!(
        set_remote(&mut vault, "bob", "t2", "uri2"),
        Err(Error::AlreadyExists)
    );
}

#[test]
fn git_credential_round_trip() {
    let mut vault = Vault::new();
    set_remote(&mut vault, "alice", "token123", "uri").unwrap();
    assert_eq!(
        get_git_credential(&vault),
        Ok(("alice".to_owned(), "token123".to_owned()))
    );
}

#[test]
fn git_credential_unconfigured() {
    let vault = Vault::new();
    assert_eq!(get_git_credential(&vault), Err(Error::NotConfigured));
}

#[test]
fn git_credential_without_username_is_unconfigured() {
    let mut vault = Vault::new();
    vault.restore("config/rspass", "token\nuri=x").unwrap();
    assert_eq!(get_git_credential(&vault), Err(Error::NotConfigured));
}
