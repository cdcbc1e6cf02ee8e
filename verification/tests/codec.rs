use rspass::parse_key_value;
use rspass::paths::{base_prefix, check_path, normalize};
use rspass::record::{PatchOp, Record};
use rspass::validators::{CredentialItem, CredentialValuesParser};
use rspass::Error;

fn record(secret: &str, metadata: &[(&str, &str)]) -> Record {
    Record {
        secret: secret.to_owned(),
        metadata: metadata
            .iter()
            .map(|(k, v)| ((*k).to_owned(), (*v).to_owned()))
            .collect(),
    }
}

#[test]
fn encode_simple_record() {
    let rec = record("hunter2", &[("user", "alice"), ("uri", "example.org")]);
    assert_eq!(
        rec.encode().unwrap(),
        "hunter2\nuser=alice\nuri=example.org"
    );
}

#[test]
fn encode_no_metadata_is_secret_alone() {
    let rec = record("s3cr3t", &[]);
    assert_eq!(rec.encode().unwrap(), "s3cr3t");
}

#[test]
fn encode_rejects_secret_with_line_break() {
    let rec = record("bad\nsecret", &[]);
    assert_eq!(rec.encode(), Err(Error::InvalidSecret));
}

#[test]
fn decode_inverts_encode() {
    let rec = record("p4ss", &[("user", "alice"), ("note", "work account")]);
    let text = rec.encode().unwrap();
    let back = Record::decode(&text).unwrap();
    assert_eq!(back.secret, "p4ss");
    assert_eq!(
        back.metadata,
        vec![
            ("user".to_owned(), "alice".to_owned()),
            ("note".to_owned(), "work account".to_owned())
        ]
    );
}

#[test]
fn decode_value_may_contain_equals() {
    let back = Record::decode("s\nquery=a=b=c").unwrap();
    assert_eq!(back.metadata, vec![("query".to_owned(), "a=b=c".to_owned())]);
    let again = Record {
        secret: back.secret.clone(),
        metadata: back.metadata.clone(),
    }
    .encode()
    .unwrap();
    assert_eq!(again, "s\nquery=a=b=c");
}

#[test]
fn decode_names_first_malformed_line() {
    assert_eq!(
        Record::decode("secret\na=1\nbroken\nb=2"),
        Err(Error::MalformedRecord(2))
    );
}

#[test]
fn decode_empty_text_is_empty_secret() {
    let rec = Record::decode("").unwrap();
    assert_eq!(rec.secret, "");
    assert!(rec.metadata.is_empty());
}

#[test]
fn patch_later_put_overrides_earlier() {
    let mut rec = record("s", &[("k", "old")]);
    rec.apply(&vec![
        PatchOp::Put("k".to_owned(), "a".to_owned()),
        PatchOp::Put("k".to_owned(), "b".to_owned()),
    ]);
    assert_eq!(rec.lookup_value("k"), Some("b".to_owned()));
    assert_eq!(rec.metadata.len(), 1);
}

#[test]
fn patch_put_keeps_insertion_order() {
    let mut rec = record("s", &[("a", "1"), ("b", "2")]);
    rec.apply(&vec![PatchOp::Put("a".to_owned(), "9".to_owned())]);
    assert_eq!(
        rec.metadata,
        vec![("a".to_owned(), "9".to_owned()), ("b".to_owned(), "2".to_owned())]
    );
}

#[test]
fn patch_delete_twice_equals_once() {
    let mut once = record("s", &[("a", "1"), ("b", "2")]);
    once.apply(&vec![PatchOp::Delete("a".to_owned())]);
    let mut twice = record("s", &[("a", "1"), ("b", "2")]);
    twice.apply(&vec![
        PatchOp::Delete("a".to_owned()),
        PatchOp::Delete("a".to_owned()),
    ]);
    assert_eq!(once.metadata, twice.metadata);
    assert_eq!(once.metadata, vec![("b".to_owned(), "2".to_owned())]);
}

#[test]
fn patch_delete_absent_key_is_noop() {
    let mut rec = record("s", &[("a", "1")]);
    rec.apply(&vec![PatchOp::Delete("zz".to_owned())]);
    assert_eq!(rec.metadata, vec![("a".to_owned(), "1".to_owned())]);
}

#[test]
fn parse_key_value_splits_at_first_equals() {
    assert_eq!(
        parse_key_value("user=alice"),
        Ok(("user".to_owned(), "alice".to_owned()))
    );
    assert_eq!(
        parse_key_value("query=a=b"),
        Ok(("query".to_owned(), "a=b".to_owned()))
    );
}

#[test]
fn parse_key_value_rejects_missing_equals() {
    assert_eq!(
        parse_key_value("useralice"),
        Err("Invalid metadata format. expected \"key=value\"".to_owned())
    );
}

#[test]
fn normalize_strips_one_trailing_separator() {
    assert_eq!(normalize("a/b/"), "a/b");
    assert_eq!(normalize("a/b"), "a/b");
    assert_eq!(normalize("a//"), "a/");
}

#[test]
fn check_path_accepts_plain_segments() {
    assert!(check_path("email/work"));
    assert!(check_path("a"));
    assert!(!check_path(""));
    assert!(!check_path("a//b"));
    assert!(!check_path("./a"));
    assert!(!check_path("a/../b"));
    assert!(!check_path("a/"));
}

#[test]
fn base_prefix_drops_last_segment() {
    assert_eq!(base_prefix("a/x"), "a");
    assert_eq!(base_prefix("a/b/c"), "a/b");
    assert_eq!(base_prefix("single"), "");
}

fn snapshot() -> Vec<CredentialItem> {
    vec![
        CredentialItem::File("a/b".to_owned()),
        CredentialItem::File("a/c".to_owned()),
        CredentialItem::File("d".to_owned()),
        CredentialItem::Dir("a".to_owned()),
    ]
}

#[test]
fn item_accessors() {
    let f = CredentialItem::File("x/y".to_owned());
    let d = CredentialItem::Dir("x".to_owned());
    assert!(!f.is_dir());
    assert!(d.is_dir());
    assert_eq!(f.inner().as_str(), "x/y");
    assert!(f.matches(&"x/y".to_owned()));
    assert!(!f.matches(&"x".to_owned()));
}

#[test]
fn validator_all_keeps_everything() {
    let parser = CredentialValuesParser::all(snapshot());
    assert_eq!(parser.parse("a/b"), Ok("a/b".to_owned()));
    assert_eq!(parser.parse("a/"), Ok("a".to_owned()));
}

#[test]
fn validator_files_excludes_dirs() {
    let parser = CredentialValuesParser::files(snapshot());
    assert_eq!(parser.parse("a/b"), Ok("a/b".to_owned()));
    assert!(parser.parse("a").is_err());
}

#[test]
fn validator_dirs_excludes_files() {
    let parser = CredentialValuesParser::dirs(snapshot());
    assert_eq!(parser.parse("a"), Ok("a".to_owned()));
    assert!(parser.parse("a/b").is_err());
}

#[test]
fn suggestions_scoped_to_base_prefix() {
    let parser = CredentialValuesParser::files(vec![
        CredentialItem::File("a/b".to_owned()),
        CredentialItem::File("a/c".to_owned()),
        CredentialItem::File("d".to_owned()),
    ]);
    let sugg = parser.parse("a/x").unwrap_err();
    let paths: Vec<&String> = sugg.iter().map(|i| i.inner()).collect();
    assert_eq!(paths, vec!["a/b", "a/c"]);
}

#[test]
fn suggestions_single_segment_offers_all() {
    let parser = CredentialValuesParser::files(vec![
        CredentialItem::File("a/b".to_owned()),
        CredentialItem::File("d".to_owned()),
    ]);
    let sugg = parser.parse("zzz").unwrap_err();
    assert_eq!(sugg.len(), 2);
}

#[test]
fn filter_by_base_uses_string_prefix() {
    let parser = CredentialValuesParser::all(vec![
        CredentialItem::File("ab/c".to_owned()),
        CredentialItem::File("a/c".to_owned()),
    ]);
    let sugg = parser.filter_by_base("a/x");
    let paths: Vec<&String> = sugg.iter().map(|i| i.inner()).collect();
    assert_eq!(paths, vec!["ab/c", "a/c"]);
}
