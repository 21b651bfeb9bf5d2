use cargo_merge_assist::doc::{Doc, Entry};
use cargo_merge_assist::merge::{join_path, merge_value};
use cargo_merge_assist::text::merge_manifest_texts;

fn table(entries: Vec<(&str, Doc)>) -> Doc {
    Doc::Table(
        entries
            .into_iter()
            .map(|(k, v)| Entry { key: k.to_string(), value: v })
            .collect(),
    )
}

fn text(s: &str) -> Doc {
    Doc::Str(s.to_string())
}

#[test]
fn merges_independent_dependency_changes() {
    let base = r#"
[dependencies]
serde = "1"
"#;
    let ours = r#"
[dependencies]
serde = "1"
clap = "4"
"#;
    let theirs = r#"
[dependencies]
serde = "1"
anyhow = "1"
"#;

    let merged = merge_manifest_texts(base, ours, theirs).expect("merge should succeed");
    assert!(merged.contains("clap = \"4\""));
    assert!(merged.contains("anyhow = \"1\""));
    assert!(merged.contains("serde = \"1\""));
}

#[test]
fn keeps_single_side_change() {
    let base = r#"
[package]
name = "demo"
version = "0.1.0"
"#;
    let ours = r#"
[package]
name = "demo"
version = "0.2.0"
"#;
    let theirs = base;

    let merged = merge_manifest_texts(base, ours, theirs).expect("merge should succeed");
    assert!(merged.contains("version = \"0.2.0\""));
}

#[test]
fn reports_conflict_on_same_key_different_change() {
    let base = r#"
[dependencies]
serde = "1"
"#;
    let ours = r#"
[dependencies]
serde = "1.0.200"
"#;
    let theirs = r#"
[dependencies]
serde = "1.0.199"
"#;

    let err = merge_manifest_texts(base, ours, theirs).expect_err("merge must conflict");
    assert_eq!(err.path, "dependencies.serde");
}

#[test]
fn same_edit_on_both_sides_is_applied_once() {
    let base = "[package]\nversion = \"0.1.0\"\n";
    let both = "[package]\nversion = \"0.2.0\"\n";
    let merged = merge_manifest_texts(base, both, both).expect("merge should succeed");
    assert_eq!(merged, "[package]\nversion = \"0.2.0\"\n");
}

#[test]
fn deletion_against_edit_conflicts() {
    let base = "[features]\nx = []\n";
    let ours = "[features]\n";
    let theirs = "[features]\nx = [\"a\"]\n";
    let err = merge_manifest_texts(base, ours, theirs).expect_err("merge must conflict");
    assert_eq!(err.path, "features.x");
    assert!(err.base.is_some());
    assert!(err.ours.is_none());
    assert!(err.theirs.is_some());
}

#[test]
fn scalar_against_table_conflicts() {
    let base = "";
    let ours = "foo = 3\n";
    let theirs = "foo = { a = 1 }\n";
    let err = merge_manifest_texts(base, ours, theirs).expect_err("merge must conflict");
    assert_eq!(err.path, "foo");
    assert!(err.base.is_none());
}

#[test]
fn unparsable_sides_are_reported_in_order() {
    let good = "a = 1\n";
    let bad = "a = = 1\n";
    assert_eq!(merge_manifest_texts(bad, bad, bad).unwrap_err().path, "<parse:base>");
    assert_eq!(merge_manifest_texts(good, bad, bad).unwrap_err().path, "<parse:ours>");
    let err = merge_manifest_texts(good, good, bad).unwrap_err();
    assert_eq!(err.path, "<parse:theirs>");
    assert!(err.base.is_none() && err.ours.is_none() && err.theirs.is_none());
}

#[test]
fn merging_a_document_with_itself_gives_it_back() {
    let x = "[package]\nname = \"demo\"\nversion = \"0.1.0\"\n";
    let merged = merge_manifest_texts(x, x, x).expect("merge should succeed");
    assert_eq!(merged, x);
    assert_eq!(merge_manifest_texts(&merged, &merged, &merged).unwrap(), merged);
}

#[test]
fn unchanged_side_yields_the_other() {
    let base = "a = 1\nb = 2\n";
    let theirs = "a = 1\nb = 3\nc = 4\n";
    let merged = merge_manifest_texts(base, base, theirs).unwrap();
    assert_eq!(merged, "a = 1\nb = 3\nc = 4\n");
    let merged = merge_manifest_texts(base, theirs, base).unwrap();
    assert_eq!(merged, "a = 1\nb = 3\nc = 4\n");
}

#[test]
fn swapping_sides_keeps_result_and_conflict_path() {
    let base = "[d]\nx = 1\n";
    let ours = "[d]\nx = 1\ny = 2\n";
    let theirs = "[d]\nz = 3\n";
    let a = merge_manifest_texts(base, ours, theirs).unwrap();
    let b = merge_manifest_texts(base, theirs, ours).unwrap();
    assert_eq!(a, b);
    assert_eq!(a, "[d]\ny = 2\nz = 3\n");

    let ours = "[d]\nx = 2\n";
    let theirs = "[d]\nx = 3\n";
    let c = merge_manifest_texts(base, ours, theirs).unwrap_err();
    let d = merge_manifest_texts(base, theirs, ours).unwrap_err();
    assert_eq!(c.path, d.path);
    assert_eq!(c.ours, d.theirs);
    assert_eq!(c.theirs, d.ours);
}

#[test]
fn agreement_wins_whatever_the_base() {
    let base = "k = \"old\"\n";
    let side = "k = [1, 2]\n";
    assert_eq!(
        merge_manifest_texts(base, side, side).unwrap(),
        "k = [\n    1,\n    2,\n]\n"
    );
}

#[test]
fn repeated_merges_are_byte_identical() {
    let base = "[a]\nx = 1\n";
    let ours = "[a]\nx = 1\n[b]\ny = 2\n";
    let theirs = "[a]\nx = 5\n";
    let first = merge_manifest_texts(base, ours, theirs).unwrap();
    let second = merge_manifest_texts(base, ours, theirs).unwrap();
    assert_eq!(first, second);
}

#[test]
fn first_conflict_in_key_order_is_reported() {
    let base = "[b]\nv = 1\n[a]\nv = 1\n";
    let ours = "[b]\nv = 2\n[a]\nv = 2\n";
    let theirs = "[b]\nv = 3\n[a]\nv = 3\n";
    let err = merge_manifest_texts(base, ours, theirs).unwrap_err();
    assert_eq!(err.path, "a.v");
}

#[test]
fn differing_arrays_conflict_as_a_whole() {
    let base = "xs = [1]\n";
    let ours = "xs = [1, 2]\n";
    let theirs = "xs = [0, 1]\n";
    assert_eq!(merge_manifest_texts(base, ours, theirs).unwrap_err().path, "xs");
}

#[test]
fn keys_deleted_on_both_sides_stay_out() {
    let base = "a = 1\nb = 2\n";
    let ours = "b = 2\nc = 1\n";
    let theirs = "b = 2\n";
    assert_eq!(merge_manifest_texts(base, ours, theirs).unwrap(), "b = 2\nc = 1\n");
}

#[test]
fn merge_value_walks_tables_in_key_order() {
    let b = table(vec![("k", text("1"))]);
    let o = table(vec![("a", text("x")), ("k", text("1"))]);
    let t = table(vec![("k", text("1")), ("z", text("y"))]);
    let path = "root".to_string();
    let merged = merge_value(&path, Some(&b), Some(&o), Some(&t)).unwrap().unwrap();
    let expected = table(vec![("a", text("x")), ("k", text("1")), ("z", text("y"))]);
    assert_eq!(merged, expected);

    let o2 = table(vec![("k", Doc::Int(2))]);
    let t2 = table(vec![("k", Doc::Bool(true))]);
    let err = merge_value(&path, Some(&b), Some(&o2), Some(&t2)).unwrap_err();
    assert_eq!(err.path, "root.k");
}

#[test]
fn child_paths_join_with_a_dot() {
    assert_eq!(join_path(&String::new(), &"a".to_string()), "a");
    assert_eq!(join_path(&"a.b".to_string(), &"c".to_string()), "a.b.c");
}

#[test]
fn output_ends_in_one_newline() {
    let merged = merge_manifest_texts("a = 1", "a = 1", "a = 2").unwrap();
    assert_eq!(merged, "a = 2\n");
    assert!(!merged.ends_with("\n\n"));
}

#[test]
fn conflict_message_names_path_and_values() {
    let base = "[dependencies]\nserde = \"1\"\n";
    let ours = "[dependencies]\nserde = \"1.0.200\"\n";
    let theirs = "[dependencies]\n";
    let err = merge_manifest_texts(base, ours, theirs).unwrap_err();
    assert_eq!(
        err.message(),
        "semantic conflict at `dependencies.serde`\n  base  : \"1\"\n  ours  : \"1.0.200\"\n  theirs: <deleted>"
    );
}

#[test]
fn conflict_at_the_root_is_named_root() {
    let err = cargo_merge_assist::merge::MergeConflict {
        path: String::new(),
        base: None,
        ours: Some(Doc::Int(1)),
        theirs: Some(Doc::Bool(false)),
    };
    assert_eq!(
        err.message(),
        "semantic conflict at `<root>`\n  base  : <deleted>\n  ours  : 1\n  theirs: false"
    );
}

#[test]
fn merged_text_is_a_table_ending_in_one_newline() {
    let merged = merge_manifest_texts("a = 1\n\n\n", "a = 1\n", "a = 1\nb = 2\n\n").unwrap();
    assert_eq!(merged, "a = 1\nb = 2\n");
}
