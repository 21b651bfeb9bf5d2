//! Merging manifest texts: parsing, merging and writing back.

use vstd::prelude::*;
use vstd::string::*;
use crate::doc::{Doc, DocV, Entry, owned_view};
use crate::merge::{MergeConflict, merge_value};
use crate::model::{ConflictV, merge_node, well_formed};
use toml::Value;

verus! {

#[verifier::external_type_specification]
#[verifier::external_body]
pub struct ExTomlValue(toml::Value);

/// The document that a manifest text holds, if it holds one.
pub uninterp spec fn parsed_text(text: Seq<char>) -> Option<DocV>;

/// The canonical pretty text of a document, if it can be written.
pub uninterp spec fn pretty_text(d: DocV) -> Option<Seq<char>>;

/// Relies on the variants of toml::Value: each becomes the matching variant
/// of `Doc`, a table's entries in the order its map yields them.
#[verifier::external_body]
fn doc_from_toml(v: Value) -> Doc {
    match v {
        Value::String(s) => Doc::Str(s),
        Value::Integer(n) => Doc::Int(n),
        Value::Float(f) => Doc::Float(f.to_string()),
        Value::Boolean(b) => Doc::Bool(b),
        Value::Datetime(d) => Doc::Datetime(d.to_string()),
        Value::Array(xs) => Doc::Array(xs.into_iter().map(doc_from_toml).collect()),
        Value::Table(m) => Doc::Table(
            m.into_iter().map(|(key, x)| Entry { key, value: doc_from_toml(x) }).collect(),
        ),
    }
}

/// Relies on the variants of toml::Value: each variant of `Doc` becomes the
/// matching one; `None` where a float's or a datetime's text does not parse.
#[verifier::external_body]
fn doc_to_toml(d: &Doc) -> Option<Value> {
    Some(
        match d {
            Doc::Str(s) => Value::String(s.clone()),
            Doc::Int(n) => Value::Integer(*n),
            Doc::Float(s) => Value::Float(s.parse().ok()?),
            Doc::Bool(b) => Value::Boolean(*b),
            Doc::Datetime(s) => Value::Datetime(s.parse().ok()?),
            Doc::Array(xs) => Value::Array(xs.iter().map(doc_to_toml).collect::<Option<_>>()?),
            Doc::Table(es) => Value::Table(
                es.iter().map(|e| Some((e.key.clone(), doc_to_toml(&e.value)?))).collect::<Option<_>>()?,
            ),
        },
    )
}

/// Relies on toml::from_str: the result depends on the text alone. Relies
/// on toml::map::Map being a `BTreeMap` (the `preserve_order` feature is off):
/// a table yields its distinct keys in ascending order.
#[verifier::external_body]
fn parse_document(text: &str) -> (r: Option<Doc>)
    ensures
        owned_view(r) == parsed_text(text@),
        r matches Some(d) ==> well_formed(d@),
{
    toml::from_str::<Value>(text).ok().map(doc_from_toml)
}

/// Relies on toml::to_string_pretty: the result depends on the document alone,
/// and it fails on a root that is not a table (it turns the root into a table
/// or reports an unsupported type).
#[verifier::external_body]
fn render_document(d: &Doc) -> (r: Option<String>)
    ensures
        r is Some ==> d@ is Table,
        match r {
            Some(s) => pretty_text(d@) == Some(s@),
            None => pretty_text(d@) is None,
        },
{
    doc_to_toml(d).and_then(|v| toml::to_string_pretty(&v).ok())
}

/// The text that toml gives a value when it displays it.
pub uninterp spec fn value_text(d: DocV) -> Option<Seq<char>>;

/// Relies on the Display of toml::Value: the result depends on the value alone.
#[verifier::external_body]
fn display_value(d: &Doc) -> (r: Option<String>)
    ensures
        match r {
            Some(s) => value_text(d@) == Some(s@),
            None => value_text(d@) is None,
        },
{
    doc_to_toml(d).map(|v| v.to_string())
}

/// How a conflict report shows one side: its text, or a marker for an absent
/// side (and for a value that cannot be displayed).
pub open spec fn shown(v: Option<DocV>) -> Seq<char> {
    match v {
        None => "<deleted>"@,
        Some(d) => match value_text(d) {
            Some(s) => s,
            None => "<invalid>"@,
        },
    }
}

/// The message of a conflict report.
pub open spec fn conflict_message(c: ConflictV) -> Seq<char> {
    "semantic conflict at `"@ + (if c.path.len() == 0 {
        "<root>"@
    } else {
        c.path
    }) + "`\n  base  : "@ + shown(c.base) + "\n  ours  : "@ + shown(c.ours) + "\n  theirs: "@
        + shown(c.theirs)
}

fn show_side(v: &Option<Doc>) -> (r: String)
    ensures
        r@ == shown(owned_view(*v)),
{
    match v {
        None => String::from_str("<deleted>"),
        Some(d) => match display_value(d) {
            Some(s) => s,
            None => String::from_str("<invalid>"),
        },
    }
}

impl MergeConflict {
    /// The report as a message: the path (`<root>` for the root) and each
    /// side's value.
    pub fn message(&self) -> (r: String)
        ensures
            r@ == conflict_message(self@),
    {
        let mut m = String::from_str("semantic conflict at `");
        if self.path.as_str().unicode_len() == 0 {
            m.append("<root>");
        } else {
            m.append(self.path.as_str());
        }
        m.append("`\n  base  : ");
        let b = show_side(&self.base);
        m.append(b.as_str());
        m.append("\n  ours  : ");
        let o = show_side(&self.ours);
        m.append(o.as_str());
        m.append("\n  theirs: ");
        let t = show_side(&self.theirs);
        m.append(t.as_str());
        m
    }
}

/// A conflict report that carries only a path.
pub open spec fn sentinel(path: Seq<char>) -> ConflictV {
    ConflictV { path, base: None, ours: None, theirs: None }
}

/// The text without the newlines that end it.
pub open spec fn without_trailing_newlines(s: Seq<char>) -> Seq<char>
    decreases s.len(),
{
    if s.len() > 0 && s.last() == '\n' {
        without_trailing_newlines(s.drop_last())
    } else {
        s
    }
}

/// The text ending in exactly one newline.
pub open spec fn newline_terminated(s: Seq<char>) -> Seq<char> {
    without_trailing_newlines(s).push('\n')
}

/// Relies on str::trim_end_matches with '\n': the text without the newlines
/// that end it.
#[verifier::external_body]
fn strip_trailing_newlines(s: &str) -> (r: &str)
    ensures
        r@ == without_trailing_newlines(s@),
{
    s.trim_end_matches('\n')
}

/// The document that merging three manifest texts gives at the root, where
/// all three parse and the merge succeeds.
pub open spec fn merged_root(b: Seq<char>, o: Seq<char>, t: Seq<char>) -> Option<DocV> {
    match (parsed_text(b), parsed_text(o), parsed_text(t)) {
        (Some(bd), Some(od), Some(td)) => match merge_node(Seq::empty(), Some(bd), Some(od), Some(td)) {
            Ok(Some(m)) => Some(m),
            _ => None,
        },
        _ => None,
    }
}

/// What merging three manifest texts gives: the first text that does not
/// parse, else the merge of the three documents at the root, written back.
pub open spec fn merge_texts(b: Seq<char>, o: Seq<char>, t: Seq<char>) -> Result<Seq<char>, ConflictV> {
    match (parsed_text(b), parsed_text(o), parsed_text(t)) {
        (None, _, _) => Err(sentinel("<parse:base>"@)),
        (Some(_), None, _) => Err(sentinel("<parse:ours>"@)),
        (Some(_), Some(_), None) => Err(sentinel("<parse:theirs>"@)),
        (Some(bd), Some(od), Some(td)) => match merge_node(Seq::empty(), Some(bd), Some(od), Some(td)) {
            Err(c) => Err(c),
            Ok(Some(m)) => match pretty_text(m) {
                Some(s) => Ok(newline_terminated(s)),
                None => Err(sentinel("<serialize>"@)),
            },
            Ok(None) => Err(sentinel("<serialize>"@)),
        },
    }
}

/// The model of what merging texts returns.
pub open spec fn text_result(r: Result<String, MergeConflict>) -> Result<Seq<char>, ConflictV> {
    match r {
        Ok(s) => Ok(s@),
        Err(c) => Err(c@),
    }
}

/// A merge of three present documents that succeeds yields a document.
pub proof fn lemma_root_present(path: Seq<char>, b: DocV, o: DocV, t: DocV)
    ensures
        merge_node(path, Some(b), Some(o), Some(t)) matches Ok(r) ==> r is Some,
{
}

fn sentinel_conflict(path: &str) -> (r: MergeConflict)
    ensures
        r@ == sentinel(path@),
{
    MergeConflict { path: String::from_str(path), base: None, ours: None, theirs: None }
}

/// Merges three manifest texts: the common ancestor, ours and theirs.
pub fn merge_manifest_texts(base_text: &str, ours_text: &str, theirs_text: &str) -> (r: Result<
    String,
    MergeConflict,
>)
    ensures
        text_result(r) == merge_texts(base_text@, ours_text@, theirs_text@),
        r is Ok ==> (merged_root(base_text@, ours_text@, theirs_text@) matches Some(m) && m is Table
            && well_formed(m)),
{
    let base = match parse_document(base_text) {
        Some(d) => d,
        None => return Err(sentinel_conflict("<parse:base>")),
    };
    let ours = match parse_document(ours_text) {
        Some(d) => d,
        None => return Err(sentinel_conflict("<parse:ours>")),
    };
    let theirs = match parse_document(theirs_text) {
        Some(d) => d,
        None => return Err(sentinel_conflict("<parse:theirs>")),
    };
    let root = String::new();
    assert(root@ =~= Seq::<char>::empty());
    let merged = match merge_value(&root, Some(&base), Some(&ours), Some(&theirs)) {
        Err(c) => return Err(c),
        Ok(Some(m)) => m,
        Ok(None) => return Err(sentinel_conflict("<serialize>")),
    };
    let output = match render_document(&merged) {
        Some(s) => s,
        None => return Err(sentinel_conflict("<serialize>")),
    };
    let mut out = String::from_str(strip_trailing_newlines(output.as_str()));
    let ghost stripped = out@;
    proof {
        reveal_strlit("\n");
    }
    out.append("\n");
    assert(out@ =~= stripped.push('\n'));
    Ok(out)
}

} // verus!
