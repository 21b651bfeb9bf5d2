//! The three-way merge, stated over document models.

use vstd::prelude::*;
use crate::doc::DocV;

verus! {

/// A table's entries, as the model holds them.
pub type EntriesV = Seq<(Seq<char>, DocV)>;

/// The model of a conflict report: where the merge stopped, and the three
/// values that disagree there (`None` for an absent side).
pub struct ConflictV {
    pub path: Seq<char>,
    pub base: Option<DocV>,
    pub ours: Option<DocV>,
    pub theirs: Option<DocV>,
}

/// Lexicographic order on keys, by code point.
pub open spec fn key_lt(a: Seq<char>, b: Seq<char>) -> bool
    decreases a.len(),
{
    if a.len() == 0 {
        b.len() > 0
    } else if b.len() == 0 {
        false
    } else if a[0] != b[0] {
        (a[0] as int) < (b[0] as int)
    } else {
        key_lt(a.subrange(1, a.len() as int), b.subrange(1, b.len() as int))
    }
}

/// Every table in the document lists its keys in strictly ascending order.
pub open spec fn well_formed(d: DocV) -> bool
    decreases d,
{
    match d {
        DocV::Table(es) => {
            &&& forall|i: int, j: int| 0 <= i < j < es.len() ==> key_lt(#[trigger] es[i].0, #[trigger] es[j].0)
            &&& forall|i: int| 0 <= i < es.len() ==> well_formed(#[trigger] es[i].1)
        },
        DocV::Array(xs) => forall|i: int| 0 <= i < xs.len() ==> well_formed(#[trigger] xs[i]),
        _ => true,
    }
}

/// An absent value, or a well-formed document.
pub open spec fn opt_well_formed(d: Option<DocV>) -> bool {
    d matches Some(x) ==> well_formed(x)
}

/// The number of nodes of a document, keys counted as nodes.
pub open spec fn size(d: DocV) -> nat
    decreases d,
{
    match d {
        DocV::Table(es) => 1 + size_entries(es),
        _ => 1,
    }
}

/// The number of nodes under a list of table entries.
pub open spec fn size_entries(es: EntriesV) -> nat
    decreases es,
{
    if es.len() == 0 {
        0
    } else {
        1 + size(es[0].1) + size_entries(es.subrange(1, es.len() as int))
    }
}

/// The size of an optional document; nothing for an absent one.
pub open spec fn size_opt(d: Option<DocV>) -> nat {
    match d {
        Some(v) => size(v),
        None => 0,
    }
}

/// The entries of a value that is a table; none for anything else.
pub open spec fn entries_of(d: Option<DocV>) -> EntriesV {
    match d {
        Some(DocV::Table(es)) => es,
        _ => Seq::empty(),
    }
}

/// The path of a child: the parent's path and the key, joined by a dot.
pub open spec fn child_path(path: Seq<char>, key: Seq<char>) -> Seq<char> {
    if path.len() == 0 {
        key
    } else {
        path + seq!['.'] + key
    }
}

/// The first key of the entries, if any.
pub open spec fn head_key(es: EntriesV) -> Option<Seq<char>> {
    if es.len() > 0 {
        Some(es[0].0)
    } else {
        None
    }
}

/// The smaller of two optional keys; an absent key loses.
pub open spec fn min_key(a: Option<Seq<char>>, b: Option<Seq<char>>) -> Option<Seq<char>> {
    match (a, b) {
        (None, _) => b,
        (_, None) => a,
        (Some(x), Some(y)) => if key_lt(y, x) {
            b
        } else {
            a
        },
    }
}

/// The value under `k` if it heads the entries.
pub open spec fn head_value(es: EntriesV, k: Seq<char>) -> Option<DocV> {
    if es.len() > 0 && es[0].0 == k {
        Some(es[0].1)
    } else {
        None
    }
}

/// The entries after the head if `k` heads them, else all of them.
pub open spec fn after_key(es: EntriesV, k: Seq<char>) -> EntriesV {
    if es.len() > 0 && es[0].0 == k {
        es.subrange(1, es.len() as int)
    } else {
        es
    }
}

/// The three-way merge of the values found at `path` on each side.
///
/// Both sides agree: that value. One side equals the base: the other side.
/// Both sides are tables: their keys merged one by one, in ascending order,
/// the first conflict winning. Anything else is a conflict at `path`.
pub open spec fn merge_node(
    path: Seq<char>,
    b: Option<DocV>,
    o: Option<DocV>,
    t: Option<DocV>,
) -> Result<Option<DocV>, ConflictV>
    decreases size_opt(b) + size_opt(o) + size_opt(t), 1nat,
{
    if o == t {
        Ok(o)
    } else if o == b {
        Ok(t)
    } else if t == b {
        Ok(o)
    } else {
        match (o, t) {
            (Some(DocV::Table(oe)), Some(DocV::Table(te))) => {
                match merge_entries(path, entries_of(b), oe, te) {
                    Ok(es) => Ok(Some(DocV::Table(es))),
                    Err(c) => Err(c),
                }
            },
            _ => Err(ConflictV { path, base: b, ours: o, theirs: t }),
        }
    }
}

/// The merge of three lists of table entries, walking their keys from the
/// smallest up.
pub open spec fn merge_entries(
    path: Seq<char>,
    be: EntriesV,
    oe: EntriesV,
    te: EntriesV,
) -> Result<EntriesV, ConflictV>
    decreases size_entries(be) + size_entries(oe) + size_entries(te), 0nat,
{
    match min_key(min_key(head_key(be), head_key(oe)), head_key(te)) {
        None => Ok(Seq::empty()),
        Some(k) => {
            match merge_node(
                child_path(path, k),
                head_value(be, k),
                head_value(oe, k),
                head_value(te, k),
            ) {
                Err(c) => Err(c),
                Ok(v) => match merge_entries(
                    path,
                    after_key(be, k),
                    after_key(oe, k),
                    after_key(te, k),
                ) {
                    Err(c) => Err(c),
                    Ok(rest) => match v {
                        Some(x) => Ok(seq![(k, x)] + rest),
                        None => Ok(rest),
                    },
                },
            }
        },
    }
}

} // verus!
