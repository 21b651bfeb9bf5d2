//! The three-way merge on documents.

use vstd::prelude::*;
use vstd::string::*;
use crate::laws::{lemma_entries_well_formed, lemma_merge_well_formed, lemma_table_well_formed};
use crate::doc::{Doc, DocV, Entry, copy_opt, entries_view, opt_doc_eq, opt_view, owned_view};
use crate::model::{
    ConflictV, EntriesV, after_key, entries_of, head_key, head_value, child_path, key_lt, merge_entries,
    merge_node, min_key, opt_well_formed, size_entries, size_opt, well_formed,
};

verus! {

/// A report that the two sides disagree at `path` in a way that no rule
/// reconciles. Absent sides are `None`.
#[derive(Debug, PartialEq, Eq)]
pub struct MergeConflict {
    pub path: String,
    pub base: Option<Doc>,
    pub ours: Option<Doc>,
    pub theirs: Option<Doc>,
}

impl View for MergeConflict {
    type V = ConflictV;

    open spec fn view(&self) -> ConflictV {
        ConflictV {
            path: self.path@,
            base: owned_view(self.base),
            ours: owned_view(self.ours),
            theirs: owned_view(self.theirs),
        }
    }
}

/// The model of what a merge at one position returns.
pub open spec fn node_result(r: Result<Option<Doc>, MergeConflict>) -> Result<
    Option<DocV>,
    ConflictV,
> {
    match r {
        Ok(v) => Ok(owned_view(v)),
        Err(c) => Err(c@),
    }
}

/// The model of what a merge of table entries returns.
pub open spec fn entries_result(r: Result<Vec<Entry>, MergeConflict>) -> Result<
    EntriesV,
    ConflictV,
> {
    match r {
        Ok(es) => Ok(entries_view(es@)),
        Err(c) => Err(c@),
    }
}

/// Entries already produced, followed by what the rest of the walk gives.
pub open spec fn prepend(p: EntriesV, r: Result<EntriesV, ConflictV>) -> Result<EntriesV, ConflictV> {
    match r {
        Ok(rest) => Ok(p + rest),
        Err(c) => Err(c),
    }
}

/// The entries of a table from index `i` on.
pub open spec fn suffix(es: &Vec<Entry>, i: int) -> EntriesV {
    entries_view(es@).subrange(i, es.len() as int)
}

/// The model of an optional borrowed key.
pub open spec fn key_view(k: Option<&String>) -> Option<Seq<char>> {
    match k {
        Some(s) => Some(s@),
        None => None,
    }
}

proof fn lemma_size_suffix(s: EntriesV, i: int)
    requires
        0 <= i <= s.len(),
    ensures
        size_entries(s.subrange(i, s.len() as int)) <= size_entries(s),
    decreases i,
{
    if i == 0 {
        assert(s.subrange(0, s.len() as int) =~= s);
    } else {
        lemma_size_suffix(s, i - 1);
        let a = s.subrange(i - 1, s.len() as int);
        assert(a.subrange(1, a.len() as int) =~= s.subrange(i, s.len() as int));
    }
}

/// Whether key `a` comes before key `b`.
fn key_less(a: &String, b: &String) -> (r: bool)
    ensures
        r == key_lt(a@, b@),
{
    let la = a.as_str().unicode_len();
    let lb = b.as_str().unicode_len();
    assert(a@.subrange(0, la as int) =~= a@);
    assert(b@.subrange(0, lb as int) =~= b@);
    let mut i: usize = 0;
    while i < la && i < lb
        invariant
            i <= la,
            i <= lb,
            la == a@.len(),
            lb == b@.len(),
            key_lt(a@, b@) == key_lt(
                a@.subrange(i as int, la as int),
                b@.subrange(i as int, lb as int),
            ),
        decreases la - i,
    {
        let ca = a.as_str().get_char(i);
        let cb = b.as_str().get_char(i);
        proof {
            let sa = a@.subrange(i as int, la as int);
            let sb = b@.subrange(i as int, lb as int);
            assert(sa.subrange(1, sa.len() as int) =~= a@.subrange(i + 1, la as int));
            assert(sb.subrange(1, sb.len() as int) =~= b@.subrange(i + 1, lb as int));
        }
        if ca != cb {
            return (ca as u32) < (cb as u32);
        }
        i += 1;
    }
    i >= la && i < lb
}

/// The smaller of two optional keys.
fn min_head<'a>(x: Option<&'a String>, y: Option<&'a String>) -> (r: Option<&'a String>)
    ensures
        key_view(r) == min_key(key_view(x), key_view(y)),
{
    match (x, y) {
        (None, _) => y,
        (_, None) => x,
        (Some(p), Some(q)) => if key_less(q, p) {
            y
        } else {
            x
        },
    }
}

/// The key heading the entries from index `i` on.
fn head_at(es: &Vec<Entry>, i: usize) -> (r: Option<&String>)
    requires
        i <= es.len(),
    ensures
        key_view(r) == head_key(suffix(es, i as int)),
{
    if i < es.len() {
        Some(&es[i].key)
    } else {
        None
    }
}

/// The value under `k` if `k` heads the entries from index `i` on.
fn value_at<'a>(es: &'a Vec<Entry>, i: usize, k: &String) -> (r: Option<&'a Doc>)
    requires
        i <= es.len(),
    ensures
        opt_view(r) == head_value(suffix(es, i as int), k@),
        r.is_some() == (i < es.len() && es@[i as int].key@ == k@),
{
    if i < es.len() && es[i].key == *k {
        Some(&es[i].value)
    } else {
        None
    }
}

/// The path of a child position.
pub fn join_path(path: &String, key: &String) -> (r: String)
    ensures
        r@ == child_path(path@, key@),
{
    if path.as_str().unicode_len() == 0 {
        key.clone()
    } else {
        let mut r = path.clone();
        proof {
            reveal_strlit(".");
        }
        r.append(".");
        r.append(key.as_str());
        assert(r@ =~= path@ + seq!['.'] + key@);
        r
    }
}

/// The three-way merge of the values at `path`: `b` in the common ancestor,
/// `o` on our side, `t` on theirs (`None` where a side has nothing). Every
/// table of the three lists its keys in strictly ascending order, and so
/// does every table of the result.
pub fn merge_value(path: &String, b: Option<&Doc>, o: Option<&Doc>, t: Option<&Doc>) -> (r: Result<
    Option<Doc>,
    MergeConflict,
>)
    requires
        opt_well_formed(opt_view(b)),
        opt_well_formed(opt_view(o)),
        opt_well_formed(opt_view(t)),
    ensures
        node_result(r) == merge_node(path@, opt_view(b), opt_view(o), opt_view(t)),
        r matches Ok(v) ==> opt_well_formed(owned_view(v)),
    decreases size_opt(opt_view(b)) + size_opt(opt_view(o)) + size_opt(opt_view(t)), 1nat,
{
    proof {
        lemma_merge_well_formed(path@, opt_view(b), opt_view(o), opt_view(t));
    }
    if opt_doc_eq(o, t) {
        return Ok(copy_opt(o));
    }
    if opt_doc_eq(o, b) {
        return Ok(copy_opt(t));
    }
    if opt_doc_eq(t, b) {
        return Ok(copy_opt(o));
    }
    match (o, t) {
        (Some(Doc::Table(oe)), Some(Doc::Table(te))) => {
            let empty: Vec<Entry> = Vec::new();
            let be: &Vec<Entry> = match b {
                Some(Doc::Table(x)) => x,
                _ => &empty,
            };
            assert(entries_view(be@) =~= entries_of(opt_view(b)));
            assert(well_formed(DocV::Table(entries_view(be@)))) by {
                lemma_table_well_formed(entries_view(be@));
            }
            match merge_tables(path, be, oe, te) {
                Ok(es) => Ok(Some(Doc::Table(es))),
                Err(c) => Err(c),
            }
        },
        _ => Err(
            MergeConflict {
                path: path.clone(),
                base: copy_opt(b),
                ours: copy_opt(o),
                theirs: copy_opt(t),
            },
        ),
    }
}

/// The merge of three tables' entries, key by key in ascending order.
fn merge_tables(path: &String, be: &Vec<Entry>, oe: &Vec<Entry>, te: &Vec<Entry>) -> (r: Result<
    Vec<Entry>,
    MergeConflict,
>)
    requires
        well_formed(DocV::Table(entries_view(be@))),
        well_formed(DocV::Table(entries_view(oe@))),
        well_formed(DocV::Table(entries_view(te@))),
    ensures
        entries_result(r) == merge_entries(
            path@,
            entries_view(be@),
            entries_view(oe@),
            entries_view(te@),
        ),
    decreases size_entries(entries_view(be@)) + size_entries(entries_view(oe@)) + size_entries(
        entries_view(te@),
    ),
        0nat,
{
    let mut out: Vec<Entry> = Vec::new();
    let mut ib: usize = 0;
    let mut io: usize = 0;
    let mut it: usize = 0;
    assert(suffix(be, 0) =~= entries_view(be@));
    assert(suffix(oe, 0) =~= entries_view(oe@));
    assert(suffix(te, 0) =~= entries_view(te@));
    assert(entries_view(out@) + Seq::<(Seq<char>, DocV)>::empty() =~= entries_view(out@));
    loop
        invariant
            ib <= be.len(),
            io <= oe.len(),
            it <= te.len(),
            well_formed(DocV::Table(entries_view(be@))),
            well_formed(DocV::Table(entries_view(oe@))),
            well_formed(DocV::Table(entries_view(te@))),
            merge_entries(path@, entries_view(be@), entries_view(oe@), entries_view(te@))
                == prepend(
                entries_view(out@),
                merge_entries(path@, suffix(be, ib as int), suffix(oe, io as int), suffix(te, it as int)),
            ),
        decreases (be.len() - ib) + (oe.len() - io) + (te.len() - it),
    {
        let sb = Ghost(suffix(be, ib as int));
        let so = Ghost(suffix(oe, io as int));
        let st = Ghost(suffix(te, it as int));
        let k = match min_head(min_head(head_at(be, ib), head_at(oe, io)), head_at(te, it)) {
            None => {
                assert(entries_view(out@) + Seq::<(Seq<char>, DocV)>::empty() =~= entries_view(out@));
                return Ok(out);
            },
            Some(k) => k.clone(),
        };
        let bc = value_at(be, ib, &k);
        let oc = value_at(oe, io, &k);
        let tc = value_at(te, it, &k);
        let sub_path = join_path(path, &k);
        proof {
            lemma_size_suffix(entries_view(be@), ib as int);
            lemma_size_suffix(entries_view(oe@), io as int);
            lemma_size_suffix(entries_view(te@), it as int);
            lemma_table_well_formed(entries_view(be@));
            lemma_table_well_formed(entries_view(oe@));
            lemma_table_well_formed(entries_view(te@));
            if bc is Some {
                assert(entries_view(be@)[ib as int].1 == suffix(be, ib as int)[0].1);
                assert(well_formed(entries_view(be@)[ib as int].1));
            }
            if oc is Some {
                assert(entries_view(oe@)[io as int].1 == suffix(oe, io as int)[0].1);
                assert(well_formed(entries_view(oe@)[io as int].1));
            }
            if tc is Some {
                assert(entries_view(te@)[it as int].1 == suffix(te, it as int)[0].1);
                assert(well_formed(entries_view(te@)[it as int].1));
            }
        }
        let v = merge_value(&sub_path, bc, oc, tc);
        let ghost rest_before = merge_entries(path@, sb@, so@, st@);
        let ghost out_before = entries_view(out@);
        match v {
            Err(c) => {
                return Err(c);
            },
            Ok(x) => {
                if bc.is_some() {
                    ib += 1;
                }
                if oc.is_some() {
                    io += 1;
                }
                if tc.is_some() {
                    it += 1;
                }
                proof {
                    assert(after_key(sb@, k@) =~= suffix(be, ib as int));
                    assert(after_key(so@, k@) =~= suffix(oe, io as int));
                    assert(after_key(st@, k@) =~= suffix(te, it as int));
                }
                match x {
                    Some(d) => {
                        out.push(Entry { key: k, value: d });
                        proof {
                            let tail = merge_entries(
                                path@,
                                suffix(be, ib as int),
                                suffix(oe, io as int),
                                suffix(te, it as int),
                            );
                            assert(entries_view(out@) =~= out_before + seq![(k@, d@)]);
                            if let Ok(rest) = tail {
                                assert(out_before + (seq![(k@, d@)] + rest) =~= entries_view(
                                    out@,
                                ) + rest);
                            }
                        }
                    },
                    None => {},
                }
            },
        }
    }
}

} // verus!
