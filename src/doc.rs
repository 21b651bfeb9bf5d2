//! The document tree that the merge works on, and its mathematical model.

use vstd::prelude::*;

verus! {

/// A parsed document: a table, an array or a scalar.
///
/// The entries of a table are kept in strictly ascending key order.
/// A float and a datetime are held as their text.
#[derive(Debug, PartialEq, Eq)]
pub enum Doc {
    Table(Vec<Entry>),
    Array(Vec<Doc>),
    Str(String),
    Int(i64),
    Float(String),
    Bool(bool),
    Datetime(String),
}

/// One key of a table with its value.
#[derive(Debug, PartialEq, Eq)]
pub struct Entry {
    pub key: String,
    pub value: Doc,
}

/// The model of a document.
pub enum DocV {
    Table(Seq<(Seq<char>, DocV)>),
    Array(Seq<DocV>),
    Str(Seq<char>),
    Int(i64),
    Float(Seq<char>),
    Bool(bool),
    Datetime(Seq<char>),
}

impl View for Doc {
    type V = DocV;

    open spec fn view(&self) -> DocV
        decreases self,
    {
        match self {
            Doc::Table(es) => DocV::Table(entries_view(es@)),
            Doc::Array(xs) => DocV::Array(array_view(xs@)),
            Doc::Str(s) => DocV::Str(s@),
            Doc::Int(n) => DocV::Int(*n),
            Doc::Float(s) => DocV::Float(s@),
            Doc::Bool(b) => DocV::Bool(*b),
            Doc::Datetime(s) => DocV::Datetime(s@),
        }
    }
}

/// The model of a table's entries.
pub open spec fn entries_view(es: Seq<Entry>) -> Seq<(Seq<char>, DocV)>
    decreases es,
{
    Seq::new(
        es.len(),
        |i: int|
            if 0 <= i < es.len() {
                (es[i].key@, es[i].value.view())
            } else {
                (Seq::empty(), DocV::Bool(false))
            },
    )
}

/// The model of an array's items.
pub open spec fn array_view(xs: Seq<Doc>) -> Seq<DocV>
    decreases xs,
{
    Seq::new(xs.len(), |i: int| if 0 <= i < xs.len() { xs[i].view() } else { DocV::Bool(false) })
}

/// The model of an optional document.
pub open spec fn owned_view(d: Option<Doc>) -> Option<DocV> {
    match d {
        Some(x) => Some(x@),
        None => None,
    }
}

/// The model of an optional borrowed document.
pub open spec fn opt_view(d: Option<&Doc>) -> Option<DocV> {
    match d {
        Some(x) => Some(x@),
        None => None,
    }
}

/// A deep copy of a document.
pub fn copy_doc(d: &Doc) -> (r: Doc)
    ensures
        r@ == d@,
    decreases d,
{
    match d {
        Doc::Table(es) => {
            let mut out: Vec<Entry> = Vec::new();
            let mut i: usize = 0;
            while i < es.len()
                invariant
                    i <= es.len(),
                    *d == Doc::Table(*es),
                    out.len() == i,
                    forall|j: int|
                        0 <= j < i ==> (#[trigger] out@[j]).key@ == es@[j].key@ && out@[j].value@
                            == es@[j].value@,
                decreases es.len() - i,
            {
                proof {
                    assert(decreases_to!(*d => (*d)->Table_0));
                    assert(decreases_to!(es => es[i as int]));
                }
                let v = copy_doc(&es[i].value);
                out.push(Entry { key: es[i].key.clone(), value: v });
                i += 1;
            }
            assert(entries_view(out@) =~= entries_view(es@));
            Doc::Table(out)
        },
        Doc::Array(xs) => {
            let mut out: Vec<Doc> = Vec::new();
            let mut i: usize = 0;
            while i < xs.len()
                invariant
                    i <= xs.len(),
                    *d == Doc::Array(*xs),
                    out.len() == i,
                    forall|j: int| 0 <= j < i ==> (#[trigger] out@[j])@ == xs@[j]@,
                decreases xs.len() - i,
            {
                proof {
                    assert(decreases_to!(*d => (*d)->Array_0));
                    assert(decreases_to!(xs => xs[i as int]));
                }
                let v = copy_doc(&xs[i]);
                out.push(v);
                i += 1;
            }
            assert(array_view(out@) =~= array_view(xs@));
            Doc::Array(out)
        },
        Doc::Str(s) => Doc::Str(s.clone()),
        Doc::Int(n) => Doc::Int(*n),
        Doc::Float(s) => Doc::Float(s.clone()),
        Doc::Bool(b) => Doc::Bool(*b),
        Doc::Datetime(s) => Doc::Datetime(s.clone()),
    }
}

/// Structural equality of two documents.
pub fn doc_eq(a: &Doc, b: &Doc) -> (r: bool)
    ensures
        r == (a@ == b@),
    decreases a,
{
    match (a, b) {
        (Doc::Table(x), Doc::Table(y)) => {
            if x.len() != y.len() {
                assert(entries_view(x@).len() != entries_view(y@).len());
                return false;
            }
            let mut i: usize = 0;
            while i < x.len()
                invariant
                    i <= x.len(),
                    x.len() == y.len(),
                    *a == Doc::Table(*x),
                    *b == Doc::Table(*y),
                    forall|j: int|
                        0 <= j < i ==> (#[trigger] x@[j]).key@ == y@[j].key@ && x@[j].value@
                            == y@[j].value@,
                decreases x.len() - i,
            {
                proof {
                    assert(decreases_to!(*a => (*a)->Table_0));
                    assert(decreases_to!(x => x[i as int]));
                }
                if x[i].key != y[i].key || !doc_eq(&x[i].value, &y[i].value) {
                    assert(entries_view(x@)[i as int] != entries_view(y@)[i as int]);
                    return false;
                }
                i += 1;
            }
            assert(entries_view(x@) =~= entries_view(y@));
            true
        },
        (Doc::Array(x), Doc::Array(y)) => {
            if x.len() != y.len() {
                assert(array_view(x@).len() != array_view(y@).len());
                return false;
            }
            let mut i: usize = 0;
            while i < x.len()
                invariant
                    i <= x.len(),
                    x.len() == y.len(),
                    *a == Doc::Array(*x),
                    *b == Doc::Array(*y),
                    forall|j: int| 0 <= j < i ==> (#[trigger] x@[j])@ == y@[j]@,
                decreases x.len() - i,
            {
                proof {
                    assert(decreases_to!(*a => (*a)->Array_0));
                    assert(decreases_to!(x => x[i as int]));
                }
                if !doc_eq(&x[i], &y[i]) {
                    assert(array_view(x@)[i as int] != array_view(y@)[i as int]);
                    return false;
                }
                i += 1;
            }
            assert(array_view(x@) =~= array_view(y@));
            true
        },
        (Doc::Str(x), Doc::Str(y)) => *x == *y,
        (Doc::Int(x), Doc::Int(y)) => *x == *y,
        (Doc::Float(x), Doc::Float(y)) => *x == *y,
        (Doc::Bool(x), Doc::Bool(y)) => *x == *y,
        (Doc::Datetime(x), Doc::Datetime(y)) => *x == *y,
        _ => false,
    }
}

/// Structural equality of two optional documents, absent equal to absent.
pub fn opt_doc_eq(a: Option<&Doc>, b: Option<&Doc>) -> (r: bool)
    ensures
        r == (opt_view(a) == opt_view(b)),
{
    match (a, b) {
        (Some(x), Some(y)) => doc_eq(x, y),
        (None, None) => true,
        _ => false,
    }
}

/// A deep copy of an optional document.
pub fn copy_opt(d: Option<&Doc>) -> (r: Option<Doc>)
    ensures
        owned_view(r) == opt_view(d),
{
    match d {
        Some(x) => Some(copy_doc(x)),
        None => None,
    }
}

} // verus!
