//! Laws of the three-way merge.

use vstd::prelude::*;
use crate::doc::DocV;
use crate::text::{merge_texts, newline_terminated, parsed_text, pretty_text, sentinel};
use crate::model::{
    ConflictV, EntriesV, after_key, child_path, entries_of, head_key, head_value, key_lt,
    merge_entries, merge_node, min_key, opt_well_formed, well_formed,
};

verus! {

/// Merging a document with itself on every side gives that document.
pub proof fn lemma_merge_idempotent(path: Seq<char>, x: DocV)
    ensures
        merge_node(path, Some(x), Some(x), Some(x)) == Ok::<Option<DocV>, ConflictV>(Some(x)),
{
}

/// Where one side did not change the base, the merge is the other side.
pub proof fn lemma_merge_unchanged_side(
    path: Seq<char>,
    b: Option<DocV>,
    o: Option<DocV>,
    t: Option<DocV>,
)
    ensures
        o == b ==> merge_node(path, b, o, t) == Ok::<Option<DocV>, ConflictV>(t),
        t == b ==> merge_node(path, b, o, t) == Ok::<Option<DocV>, ConflictV>(o),
{
}

/// Where both sides agree, the merge is their common value, whatever the base.
pub proof fn lemma_merge_agreement(path: Seq<char>, b: Option<DocV>, x: Option<DocV>)
    ensures
        merge_node(path, b, x, x) == Ok::<Option<DocV>, ConflictV>(x),
{
}

/// A conflict report with our side and theirs exchanged.
pub open spec fn swap_sides(c: ConflictV) -> ConflictV {
    ConflictV { path: c.path, base: c.base, ours: c.theirs, theirs: c.ours }
}

/// A merge result as seen with the two sides exchanged.
pub open spec fn swapped<T>(r: Result<T, ConflictV>) -> Result<T, ConflictV> {
    match r {
        Ok(v) => Ok(v),
        Err(c) => Err(swap_sides(c)),
    }
}

/// No key comes before itself.
pub proof fn lemma_key_lt_irreflexive(a: Seq<char>)
    ensures
        !key_lt(a, a),
    decreases a.len(),
{
    if a.len() > 0 {
        lemma_key_lt_irreflexive(a.subrange(1, a.len() as int));
    }
}

/// Of two different keys exactly one comes first.
pub proof fn lemma_key_lt_total(a: Seq<char>, b: Seq<char>)
    ensures
        a != b ==> key_lt(a, b) || key_lt(b, a),
        key_lt(a, b) ==> !key_lt(b, a),
    decreases a.len(),
{
    if a.len() > 0 && b.len() > 0 && a[0] == b[0] {
        let sa = a.subrange(1, a.len() as int);
        let sb = b.subrange(1, b.len() as int);
        lemma_key_lt_total(sa, sb);
        if sa == sb {
            assert(a =~= seq![a[0]] + sa);
            assert(b =~= seq![b[0]] + sb);
        }
    } else if a.len() == 0 && b.len() == 0 {
        assert(a =~= b);
    } else if a.len() > 0 && b.len() > 0 {
        assert((a[0] as int) != (b[0] as int));
    }
}

/// The order on keys is transitive.
pub proof fn lemma_key_lt_transitive(a: Seq<char>, b: Seq<char>, c: Seq<char>)
    requires
        key_lt(a, b),
        key_lt(b, c),
    ensures
        key_lt(a, c),
    decreases a.len(),
{
    if a.len() > 0 && a[0] == b[0] && b[0] == c[0] {
        lemma_key_lt_transitive(
            a.subrange(1, a.len() as int),
            b.subrange(1, b.len() as int),
            c.subrange(1, c.len() as int),
        );
    }
}

proof fn lemma_key_order(x: Seq<char>, y: Seq<char>, z: Seq<char>)
    ensures
        x != y ==> key_lt(x, y) || key_lt(y, x),
        key_lt(x, y) ==> !key_lt(y, x),
        key_lt(x, y) && key_lt(y, z) ==> key_lt(x, z),
        !key_lt(x, x),
{
    lemma_key_lt_total(x, y);
    lemma_key_lt_irreflexive(x);
    if key_lt(x, y) && key_lt(y, z) {
        lemma_key_lt_transitive(x, y, z);
    }
}

/// The smallest of three optional keys does not depend on the order of the
/// last two.
proof fn lemma_min_key_swap(x: Option<Seq<char>>, y: Option<Seq<char>>, z: Option<Seq<char>>)
    ensures
        min_key(min_key(x, y), z) == min_key(min_key(x, z), y),
{
    if let (Some(a), Some(b), Some(c)) = (x, y, z) {
        lemma_key_order(a, b, c);
        lemma_key_order(a, c, b);
        lemma_key_order(b, a, c);
        lemma_key_order(b, c, a);
        lemma_key_order(c, a, b);
        lemma_key_order(c, b, a);
    } else if let (Some(a), Some(b)) = (x, y) {
        lemma_key_order(a, b, a);
    } else if let (Some(a), Some(c)) = (x, z) {
        lemma_key_order(a, c, a);
    } else if let (Some(b), Some(c)) = (y, z) {
        lemma_key_order(b, c, b);
    }
}

/// Exchanging the two sides exchanges them in a conflict report and changes
/// nothing else: the same merged document, or a conflict at the same path.
pub proof fn lemma_merge_sides_commute(
    path: Seq<char>,
    b: Option<DocV>,
    o: Option<DocV>,
    t: Option<DocV>,
)
    ensures
        merge_node(path, b, t, o) == swapped(merge_node(path, b, o, t)),
    decreases crate::model::size_opt(b) + crate::model::size_opt(o) + crate::model::size_opt(t), 1nat,
{
    if o == t || o == b || t == b {
    } else {
        match (o, t) {
            (Some(DocV::Table(oe)), Some(DocV::Table(te))) => {
                lemma_entries_sides_commute(path, entries_of(b), oe, te);
            },
            _ => {},
        }
    }
}

/// Exchanging the two sides of a walk over table entries.
pub proof fn lemma_entries_sides_commute(path: Seq<char>, be: EntriesV, oe: EntriesV, te: EntriesV)
    ensures
        merge_entries(path, be, te, oe) == swapped(merge_entries(path, be, oe, te)),
    decreases crate::model::size_entries(be) + crate::model::size_entries(oe)
        + crate::model::size_entries(te),
        0nat,
{
    lemma_min_key_swap(head_key(be), head_key(oe), head_key(te));
    match min_key(min_key(head_key(be), head_key(oe)), head_key(te)) {
        None => {},
        Some(k) => {
            lemma_merge_sides_commute(
                child_path(path, k),
                head_value(be, k),
                head_value(oe, k),
                head_value(te, k),
            );
            lemma_entries_sides_commute(path, after_key(be, k), after_key(oe, k), after_key(te, k));
        },
    }
}

/// Rule 4 fires on these values: the sides differ from each other and from
/// the base, and are not both tables.
pub open spec fn irreconcilable(c: ConflictV) -> bool {
    &&& c.ours != c.theirs
    &&& c.ours != c.base
    &&& c.theirs != c.base
    &&& !(c.ours matches Some(DocV::Table(_)) && c.theirs matches Some(DocV::Table(_)))
}

/// A reported conflict lies at or below the position where the merge
/// started, and there no rule reconciles its values.
pub proof fn lemma_conflict_irreconcilable(
    path: Seq<char>,
    b: Option<DocV>,
    o: Option<DocV>,
    t: Option<DocV>,
)
    ensures
        merge_node(path, b, o, t) matches Err(c) ==> irreconcilable(c) && path.is_prefix_of(
            c.path,
        ),
    decreases crate::model::size_opt(b) + crate::model::size_opt(o) + crate::model::size_opt(t), 1nat,
{
    if o == t || o == b || t == b {
    } else {
        match (o, t) {
            (Some(DocV::Table(oe)), Some(DocV::Table(te))) => {
                lemma_entries_conflict_irreconcilable(path, entries_of(b), oe, te);
            },
            _ => {
                assert(path.is_prefix_of(path)) by {
                    assert(path.subrange(0, path.len() as int) =~= path);
                }
            },
        }
    }
}

/// A conflict in a walk over table entries lies below the table's path, and
/// no rule reconciles its values.
pub proof fn lemma_entries_conflict_irreconcilable(
    path: Seq<char>,
    be: EntriesV,
    oe: EntriesV,
    te: EntriesV,
)
    ensures
        merge_entries(path, be, oe, te) matches Err(c) ==> irreconcilable(c) && path.is_prefix_of(
            c.path,
        ),
    decreases crate::model::size_entries(be) + crate::model::size_entries(oe)
        + crate::model::size_entries(te),
        0nat,
{
    match min_key(min_key(head_key(be), head_key(oe)), head_key(te)) {
        None => {},
        Some(k) => {
            let sub = child_path(path, k);
            lemma_conflict_irreconcilable(sub, head_value(be, k), head_value(oe, k), head_value(te, k));
            lemma_entries_conflict_irreconcilable(path, after_key(be, k), after_key(oe, k), after_key(te, k));
            if let Err(c) = merge_node(sub, head_value(be, k), head_value(oe, k), head_value(te, k)) {
                assert(path.is_prefix_of(sub)) by {
                    if path.len() > 0 {
                        assert(sub.subrange(0, path.len() as int) =~= path);
                    }
                }
                assert(sub.subrange(0, path.len() as int) =~= c.path.subrange(0, path.len() as int));
            }
        },
    }
}

/// Every key of the entries comes after `lo`, where `bounded` asks for it.
pub open spec fn keys_above(es: EntriesV, lo: Seq<char>, bounded: bool) -> bool {
    bounded ==> forall|i: int| 0 <= i < es.len() ==> key_lt(lo, #[trigger] es[i].0)
}

/// The smallest of three optional keys is one of them and comes no later
/// than any of them.
proof fn lemma_min_key_least(
    x: Option<Seq<char>>,
    y: Option<Seq<char>>,
    z: Option<Seq<char>>,
    k: Seq<char>,
)
    requires
        min_key(min_key(x, y), z) == Some(k),
    ensures
        x == Some(k) || y == Some(k) || z == Some(k),
        x matches Some(h) ==> h == k || key_lt(k, h),
        y matches Some(h) ==> h == k || key_lt(k, h),
        z matches Some(h) ==> h == k || key_lt(k, h),
{
    if let Some(a) = x {
        lemma_key_lt_total(a, k);
    }
    if let Some(a) = y {
        lemma_key_lt_total(a, k);
    }
    if let Some(a) = z {
        lemma_key_lt_total(a, k);
    }
    if let (Some(a), Some(b)) = (x, y) {
        lemma_key_order(a, b, a);
        if let Some(c) = z {
            lemma_key_order(c, a, b);
            lemma_key_order(c, b, a);
            lemma_key_order(a, b, c);
            lemma_key_order(b, a, c);
        }
    }
}

/// A table is well formed exactly when its keys ascend strictly and its
/// values are well formed.
pub proof fn lemma_table_well_formed(es: EntriesV)
    ensures
        well_formed(DocV::Table(es)) <==> (forall|i: int, j: int|
            0 <= i < j < es.len() ==> key_lt(#[trigger] es[i].0, #[trigger] es[j].0)) && (forall|i: int|
            0 <= i < es.len() ==> well_formed(#[trigger] es[i].1)),
{
    let d = DocV::Table(es);
    assert(d->Table_0 == es);
}

/// What is left of sorted entries once a key no later than their head is
/// taken off them is sorted and comes after that key.
proof fn lemma_after_key_above(es: EntriesV, k: Seq<char>, lo: Seq<char>, bounded: bool)
    requires
        well_formed(DocV::Table(es)),
        keys_above(es, lo, bounded),
        es.len() > 0 ==> es[0].0 == k || key_lt(k, es[0].0),
    ensures
        well_formed(DocV::Table(after_key(es, k))),
        keys_above(after_key(es, k), k, true),
        keys_above(after_key(es, k), lo, bounded),
{
    let rest = after_key(es, k);
    lemma_table_well_formed(es);
    lemma_table_well_formed(rest);
    if es.len() > 0 && es[0].0 == k {
        assert forall|i: int| 0 <= i < rest.len() implies key_lt(k, #[trigger] rest[i].0) by {
            assert(rest[i] == es[i + 1]);
            assert(key_lt(es[0].0, es[i + 1].0));
        }
        assert forall|i: int, j: int| 0 <= i < j < rest.len() implies key_lt(
            #[trigger] rest[i].0,
            #[trigger] rest[j].0,
        ) by {
            assert(rest[i] == es[i + 1] && rest[j] == es[j + 1]);
            assert(key_lt(es[i + 1].0, es[j + 1].0));
        }
        assert forall|i: int| 0 <= i < rest.len() implies well_formed(#[trigger] rest[i].1) by {
            assert(rest[i] == es[i + 1]);
        }
        assert forall|i: int| 0 <= i < rest.len() && bounded implies key_lt(lo, #[trigger] rest[i].0) by {
            assert(rest[i] == es[i + 1]);
        }
    } else {
        assert forall|i: int| 0 <= i < rest.len() implies key_lt(k, #[trigger] rest[i].0) by {
            if i > 0 {
                lemma_key_lt_transitive(k, es[0].0, es[i].0);
            }
        }
    }
}

/// Merging well-formed documents gives a well-formed document: every table
/// of the result lists its keys in strictly ascending order.
pub proof fn lemma_merge_well_formed(path: Seq<char>, b: Option<DocV>, o: Option<DocV>, t: Option<DocV>)
    requires
        opt_well_formed(b),
        opt_well_formed(o),
        opt_well_formed(t),
    ensures
        merge_node(path, b, o, t) matches Ok(r) ==> opt_well_formed(r),
    decreases crate::model::size_opt(b) + crate::model::size_opt(o) + crate::model::size_opt(t), 1nat,
{
    if o == t || o == b || t == b {
    } else {
        match (o, t) {
            (Some(DocV::Table(oe)), Some(DocV::Table(te))) => {
                lemma_entries_well_formed(path, entries_of(b), oe, te, Seq::empty(), false);
            },
            _ => {},
        }
    }
}

/// Merging sorted entries gives sorted entries, and keys above a bound stay
/// above it.
pub proof fn lemma_entries_well_formed(
    path: Seq<char>,
    be: EntriesV,
    oe: EntriesV,
    te: EntriesV,
    lo: Seq<char>,
    bounded: bool,
)
    requires
        well_formed(DocV::Table(be)),
        well_formed(DocV::Table(oe)),
        well_formed(DocV::Table(te)),
        keys_above(be, lo, bounded),
        keys_above(oe, lo, bounded),
        keys_above(te, lo, bounded),
    ensures
        merge_entries(path, be, oe, te) matches Ok(es) ==> well_formed(DocV::Table(es))
            && keys_above(es, lo, bounded),
    decreases crate::model::size_entries(be) + crate::model::size_entries(oe)
        + crate::model::size_entries(te),
        0nat,
{
    match min_key(min_key(head_key(be), head_key(oe)), head_key(te)) {
        None => {},
        Some(k) => {
            lemma_table_well_formed(be);
            lemma_table_well_formed(oe);
            lemma_table_well_formed(te);
            lemma_min_key_least(head_key(be), head_key(oe), head_key(te), k);
            lemma_after_key_above(be, k, lo, bounded);
            lemma_after_key_above(oe, k, lo, bounded);
            lemma_after_key_above(te, k, lo, bounded);
            let (rb, ro, rt) = (after_key(be, k), after_key(oe, k), after_key(te, k));
            assert(opt_well_formed(head_value(be, k))) by {
                if be.len() > 0 {
                    assert(well_formed(be[0].1));
                }
            }
            assert(opt_well_formed(head_value(oe, k))) by {
                if oe.len() > 0 {
                    assert(well_formed(oe[0].1));
                }
            }
            assert(opt_well_formed(head_value(te, k))) by {
                if te.len() > 0 {
                    assert(well_formed(te[0].1));
                }
            }
            lemma_merge_well_formed(child_path(path, k), head_value(be, k), head_value(oe, k), head_value(te, k));
            lemma_entries_well_formed(path, rb, ro, rt, k, true);
            lemma_entries_well_formed(path, rb, ro, rt, lo, bounded);
            if let Ok(Some(x)) = merge_node(
                child_path(path, k),
                head_value(be, k),
                head_value(oe, k),
                head_value(te, k),
            ) {
                if let Ok(rest) = merge_entries(path, rb, ro, rt) {
                    let es = seq![(k, x)] + rest;
                    lemma_table_well_formed(rest);
                    lemma_table_well_formed(es);
                    assert forall|i: int, j: int| 0 <= i < j < es.len() implies key_lt(
                        #[trigger] es[i].0,
                        #[trigger] es[j].0,
                    ) by {
                        assert(es[j] == rest[j - 1]);
                        if i > 0 {
                            assert(es[i] == rest[i - 1]);
                            assert(key_lt(rest[i - 1].0, rest[j - 1].0));
                        } else {
                            assert(es[0].0 == k);
                            assert(key_lt(k, rest[j - 1].0));
                        }
                    }
                    assert forall|i: int| 0 <= i < es.len() implies well_formed(#[trigger] es[i].1) by {
                        if i > 0 {
                            assert(es[i] == rest[i - 1]);
                        }
                    }
                    assert forall|i: int| 0 <= i < es.len() && bounded implies key_lt(lo, #[trigger] es[i].0) by {
                        if i > 0 {
                            assert(es[i] == rest[i - 1]);
                        }
                    }
                }
            }
        },
    }
}

/// The value under key `k` in a table's entries.
pub open spec fn lookup(es: EntriesV, k: Seq<char>) -> Option<DocV>
    decreases es.len(),
{
    if es.len() == 0 {
        None
    } else if es[0].0 == k {
        Some(es[0].1)
    } else {
        lookup(es.subrange(1, es.len() as int), k)
    }
}

/// Rule 3 fires on these values: both sides are tables, different from each
/// other and from the base.
pub open spec fn descends(b: Option<DocV>, o: Option<DocV>, t: Option<DocV>) -> bool {
    &&& o != t
    &&& o != b
    &&& t != b
    &&& o matches Some(DocV::Table(_))
    &&& t matches Some(DocV::Table(_))
}

/// Every key before `k`, looked up in the three tables' entries, merges
/// without conflict.
pub open spec fn earlier_keys_merge(
    path: Seq<char>,
    be: EntriesV,
    oe: EntriesV,
    te: EntriesV,
    k: Seq<char>,
) -> bool {
    forall|k1: Seq<char>|
        key_lt(k1, k) ==> (#[trigger] merge_node(
            child_path(path, k1),
            lookup(be, k1),
            lookup(oe, k1),
            lookup(te, k1),
        )) is Ok
}

/// Following the keys `ks` down from `path`, where the three sides hold `b`,
/// `o` and `t`, rule 3 fires at every position passed through, every key
/// before the one followed merges there without conflict, and the walk ends
/// at the report `c`, where rule 4 fires.
pub open spec fn reaches(
    path: Seq<char>,
    b: Option<DocV>,
    o: Option<DocV>,
    t: Option<DocV>,
    ks: Seq<Seq<char>>,
    c: ConflictV,
) -> bool
    decreases ks.len(),
{
    if ks.len() == 0 {
        c == ConflictV { path, base: b, ours: o, theirs: t } && irreconcilable(c)
    } else {
        descends(b, o, t) && earlier_keys_merge(
            path,
            entries_of(b),
            entries_of(o),
            entries_of(t),
            ks[0],
        ) && reaches(
            child_path(path, ks[0]),
            lookup(entries_of(b), ks[0]),
            lookup(entries_of(o), ks[0]),
            lookup(entries_of(t), ks[0]),
            ks.drop_first(),
            c,
        )
    }
}

proof fn lemma_lookup_absent(es: EntriesV, k: Seq<char>)
    requires
        forall|i: int| 0 <= i < es.len() ==> key_lt(k, #[trigger] es[i].0),
    ensures
        lookup(es, k) is None,
    decreases es.len(),
{
    if es.len() > 0 {
        lemma_key_lt_irreflexive(k);
        let rest = es.subrange(1, es.len() as int);
        assert forall|i: int| 0 <= i < rest.len() implies key_lt(k, #[trigger] rest[i].0) by {
            assert(rest[i] == es[i + 1]);
        }
        lemma_lookup_absent(rest, k);
    }
}

/// In sorted entries whose head is not before `k`, `k` is found at the head
/// or not at all.
proof fn lemma_lookup_head(es: EntriesV, k: Seq<char>)
    requires
        well_formed(DocV::Table(es)),
        es.len() > 0 ==> es[0].0 == k || key_lt(k, es[0].0),
    ensures
        lookup(es, k) == head_value(es, k),
{
    lemma_table_well_formed(es);
    if es.len() > 0 && es[0].0 != k {
        assert forall|i: int| 0 <= i < es.len() implies key_lt(k, #[trigger] es[i].0) by {
            if i > 0 {
                lemma_key_lt_transitive(k, es[0].0, es[i].0);
            }
        }
        lemma_lookup_absent(es, k);
    }
}

/// In sorted entries whose head is not before `k`, no key before `k` is found.
proof fn lemma_below_head_absent(es: EntriesV, k: Seq<char>, k1: Seq<char>)
    requires
        well_formed(DocV::Table(es)),
        es.len() > 0 ==> es[0].0 == k || key_lt(k, es[0].0),
        key_lt(k1, k),
    ensures
        lookup(es, k1) is None,
{
    lemma_table_well_formed(es);
    assert forall|i: int| 0 <= i < es.len() implies key_lt(k1, #[trigger] es[i].0) by {
        if es[0].0 != k {
            lemma_key_lt_transitive(k1, k, es[0].0);
        }
        if i > 0 {
            lemma_key_lt_transitive(k1, es[0].0, es[i].0);
        }
    }
    lemma_lookup_absent(es, k1);
}

/// Once `k` leaves the head, keys after it are found as before.
proof fn lemma_lookup_after(es: EntriesV, k: Seq<char>, k2: Seq<char>)
    requires
        key_lt(k, k2),
    ensures
        lookup(after_key(es, k), k2) == lookup(es, k2),
{
    lemma_key_lt_irreflexive(k);
}

/// A reported conflict is reached from the starting position by a path of
/// keys along which rule 3 fires at every position passed through, and rule
/// 4 fires where it stops: the report is at the shallowest position on its
/// path where the sides cannot be reconciled.
pub proof fn lemma_conflict_reached(path: Seq<char>, b: Option<DocV>, o: Option<DocV>, t: Option<DocV>)
    requires
        opt_well_formed(b),
        opt_well_formed(o),
        opt_well_formed(t),
    ensures
        merge_node(path, b, o, t) matches Err(c) ==> exists|ks: Seq<Seq<char>>|
            reaches(path, b, o, t, ks, c),
    decreases crate::model::size_opt(b) + crate::model::size_opt(o) + crate::model::size_opt(t), 1nat,
{
    if o == t || o == b || t == b {
    } else {
        match (o, t) {
            (Some(DocV::Table(oe)), Some(DocV::Table(te))) => {
                let be = entries_of(b);
                assert(well_formed(DocV::Table(be))) by {
                    lemma_table_well_formed(be);
                }
                lemma_entries_conflict_reached(path, be, oe, te, Seq::empty(), false);
                if let Err(c) = merge_node(path, b, o, t) {
                    let (k, ks) = choose|k: Seq<char>, ks: Seq<Seq<char>>|
                        earlier_keys_merge(path, be, oe, te, k) && reaches(
                            child_path(path, k),
                            lookup(be, k),
                            lookup(oe, k),
                            lookup(te, k),
                            ks,
                            c,
                        );
                    let full = seq![k] + ks;
                    assert(full.drop_first() =~= ks);
                    assert(reaches(path, b, o, t, full, c));
                }
            },
            _ => {
                let c = ConflictV { path, base: b, ours: o, theirs: t };
                assert(reaches(path, b, o, t, Seq::empty(), c));
            },
        }
    }
}

/// A conflict in a walk over sorted entries is reached through one of their
/// keys, which lies above any bound that all of them lie above.
pub proof fn lemma_entries_conflict_reached(
    path: Seq<char>,
    be: EntriesV,
    oe: EntriesV,
    te: EntriesV,
    lo: Seq<char>,
    bounded: bool,
)
    requires
        well_formed(DocV::Table(be)),
        well_formed(DocV::Table(oe)),
        well_formed(DocV::Table(te)),
        keys_above(be, lo, bounded),
        keys_above(oe, lo, bounded),
        keys_above(te, lo, bounded),
    ensures
        merge_entries(path, be, oe, te) matches Err(c) ==> exists|k: Seq<char>, ks: Seq<Seq<char>>|
            (bounded ==> key_lt(lo, k)) && earlier_keys_merge(path, be, oe, te, k) && reaches(
                child_path(path, k),
                lookup(be, k),
                lookup(oe, k),
                lookup(te, k),
                ks,
                c,
            ),
    decreases crate::model::size_entries(be) + crate::model::size_entries(oe)
        + crate::model::size_entries(te),
        0nat,
{
    match min_key(min_key(head_key(be), head_key(oe)), head_key(te)) {
        None => {},
        Some(k) => {
            lemma_table_well_formed(be);
            lemma_table_well_formed(oe);
            lemma_table_well_formed(te);
            lemma_min_key_least(head_key(be), head_key(oe), head_key(te), k);
            lemma_after_key_above(be, k, lo, bounded);
            lemma_after_key_above(oe, k, lo, bounded);
            lemma_after_key_above(te, k, lo, bounded);
            let (rb, ro, rt) = (after_key(be, k), after_key(oe, k), after_key(te, k));
            assert(opt_well_formed(head_value(be, k))) by {
                if be.len() > 0 {
                    assert(well_formed(be[0].1));
                }
            }
            assert(opt_well_formed(head_value(oe, k))) by {
                if oe.len() > 0 {
                    assert(well_formed(oe[0].1));
                }
            }
            assert(opt_well_formed(head_value(te, k))) by {
                if te.len() > 0 {
                    assert(well_formed(te[0].1));
                }
            }
            let sub = child_path(path, k);
            let (hb, ho, ht) = (head_value(be, k), head_value(oe, k), head_value(te, k));
            lemma_conflict_reached(sub, hb, ho, ht);
            lemma_entries_conflict_reached(path, rb, ro, rt, k, true);
            if bounded {
                assert(key_lt(lo, k));
            }
            if let Err(c) = merge_node(sub, hb, ho, ht) {
                let ks = choose|ks: Seq<Seq<char>>| reaches(sub, hb, ho, ht, ks, c);
                lemma_lookup_head(be, k);
                lemma_lookup_head(oe, k);
                lemma_lookup_head(te, k);
                assert forall|k1: Seq<char>| key_lt(k1, k) implies (#[trigger] merge_node(
                    child_path(path, k1),
                    lookup(be, k1),
                    lookup(oe, k1),
                    lookup(te, k1),
                )) is Ok by {
                    lemma_below_head_absent(be, k, k1);
                    lemma_below_head_absent(oe, k, k1);
                    lemma_below_head_absent(te, k, k1);
                }
                assert(reaches(sub, lookup(be, k), lookup(oe, k), lookup(te, k), ks, c));
            } else if let Err(c) = merge_entries(path, rb, ro, rt) {
                let (k2, ks) = choose|k2: Seq<char>, ks: Seq<Seq<char>>|
                    key_lt(k, k2) && earlier_keys_merge(path, rb, ro, rt, k2) && reaches(
                        child_path(path, k2),
                        lookup(rb, k2),
                        lookup(ro, k2),
                        lookup(rt, k2),
                        ks,
                        c,
                    );
                lemma_lookup_after(be, k, k2);
                lemma_lookup_after(oe, k, k2);
                lemma_lookup_after(te, k, k2);
                if bounded {
                    lemma_key_lt_transitive(lo, k, k2);
                }
                lemma_lookup_head(be, k);
                lemma_lookup_head(oe, k);
                lemma_lookup_head(te, k);
                assert forall|k1: Seq<char>| key_lt(k1, k2) implies (#[trigger] merge_node(
                    child_path(path, k1),
                    lookup(be, k1),
                    lookup(oe, k1),
                    lookup(te, k1),
                )) is Ok by {
                    lemma_key_lt_total(k1, k);
                    if key_lt(k1, k) {
                        lemma_below_head_absent(be, k, k1);
                        lemma_below_head_absent(oe, k, k1);
                        lemma_below_head_absent(te, k, k1);
                    } else if k1 != k {
                        lemma_lookup_after(be, k, k1);
                        lemma_lookup_after(oe, k, k1);
                        lemma_lookup_after(te, k, k1);
                        assert(merge_node(child_path(path, k1), lookup(rb, k1), lookup(ro, k1), lookup(rt, k1)) is Ok);
                    }
                }
                assert(reaches(child_path(path, k2), lookup(be, k2), lookup(oe, k2), lookup(te, k2), ks, c));
            }
        },
    }
}

/// Merging a text with itself on every side gives its canonical form.
pub proof fn lemma_merge_texts_idempotent(x: Seq<char>)
    ensures
        parsed_text(x) matches Some(d) ==> merge_texts(x, x, x) == match pretty_text(d) {
            Some(s) => Ok(newline_terminated(s)),
            None => Err(sentinel("<serialize>"@)),
        },
{
}

} // verus!
