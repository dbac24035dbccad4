use vstd::prelude::*;
use crate::entry::{rank, rank_of, Entry};
use crate::text::{
    chars_eq, chars_lt, lemma_seq_lt_trans, lemma_seq_lt_trichotomy, lower_chars, lower_of, seq_lt,
};

verus! {

/// Which key orders sibling entries: their name, or their kind.
#[derive(Debug, Clone, Copy, PartialEq, Eq, Structural)]
pub enum SortBy {
    Name,
    Type,
}

/// The name ordering: case-folded name first; the kind order
/// `File < Dir < SymLink` breaks ties.
pub open spec fn name_le(a: Entry, b: Entry) -> bool {
    let la = lower_of(a.name@);
    let lb = lower_of(b.name@);
    seq_lt(la, lb) || (la == lb && rank(a.ty) <= rank(b.ty))
}

/// The kind ordering: `File < Dir < SymLink` first; the case-folded
/// name breaks ties.
pub open spec fn type_le(a: Entry, b: Entry) -> bool {
    let la = lower_of(a.name@);
    let lb = lower_of(b.name@);
    rank(a.ty) < rank(b.ty) || (rank(a.ty) == rank(b.ty) && (seq_lt(la, lb) || la == lb))
}

/// Whether `a` comes no later than `b` under the chosen key.
pub open spec fn le_spec(a: Entry, b: Entry, by: SortBy) -> bool {
    match by {
        SortBy::Name => name_le(a, b),
        SortBy::Type => type_le(a, b),
    }
}

/// The name comparator: whether `a` sorts no later than `b` by name.
pub fn sort_name(a: &Entry, b: &Entry) -> (r: bool)
    ensures
        r == name_le(*a, *b),
{
    let la = lower_chars(a.name.as_str());
    let lb = lower_chars(b.name.as_str());
    if chars_lt(&la, &lb) {
        true
    } else if chars_eq(&la, &lb) {
        rank_of(&a.ty) <= rank_of(&b.ty)
    } else {
        false
    }
}

/// The kind comparator: whether `a` sorts no later than `b` by kind.
pub fn sort_type(a: &Entry, b: &Entry) -> (r: bool)
    ensures
        r == type_le(*a, *b),
{
    let ra = rank_of(&a.ty);
    let rb = rank_of(&b.ty);
    if ra < rb {
        true
    } else if ra == rb {
        let la = lower_chars(a.name.as_str());
        let lb = lower_chars(b.name.as_str());
        chars_lt(&la, &lb) || chars_eq(&la, &lb)
    } else {
        false
    }
}

fn le_by(a: &Entry, b: &Entry, by: &SortBy) -> (r: bool)
    ensures
        r == le_spec(*a, *b, *by),
{
    match by {
        SortBy::Name => sort_name(a, b),
        SortBy::Type => sort_type(a, b),
    }
}

/// Each ordering is total: of any two entries, one comes no later
/// than the other.
pub proof fn lemma_le_total(a: Entry, b: Entry, by: SortBy)
    ensures
        le_spec(a, b, by) || le_spec(b, a, by),
{
    lemma_seq_lt_trichotomy(lower_of(a.name@), lower_of(b.name@));
}

/// Each ordering is transitive.
pub proof fn lemma_le_trans(a: Entry, b: Entry, c: Entry, by: SortBy)
    requires
        le_spec(a, b, by),
        le_spec(b, c, by),
    ensures
        le_spec(a, c, by),
{
    let la = lower_of(a.name@);
    let lb = lower_of(b.name@);
    let lc = lower_of(c.name@);
    if seq_lt(la, lb) && seq_lt(lb, lc) {
        lemma_seq_lt_trans(la, lb, lc);
    }
}

/// Ties arise only between entries with equal sort keys: when each of
/// two entries comes no later than the other, their case-folded names
/// and kinds agree.
pub proof fn lemma_le_antisymmetric(a: Entry, b: Entry, by: SortBy)
    requires
        le_spec(a, b, by),
        le_spec(b, a, by),
    ensures
        lower_of(a.name@) == lower_of(b.name@),
        a.ty == b.ty,
{
    lemma_seq_lt_trichotomy(lower_of(a.name@), lower_of(b.name@));
}

/// Over entries whose sort keys differ, each ordering is a strict
/// total order: exactly one of the two comes first.
pub proof fn lemma_order_strict_total(a: Entry, b: Entry, by: SortBy)
    requires
        !(lower_of(a.name@) == lower_of(b.name@) && a.ty == b.ty),
    ensures
        le_spec(a, b, by) <==> !le_spec(b, a, by),
{
    lemma_le_total(a, b, by);
    if le_spec(a, b, by) && le_spec(b, a, by) {
        lemma_le_antisymmetric(a, b, by);
    }
}

/// The stable insertion of `e` into `s`: after every leading element
/// that comes no later than `e`, so that an element already present
/// keeps its place ahead of a newcomer with an equal key.
pub open spec fn insert_spec(e: Entry, s: Seq<Entry>, by: SortBy) -> Seq<Entry>
    decreases s.len(),
{
    if s.len() > 0 && le_spec(s[0], e, by) {
        seq![s[0]] + insert_spec(e, s.drop_first(), by)
    } else {
        seq![e] + s
    }
}

/// The slot the insertion uses: the number of leading elements that
/// come no later than `e`.
pub open spec fn insert_pos(e: Entry, s: Seq<Entry>, by: SortBy) -> int
    decreases s.len(),
{
    if s.len() > 0 && le_spec(s[0], e, by) {
        1 + insert_pos(e, s.drop_first(), by)
    } else {
        0
    }
}

/// The insertion splits the run at its slot.
pub proof fn lemma_insert_at_pos(e: Entry, s: Seq<Entry>, by: SortBy)
    ensures
        0 <= insert_pos(e, s, by) <= s.len(),
        forall|k: int| 0 <= k < insert_pos(e, s, by) ==> le_spec(#[trigger] s[k], e, by),
        insert_pos(e, s, by) < s.len() ==> !le_spec(s[insert_pos(e, s, by)], e, by),
        insert_spec(e, s, by) == s.take(insert_pos(e, s, by)) + seq![e] + s.skip(
            insert_pos(e, s, by),
        ),
    decreases s.len(),
{
    let p = insert_pos(e, s, by);
    if s.len() > 0 && le_spec(s[0], e, by) {
        lemma_insert_at_pos(e, s.drop_first(), by);
        assert(forall|k: int|
            0 <= k < s.drop_first().len() ==> #[trigger] s.drop_first()[k] == s[k + 1]);
        assert forall|k: int| 0 <= k < p implies le_spec(#[trigger] s[k], e, by) by {
            if k > 0 {
                assert(s.drop_first()[k - 1] == s[k]);
            }
        }
        assert(s.take(p) =~= seq![s[0]] + s.drop_first().take(p - 1));
        assert(s.skip(p) =~= s.drop_first().skip(p - 1));
        assert(insert_spec(e, s, by) =~= s.take(p) + seq![e] + s.skip(p));
    } else {
        assert(s.skip(0) =~= s);
        assert(insert_spec(e, s, by) =~= s.take(0) + seq![e] + s.skip(0));
    }
}

/// Whether a run of entries is ordered under the chosen key.
pub open spec fn sorted_spec(s: Seq<Entry>, by: SortBy) -> bool {
    forall|i: int, j: int| 0 <= i < j < s.len() ==> le_spec(#[trigger] s[i], #[trigger] s[j], by)
}

/// Inserting into an ordered run keeps it ordered.
pub proof fn lemma_insert_sorted(e: Entry, s: Seq<Entry>, by: SortBy)
    requires
        sorted_spec(s, by),
    ensures
        sorted_spec(insert_spec(e, s, by), by),
{
    lemma_insert_at_pos(e, s, by);
    let p = insert_pos(e, s, by);
    let r = insert_spec(e, s, by);
    assert(r.len() == s.len() + 1);
    assert forall|i: int, j: int| 0 <= i < j < r.len() implies le_spec(r[i], r[j], by) by {
        if i < p {
            assert(r[i] == s[i]);
        }
        if i == p {
            assert(r[i] == e);
        }
        if i > p {
            assert(r[i] == s[i - 1]);
        }
        if j < p {
            assert(r[j] == s[j]);
        }
        if j == p {
            assert(r[j] == e);
        }
        if j > p {
            assert(r[j] == s[j - 1]);
        }
        if p < s.len() {
            lemma_le_total(s[p], e, by);
        }
        if i == p && j > p {
            // e comes before the tail: the boundary element refuses
            // le, so e precedes it, and order carries on from there
            if j - 1 > p {
                lemma_le_trans(e, s[p], s[j - 1], by);
            }
        }
    }
}

/// The stable sort: each entry inserted in turn, later arrivals after
/// earlier ones with an equal key.
pub open spec fn sort_spec(s: Seq<Entry>, by: SortBy) -> Seq<Entry>
    decreases s.len(),
{
    if s.len() == 0 {
        Seq::empty()
    } else {
        insert_spec(s.last(), sort_spec(s.drop_last(), by), by)
    }
}

/// What the sort returns is ordered.
pub proof fn lemma_sort_sorted(s: Seq<Entry>, by: SortBy)
    ensures
        sorted_spec(sort_spec(s, by), by),
    decreases s.len(),
{
    if s.len() > 0 {
        lemma_sort_sorted(s.drop_last(), by);
        lemma_insert_sorted(s.last(), sort_spec(s.drop_last(), by), by);
    }
}

/// What the sort returns holds exactly the entries it was given.
pub proof fn lemma_sort_permutes(s: Seq<Entry>, by: SortBy)
    ensures
        sort_spec(s, by).to_multiset() == s.to_multiset(),
    decreases s.len(),
{
    broadcast use vstd::seq_lib::group_to_multiset_ensures;

    if s.len() > 0 {
        let e = s.last();
        let rest = sort_spec(s.drop_last(), by);
        lemma_sort_permutes(s.drop_last(), by);
        lemma_insert_at_pos(e, rest, by);
        let p = insert_pos(e, rest, by);
        assert(rest.take(p) + seq![e] + rest.skip(p) =~= rest.insert(p, e));
        vstd::seq_lib::to_multiset_insert(rest, p, e);
        assert(s.drop_last().push(e) =~= s);
        assert(s.drop_last().push(e).to_multiset() == s.drop_last().to_multiset().insert(e));
    }
}

/// An entry that every element of the run precedes goes at its end.
proof fn lemma_insert_all_le(e: Entry, s: Seq<Entry>, by: SortBy)
    requires
        forall|k: int| 0 <= k < s.len() ==> le_spec(#[trigger] s[k], e, by),
    ensures
        insert_spec(e, s, by) == s.push(e),
{
    lemma_insert_at_pos(e, s, by);
    let p = insert_pos(e, s, by);
    assert(p == s.len());
    assert(s.take(p) + seq![e] + s.skip(p) =~= s.push(e));
}

/// Sorting an already ordered run returns it unchanged.
pub proof fn lemma_sort_fixed(s: Seq<Entry>, by: SortBy)
    requires
        sorted_spec(s, by),
    ensures
        sort_spec(s, by) == s,
    decreases s.len(),
{
    if s.len() > 0 {
        assert(forall|i: int, j: int|
            0 <= i < j < s.drop_last().len() ==> le_spec(
                #[trigger] s.drop_last()[i],
                #[trigger] s.drop_last()[j],
                by,
            ));
        lemma_sort_fixed(s.drop_last(), by);
        lemma_insert_all_le(s.last(), s.drop_last(), by);
        assert(s.drop_last().push(s.last()) =~= s);
    }
}

/// Re-sorting what the sort returned changes nothing: the sort is
/// idempotent.
pub proof fn lemma_sort_idempotent(s: Seq<Entry>, by: SortBy)
    ensures
        sort_spec(sort_spec(s, by), by) == sort_spec(s, by),
{
    lemma_sort_sorted(s, by);
    lemma_sort_fixed(sort_spec(s, by), by);
}

/// How a sorted tree relates to the tree it came from: the entry's own
/// fields are kept, and its children are each sorted within themselves
/// and then ordered among each other by the chosen key.
pub open spec fn tree_sort_rel(a: Entry, r: Entry, by: SortBy) -> bool
    decreases a,
{
    &&& r.name == a.name
    &&& r.path == a.path
    &&& r.ty == a.ty
    &&& r.size == a.size
    &&& r.date == a.date
    &&& exists|mid: Seq<Entry>|
        kids_rel(a.childs@, mid, by) && r.childs@ == sort_spec(mid, by)
}

/// The pointwise form of `tree_sort_rel` over two runs of entries.
pub open spec fn kids_rel(a: Seq<Entry>, mid: Seq<Entry>, by: SortBy) -> bool
    decreases a,
{
    &&& mid.len() == a.len()
    &&& forall|i: int| 0 <= i < a.len() ==> tree_sort_rel(#[trigger] a[i], mid[i], by)
}

/// Whether two entries tie under the chosen key: each comes no later
/// than the other.
pub open spec fn same_key(a: Entry, b: Entry, by: SortBy) -> bool {
    le_spec(a, b, by) && le_spec(b, a, by)
}

/// The entries of a run that tie with `e0`, in their order.
pub open spec fn key_run(s: Seq<Entry>, e0: Entry, by: SortBy) -> Seq<Entry>
    decreases s.len(),
{
    if s.len() == 0 {
        Seq::empty()
    } else {
        (if same_key(s[0], e0, by) {
            seq![s[0]]
        } else {
            Seq::<Entry>::empty()
        }) + key_run(s.drop_first(), e0, by)
    }
}

proof fn lemma_key_run_concat(a: Seq<Entry>, b: Seq<Entry>, e0: Entry, by: SortBy)
    ensures
        key_run(a + b, e0, by) == key_run(a, e0, by) + key_run(b, e0, by),
    decreases a.len(),
{
    if a.len() == 0 {
        assert(a + b =~= b);
        assert(key_run(a, e0, by) + key_run(b, e0, by) =~= key_run(b, e0, by));
    } else {
        assert((a + b)[0] == a[0]);
        assert((a + b).drop_first() =~= a.drop_first() + b);
        lemma_key_run_concat(a.drop_first(), b, e0, by);
        let head: Seq<Entry> = if same_key(a[0], e0, by) {
            seq![a[0]]
        } else {
            Seq::empty()
        };
        assert(head + (key_run(a.drop_first(), e0, by) + key_run(b, e0, by)) =~= (head + key_run(
            a.drop_first(),
            e0,
            by,
        )) + key_run(b, e0, by));
    }
}

proof fn lemma_key_run_none(s: Seq<Entry>, e0: Entry, by: SortBy)
    requires
        forall|k: int| 0 <= k < s.len() ==> !same_key(#[trigger] s[k], e0, by),
    ensures
        key_run(s, e0, by) == Seq::<Entry>::empty(),
    decreases s.len(),
{
    if s.len() > 0 {
        assert(forall|k: int|
            0 <= k < s.drop_first().len() ==> #[trigger] s.drop_first()[k] == s[k + 1]);
        lemma_key_run_none(s.drop_first(), e0, by);
        assert(key_run(s, e0, by) =~= Seq::<Entry>::empty());
    }
}

/// Inserting into an ordered run puts the newcomer after every entry
/// it ties with: each tie run grows at its end, or not at all.
proof fn lemma_insert_key_run(e: Entry, t: Seq<Entry>, e0: Entry, by: SortBy)
    requires
        sorted_spec(t, by),
    ensures
        key_run(insert_spec(e, t, by), e0, by) == key_run(t, e0, by) + (if same_key(e, e0, by) {
            seq![e]
        } else {
            Seq::<Entry>::empty()
        }),
{
    lemma_insert_at_pos(e, t, by);
    let p = insert_pos(e, t, by);
    let tail = t.skip(p);
    // nothing after the slot ties with the newcomer
    assert forall|k: int| 0 <= k < tail.len() implies !same_key(#[trigger] tail[k], e, by) by {
        assert(tail[k] == t[p + k]);
        if same_key(t[p + k], e, by) {
            if k > 0 {
                lemma_le_trans(t[p], t[p + k], e, by);
            }
        }
    }
    assert(seq![e].drop_first() =~= Seq::<Entry>::empty());
    if same_key(e, e0, by) {
        // a tie with the reference key is a tie with the newcomer
        assert forall|k: int| 0 <= k < tail.len() implies !same_key(#[trigger] tail[k], e0, by) by {
            if same_key(tail[k], e0, by) {
                lemma_le_trans(tail[k], e0, e, by);
                lemma_le_trans(e, e0, tail[k], by);
            }
        }
        lemma_key_run_none(tail, e0, by);
    }
    lemma_key_run_concat(t.take(p) + seq![e], tail, e0, by);
    lemma_key_run_concat(t.take(p), seq![e], e0, by);
    lemma_key_run_concat(t.take(p), tail, e0, by);
    assert(t.take(p) + tail =~= t);
    assert(seq![e].len() == 1);
    assert(seq![e][0] == e);
    assert(key_run(Seq::<Entry>::empty(), e0, by) == Seq::<Entry>::empty());
    assert(key_run(seq![e], e0, by) =~= (if same_key(e, e0, by) {
        seq![e]
    } else {
        Seq::<Entry>::empty()
    }));
    assert(key_run(insert_spec(e, t, by), e0, by) =~= key_run(t, e0, by) + (if same_key(
        e,
        e0,
        by,
    ) {
        seq![e]
    } else {
        Seq::<Entry>::empty()
    }));
}

/// The sort is stable: for any reference key, the entries tying with
/// it come out of the sort exactly as they went in, in the same
/// relative order.
pub proof fn lemma_sort_stable(s: Seq<Entry>, e0: Entry, by: SortBy)
    ensures
        key_run(sort_spec(s, by), e0, by) == key_run(s, e0, by),
    decreases s.len(),
{
    if s.len() > 0 {
        let t = sort_spec(s.drop_last(), by);
        lemma_sort_stable(s.drop_last(), e0, by);
        lemma_sort_sorted(s.drop_last(), by);
        lemma_insert_key_run(s.last(), t, e0, by);
        assert(s.drop_last() + seq![s.last()] =~= s);
        lemma_key_run_concat(s.drop_last(), seq![s.last()], e0, by);
        assert(seq![s.last()].drop_first() =~= Seq::<Entry>::empty());
        assert(seq![s.last()][0] == s.last());
        assert(key_run(Seq::<Entry>::empty(), e0, by) == Seq::<Entry>::empty());
        assert(key_run(seq![s.last()], e0, by) =~= (if same_key(s.last(), e0, by) {
            seq![s.last()]
        } else {
            Seq::<Entry>::empty()
        }));
        assert(key_run(sort_spec(s, by), e0, by) =~= key_run(s, e0, by));
    }
}

/// A sorted tree's children are ordered under the chosen key.
pub proof fn lemma_tree_sort_children_sorted(a: Entry, r: Entry, by: SortBy)
    requires
        tree_sort_rel(a, r, by),
    ensures
        sorted_spec(r.childs@, by),
{
    let mid = choose|mid: Seq<Entry>|
        kids_rel(a.childs@, mid, by) && r.childs@ == sort_spec(mid, by);
    lemma_sort_sorted(mid, by);
}

/// Sorts a whole entry tree: each directory's children within
/// themselves, then the children of this entry by the chosen key.
#[verifier::loop_isolation(false)]
pub fn sort_entry_tree(e: Entry, by: &SortBy) -> (r: Entry)
    ensures
        tree_sort_rel(e, r, *by),
    decreases e,
{
    let Entry { name, path, ty, size, date, childs } = e;
    let ghost orig = childs@;
    let mut rest = childs;
    let mut mid: Vec<Entry> = Vec::new();
    let ghost mut i: int = 0;
    while rest.len() > 0
        invariant
            0 <= i <= orig.len(),
            rest@ == orig.skip(i),
            mid@.len() == i,
            forall|k: int| 0 <= k < i ==> tree_sort_rel(#[trigger] orig[k], mid@[k], *by),
        decreases rest@.len(),
    {
        let c = rest.remove(0);
        assert(orig.skip(i)[0] == orig[i]);
        assert(orig.skip(i).remove(0) =~= orig.skip(i + 1));
        proof {
            assert(decreases_to!(e => e.childs@[i]));
        }
        let sc = sort_entry_tree(c, by);
        mid.push(sc);
        proof {
            i = i + 1;
        }
    }
    assert(orig.skip(orig.len() as int) =~= Seq::<Entry>::empty());
    let ghost mid_snapshot = mid@;
    let sorted = sort_entries(mid, by);
    let r = Entry { name, path, ty, size, date, childs: sorted };
    proof {
        assert(kids_rel(e.childs@, mid_snapshot, *by));
    }
    r
}

/// Inserts `e` into the ordered vector `out`, after every element
/// that comes no later than it.
#[verifier::loop_isolation(false)]
fn insert_entry(out: &mut Vec<Entry>, e: Entry, by: &SortBy)
    ensures
        final(out)@ == insert_spec(e, old(out)@, *by),
{
    proof {
        lemma_insert_at_pos(e, out@, *by);
    }
    let ghost s = out@;
    let mut j: usize = 0;
    while j < out.len() && le_by(&out[j], &e, by)
        invariant
            0 <= j <= s.len(),
            out@ == s,
            j <= insert_pos(e, s, *by),
            forall|k: int| 0 <= k < j ==> le_spec(#[trigger] s[k], e, *by),
        decreases s.len() - j,
    {
        proof {
            lemma_pos_step(e, s, *by, j as int);
        }
        j = j + 1;
    }
    proof {
        lemma_pos_exact(e, s, *by, j as int);
    }
    out.insert(j, e);
    assert(out@ =~= s.take(j as int) + seq![e] + s.skip(j as int));
}

/// The slot is past any leading stretch of elements that come no
/// later than `e`.
proof fn lemma_pos_step(e: Entry, s: Seq<Entry>, by: SortBy, j: int)
    requires
        0 <= j < s.len(),
        forall|k: int| 0 <= k < j ==> le_spec(#[trigger] s[k], e, by),
        le_spec(s[j], e, by),
    ensures
        insert_pos(e, s, by) >= j + 1,
    decreases s.len(),
{
    lemma_insert_at_pos(e, s.drop_first(), by);
    if j > 0 {
        assert forall|k: int| 0 <= k < j - 1 implies le_spec(#[trigger] s.drop_first()[k], e, by) by {
            assert(s.drop_first()[k] == s[k + 1]);
        }
        assert(s.drop_first()[j - 1] == s[j]);
        lemma_pos_step(e, s.drop_first(), by, j - 1);
    }
}

/// A stretch of elements that come no later than `e`, ended by the
/// run's end or by one that does not, pins the slot down.
proof fn lemma_pos_exact(e: Entry, s: Seq<Entry>, by: SortBy, j: int)
    requires
        0 <= j <= s.len(),
        forall|k: int| 0 <= k < j ==> le_spec(#[trigger] s[k], e, by),
        j < s.len() ==> !le_spec(s[j], e, by),
    ensures
        insert_pos(e, s, by) == j,
    decreases s.len(),
{
    if j > 0 {
        assert(forall|k: int|
            0 <= k < s.drop_first().len() ==> #[trigger] s.drop_first()[k] == s[k + 1]);
        lemma_pos_exact(e, s.drop_first(), by, j - 1);
    }
}

/// Sorts sibling entries by the chosen key. The sort is stable:
/// entries with equal keys keep their relative order.
#[verifier::loop_isolation(false)]
pub fn sort_entries(entries: Vec<Entry>, by: &SortBy) -> (r: Vec<Entry>)
    ensures
        r@ == sort_spec(entries@, *by),
{
    let ghost orig = entries@;
    let mut rest = entries;
    let mut out: Vec<Entry> = Vec::new();
    let ghost mut i: int = 0;
    while rest.len() > 0
        invariant
            0 <= i <= orig.len(),
            rest@ == orig.skip(i),
            out@ == sort_spec(orig.take(i), *by),
        decreases rest@.len(),
    {
        let e = rest.remove(0);
        assert(orig.skip(i)[0] == orig[i]);
        assert(orig.skip(i).remove(0) =~= orig.skip(i + 1));
        insert_entry(&mut out, e, by);
        proof {
            assert(orig.take(i + 1).drop_last() =~= orig.take(i));
            assert(orig.take(i + 1).last() == orig[i]);
            i = i + 1;
        }
    }
    assert(orig.skip(orig.len() as int) =~= Seq::<Entry>::empty());
    assert(orig.take(orig.len() as int) =~= orig);
    out
}

} // verus!
