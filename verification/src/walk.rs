use vstd::prelude::*;
use crate::entry::{entry_wf, keep, name_kept, Entry, EntryType};

verus! {

/// How a walked tree relates to the scan it came from: the entry's
/// own fields are kept; a directory's children are walked with one
/// level of budget spent, as long as budget remains; everything else
/// is left childless.
pub open spec fn walk_rel(e: Entry, r: Entry, h: bool, d: nat) -> bool
    decreases e,
{
    &&& r.name == e.name
    &&& r.path == e.path
    &&& r.ty == e.ty
    &&& r.size == e.size
    &&& r.date == e.date
    &&& if e.ty is Dir && d > 0 {
        walk_list_rel(e.childs@, r.childs@, h, (d - 1) as nat)
    } else {
        r.childs@.len() == 0
    }
}

/// How a walked run of siblings relates to the scanned run: each
/// scanned entry that the visibility rule keeps appears, walked, in
/// order; the others are dropped.
pub open spec fn walk_list_rel(s: Seq<Entry>, out: Seq<Entry>, h: bool, d: nat) -> bool
    decreases s,
{
    if s.len() == 0 {
        out.len() == 0
    } else if keep(s[0].name@, h) {
        &&& out.len() > 0
        &&& walk_rel(s[0], out[0], h, d)
        &&& walk_list_rel(s.drop_first(), out.drop_first(), h, d)
    } else {
        walk_list_rel(s.drop_first(), out, h, d)
    }
}

proof fn lemma_walk_list_snoc_kept(
    s: Seq<Entry>,
    out: Seq<Entry>,
    e: Entry,
    r: Entry,
    h: bool,
    d: nat,
)
    requires
        walk_list_rel(s, out, h, d),
        keep(e.name@, h),
        walk_rel(e, r, h, d),
    ensures
        walk_list_rel(s.push(e), out.push(r), h, d),
    decreases s.len(),
{
    if s.len() == 0 {
        assert(out.len() == 0);
        assert(s.push(e)[0] == e);
        assert(out.push(r)[0] == r);
        assert(s.push(e).drop_first() =~= Seq::<Entry>::empty());
        assert(out.push(r).drop_first() =~= Seq::<Entry>::empty());
        assert(walk_list_rel(Seq::<Entry>::empty(), Seq::<Entry>::empty(), h, d));
    } else {
        assert(s.push(e)[0] == s[0]);
        assert(s.push(e).drop_first() =~= s.drop_first().push(e));
        if keep(s[0].name@, h) {
            assert(out.push(r)[0] == out[0]);
            assert(out.push(r).drop_first() =~= out.drop_first().push(r));
            lemma_walk_list_snoc_kept(s.drop_first(), out.drop_first(), e, r, h, d);
        } else {
            lemma_walk_list_snoc_kept(s.drop_first(), out, e, r, h, d);
        }
    }
}

proof fn lemma_walk_list_snoc_dropped(s: Seq<Entry>, out: Seq<Entry>, e: Entry, h: bool, d: nat)
    requires
        walk_list_rel(s, out, h, d),
        !keep(e.name@, h),
    ensures
        walk_list_rel(s.push(e), out, h, d),
    decreases s.len(),
{
    if s.len() == 0 {
        assert(s.push(e)[0] == e);
        assert(s.push(e).drop_first() =~= Seq::<Entry>::empty());
        assert(walk_list_rel(Seq::<Entry>::empty(), out, h, d));
    } else {
        assert(s.push(e)[0] == s[0]);
        assert(s.push(e).drop_first() =~= s.drop_first().push(e));
        if keep(s[0].name@, h) {
            lemma_walk_list_snoc_dropped(s.drop_first(), out.drop_first(), e, h, d);
        } else {
            lemma_walk_list_snoc_dropped(s.drop_first(), out, e, h, d);
        }
    }
}

/// Walks one visible entry: cuts its subtree to the depth budget and
/// drops what the visibility rule hides.
fn walk_visible(e: Entry, include_hidden: bool, max_depth: u64) -> (r: Entry)
    ensures
        walk_rel(e, r, include_hidden, max_depth as nat),
    decreases max_depth, 0int,
{
    let Entry { name, path, ty, size, date, childs } = e;
    let is_dir = matches!(ty, EntryType::Dir);
    let new_childs = if is_dir && max_depth > 0 {
        walk_children(childs, include_hidden, max_depth - 1)
    } else {
        Vec::new()
    };
    Entry { name, path, ty, size, date, childs: new_childs }
}

/// Walks a scanned run of sibling entries: keeps those the visibility
/// rule allows, in order, each cut to the depth budget. A directory
/// listed with budget 0 is kept but left childless.
#[verifier::loop_isolation(false)]
pub fn walk_children(entries: Vec<Entry>, include_hidden: bool, max_depth: u64) -> (out: Vec<
    Entry,
>)
    ensures
        walk_list_rel(entries@, out@, include_hidden, max_depth as nat),
    decreases max_depth, 1int,
{
    let ghost orig = entries@;
    let mut rest = entries;
    let mut out: Vec<Entry> = Vec::new();
    let ghost mut i: int = 0;
    while rest.len() > 0
        invariant
            0 <= i <= orig.len(),
            rest@ == orig.skip(i),
            walk_list_rel(orig.take(i), out@, include_hidden, max_depth as nat),
        decreases rest@.len(),
    {
        let e = rest.remove(0);
        assert(orig.skip(i)[0] == orig[i]);
        assert(orig.skip(i).remove(0) =~= orig.skip(i + 1));
        let ghost out_pre = out@;
        if name_kept(&e.name, include_hidden) {
            let r = walk_visible(e, include_hidden, max_depth);
            out.push(r);
            proof {
                lemma_walk_list_snoc_kept(
                    orig.take(i),
                    out_pre,
                    e,
                    r,
                    include_hidden,
                    max_depth as nat,
                );
            }
        } else {
            proof {
                lemma_walk_list_snoc_dropped(orig.take(i), out@, e, include_hidden, max_depth as nat);
            }
        }
        proof {
            assert(orig.take(i + 1) =~= orig.take(i).push(orig[i]));
            i = i + 1;
        }
    }
    assert(orig.take(orig.len() as int) =~= orig);
    out
}

/// Walks a scanned root entry: nothing comes back when the root's own
/// name is dropped by the visibility rule; otherwise the tree, cut to
/// the depth budget, with hidden names dropped throughout.
pub fn walk(root: Entry, include_hidden: bool, max_depth: u64) -> (r: Option<Entry>)
    ensures
        match r {
            Some(w) => keep(root.name@, include_hidden) && walk_rel(
                root,
                w,
                include_hidden,
                max_depth as nat,
            ),
            None => !keep(root.name@, include_hidden),
        },
{
    if name_kept(&root.name, include_hidden) {
        Some(walk_visible(root, include_hidden, max_depth))
    } else {
        None
    }
}

/// With no recursion budget, every walked entry is childless — a
/// directory one level down is still listed, but its contents are not.
pub proof fn lemma_walk_depth_zero(s: Seq<Entry>, out: Seq<Entry>, h: bool)
    requires
        walk_list_rel(s, out, h, 0),
    ensures
        forall|i: int| 0 <= i < out.len() ==> (#[trigger] out[i]).childs@.len() == 0,
    decreases s.len(),
{
    if s.len() > 0 {
        if keep(s[0].name@, h) {
            lemma_walk_depth_zero(s.drop_first(), out.drop_first(), h);
            assert forall|i: int| 0 <= i < out.len() implies (#[trigger] out[i]).childs@.len()
                == 0 by {
                if i > 0 {
                    assert(out.drop_first()[i - 1] == out[i]);
                } else {
                    assert(walk_rel(s[0], out[0], h, 0));
                }
            }
        } else {
            lemma_walk_depth_zero(s.drop_first(), out, h);
        }
    }
}

/// The names a run of entries shows, in order.
pub open spec fn names_of(s: Seq<Entry>) -> Seq<Seq<char>>
    decreases s,
{
    if s.len() == 0 {
        Seq::empty()
    } else {
        seq![s[0].name@] + names_of(s.drop_first())
    }
}

/// The names of the entries the visibility rule keeps, in order.
pub open spec fn kept_names(s: Seq<Entry>, h: bool) -> Seq<Seq<char>>
    decreases s,
{
    if s.len() == 0 {
        Seq::empty()
    } else {
        (if keep(s[0].name@, h) {
            seq![s[0].name@]
        } else {
            Seq::empty()
        }) + kept_names(s.drop_first(), h)
    }
}

/// A walked run lists exactly the names the visibility rule keeps, in
/// order: a hidden name is present exactly when hidden entries were
/// asked for (and an entry with no name never is).
pub proof fn lemma_walk_names(s: Seq<Entry>, out: Seq<Entry>, h: bool, d: nat)
    requires
        walk_list_rel(s, out, h, d),
    ensures
        names_of(out) == kept_names(s, h),
    decreases s.len(),
{
    if s.len() == 0 {
        assert(names_of(out) =~= kept_names(s, h));
    } else if keep(s[0].name@, h) {
        lemma_walk_names(s.drop_first(), out.drop_first(), h, d);
        assert(walk_rel(s[0], out[0], h, d));
        assert(out[0].name@ == s[0].name@);
        assert(names_of(out) =~= seq![out[0].name@] + names_of(out.drop_first()));
        assert(names_of(out) =~= kept_names(s, h));
    } else {
        lemma_walk_names(s.drop_first(), out, h, d);
        assert(names_of(out) =~= kept_names(s, h));
    }
}

proof fn lemma_names_of_len(s: Seq<Entry>)
    ensures
        names_of(s).len() == s.len(),
    decreases s.len(),
{
    if s.len() > 0 {
        lemma_names_of_len(s.drop_first());
    }
}

proof fn lemma_names_of_index(s: Seq<Entry>, j: int)
    requires
        0 <= j < s.len(),
    ensures
        names_of(s)[j] == s[j].name@,
    decreases j,
{
    lemma_names_of_len(s.drop_first());
    if j == 0 {
        assert(names_of(s)[0] == s[0].name@);
    } else {
        lemma_names_of_index(s.drop_first(), j - 1);
        assert(s.drop_first()[j - 1] == s[j]);
        assert(names_of(s)[j] == names_of(s.drop_first())[j - 1]);
    }
}

proof fn lemma_kept_names_member(s: Seq<Entry>, h: bool, i: int)
    requires
        0 <= i < s.len(),
        keep(s[i].name@, h),
    ensures
        exists|j: int|
            0 <= j < kept_names(s, h).len() && #[trigger] kept_names(s, h)[j] == s[i].name@,
    decreases i,
{
    if i == 0 {
        assert(kept_names(s, h)[0] == s[0].name@);
    } else {
        assert(s.drop_first()[i - 1] == s[i]);
        lemma_kept_names_member(s.drop_first(), h, i - 1);
        let j = choose|j: int|
            0 <= j < kept_names(s.drop_first(), h).len() && #[trigger] kept_names(
                s.drop_first(),
                h,
            )[j] == s.drop_first()[i - 1].name@;
        let head: Seq<Seq<char>> = if keep(s[0].name@, h) {
            seq![s[0].name@]
        } else {
            Seq::empty()
        };
        assert(kept_names(s, h)[head.len() + j] == kept_names(s.drop_first(), h)[j]);
    }
}

/// With hidden entries included, nothing named is dropped: every
/// scanned entry that bears a name — a hidden one too — appears in
/// the walked run under that name.
pub proof fn lemma_walk_includes_hidden(s: Seq<Entry>, out: Seq<Entry>, d: nat, i: int)
    requires
        walk_list_rel(s, out, true, d),
        0 <= i < s.len(),
        s[i].name@.len() > 0,
    ensures
        exists|j: int| 0 <= j < out.len() && (#[trigger] out[j]).name@ == s[i].name@,
{
    lemma_walk_names(s, out, true, d);
    assert(keep(s[i].name@, true));
    lemma_kept_names_member(s, true, i);
    let j = choose|j: int|
        0 <= j < kept_names(s, true).len() && #[trigger] kept_names(s, true)[j] == s[i].name@;
    lemma_names_of_len(out);
    lemma_names_of_index(out, j);
    assert(out[j].name@ == s[i].name@);
}

/// No entry anywhere in the tree has a hidden or empty name.
pub open spec fn no_hidden_tree(e: Entry) -> bool
    decreases e,
{
    forall|i: int|
        0 <= i < e.childs@.len() ==> keep((#[trigger] e.childs@[i]).name@, false) && no_hidden_tree(
            e.childs@[i],
        )
}

/// Walking without hidden entries shows none, at every depth.
pub proof fn lemma_walk_tree_no_hidden(e: Entry, r: Entry, d: nat)
    requires
        walk_rel(e, r, false, d),
    ensures
        no_hidden_tree(r),
    decreases e,
{
    if e.ty is Dir && d > 0 {
        lemma_walk_list_no_hidden(e.childs@, r.childs@, (d - 1) as nat);
    }
}

/// Walking a run without hidden entries shows none, at every depth.
pub proof fn lemma_walk_list_no_hidden(s: Seq<Entry>, out: Seq<Entry>, d: nat)
    requires
        walk_list_rel(s, out, false, d),
    ensures
        forall|i: int|
            0 <= i < out.len() ==> keep((#[trigger] out[i]).name@, false) && no_hidden_tree(out[i]),
    decreases s,
{
    if s.len() > 0 {
        if keep(s[0].name@, false) {
            lemma_walk_tree_no_hidden(s[0], out[0], d);
            lemma_walk_list_no_hidden(s.drop_first(), out.drop_first(), d);
            assert forall|i: int| 0 <= i < out.len() implies keep(
                (#[trigger] out[i]).name@,
                false,
            ) && no_hidden_tree(out[i]) by {
                if i > 0 {
                    assert(out.drop_first()[i - 1] == out[i]);
                } else {
                    assert(walk_rel(s[0], out[0], false, d));
                    assert(out[0].name@ == s[0].name@);
                }
            }
        } else {
            lemma_walk_list_no_hidden(s.drop_first(), out, d);
        }
    }
}

/// Every entry in the tree, to depth `d`, carries a non-empty name.
pub open spec fn all_named(s: Seq<Entry>) -> bool
    decreases s,
{
    forall|i: int|
        0 <= i < s.len() ==> (#[trigger] s[i]).name@.len() > 0 && all_named(s[i].childs@)
}

/// How a tree cut only by depth relates to its source: everything is
/// kept; children vanish exactly where the budget runs out.
pub open spec fn depth_cut_rel(s: Seq<Entry>, out: Seq<Entry>, d: nat) -> bool
    decreases s,
{
    &&& out.len() == s.len()
    &&& forall|i: int|
        0 <= i < s.len() ==> {
            let e = #[trigger] s[i];
            let r = out[i];
            &&& r.name == e.name
            &&& r.ty == e.ty
            &&& if e.ty is Dir && d > 0 {
                depth_cut_rel(e.childs@, r.childs@, (d - 1) as nat)
            } else {
                r.childs@.len() == 0
            }
        }
}

/// Walking with hidden entries included drops nothing that bears a
/// name: only the depth budget prunes the tree, at every level.
pub proof fn lemma_walk_keeps_all(s: Seq<Entry>, out: Seq<Entry>, d: nat)
    requires
        walk_list_rel(s, out, true, d),
        all_named(s),
    ensures
        depth_cut_rel(s, out, d),
    decreases s,
{
    if s.len() > 0 {
        assert(s[0].name@.len() > 0);
        assert(keep(s[0].name@, true));
        assert(walk_rel(s[0], out[0], true, d));
        assert(forall|i: int|
            0 <= i < s.drop_first().len() ==> #[trigger] s.drop_first()[i] == s[i + 1]);
        assert forall|i: int|
            0 <= i < s.drop_first().len() implies (#[trigger] s.drop_first()[i]).name@.len() > 0
            && all_named(s.drop_first()[i].childs@) by {
            assert(s.drop_first()[i] == s[i + 1]);
        }
        lemma_walk_keeps_all(s.drop_first(), out.drop_first(), d);
        assert(forall|i: int|
            0 <= i < out.drop_first().len() ==> #[trigger] out.drop_first()[i] == out[i + 1]);
        if s[0].ty is Dir && d > 0 {
            assert(all_named(s[0].childs@));
            lemma_walk_keeps_all(s[0].childs@, out[0].childs@, (d - 1) as nat);
        }
        assert(out.len() == s.len());
        assert forall|i: int| 0 <= i < s.len() implies {
            let e = #[trigger] s[i];
            let r = out[i];
            &&& r.name == e.name
            &&& r.ty == e.ty
            &&& if e.ty is Dir && d > 0 {
                depth_cut_rel(e.childs@, r.childs@, (d - 1) as nat)
            } else {
                r.childs@.len() == 0
            }
        } by {
            if i > 0 {
                assert(s.drop_first()[i - 1] == s[i]);
                assert(out.drop_first()[i - 1] == out[i]);
            }
        }
    }
}

/// Whatever it was given, the walk hands back well-formed trees: only
/// directories carry children.
pub proof fn lemma_walk_tree_wf(e: Entry, r: Entry, h: bool, d: nat)
    requires
        walk_rel(e, r, h, d),
    ensures
        entry_wf(r),
    decreases e,
{
    if e.ty is Dir && d > 0 {
        lemma_walk_list_wf(e.childs@, r.childs@, h, (d - 1) as nat);
    }
}

/// Every tree in a walked run is well-formed.
pub proof fn lemma_walk_list_wf(s: Seq<Entry>, out: Seq<Entry>, h: bool, d: nat)
    requires
        walk_list_rel(s, out, h, d),
    ensures
        forall|i: int| 0 <= i < out.len() ==> entry_wf(#[trigger] out[i]),
    decreases s,
{
    if s.len() > 0 {
        if keep(s[0].name@, h) {
            lemma_walk_tree_wf(s[0], out[0], h, d);
            lemma_walk_list_wf(s.drop_first(), out.drop_first(), h, d);
            assert forall|i: int| 0 <= i < out.len() implies entry_wf(#[trigger] out[i]) by {
                if i > 0 {
                    assert(out.drop_first()[i - 1] == out[i]);
                }
            }
        } else {
            lemma_walk_list_wf(s.drop_first(), out, h, d);
        }
    }
}

} // verus!
