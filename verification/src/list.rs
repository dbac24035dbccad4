use vstd::prelude::*;
use crate::cells::{Format, FormatterError};
use crate::entry::Entry;
use crate::fmt::{build_format, format_mirrors};
use crate::registry::FormatterRegistry;
use crate::render::{forest_spec, grid_spec, rec_format_format, render_grid};
use crate::sort::{kids_rel, sort_entries, sort_entry_tree, sort_spec, tree_sort_rel, SortBy};
use crate::text::chars_to_string;
use crate::walk::{walk_children, walk_list_rel};

verus! {

/// One listing request: the sort key, the recursion depth, the
/// explicit list flag, whether hidden entries are included, and the
/// target paths.
#[derive(Debug, Clone)]
pub struct List {
    pub sort_by: SortBy,
    pub recursive: u64,
    pub list: bool,
    pub hidden: bool,
    pub paths: Vec<String>,
}

impl List {
    /// Recursive (tree) output is chosen by the explicit flag, by any
    /// recursion depth, or by more than one target path; otherwise
    /// the grid.
    pub open spec fn list_mode_spec(self) -> bool {
        self.list || self.recursive > 0 || self.paths@.len() > 1
    }

    pub fn use_list_mode(&self) -> (r: bool)
        ensures
            r == self.list_mode_spec(),
    {
        self.list || self.recursive > 0 || self.paths.len() > 1
    }

    /// How a finished listing relates to the scanned entries: they
    /// were walked under this request's visibility and depth, each
    /// kept tree was sorted by this request's key, the trees were
    /// ordered among each other by the same key, and one format was
    /// built per tree, in order.
    pub open spec fn listing_rel(self, entries: Seq<Entry>, v: Seq<Format>) -> bool {
        exists|walked: Seq<Entry>, mid: Seq<Entry>|
            #![trigger walk_list_rel(entries, walked, self.hidden, self.recursive as nat), kids_rel(walked, mid, self.sort_by)]
            {
                &&& walk_list_rel(entries, walked, self.hidden, self.recursive as nat)
                &&& kids_rel(walked, mid, self.sort_by)
                &&& v.len() == sort_spec(mid, self.sort_by).len()
                &&& (forall|i: int|
                    0 <= i < v.len() ==> format_mirrors(
                        sort_spec(mid, self.sort_by)[i],
                        #[trigger] v[i],
                    ))
            }
    }

    /// The listing pipeline for one directory's scanned children:
    /// walk, sort, and build, in that order. The first formatting
    /// error aborts the whole listing.
    #[verifier::loop_isolation(false)]
    pub fn get_formats(&self, entries: Vec<Entry>, reg: &FormatterRegistry) -> (r: Result<
        Vec<Format>,
        FormatterError,
    >)
        ensures
            r matches Ok(v) ==> self.listing_rel(entries@, v@),
            entries@.len() == 0 ==> r is Ok && r->Ok_0@.len() == 0,
    {
        let ghost entries_s = entries@;
        let walked = walk_children(entries, self.hidden, self.recursive);
        let ghost walked_s = walked@;
        let mut rest = walked;
        let mut mid: Vec<Entry> = Vec::new();
        let ghost mut i: int = 0;
        while rest.len() > 0
            invariant
                0 <= i <= walked_s.len(),
                rest@ == walked_s.skip(i),
                mid@.len() == i,
                forall|k: int|
                    0 <= k < i ==> tree_sort_rel(#[trigger] walked_s[k], mid@[k], self.sort_by),
            decreases rest@.len(),
        {
            let c = rest.remove(0);
            assert(walked_s.skip(i)[0] == walked_s[i]);
            assert(walked_s.skip(i).remove(0) =~= walked_s.skip(i + 1));
            let sc = sort_entry_tree(c, &self.sort_by);
            mid.push(sc);
            proof {
                i = i + 1;
            }
        }
        assert(walked_s.skip(walked_s.len() as int) =~= Seq::<Entry>::empty());
        let ghost mid_s = mid@;
        let sorted = sort_entries(mid, &self.sort_by);
        let ghost sorted_s = sorted@;
        let mut rest2 = sorted;
        let mut v: Vec<Format> = Vec::new();
        let ghost mut j: int = 0;
        while rest2.len() > 0
            invariant
                0 <= j <= sorted_s.len(),
                rest2@ == sorted_s.skip(j),
                v@.len() == j,
                forall|k: int| 0 <= k < j ==> format_mirrors(#[trigger] sorted_s[k], v@[k]),
            decreases rest2@.len(),
        {
            let e = rest2.remove(0);
            assert(sorted_s.skip(j)[0] == sorted_s[j]);
            assert(sorted_s.skip(j).remove(0) =~= sorted_s.skip(j + 1));
            match build_format(&e, reg) {
                Ok(f) => {
                    v.push(f);
                },
                Err(er) => {
                    return Err(er);
                },
            }
            proof {
                j = j + 1;
            }
        }
        assert(sorted_s.skip(sorted_s.len() as int) =~= Seq::<Entry>::empty());
        proof {
            if entries_s.len() == 0 {
                assert(walked_s.len() == 0);
                assert(mid_s.len() == 0);
                assert(sort_spec(mid_s, self.sort_by) == Seq::<Entry>::empty());
                assert(v@.len() == 0);
            }
            assert(kids_rel(walked_s, mid_s, self.sort_by));
            assert(walk_list_rel(entries_s, walked_s, self.hidden, self.recursive as nat)
                && kids_rel(walked_s, mid_s, self.sort_by) && v@.len() == sort_spec(
                mid_s,
                self.sort_by,
            ).len() && (forall|i: int|
                0 <= i < v@.len() ==> format_mirrors(
                    sort_spec(mid_s, self.sort_by)[i],
                    #[trigger] v@[i],
                )));
        }
        Ok(v)
    }

    /// The text of a finished listing: in recursive mode each format
    /// as an indented tree, one after the other; in grid mode the run
    /// packed into rows that fit the terminal width.
    #[verifier::loop_isolation(false)]
    pub fn render(&self, formats: &Vec<Format>, term_cols: u16) -> (out: String)
        requires
            forall|i: int|
                0 <= i < formats@.len() ==> (#[trigger] formats@[i].v)@.len() < usize::MAX,
        ensures
            out@ == if self.list_mode_spec() {
                forest_spec(formats@, 0)
            } else {
                grid_spec(formats@, term_cols)
            },
    {
        if self.use_list_mode() {
            let mut out: Vec<char> = Vec::new();
            let n = formats.len();
            let mut i: usize = 0;
            assert(formats@.skip(0) =~= formats@);
            assert(out@ + forest_spec(formats@, 0) =~= forest_spec(formats@, 0));
            while i < n
                invariant
                    i <= n,
                    out@ + forest_spec(formats@.skip(i as int), 0) == forest_spec(formats@, 0),
                decreases n - i,
            {
                assert(formats@.skip(i as int)[0] == formats@[i as int]);
                assert(formats@.skip(i as int).drop_first() =~= formats@.skip(i + 1));
                rec_format_format(&formats[i], 0, &mut out);
                i = i + 1;
            }
            assert(formats@.skip(n as int) =~= Seq::<Format>::empty());
            assert(out@ + forest_spec(formats@.skip(n as int), 0) =~= out@);
            chars_to_string(&out)
        } else {
            let out = render_grid(formats, term_cols);
            chars_to_string(&out)
        }
    }
}

} // verus!
