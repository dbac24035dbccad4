use vstd::prelude::*;
use crate::text::{chars_of, chars_to_string, lower_chars, lower_of};

verus! {

/// The kind of a filesystem node. The declaration order is the sort
/// order of kinds: files first, then directories, then symbolic links.
#[derive(Debug, PartialEq, Eq, Structural, Clone, Copy)]
pub enum EntryType {
    File,
    Dir,
    SymLink,
}

/// The position of a kind in the kind order `File < Dir < SymLink`.
pub open spec fn rank(t: EntryType) -> int {
    match t {
        EntryType::File => 0,
        EntryType::Dir => 1,
        EntryType::SymLink => 2,
    }
}

pub fn rank_of(t: &EntryType) -> (r: u8)
    ensures
        r == rank(*t),
{
    match t {
        EntryType::File => 0,
        EntryType::Dir => 1,
        EntryType::SymLink => 2,
    }
}

/// One filesystem node: its name, absolute path, kind, size in bytes,
/// modification time in seconds, and the nodes found inside it.
pub struct Entry {
    pub name: String,
    pub path: String,
    pub ty: EntryType,
    pub size: u64,
    pub date: u64,
    pub childs: Vec<Entry>,
}

/// Shape invariant of an entry tree: only directories carry children.
pub open spec fn entry_wf(e: Entry) -> bool
    decreases e,
{
    &&& (e.ty != EntryType::Dir ==> e.childs@.len() == 0)
    &&& (forall|i: int|
        0 <= i < e.childs@.len() ==> entry_wf(#[trigger] e.childs@[i]))
}

/// A name is hidden when its first character is a dot. The check is
/// purely name-based.
pub open spec fn is_hidden(name: Seq<char>) -> bool {
    name.len() > 0 && name[0] == '.'
}

/// Whether an entry with this name stays in a listing: nameless entries
/// are always dropped, hidden ones only when `include_hidden` is false.
pub open spec fn keep(name: Seq<char>, include_hidden: bool) -> bool {
    name.len() > 0 && (include_hidden || !is_hidden(name))
}

pub fn name_kept(name: &String, include_hidden: bool) -> (r: bool)
    ensures
        r == keep(name@, include_hidden),
{
    let n = name.as_str().unicode_len();
    if n == 0 {
        return false;
    }
    if include_hidden {
        return true;
    }
    let first = name.as_str().get_char(0);
    first != '.'
}

/// The lowercased extension of a file name: the case-folded text after
/// the last dot, or nothing when the name has no dot.
pub open spec fn ext_spec(name: Seq<char>) -> Option<Seq<char>> {
    if exists|i: int| 0 <= i < name.len() && name[i] == '.' {
        let last = last_dot(name);
        Some(lower_of(name.skip(last + 1)))
    } else {
        None
    }
}

/// The index of the last dot in a name that holds one.
pub open spec fn last_dot(name: Seq<char>) -> int {
    choose|i: int|
        0 <= i < name.len() && name[i] == '.' && (forall|j: int|
            i < j < name.len() ==> name[j] != '.')
}

proof fn lemma_last_dot_exists(name: Seq<char>, k: int)
    requires
        0 <= k < name.len(),
        name[k] == '.',
    ensures
        exists|i: int|
            0 <= i < name.len() && name[i] == '.' && (forall|j: int|
                i < j < name.len() ==> name[j] != '.'),
    decreases name.len() - k,
{
    if exists|j: int| k < j < name.len() && name[j] == '.' {
        let j = choose|j: int| k < j < name.len() && name[j] == '.';
        lemma_last_dot_exists(name, j);
    } else {
        assert(0 <= k < name.len() && name[k] == '.' && (forall|j: int|
            k < j < name.len() ==> name[j] != '.'));
    }
}

/// The lowercased extension of a file name, if it has one.
pub fn extension_of(name: &String) -> (r: Option<String>)
    ensures
        match r {
            Some(e) => ext_spec(name@) matches Some(x) && e@ == x,
            None => ext_spec(name@) is None,
        },
{
    let cs = chars_of(name.as_str());
    let n = cs.len();
    let mut i: usize = n;
    // scan backwards for the last dot
    while i > 0
        invariant
            i <= n,
            n == cs@.len(),
            cs@ == name@,
            forall|j: int| i <= j < n ==> cs@[j] != '.',
        decreases i,
    {
        i = i - 1;
        if cs[i] == '.' {
            proof {
                lemma_last_dot_exists(name@, i as int);
                assert(last_dot(name@) == i as int) by {
                    let ld = last_dot(name@);
                    assert(0 <= ld < name@.len() && name@[ld] == '.' && (forall|j: int|
                        ld < j < name@.len() ==> name@[j] != '.'));
                }
                assert(ext_spec(name@) is Some);
            }
            let mut suffix: Vec<char> = Vec::new();
            let mut j: usize = i + 1;
            while j < n
                invariant
                    i + 1 <= j <= n,
                    n == cs@.len(),
                    cs@ == name@,
                    suffix@ == name@.skip(i + 1).take(j - (i + 1)),
                decreases n - j,
            {
                suffix.push(cs[j]);
                assert(suffix@ =~= name@.skip(i + 1).take(j + 1 - (i + 1)));
                j = j + 1;
            }
            assert(suffix@ =~= name@.skip(i + 1));
            let s = chars_to_string(&suffix);
            let lowered = lower_chars(s.as_str());
            let r = chars_to_string(&lowered);
            return Some(r);
        }
    }
    assert(forall|j: int| 0 <= j < name@.len() ==> name@[j] != '.');
    None
}

} // verus!
