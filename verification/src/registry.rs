use vstd::prelude::*;

verus! {

/// A formatting key: one of the three generic slots, or an extension
/// override for files or directories.
#[derive(Debug, Clone, PartialEq, Eq, Hash)]
pub enum FileType {
    GenericFile,
    GenericDir,
    GenericSymLink,
    OtherDir(String),
    OtherFile(String),
}

/// The first callback an association list holds under a key.
pub open spec fn assoc(ps: Seq<(String, mlua::Function)>, key: Seq<char>) -> Option<mlua::Function>
    decreases ps,
{
    if ps.len() == 0 {
        None
    } else if ps[0].0@ == key {
        Some(ps[0].1)
    } else {
        assoc(ps.drop_first(), key)
    }
}

/// Whether an association list holds each key at most once.
pub open spec fn pairs_wf(ps: Seq<(String, mlua::Function)>) -> bool {
    forall|i: int, j: int| 0 <= i < j < ps.len() ==> (#[trigger] ps[i]).0@ != (#[trigger] ps[j]).0@
}

/// The formatter registry: the three generic slots, always present,
/// and the extension overrides for files and for directory names.
/// Built once, before the first walk, and read-only afterwards.
pub struct FormatterRegistry {
    pub file_default: mlua::Function,
    pub dir_default: mlua::Function,
    pub link_default: mlua::Function,
    pub file_exts: Vec<(String, mlua::Function)>,
    pub dir_exts: Vec<(String, mlua::Function)>,
}

impl FormatterRegistry {
    /// Each extension table holds each key once.
    pub open spec fn wf(self) -> bool {
        pairs_wf(self.file_exts@) && pairs_wf(self.dir_exts@)
    }

    /// The file override installed for an extension, if any.
    pub open spec fn file_ext_map(self, key: Seq<char>) -> Option<mlua::Function> {
        assoc(self.file_exts@, key)
    }

    /// The directory override installed for a name pattern, if any.
    pub open spec fn dir_ext_map(self, key: Seq<char>) -> Option<mlua::Function> {
        assoc(self.dir_exts@, key)
    }

    /// A registry seeded with the three generic callbacks and no
    /// overrides.
    pub fn new(
        file_default: mlua::Function,
        dir_default: mlua::Function,
        link_default: mlua::Function,
    ) -> (r: FormatterRegistry)
        ensures
            r.wf(),
            r.file_default == file_default,
            r.dir_default == dir_default,
            r.link_default == link_default,
            forall|k: Seq<char>| r.file_ext_map(k) is None,
            forall|k: Seq<char>| r.dir_ext_map(k) is None,
    {
        FormatterRegistry {
            file_default,
            dir_default,
            link_default,
            file_exts: Vec::new(),
            dir_exts: Vec::new(),
        }
    }
}

impl FormatterRegistry {
    /// The callback a formatting key selects: a generic key its slot;
    /// an extension key its installed override, or the matching
    /// generic slot when none is installed.
    pub fn lookup<'a>(&'a self, key: &FileType) -> (r: &'a mlua::Function)
        ensures
            *r == match *key {
                FileType::GenericFile => self.file_default,
                FileType::GenericDir => self.dir_default,
                FileType::GenericSymLink => self.link_default,
                FileType::OtherFile(e) => match assoc(self.file_exts@, e@) {
                    Some(f) => f,
                    None => self.file_default,
                },
                FileType::OtherDir(e) => match assoc(self.dir_exts@, e@) {
                    Some(f) => f,
                    None => self.dir_default,
                },
            },
    {
        match key {
            FileType::GenericFile => &self.file_default,
            FileType::GenericDir => &self.dir_default,
            FileType::GenericSymLink => &self.link_default,
            FileType::OtherFile(e) => match lookup_pairs(&self.file_exts, e) {
                Some(f) => f,
                None => &self.file_default,
            },
            FileType::OtherDir(e) => match lookup_pairs(&self.dir_exts, e) {
                Some(f) => f,
                None => &self.dir_default,
            },
        }
    }
}

/// The callback a batch of overrides leaves under a key: the last
/// entry of the batch carrying the key wins; a key the batch never
/// names keeps what was there before.
pub open spec fn override_map(
    adds: Seq<(String, mlua::Function)>,
    k: Seq<char>,
    prior: Option<mlua::Function>,
) -> Option<mlua::Function>
    decreases adds,
{
    if adds.len() == 0 {
        prior
    } else if adds.last().0@ == k {
        Some(adds.last().1)
    } else {
        override_map(adds.drop_last(), k, prior)
    }
}

impl FormatterRegistry {
    /// Installs one registration batch for files: a new generic file
    /// callback when one is given, and the extension overrides in
    /// order, a later entry overwriting an earlier one with the same
    /// key. Nothing else changes.
    #[verifier::loop_isolation(false)]
    pub fn install_file_formats(
        &mut self,
        default: Option<mlua::Function>,
        entries: Vec<(String, mlua::Function)>,
    )
        requires
            old(self).wf(),
        ensures
            final(self).wf(),
            final(self).file_default == (match default {
                Some(f) => f,
                None => old(self).file_default,
            }),
            final(self).dir_default == old(self).dir_default,
            final(self).link_default == old(self).link_default,
            final(self).dir_exts@ == old(self).dir_exts@,
            forall|k: Seq<char>|
                final(self).file_ext_map(k) == override_map(
                    entries@,
                    k,
                    old(self).file_ext_map(k),
                ),
    {
        match default {
            Some(f) => {
                self.file_default = f;
            },
            None => {},
        }
        let ghost adds = entries@;
        let ghost prior = old(self).file_exts@;
        let mut rest = entries;
        let ghost mut i: int = 0;
        while rest.len() > 0
            invariant
                0 <= i <= adds.len(),
                rest@ == adds.skip(i),
                pairs_wf(self.file_exts@),
                self.file_default == (match default {
                    Some(f) => f,
                    None => old(self).file_default,
                }),
                self.dir_default == old(self).dir_default,
                self.link_default == old(self).link_default,
                self.dir_exts@ == old(self).dir_exts@,
                forall|k: Seq<char>|
                    assoc(self.file_exts@, k) == override_map(adds.take(i), k, assoc(prior, k)),
            decreases rest@.len(),
        {
            let (key, f) = rest.remove(0);
            assert(adds.skip(i)[0] == adds[i]);
            assert(adds.skip(i).remove(0) =~= adds.skip(i + 1));
            let ghost before = self.file_exts@;
            upsert_pair(&mut self.file_exts, key, f);
            proof {
                assert(adds.take(i + 1).drop_last() =~= adds.take(i));
                assert(adds.take(i + 1).last() == adds[i]);
                assert forall|k: Seq<char>|
                    assoc(self.file_exts@, k) == override_map(
                        adds.take(i + 1),
                        k,
                        assoc(prior, k),
                    ) by {
                    if k != adds[i].0@ {
                        assert(assoc(self.file_exts@, k) == assoc(before, k));
                    }
                }
                i = i + 1;
            }
        }
        assert(adds.skip(adds.len() as int) =~= Seq::<(String, mlua::Function)>::empty());
        assert(adds.take(adds.len() as int) =~= adds);
    }

    /// Installs one registration batch for directory names, in the
    /// same way. Nothing else changes.
    #[verifier::loop_isolation(false)]
    pub fn install_dir_formats(
        &mut self,
        default: Option<mlua::Function>,
        entries: Vec<(String, mlua::Function)>,
    )
        requires
            old(self).wf(),
        ensures
            final(self).wf(),
            final(self).dir_default == (match default {
                Some(f) => f,
                None => old(self).dir_default,
            }),
            final(self).file_default == old(self).file_default,
            final(self).link_default == old(self).link_default,
            final(self).file_exts@ == old(self).file_exts@,
            forall|k: Seq<char>|
                final(self).dir_ext_map(k) == override_map(entries@, k, old(self).dir_ext_map(k)),
    {
        match default {
            Some(f) => {
                self.dir_default = f;
            },
            None => {},
        }
        let ghost adds = entries@;
        let ghost prior = old(self).dir_exts@;
        let mut rest = entries;
        let ghost mut i: int = 0;
        while rest.len() > 0
            invariant
                0 <= i <= adds.len(),
                rest@ == adds.skip(i),
                pairs_wf(self.dir_exts@),
                self.dir_default == (match default {
                    Some(f) => f,
                    None => old(self).dir_default,
                }),
                self.file_default == old(self).file_default,
                self.link_default == old(self).link_default,
                self.file_exts@ == old(self).file_exts@,
                forall|k: Seq<char>|
                    assoc(self.dir_exts@, k) == override_map(adds.take(i), k, assoc(prior, k)),
            decreases rest@.len(),
        {
            let (key, f) = rest.remove(0);
            assert(adds.skip(i)[0] == adds[i]);
            assert(adds.skip(i).remove(0) =~= adds.skip(i + 1));
            let ghost before = self.dir_exts@;
            upsert_pair(&mut self.dir_exts, key, f);
            proof {
                assert(adds.take(i + 1).drop_last() =~= adds.take(i));
                assert(adds.take(i + 1).last() == adds[i]);
                assert forall|k: Seq<char>|
                    assoc(self.dir_exts@, k) == override_map(
                        adds.take(i + 1),
                        k,
                        assoc(prior, k),
                    ) by {
                    if k != adds[i].0@ {
                        assert(assoc(self.dir_exts@, k) == assoc(before, k));
                    }
                }
                i = i + 1;
            }
        }
        assert(adds.skip(adds.len() as int) =~= Seq::<(String, mlua::Function)>::empty());
        assert(adds.take(adds.len() as int) =~= adds);
    }
}

/// Looks a key up in an association list: the first pair that carries
/// it.
#[verifier::loop_isolation(false)]
pub(crate) fn lookup_pairs<'a>(ps: &'a Vec<(String, mlua::Function)>, key: &String) -> (r: Option<
    &'a mlua::Function,
>)
    ensures
        match r {
            Some(f) => assoc(ps@, key@) == Some(*f),
            None => assoc(ps@, key@) is None,
        },
{
    let n = ps.len();
    let mut i: usize = 0;
    assert(ps@.skip(0) =~= ps@);
    while i < n
        invariant
            i <= n,
            assoc(ps@, key@) == assoc(ps@.skip(i as int), key@),
        decreases n - i,
    {
        assert(ps@.skip(i as int)[0] == ps@[i as int]);
        assert(ps@.skip(i as int).drop_first() =~= ps@.skip(i + 1));
        if ps[i].0 == *key {
            return Some(&ps[i].1);
        }
        i = i + 1;
    }
    assert(ps@.skip(n as int) =~= Seq::<(String, mlua::Function)>::empty());
    None
}

/// Replaces the callback under `key`, or appends the pair when the
/// key is new. Every other key keeps its callback.
#[verifier::loop_isolation(false)]
pub(crate) fn upsert_pair(ps: &mut Vec<(String, mlua::Function)>, key: String, f: mlua::Function)
    requires
        pairs_wf(old(ps)@),
    ensures
        pairs_wf(final(ps)@),
        assoc(final(ps)@, key@) == Some(f),
        forall|k: Seq<char>| k != key@ ==> assoc(final(ps)@, k) == assoc(old(ps)@, k),
{
    let n = ps.len();
    let mut i: usize = 0;
    while i < n
        invariant
            i <= n,
            n == ps@.len(),
            ps@ == old(ps)@,
            forall|k: int| 0 <= k < i ==> (#[trigger] ps@[k]).0@ != key@,
        decreases n - i,
    {
        if ps[i].0 == key {
            let ghost pre = ps@;
            let nk = (key, f);
            ps[i] = nk;
            proof {
                lemma_assoc_update(pre, ps@, i as int, nk);
            }
            return ;
        }
        i = i + 1;
    }
    let ghost pre = ps@;
    assert(pre == old(ps)@);
    ps.push((key, f));
    proof {
        assert(ps@.last() == (key, f));
        lemma_assoc_push(pre, ps@, f);
    }
}

/// Updating the pair at the unique index that carries a key changes
/// only that key's callback.
proof fn lemma_assoc_update(
    pre: Seq<(String, mlua::Function)>,
    post: Seq<(String, mlua::Function)>,
    j: int,
    nk: (String, mlua::Function),
)
    requires
        pairs_wf(pre),
        0 <= j < pre.len(),
        forall|k: int| 0 <= k < j ==> (#[trigger] pre[k]).0@ != pre[j].0@,
        nk.0@ == pre[j].0@,
        post == pre.update(j, nk),
    ensures
        pairs_wf(post),
        assoc(post, pre[j].0@) == Some(nk.1),
        forall|k: Seq<char>| k != pre[j].0@ ==> assoc(post, k) == assoc(pre, k),
    decreases pre.len(),
{
    assert(forall|a: int| 0 <= a < post.len() ==> (#[trigger] post[a]).0@ == pre[a].0@);
    assert(pairs_wf(post));
    if j == 0 {
        assert(post[0] == nk);
        assert(post.drop_first() =~= pre.drop_first());
    } else {
        assert(post[0] == pre[0]);
        assert(post.drop_first() =~= pre.drop_first().update(j - 1, nk));
        assert(forall|k: int|
            0 <= k < pre.drop_first().len() ==> #[trigger] pre.drop_first()[k] == pre[k + 1]);
        assert forall|a: int, b: int| 0 <= a < b < pre.drop_first().len() implies (
        #[trigger] pre.drop_first()[a]).0@ != (#[trigger] pre.drop_first()[b]).0@ by {
            assert(pre.drop_first()[a] == pre[a + 1]);
            assert(pre.drop_first()[b] == pre[b + 1]);
        }
        lemma_assoc_update(pre.drop_first(), post.drop_first(), j - 1, nk);
        assert forall|k: Seq<char>| k != pre[j].0@ implies assoc(post, k) == assoc(pre, k) by {
            if pre[0].0@ != k {
                assert(assoc(post, k) == assoc(post.drop_first(), k));
            }
        }
    }
}

/// Appending a pair under a fresh key adds that key and changes no
/// other.
proof fn lemma_assoc_push(
    pre: Seq<(String, mlua::Function)>,
    post: Seq<(String, mlua::Function)>,
    f: mlua::Function,
)
    requires
        pairs_wf(pre),
        post.len() == pre.len() + 1,
        post == pre.push(post.last()),
        forall|k: int| 0 <= k < pre.len() ==> (#[trigger] pre[k]).0@ != post.last().0@,
    ensures
        pairs_wf(post),
        assoc(post, post.last().0@) == Some(post.last().1),
        forall|k: Seq<char>| k != post.last().0@ ==> assoc(post, k) == assoc(pre, k),
    decreases pre.len(),
{
    assert(forall|a: int| 0 <= a < pre.len() ==> #[trigger] post[a] == pre[a]);
    assert(pairs_wf(post));
    if pre.len() == 0 {
        assert(post[0] == post.last());
        assert(post.drop_first() =~= Seq::<(String, mlua::Function)>::empty());
        assert forall|k: Seq<char>| k != post.last().0@ implies assoc(post, k) == assoc(
            pre,
            k,
        ) by {
            assert(assoc(post.drop_first(), k) is None);
        }
    } else {
        assert(post[0] == pre[0]);
        assert(post.drop_first() =~= pre.drop_first().push(post.last()));
        assert(forall|k: int|
            0 <= k < pre.drop_first().len() ==> #[trigger] pre.drop_first()[k] == pre[k + 1]);
        assert forall|a: int, b: int| 0 <= a < b < pre.drop_first().len() implies (
        #[trigger] pre.drop_first()[a]).0@ != (#[trigger] pre.drop_first()[b]).0@ by {
            assert(pre.drop_first()[a] == pre[a + 1]);
            assert(pre.drop_first()[b] == pre[b + 1]);
        }
        lemma_assoc_push(pre.drop_first(), post.drop_first(), f);
        assert forall|k: Seq<char>| k != post.last().0@ implies assoc(post, k) == assoc(
            pre,
            k,
        ) by {
            if pre[0].0@ != k {
                assert(assoc(post, k) == assoc(post.drop_first(), k));
                assert(assoc(pre, k) == assoc(pre.drop_first(), k));
            }
        }
    }
}

} // verus!
