//! The registry: the sources in the order they were registered, which is
//! also their order of priority (the one registered last comes first).
use vstd::prelude::*;

use crate::source::FileSource;

verus! {

/// Why a change to the registry was refused.
#[derive(Debug, Clone, PartialEq, Eq)]
pub enum L10nRegistrySetupError {
    /// A solve holds the registry.
    RegistryLocked,
    /// A source of this name is registered already.
    DuplicatedSource { name: String },
    /// No source of this name is registered.
    MissingSource { name: String },
}

/// The names of `sources`, in order.
pub open spec fn names_of(sources: Seq<FileSource>) -> Seq<Seq<char>> {
    sources.map_values(|s: FileSource| s.name@)
}

/// Source `i` of `new` has a name that is registered already or that an
/// earlier one of `new` has.
pub open spec fn is_duplicate(existing: Seq<Seq<char>>, new: Seq<FileSource>, i: int) -> bool {
    existing.contains(new[i].name@) || exists|j: int| 0 <= j < i && (#[trigger] new[j]).name@ == new[i].name@
}

/// `sources` without those whose name is in `names`, in order.
pub open spec fn kept(sources: Seq<FileSource>, names: Seq<Seq<char>>) -> Seq<FileSource>
    decreases sources.len(),
{
    if sources.len() == 0 {
        Seq::empty()
    } else {
        let rest = kept(sources.drop_last(), names);
        if names.contains(sources.last().name@) {
            rest
        } else {
            rest.push(sources.last())
        }
    }
}

/// The ordered sources and the number of solves that hold them.
pub struct L10nRegistry {
    pub sources: Vec<FileSource>,
    pub locks: usize,
}

impl L10nRegistry {
    /// The names of the sources, in order.
    pub open spec fn names(&self) -> Seq<Seq<char>> {
        names_of(self.sources@)
    }

    /// Every source is well formed and no two share a name.
    pub open spec fn wf(&self) -> bool {
        &&& forall|i: int| 0 <= i < self.sources@.len() ==> (#[trigger] self.sources@[i]).wf()
        &&& forall|i: int, j: int|
            0 <= i < j < self.sources@.len() ==> (#[trigger] self.sources@[i]).name@ != (#[trigger] self.sources@[j]).name@
    }

    /// An empty registry.
    pub fn new() -> (r: L10nRegistry)
        ensures
            r.wf(),
            r.sources@.len() == 0,
            r.locks == 0,
    {
        L10nRegistry { sources: Vec::new(), locks: 0 }
    }

    /// Takes a hold on the sources for one solve.
    pub fn lock(&mut self)
        requires
            old(self).locks < usize::MAX,
        ensures
            final(self).sources == old(self).sources,
            final(self).locks == old(self).locks + 1,
    {
        self.locks = self.locks + 1;
    }

    /// Releases a hold taken by `lock`.
    pub fn unlock(&mut self)
        requires
            old(self).locks > 0,
        ensures
            final(self).sources == old(self).sources,
            final(self).locks == old(self).locks - 1,
    {
        self.locks = self.locks - 1;
    }

    /// Some solve holds the sources.
    pub fn is_locked(&self) -> (b: bool)
        ensures
            b == (self.locks > 0),
    {
        self.locks > 0
    }

    /// The number of sources.
    pub fn len(&self) -> (n: usize)
        ensures
            n == self.sources@.len(),
    {
        self.sources.len()
    }

    /// There are no sources.
    pub fn is_empty(&self) -> (b: bool)
        ensures
            b == (self.sources@.len() == 0),
    {
        self.sources.len() == 0
    }

    fn position(&self, name: &String) -> (r: Option<usize>)
        ensures
            match r {
                Some(i) => i < self.sources@.len() && self.sources@[i as int].name@ == name@,
                None => forall|i: int| 0 <= i < self.sources@.len() ==> (#[trigger] self.sources@[i]).name@ != name@,
            },
    {
        let mut i: usize = 0;
        while i < self.sources.len()
            invariant
                i <= self.sources@.len(),
                forall|j: int| 0 <= j < i ==> (#[trigger] self.sources@[j]).name@ != name@,
            decreases self.sources@.len() - i,
        {
            if self.sources[i].name == *name {
                return Some(i);
            }
            i = i + 1;
        }
        None
    }

    /// Appends `new_sources`, in order. Refused, with nothing changed, while
    /// the registry is locked, or when a name is registered already or
    /// repeated among `new_sources`; the error names the first such source.
    pub fn register_sources(&mut self, new_sources: Vec<FileSource>) -> (r: Result<
        (),
        L10nRegistrySetupError,
    >)
        requires
            old(self).wf(),
            forall|i: int| 0 <= i < new_sources@.len() ==> (#[trigger] new_sources@[i]).wf(),
        ensures
            final(self).wf(),
            final(self).locks == old(self).locks,
            old(self).locks > 0 ==> r == Err::<(), L10nRegistrySetupError>(
                L10nRegistrySetupError::RegistryLocked,
            ),
            r == Err::<(), L10nRegistrySetupError>(L10nRegistrySetupError::RegistryLocked) ==> old(self).locks > 0,
            r is Ok <==> old(self).locks == 0 && forall|i: int|
                0 <= i < new_sources@.len() ==> !is_duplicate(old(self).names(), new_sources@, i),
            r is Ok ==> final(self).sources@ == old(self).sources@ + new_sources@,
            r is Err ==> final(self).sources == old(self).sources,
            r matches Err(L10nRegistrySetupError::DuplicatedSource { name }) ==> exists|i: int|
                0 <= i < new_sources@.len() && is_duplicate(old(self).names(), new_sources@, i)
                    && (forall|j: int| 0 <= j < i ==> !is_duplicate(old(self).names(), new_sources@, j))
                    && name@ == new_sources@[i].name@,
            r matches Err(L10nRegistrySetupError::MissingSource { .. }) ==> false,
    {
        if self.locks > 0 {
            return Err(L10nRegistrySetupError::RegistryLocked);
        }
        let mut i: usize = 0;
        while i < new_sources.len()
            invariant
                *self == *old(self),
                old(self).wf(),
                self.locks == 0,
                i <= new_sources@.len(),
                forall|j: int| 0 <= j < i ==> !is_duplicate(old(self).names(), new_sources@, j),
            decreases new_sources@.len() - i,
        {
            let name = &new_sources[i].name;
            let dup_existing = self.position(name);
            let mut earlier = false;
            let mut j: usize = 0;
            while j < i
                invariant
                    i < new_sources@.len(),
                    j <= i,
                    *name == new_sources@[i as int].name,
                    !earlier ==> forall|x: int| 0 <= x < j ==> (#[trigger] new_sources@[x]).name@ != new_sources@[i as int].name@,
                    earlier ==> exists|x: int| 0 <= x < i && (#[trigger] new_sources@[x]).name@ == new_sources@[i as int].name@,
                decreases i - j,
            {
                if new_sources[j].name == *name {
                    earlier = true;
                }
                j = j + 1;
            }
            proof {
                let nm = new_sources@[i as int].name@;
                match dup_existing {
                    Some(k) => {
                        assert(old(self).names()[k as int] == nm);
                    },
                    None => {
                        if old(self).names().contains(nm) {
                            let k = choose|k: int| 0 <= k < old(self).names().len() && old(self).names()[k] == nm;
                            assert(self.sources@[k].name@ == nm);
                        }
                    },
                }
            }
            if dup_existing.is_some() || earlier {
                proof {
                    let nm = new_sources@[i as int].name@;
                    if dup_existing.is_some() {
                        assert(old(self).names().contains(nm));
                    }
                    assert(is_duplicate(old(self).names(), new_sources@, i as int));
                }
                return Err(L10nRegistrySetupError::DuplicatedSource { name: name.clone() });
            }
            i = i + 1;
        }
        let ghost added = new_sources@;
        let mut new_sources = new_sources;
        self.sources.append(&mut new_sources);
        proof {
            assert forall|a: int, b: int|
                0 <= a < b < self.sources@.len() implies (#[trigger] self.sources@[a]).name@ != (#[trigger] self.sources@[b]).name@ by {
                let n = old(self).sources@.len() as int;
                if b >= n {
                    assert(!is_duplicate(old(self).names(), added, b - n));
                    if a < n {
                        assert(old(self).names()[a] == self.sources@[a].name@);
                    } else {
                        assert(added[a - n] == self.sources@[a]);
                    }
                }
            }
        }
        Ok(())
    }

    /// Replaces, by name, registered sources with those of `upd_sources`;
    /// of two with one name the later wins. Refused, with nothing changed,
    /// while the registry is locked, or when a name is not registered; the
    /// error names the first such source.
    pub fn update_sources(&mut self, upd_sources: Vec<FileSource>) -> (r: Result<
        (),
        L10nRegistrySetupError,
    >)
        requires
            old(self).wf(),
            forall|i: int| 0 <= i < upd_sources@.len() ==> (#[trigger] upd_sources@[i]).wf(),
        ensures
            final(self).wf(),
            final(self).locks == old(self).locks,
            old(self).locks > 0 ==> r == Err::<(), L10nRegistrySetupError>(
                L10nRegistrySetupError::RegistryLocked,
            ),
            r == Err::<(), L10nRegistrySetupError>(L10nRegistrySetupError::RegistryLocked) ==> old(self).locks > 0,
            r is Ok <==> old(self).locks == 0 && forall|j: int|
                0 <= j < upd_sources@.len() ==> old(self).names().contains(
                    (#[trigger] upd_sources@[j]).name@,
                ),
            r is Err ==> final(self).sources == old(self).sources,
            r matches Err(L10nRegistrySetupError::MissingSource { name }) ==> exists|j: int|
                0 <= j < upd_sources@.len() && !old(self).names().contains(upd_sources@[j].name@)
                    && (forall|x: int| 0 <= x < j ==> old(self).names().contains((#[trigger] upd_sources@[x]).name@))
                    && name@ == upd_sources@[j].name@,
            r matches Err(L10nRegistrySetupError::DuplicatedSource { .. }) ==> false,
            r is Ok ==> {
                &&& final(self).names() == old(self).names()
                &&& forall|i: int|
                    #![trigger final(self).sources@[i]]
                    0 <= i < old(self).sources@.len() ==> {
                        ||| exists|j: int|
                            0 <= j < upd_sources@.len() && final(self).sources@[i] == upd_sources@[j]
                                && (forall|j2: int|
                                j < j2 < upd_sources@.len() ==> (#[trigger] upd_sources@[j2]).name@
                                    != old(self).names()[i])
                        ||| final(self).sources@[i] == old(self).sources@[i] && forall|j: int|
                            0 <= j < upd_sources@.len() ==> (#[trigger] upd_sources@[j]).name@
                                != old(self).names()[i]
                    }
            },
    {
        if self.locks > 0 {
            return Err(L10nRegistrySetupError::RegistryLocked);
        }
        let mut j: usize = 0;
        while j < upd_sources.len()
            invariant
                *self == *old(self),
                old(self).wf(),
                self.locks == 0,
                j <= upd_sources@.len(),
                forall|x: int| 0 <= x < j ==> old(self).names().contains((#[trigger] upd_sources@[x]).name@),
            decreases upd_sources@.len() - j,
        {
            match self.position(&upd_sources[j].name) {
                Some(k) => {
                    assert(old(self).names()[k as int] == upd_sources@[j as int].name@);
                },
                None => {
                    proof {
                        if old(self).names().contains(upd_sources@[j as int].name@) {
                            let k = choose|k: int|
                                0 <= k < old(self).names().len() && old(self).names()[k] == upd_sources@[j as int].name@;
                            assert(self.sources@[k].name@ == upd_sources@[j as int].name@);
                        }
                    }
                    return Err(
                        L10nRegistrySetupError::MissingSource { name: upd_sources[j].name.clone() },
                    );
                },
            }
            j = j + 1;
        }
        let ghost upd = upd_sources@;
        let ghost n = upd.len();
        let ghost old_names = old(self).names();
        let mut rest = upd_sources;
        let total = rest.len();
        let mut k: usize = 0;
        while rest.len() > 0
            invariant
                self.locks == old(self).locks,
                self.sources@.len() == old(self).sources@.len(),
                self.names() == old_names,
                old_names == old(self).names(),
                self.wf(),
                old(self).wf(),
                k <= n,
                n == upd.len(),
                n == total,
                rest@ == upd.subrange(k as int, n as int),
                forall|x: int| 0 <= x < n ==> (#[trigger] upd[x]).wf(),
                forall|x: int| 0 <= x < n ==> old_names.contains((#[trigger] upd[x]).name@),
                forall|i: int|
                    #![trigger self.sources@[i]]
                    0 <= i < old(self).sources@.len() ==> {
                        ||| exists|j: int|
                            0 <= j < k && self.sources@[i] == upd[j] && (forall|j2: int|
                                j < j2 < k ==> (#[trigger] upd[j2]).name@ != old_names[i])
                        ||| self.sources@[i] == old(self).sources@[i] && forall|j: int|
                            0 <= j < k ==> (#[trigger] upd[j]).name@ != old_names[i]
                    },
            decreases rest@.len(),
        {
            assert(k < n);
            let s = rest.remove(0);
            assert(s == upd[k as int]);
            let pos = self.position(&s.name);
            proof {
                if pos is None {
                    let x = choose|x: int| 0 <= x < old_names.len() && old_names[x] == s.name@;
                    assert(self.sources@[x].name@ == s.name@);
                }
            }
            let idx = pos.unwrap();
            let ghost before = self.sources@;
            self.sources.set(idx, s);
            proof {
                assert forall|i: int| 0 <= i < self.sources@.len() implies #[trigger] self.names()[i] == old_names[i] by {
                    if i == idx {
                        assert(before[i].name@ == upd[k as int].name@);
                    } else {
                        assert(self.sources@[i] == before[i]);
                    }
                }
                assert(self.names() =~= old_names);
                assert forall|a: int, b: int|
                    0 <= a < b < self.sources@.len() implies (#[trigger] self.sources@[a]).name@ != (#[trigger] self.sources@[b]).name@ by {
                    assert(self.names()[a] == old_names[a]);
                    assert(self.names()[b] == old_names[b]);
                    assert(old(self).sources@[a].name@ != old(self).sources@[b].name@);
                }
                assert forall|i: int|
                    #![trigger self.sources@[i]]
                    0 <= i < old(self).sources@.len() implies {
                        ||| exists|j: int|
                            0 <= j < k + 1 && self.sources@[i] == upd[j] && (forall|j2: int|
                                j < j2 < k + 1 ==> (#[trigger] upd[j2]).name@ != old_names[i])
                        ||| self.sources@[i] == old(self).sources@[i] && forall|j: int|
                            0 <= j < k + 1 ==> (#[trigger] upd[j]).name@ != old_names[i]
                    } by {
                    if i == idx {
                        assert(self.sources@[i] == upd[k as int]);
                    } else {
                        assert(self.sources@[i] == before[i]);
                        assert(old_names[i] != old_names[idx as int]);
                        assert(upd[k as int].name@ == old_names[idx as int]);
                        if exists|j: int|
                            0 <= j < k && before[i] == upd[j] && (forall|j2: int|
                                j < j2 < k ==> (#[trigger] upd[j2]).name@ != old_names[i]) {
                            let j = choose|j: int|
                                0 <= j < k && before[i] == upd[j] && (forall|j2: int|
                                    j < j2 < k ==> (#[trigger] upd[j2]).name@ != old_names[i]);
                            assert(forall|j2: int| j < j2 < k + 1 ==> (#[trigger] upd[j2]).name@ != old_names[i]);
                        }
                    }
                }
            }
            k = k + 1;
        }
        proof {
            assert(k == n);
        }
        Ok(())
    }

    fn is_listed(names: &Vec<String>, name: &String) -> (b: bool)
        ensures
            b == names@.map_values(|s: String| s@).contains(name@),
    {
        let ghost v = names@.map_values(|s: String| s@);
        let mut i: usize = 0;
        while i < names.len()
            invariant
                i <= names@.len(),
                v == names@.map_values(|s: String| s@),
                forall|j: int| 0 <= j < i ==> (#[trigger] names@[j])@ != name@,
            decreases names@.len() - i,
        {
            if names[i] == *name {
                assert(v[i as int] == name@);
                return true;
            }
            i = i + 1;
        }
        proof {
            if v.contains(name@) {
                let j = choose|j: int| 0 <= j < v.len() && v[j] == name@;
                assert(names@[j]@ == name@);
            }
        }
        false
    }

    /// Drops the sources whose name is in `names`; other names are ignored.
    /// Refused, with nothing changed, while the registry is locked.
    pub fn remove_sources(&mut self, names: Vec<String>) -> (r: Result<(), L10nRegistrySetupError>)
        requires
            old(self).wf(),
        ensures
            final(self).wf(),
            final(self).locks == old(self).locks,
            old(self).locks > 0 ==> r == Err::<(), L10nRegistrySetupError>(
                L10nRegistrySetupError::RegistryLocked,
            ) && final(self).sources == old(self).sources,
            old(self).locks == 0 ==> r is Ok && final(self).sources@ == kept(
                old(self).sources@,
                names@.map_values(|s: String| s@),
            ),
    {
        if self.locks > 0 {
            return Err(L10nRegistrySetupError::RegistryLocked);
        }
        let ghost del = names@.map_values(|s: String| s@);
        let ghost orig = self.sources@;
        let mut pending: Vec<FileSource> = Vec::new();
        std::mem::swap(&mut pending, &mut self.sources);
        let total = pending.len();
        let mut k: usize = 0;
        while pending.len() > 0
            invariant
                self.locks == 0,
                old(self).locks == 0,
                orig == old(self).sources@,
                del == names@.map_values(|s: String| s@),
                k <= orig.len(),
                orig.len() == total,
                pending@ == orig.subrange(k as int, orig.len() as int),
                self.sources@ == kept(orig.subrange(0, k as int), del),
            decreases pending@.len(),
        {
            assert(k < orig.len());
            let s = pending.remove(0);
            assert(s == orig[k as int]);
            let ghost prefix = orig.subrange(0, k as int + 1);
            assert(prefix.drop_last() =~= orig.subrange(0, k as int));
            assert(prefix.last() == s);
            if !Self::is_listed(&names, &s.name) {
                self.sources.push(s);
            }
            k = k + 1;
        }
        proof {
            assert(orig.subrange(0, k as int) =~= orig);
            self.lemma_kept_wf(orig, del);
        }
        Ok(())
    }

    proof fn lemma_kept_wf(&self, orig: Seq<FileSource>, del: Seq<Seq<char>>)
        requires
            self.sources@ == kept(orig, del),
            forall|i: int| 0 <= i < orig.len() ==> (#[trigger] orig[i]).wf(),
            forall|i: int, j: int| 0 <= i < j < orig.len() ==> (#[trigger] orig[i]).name@ != (#[trigger] orig[j]).name@,
        ensures
            self.wf(),
    {
        lemma_kept_sub(orig, del);
    }

    /// The source at `index` in priority order: index 0 is the source
    /// registered last.
    pub fn source_idx(&self, index: usize) -> (s: &FileSource)
        requires
            index < self.sources@.len(),
        ensures
            *s == self.sources@[self.sources@.len() - 1 - index],
    {
        let i = self.sources.len() - 1 - index;
        &self.sources[i]
    }

    /// The source at `index` in priority order, for changing its cache.
    pub fn source_idx_mut(&mut self, index: usize) -> (s: &mut FileSource)
        requires
            index < old(self).sources@.len(),
        ensures
            *s == old(self).sources@[old(self).sources@.len() - 1 - index],
            final(self).locks == old(self).locks,
            final(self).sources@ == old(self).sources@.update(
                old(self).sources@.len() - 1 - index,
                *final(s),
            ),
    {
        let i = self.sources.len() - 1 - index;
        &mut self.sources[i]
    }

    /// The source named `name`.
    pub fn get_source(&self, name: &str) -> (s: Option<&FileSource>)
        requires
            self.wf(),
        ensures
            match s {
                Some(s) => s.name@ == name@ && exists|i: int| 0 <= i < self.sources@.len() && self.sources@[i] == *s,
                None => !self.names().contains(name@),
            },
    {
        let n = name.to_string();
        match self.position(&n) {
            Some(i) => Some(&self.sources[i]),
            None => {
                proof {
                    if self.names().contains(name@) {
                        let k = choose|k: int| 0 <= k < self.names().len() && self.names()[k] == name@;
                        assert(self.sources@[k].name@ == name@);
                    }
                }
                None
            },
        }
    }

    /// The positions, in registration order, of the sources that may have
    /// `res_id` for `locale`: those whose `has_file` is not `Some(false)`.
    pub fn generate_sources_for_file(&self, locale: &str, res_id: &str) -> (r: Vec<usize>)
        requires
            self.wf(),
        ensures
            forall|a: int, b: int| 0 <= a < b < r@.len() ==> (#[trigger] r@[a]) < (#[trigger] r@[b]),
            forall|a: int| 0 <= a < r@.len() ==> (#[trigger] r@[a]) < self.sources@.len(),
            forall|i: int|
                0 <= i < self.sources@.len() ==> (r@.contains(i as usize) <==> (#[trigger] self.sources@[i]).has_file_spec(
                    locale@,
                    res_id@,
                ) != Some(false)),
    {
        let mut out: Vec<usize> = Vec::new();
        let mut i: usize = 0;
        while i < self.sources.len()
            invariant
                self.wf(),
                i <= self.sources@.len(),
                forall|a: int, b: int| 0 <= a < b < out@.len() ==> (#[trigger] out@[a]) < (#[trigger] out@[b]),
                forall|a: int| 0 <= a < out@.len() ==> (#[trigger] out@[a]) < i,
                forall|x: int|
                    0 <= x < i ==> (out@.contains(x as usize) <==> (#[trigger] self.sources@[x]).has_file_spec(
                        locale@,
                        res_id@,
                    ) != Some(false)),
            decreases self.sources@.len() - i,
        {
            let ghost before = out@;
            if self.sources[i].has_file(locale, res_id) != Some(false) {
                out.push(i);
                proof {
                    assert(out@[before.len() as int] == i);
                    assert forall|x: int|
                        0 <= x < i + 1 implies (out@.contains(x as usize) <==> (#[trigger] self.sources@[x]).has_file_spec(
                            locale@,
                            res_id@,
                        ) != Some(false)) by {
                        if x < i {
                            if before.contains(x as usize) {
                                let t = choose|t: int| 0 <= t < before.len() && before[t] == x as usize;
                                assert(out@[t] == x as usize);
                            }
                            if out@.contains(x as usize) {
                                let t = choose|t: int| 0 <= t < out@.len() && out@[t] == x as usize;
                                assert(t < before.len());
                                assert(before[t] == x as usize);
                            }
                        }
                    }
                }
            } else {
                proof {
                    assert(!out@.contains(i));
                }
            }
            i = i + 1;
        }
        out
    }
}

proof fn lemma_kept_sub(orig: Seq<FileSource>, del: Seq<Seq<char>>)
    requires
        forall|i: int| 0 <= i < orig.len() ==> (#[trigger] orig[i]).wf(),
        forall|i: int, j: int| 0 <= i < j < orig.len() ==> (#[trigger] orig[i]).name@ != (#[trigger] orig[j]).name@,
    ensures
        forall|i: int| 0 <= i < kept(orig, del).len() ==> (#[trigger] kept(orig, del)[i]).wf(),
        forall|i: int, j: int|
            0 <= i < j < kept(orig, del).len() ==> (#[trigger] kept(orig, del)[i]).name@ != (#[trigger] kept(
                orig,
                del,
            )[j]).name@,
        forall|i: int| 0 <= i < kept(orig, del).len() ==> orig.contains(#[trigger] kept(orig, del)[i]),
    decreases orig.len(),
{
    if orig.len() > 0 {
        let init = orig.drop_last();
        lemma_kept_sub(init, del);
        let rest = kept(init, del);
        let k = kept(orig, del);
        assert forall|i: int| 0 <= i < rest.len() implies orig.contains(#[trigger] rest[i]) by {
            let t = choose|t: int| 0 <= t < init.len() && init[t] == rest[i];
            assert(orig[t] == rest[i]);
        }
        if !del.contains(orig.last().name@) {
            assert forall|i: int, j: int| 0 <= i < j < k.len() implies (#[trigger] k[i]).name@ != (#[trigger] k[j]).name@ by {
                if j == k.len() - 1 {
                    let t = choose|t: int| 0 <= t < init.len() && init[t] == rest[i];
                    assert(orig[t] == k[i]);
                    assert(orig[orig.len() - 1] == k[j]);
                } else {
                    assert(k[i] == rest[i] && k[j] == rest[j]);
                }
            }
            assert forall|i: int| 0 <= i < k.len() implies orig.contains(#[trigger] k[i]) by {
                if i == k.len() - 1 {
                    assert(orig[orig.len() - 1] == k[i]);
                } else {
                    assert(k[i] == rest[i]);
                }
            }
            assert forall|i: int| 0 <= i < k.len() implies (#[trigger] k[i]).wf() by {
                if i < k.len() - 1 {
                    assert(k[i] == rest[i]);
                }
            }
        }
    }
}

} // verus!
