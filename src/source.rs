//! A source of localization files and its cache of fetch outcomes.
//!
//! The cache maps each resolved path to `Missing`, `Loading` (an
//! asynchronous fetch is in flight) or `Loaded(h)`, where `h` indexes the
//! parsed resources the source keeps. The fetching itself is done by the
//! caller: the methods here say what to fetch, and take the bytes back.
use std::rc::Rc;

use vstd::prelude::*;

use fluent_bundle::{FluentError, FluentResource};

verus! {

#[verifier::external_type_specification]
#[verifier::external_body]
pub struct ExFluentResource(FluentResource);

#[verifier::external_type_specification]
#[verifier::external_body]
pub struct ExFluentError(FluentError);

#[verifier::external_type_specification]
#[verifier::external_body]
pub struct ExIoError(std::io::Error);

/// Reads files for a source, as the host provides it.
pub trait FileFetcher {
    /// The text of the file at `path`, or the error that kept it from
    /// being read.
    fn fetch_sync(&self, path: &str) -> Result<String, std::io::Error>;
}

/// Relies on `FluentResource::try_new`: both of its outcomes carry a
/// resource, the second also the syntax errors found, which become
/// `FluentError::ParserError`.
#[verifier::external_body]
fn parse_resource(source: String) -> (FluentResource, Vec<FluentError>) {
    match FluentResource::try_new(source) {
        Ok(res) => (res, Vec::new()),
        Err((res, errors)) => (res, errors.into_iter().map(FluentError::from).collect()),
    }
}

/// `s` with every occurrence of `pat`, taken from the left without overlap,
/// replaced by `to`.
pub open spec fn replace_all(s: Seq<char>, pat: Seq<char>, to: Seq<char>) -> Seq<char>
    decreases s.len(),
{
    if pat.len() == 0 || s.len() < pat.len() {
        s
    } else if s.subrange(0, pat.len() as int) == pat {
        to + replace_all(s.subrange(pat.len() as int, s.len() as int), pat, to)
    } else {
        seq![s[0]] + replace_all(s.drop_first(), pat, to)
    }
}

/// Relies on `str::replace`: every non-overlapping match of `from`, found
/// from the left, is replaced by `to`.
#[verifier::external_body]
fn replace_str(s: &str, from: &str, to: &str) -> (r: String)
    requires
        from@.len() > 0,
    ensures
        r@ == replace_all(s@, from@, to@),
{
    s.replace(from, to)
}

/// The token of a path template that stands for the locale.
pub open spec fn locale_token() -> Seq<char> {
    seq!['{', 'l', 'o', 'c', 'a', 'l', 'e', '}']
}

/// The path of resource `res_id` for `locale` under `template`: the token
/// `{locale}` replaced by the locale, then `/` unless the result already
/// ends with one, then the resource id.
pub open spec fn resolved_path(template: Seq<char>, locale: Seq<char>, res_id: Seq<char>) -> Seq<char> {
    let base = replace_all(template, locale_token(), locale);
    if base.len() > 0 && base.last() == '/' {
        base + res_id
    } else {
        base + seq!['/'] + res_id
    }
}

/// What the cache holds for one path.
#[derive(Clone, Copy, Debug, PartialEq, Eq, Structural)]
pub enum ResourceStatus {
    /// The fetch completed and found no file.
    Missing,
    /// An asynchronous fetch is in flight.
    Loading,
    /// The fetch completed; the resource has this index.
    Loaded(usize),
}

impl ResourceStatus {
    /// The fetch has completed.
    pub open spec fn is_terminal(self) -> bool {
        !(self is Loading)
    }
}

/// One path of the cache and its status.
pub struct CacheEntry {
    pub path: String,
    pub status: ResourceStatus,
}

/// What a synchronous fetch of a path needs.
#[derive(Debug, PartialEq, Eq)]
pub enum SyncLookup {
    /// The outcome is cached: the resource's index, or `None` when missing.
    Cached(Option<usize>),
    /// Nothing is known: fetch the path, then call `finish_fetch_sync`.
    Fetch(String),
    /// An asynchronous fetch of the path is in flight: fetch it anyway, then
    /// call `finish_fetch_sync`, which leaves the cache as it is.
    Overload(String),
}

/// What an asynchronous fetch of a path needs.
#[derive(Debug, PartialEq, Eq)]
pub enum AsyncLookup {
    /// The outcome is cached: the resource's index, or `None` when missing.
    Ready(Option<usize>),
    /// A fetch of the path is in flight: wait for it.
    Pending(String),
    /// The path is now marked `Loading`: fetch it, then call `resolve`.
    Start(String),
}

/// The step a synchronous fetch of `path` takes against `cache`.
pub open spec fn sync_step(cache: Map<Seq<char>, ResourceStatus>, path: Seq<char>) -> Option<
    Option<usize>,
> {
    if !cache.contains_key(path) {
        None
    } else {
        match cache[path] {
            ResourceStatus::Missing => Some(None),
            ResourceStatus::Loaded(h) => Some(Some(h)),
            ResourceStatus::Loading => None,
        }
    }
}

/// An asynchronous fetch of `path` starts an underlying fetch: nothing is
/// cached for the path, not even a fetch in flight.
pub open spec fn starts_fetch(cache: Map<Seq<char>, ResourceStatus>, path: Seq<char>) -> bool {
    !cache.contains_key(path)
}

/// `new` keeps every path of `old`, and every completed outcome unchanged.
pub open spec fn no_regression(
    old: Map<Seq<char>, ResourceStatus>,
    new: Map<Seq<char>, ResourceStatus>,
) -> bool {
    forall|p: Seq<char>|
        #[trigger] old.contains_key(p) ==> new.contains_key(p) && (old[p].is_terminal() ==> new[p]
            == old[p])
}

/// A source of localization files: a unique name, the locales it has, a
/// path template holding `{locale}`, and the cache of what was fetched.
pub struct FileSource {
    pub name: String,
    pub locales: Vec<String>,
    pub pre_path: String,
    pub entries: Vec<CacheEntry>,
    pub resources: Vec<Rc<FluentResource>>,
}

impl FileSource {
    /// The cache as a map from resolved paths.
    pub open spec fn cache(&self) -> Map<Seq<char>, ResourceStatus> {
        Map::new(
            |p: Seq<char>| exists|i: int| 0 <= i < self.entries@.len() && (#[trigger] self.entries@[i]).path@ == p,
            |p: Seq<char>|
                self.entries@[choose|i: int| 0 <= i < self.entries@.len() && (#[trigger] self.entries@[i]).path@ == p].status,
        )
    }

    /// Each path has one entry, and each loaded entry names a kept resource.
    pub open spec fn wf(&self) -> bool {
        &&& forall|i: int, j: int|
            0 <= i < j < self.entries@.len() ==> (#[trigger] self.entries@[i]).path@ != (#[trigger] self.entries@[j]).path@
        &&& forall|i: int|
            #![trigger self.entries@[i]]
            0 <= i < self.entries@.len() ==> match self.entries@[i].status {
                ResourceStatus::Loaded(h) => h < self.resources@.len(),
                _ => true,
            }
    }

    /// The source has `locale` among its locales.
    pub open spec fn supports(&self, locale: Seq<char>) -> bool {
        exists|i: int| 0 <= i < self.locales@.len() && (#[trigger] self.locales@[i])@ == locale
    }

    /// The resolved path of `res_id` for `locale`.
    pub open spec fn path_of(&self, locale: Seq<char>, res_id: Seq<char>) -> Seq<char> {
        resolved_path(self.pre_path@, locale, res_id)
    }

    /// What `has_file` answers.
    pub open spec fn has_file_spec(&self, locale: Seq<char>, res_id: Seq<char>) -> Option<bool> {
        if !self.supports(locale) {
            Some(false)
        } else {
            let p = self.path_of(locale, res_id);
            if !self.cache().contains_key(p) {
                None
            } else {
                match self.cache()[p] {
                    ResourceStatus::Missing => Some(false),
                    ResourceStatus::Loaded(_) => Some(true),
                    ResourceStatus::Loading => None,
                }
            }
        }
    }

    /// A source with an empty cache.
    pub fn new(name: String, locales: Vec<String>, pre_path: String) -> (s: FileSource)
        ensures
            s.wf(),
            s.name == name,
            s.locales == locales,
            s.pre_path == pre_path,
            s.cache() == Map::<Seq<char>, ResourceStatus>::empty(),
    {
        let s = FileSource { name, locales, pre_path, entries: Vec::new(), resources: Vec::new() };
        assert(s.cache() =~= Map::<Seq<char>, ResourceStatus>::empty());
        s
    }

    proof fn lemma_entry(&self, i: int)
        requires
            self.wf(),
            0 <= i < self.entries@.len(),
        ensures
            self.cache().contains_key(self.entries@[i].path@),
            self.cache()[self.entries@[i].path@] == self.entries@[i].status,
    {
        let p = self.entries@[i].path@;
        assert(self.cache().contains_key(p));
        let j = choose|j: int| 0 <= j < self.entries@.len() && (#[trigger] self.entries@[j]).path@ == p;
        if j != i {
            if i < j {
                assert(self.entries@[i].path@ != self.entries@[j].path@);
            } else {
                assert(self.entries@[j].path@ != self.entries@[i].path@);
            }
        }
    }

    /// The resolved path of `res_id` for `locale`.
    pub fn get_path(&self, locale: &str, res_id: &str) -> (p: String)
        ensures
            p@ == self.path_of(locale@, res_id@),
    {
        proof {
            reveal_strlit("{locale}");
            reveal_strlit("/");
            assert("{locale}"@ =~= locale_token());
            assert("/"@ =~= seq!['/']);
        }
        let mut base = replace_str(self.pre_path.as_str(), "{locale}", locale);
        let n = base.as_str().unicode_len();
        if n > 0 && base.as_str().get_char(n - 1) == '/' {
            base.append(res_id);
        } else {
            base.append("/");
            base.append(res_id);
        }
        base
    }

    fn find(&self, path: &String) -> (r: Option<usize>)
        requires
            self.wf(),
        ensures
            match r {
                Some(i) => i < self.entries@.len() && self.entries@[i as int].path@ == path@,
                None => !self.cache().contains_key(path@),
            },
    {
        let mut i: usize = 0;
        while i < self.entries.len()
            invariant
                i <= self.entries@.len(),
                forall|j: int| 0 <= j < i ==> (#[trigger] self.entries@[j]).path@ != path@,
            decreases self.entries@.len() - i,
        {
            if self.entries[i].path == *path {
                return Some(i);
            }
            i = i + 1;
        }
        None
    }

    fn supports_locale(&self, locale: &str) -> (b: bool)
        ensures
            b == self.supports(locale@),
    {
        let l = locale.to_string();
        let mut i: usize = 0;
        while i < self.locales.len()
            invariant
                i <= self.locales@.len(),
                l@ == locale@,
                forall|j: int| 0 <= j < i ==> (#[trigger] self.locales@[j])@ != locale@,
            decreases self.locales@.len() - i,
        {
            if self.locales[i] == l {
                return true;
            }
            i = i + 1;
        }
        false
    }

    /// Whether the resource is known to be there: `Some(false)` when the
    /// source lacks `locale` or the fetch found nothing, `Some(true)` when
    /// it is loaded, `None` while unknown or in flight. Never fetches.
    pub fn has_file(&self, locale: &str, res_id: &str) -> (r: Option<bool>)
        requires
            self.wf(),
        ensures
            r == self.has_file_spec(locale@, res_id@),
    {
        if !self.supports_locale(locale) {
            return Some(false);
        }
        let path = self.get_path(locale, res_id);
        match self.find(&path) {
            None => None,
            Some(i) => {
                proof {
                    self.lemma_entry(i as int);
                }
                match self.entries[i].status {
                    ResourceStatus::Missing => Some(false),
                    ResourceStatus::Loaded(_) => Some(true),
                    ResourceStatus::Loading => None,
                }
            },
        }
    }

    /// What a synchronous fetch of `res_id` for `locale` needs.
    pub fn lookup_sync(&self, locale: &str, res_id: &str) -> (r: SyncLookup)
        requires
            self.wf(),
        ensures
            ({
                let p = self.path_of(locale@, res_id@);
                match sync_step(self.cache(), p) {
                    Some(v) => r == SyncLookup::Cached(v),
                    None => if self.cache().contains_key(p) {
                        r matches SyncLookup::Overload(q) && q@ == p
                    } else {
                        r matches SyncLookup::Fetch(q) && q@ == p
                    },
                }
            }),
    {
        let path = self.get_path(locale, res_id);
        match self.find(&path) {
            None => SyncLookup::Fetch(path),
            Some(i) => {
                proof {
                    self.lemma_entry(i as int);
                }
                match self.entries[i].status {
                    ResourceStatus::Missing => SyncLookup::Cached(None),
                    ResourceStatus::Loaded(h) => SyncLookup::Cached(Some(h)),
                    ResourceStatus::Loading => SyncLookup::Overload(path),
                }
            },
        }
    }

    /// Keeps the resource parsed from `source`, if any, and returns its
    /// index and the syntax errors found.
    fn keep(&mut self, source: Option<String>) -> (r: (Option<usize>, Vec<FluentError>))
        requires
            old(self).wf(),
        ensures
            final(self).wf(),
            final(self).entries == old(self).entries,
            final(self).name == old(self).name,
            final(self).locales == old(self).locales,
            final(self).pre_path == old(self).pre_path,
            final(self).resources@.subrange(0, old(self).resources@.len() as int) == old(self).resources@,
            final(self).resources@.len() >= old(self).resources@.len(),
            final(self).cache() == old(self).cache(),
            source is None <==> r.0 is None,
            r.0 matches Some(h) ==> h == old(self).resources@.len() && h < final(self).resources@.len(),
            source is Some ==> final(self).resources@.len() == old(self).resources@.len() + 1,
            source is None ==> final(self).resources == old(self).resources,
    {
        match source {
            None => (None, Vec::new()),
            Some(text) => {
                let (res, errors) = parse_resource(text);
                let h = self.resources.len();
                self.resources.push(Rc::new(res));
                proof {
                    assert(self.cache() =~= old(self).cache());
                }
                (Some(h), errors)
            },
        }
    }

    /// Sets the status of entry `i`.
    fn set_status(&mut self, i: usize, status: ResourceStatus)
        requires
            old(self).wf(),
            i < old(self).entries@.len(),
            status matches ResourceStatus::Loaded(h) ==> h < old(self).resources@.len(),
        ensures
            final(self).wf(),
            final(self).name == old(self).name,
            final(self).locales == old(self).locales,
            final(self).pre_path == old(self).pre_path,
            final(self).resources == old(self).resources,
            final(self).cache() == old(self).cache().insert(old(self).entries@[i as int].path@, status),
    {
        let ghost p = self.entries@[i as int].path@;
        let ghost before = self.entries@;
        let path = self.entries[i].path.clone();
        self.entries.set(i, CacheEntry { path, status });
        proof {
            assert forall|a: int, b: int|
                0 <= a < b < self.entries@.len() implies (#[trigger] self.entries@[a]).path@ != (#[trigger] self.entries@[b]).path@ by {
                assert(before[a].path@ != before[b].path@);
            }
            assert forall|q: Seq<char>| #[trigger] self.cache().contains_key(q) == old(self).cache().insert(p, status).contains_key(q) by {
                if old(self).cache().contains_key(q) {
                    let j = choose|j: int| 0 <= j < before.len() && (#[trigger] before[j]).path@ == q;
                    assert(self.entries@[j].path@ == q);
                }
                if self.cache().contains_key(q) {
                    let j = choose|j: int| 0 <= j < self.entries@.len() && (#[trigger] self.entries@[j]).path@ == q;
                    assert(before[j].path@ == q);
                }
            }
            assert forall|q: Seq<char>| #[trigger] self.cache().contains_key(q) implies self.cache()[q]
                == old(self).cache().insert(p, status)[q] by {
                let j = choose|j: int| 0 <= j < self.entries@.len() && (#[trigger] self.entries@[j]).path@ == q;
                self.lemma_entry(j);
                if q != p {
                    old(self).lemma_entry(j);
                }
            }
            assert(self.cache() =~= old(self).cache().insert(p, status));
        }
    }

    /// Adds an entry for a path not in the cache.
    fn add_entry(&mut self, path: String, status: ResourceStatus)
        requires
            old(self).wf(),
            !old(self).cache().contains_key(path@),
            status matches ResourceStatus::Loaded(h) ==> h < old(self).resources@.len(),
        ensures
            final(self).wf(),
            final(self).name == old(self).name,
            final(self).locales == old(self).locales,
            final(self).pre_path == old(self).pre_path,
            final(self).resources == old(self).resources,
            final(self).cache() == old(self).cache().insert(path@, status),
    {
        let ghost p = path@;
        let ghost before = self.entries@;
        self.entries.push(CacheEntry { path, status });
        proof {
            let n = before.len() as int;
            assert forall|a: int, b: int|
                0 <= a < b < self.entries@.len() implies (#[trigger] self.entries@[a]).path@ != (#[trigger] self.entries@[b]).path@ by {
                if b == n {
                    assert(self.entries@[a] == before[a]);
                    assert(!old(self).cache().contains_key(p));
                    if before[a].path@ == p {
                        assert(old(self).cache().contains_key(p));
                    }
                } else {
                    assert(before[a].path@ != before[b].path@);
                }
            }
            assert forall|q: Seq<char>| #[trigger] self.cache().contains_key(q) == old(self).cache().insert(p, status).contains_key(q) by {
                if old(self).cache().contains_key(q) {
                    let j = choose|j: int| 0 <= j < before.len() && (#[trigger] before[j]).path@ == q;
                    assert(self.entries@[j].path@ == q);
                }
                if q == p {
                    assert(self.entries@[n].path@ == q);
                }
                if self.cache().contains_key(q) && q != p {
                    let j = choose|j: int| 0 <= j < self.entries@.len() && (#[trigger] self.entries@[j]).path@ == q;
                    assert(before[j].path@ == q);
                }
            }
            assert forall|q: Seq<char>| #[trigger] self.cache().contains_key(q) implies self.cache()[q]
                == old(self).cache().insert(p, status)[q] by {
                let j = choose|j: int| 0 <= j < self.entries@.len() && (#[trigger] self.entries@[j]).path@ == q;
                self.lemma_entry(j);
                if q != p {
                    old(self).lemma_entry(j);
                }
            }
            assert(self.cache() =~= old(self).cache().insert(p, status));
        }
    }

    /// Takes the outcome of a synchronous fetch of `path`: the file's text,
    /// or `None` when it could not be read. When the cache holds nothing for
    /// the path, the outcome goes into it; otherwise the cache is left as it
    /// is. Returns the index of the parsed resource, and its syntax errors.
    pub fn finish_fetch_sync(&mut self, path: String, source: Option<String>) -> (r: (
        Option<usize>,
        Vec<FluentError>,
    ))
        requires
            old(self).wf(),
        ensures
            final(self).wf(),
            final(self).name == old(self).name,
            final(self).locales == old(self).locales,
            final(self).pre_path == old(self).pre_path,
            final(self).resources@.subrange(0, old(self).resources@.len() as int) == old(self).resources@,
            no_regression(old(self).cache(), final(self).cache()),
            source is None <==> r.0 is None,
            r.0 matches Some(h) ==> h < final(self).resources@.len(),
            source is Some ==> (r.0 matches Some(h) && h == old(self).resources@.len())
                && final(self).resources@.len() == old(self).resources@.len() + 1,
            source is None ==> final(self).resources == old(self).resources,
            final(self).cache() == if old(self).cache().contains_key(path@) {
                old(self).cache()
            } else {
                old(self).cache().insert(
                    path@,
                    match r.0 {
                        Some(h) => ResourceStatus::Loaded(h),
                        None => ResourceStatus::Missing,
                    },
                )
            },
    {
        let (h, errors) = self.keep(source);
        match self.find(&path) {
            Some(_) => {},
            None => {
                let status = match h {
                    Some(h) => ResourceStatus::Loaded(h),
                    None => ResourceStatus::Missing,
                };
                self.add_entry(path, status);
            },
        }
        (h, errors)
    }

    /// What an asynchronous fetch of `res_id` for `locale` needs. When
    /// nothing is cached for the path, marks it `Loading`.
    pub fn lookup_async(&mut self, locale: &str, res_id: &str) -> (r: AsyncLookup)
        requires
            old(self).wf(),
        ensures
            final(self).wf(),
            final(self).name == old(self).name,
            final(self).locales == old(self).locales,
            final(self).pre_path == old(self).pre_path,
            final(self).resources == old(self).resources,
            no_regression(old(self).cache(), final(self).cache()),
            (r is Start) == starts_fetch(old(self).cache(), old(self).path_of(locale@, res_id@)),
            ({
                let p = old(self).path_of(locale@, res_id@);
                if !old(self).cache().contains_key(p) {
                    &&& r matches AsyncLookup::Start(q) && q@ == p
                    &&& final(self).cache() == old(self).cache().insert(p, ResourceStatus::Loading)
                } else {
                    &&& final(self).cache() == old(self).cache()
                    &&& match old(self).cache()[p] {
                        ResourceStatus::Missing => r == AsyncLookup::Ready(None),
                        ResourceStatus::Loaded(h) => r == AsyncLookup::Ready(Some(h)),
                        ResourceStatus::Loading => r matches AsyncLookup::Pending(q) && q@ == p,
                    }
                }
            }),
    {
        let path = self.get_path(locale, res_id);
        match self.find(&path) {
            None => {
                let out = path.clone();
                self.add_entry(path, ResourceStatus::Loading);
                AsyncLookup::Start(out)
            },
            Some(i) => {
                proof {
                    self.lemma_entry(i as int);
                }
                match self.entries[i].status {
                    ResourceStatus::Missing => AsyncLookup::Ready(None),
                    ResourceStatus::Loaded(h) => AsyncLookup::Ready(Some(h)),
                    ResourceStatus::Loading => AsyncLookup::Pending(path),
                }
            },
        }
    }

    /// Takes the outcome of the asynchronous fetch of `path`: the file's
    /// text, or `None` when it could not be read. An entry that is not
    /// `Loading` keeps its outcome, which is returned; otherwise the entry
    /// takes the new one. Returns the resource's index, and the syntax
    /// errors found.
    pub fn resolve(&mut self, path: String, source: Option<String>) -> (r: (
        Option<usize>,
        Vec<FluentError>,
    ))
        requires
            old(self).wf(),
        ensures
            final(self).wf(),
            final(self).name == old(self).name,
            final(self).locales == old(self).locales,
            final(self).pre_path == old(self).pre_path,
            final(self).resources@.subrange(0, old(self).resources@.len() as int) == old(self).resources@,
            no_regression(old(self).cache(), final(self).cache()),
            r.0 matches Some(h) ==> h < final(self).resources@.len(),
            final(self).cache().contains_key(path@),
            final(self).cache()[path@] == match r.0 {
                Some(h) => ResourceStatus::Loaded(h),
                None => ResourceStatus::Missing,
            },
            old(self).cache().contains_key(path@) && old(self).cache()[path@].is_terminal()
                ==> final(self).cache() == old(self).cache(),
            !(old(self).cache().contains_key(path@) && old(self).cache()[path@].is_terminal()) ==> {
                &&& (source is None <==> r.0 is None)
                &&& (source is Some ==> (r.0 matches Some(h) && h == old(self).resources@.len()))
                &&& final(self).cache() == old(self).cache().insert(path@, final(self).cache()[path@])
            },
    {
        match self.find(&path) {
            Some(i) => {
                proof {
                    self.lemma_entry(i as int);
                }
                match self.entries[i].status {
                    ResourceStatus::Missing => (None, Vec::new()),
                    ResourceStatus::Loaded(h) => (Some(h), Vec::new()),
                    ResourceStatus::Loading => {
                        let (h, errors) = self.keep(source);
                        let status = match h {
                            Some(h) => ResourceStatus::Loaded(h),
                            None => ResourceStatus::Missing,
                        };
                        self.set_status(i, status);
                        (h, errors)
                    },
                }
            },
            None => {
                let (h, errors) = self.keep(source);
                let status = match h {
                    Some(h) => ResourceStatus::Loaded(h),
                    None => ResourceStatus::Missing,
                };
                self.add_entry(path, status);
                (h, errors)
            },
        }
    }

    /// Fetches `res_id` for `locale` through `fetcher` unless the cache
    /// already has the outcome. A file that cannot be read counts as
    /// missing. While an asynchronous fetch of the path is in flight, the
    /// file is fetched anyway and the cache is left as it is. Returns the
    /// resource's index, and the syntax errors found when it was parsed now.
    pub fn fetch_file_sync<F: FileFetcher>(&mut self, fetcher: &F, locale: &str, res_id: &str) -> (r: (
        Option<usize>,
        Vec<FluentError>,
    ))
        requires
            old(self).wf(),
        ensures
            final(self).wf(),
            final(self).name == old(self).name,
            final(self).locales == old(self).locales,
            final(self).pre_path == old(self).pre_path,
            final(self).resources@.subrange(0, old(self).resources@.len() as int) == old(self).resources@,
            no_regression(old(self).cache(), final(self).cache()),
            r.0 matches Some(h) ==> h < final(self).resources@.len(),
            ({
                let p = old(self).path_of(locale@, res_id@);
                match sync_step(old(self).cache(), p) {
                    Some(v) => r.0 == v && final(self).cache() == old(self).cache()
                        && final(self).resources == old(self).resources,
                    None => (r.0 matches Some(h) ==> h == old(self).resources@.len()
                        && final(self).resources@.len() == old(self).resources@.len() + 1)
                        && final(self).cache() == if old(self).cache().contains_key(p) {
                        old(self).cache()
                    } else {
                        old(self).cache().insert(
                            p,
                            match r.0 {
                                Some(h) => ResourceStatus::Loaded(h),
                                None => ResourceStatus::Missing,
                            },
                        )
                    },
                }
            }),
    {
        match self.lookup_sync(locale, res_id) {
            SyncLookup::Cached(h) => (h, Vec::new()),
            SyncLookup::Fetch(path) | SyncLookup::Overload(path) => {
                let text = match fetcher.fetch_sync(path.as_str()) {
                    Ok(text) => Some(text),
                    Err(_) => None,
                };
                self.finish_fetch_sync(path, text)
            },
        }
    }

    /// The resource with index `h`.
    pub fn resource(&self, h: usize) -> (r: &Rc<FluentResource>)
        requires
            h < self.resources@.len(),
        ensures
            *r == self.resources@[h as int],
    {
        &self.resources[h]
    }
}

/// No regression: the outcomes a cache holds at one time are still there,
/// unchanged, at any later time.
pub proof fn law_no_regression_chain(
    c1: Map<Seq<char>, ResourceStatus>,
    c2: Map<Seq<char>, ResourceStatus>,
    c3: Map<Seq<char>, ResourceStatus>,
)
    requires
        no_regression(c1, c2),
        no_regression(c2, c3),
    ensures
        no_regression(c1, c3),
{
    assert forall|p: Seq<char>| #[trigger] c1.contains_key(p) implies c3.contains_key(p) && (
    c1[p].is_terminal() ==> c3[p] == c1[p]) by {
        assert(c2.contains_key(p));
    }
}

/// At most one underlying fetch per path from asynchronous callers: once a
/// path is in the cache (its first asynchronous fetch marks it `Loading`),
/// no later asynchronous fetch of it starts another, since no path ever
/// leaves the cache.
pub proof fn law_single_start(
    before: Map<Seq<char>, ResourceStatus>,
    later: Map<Seq<char>, ResourceStatus>,
    path: Seq<char>,
)
    requires
        before.contains_key(path),
        no_regression(before, later),
    ensures
        !starts_fetch(later, path),
{
}

/// Round trip: after an asynchronous fetch has stored resource `h` for a
/// path, a synchronous fetch of the path returns that same resource and
/// fetches nothing.
pub proof fn law_round_trip(cache: Map<Seq<char>, ResourceStatus>, path: Seq<char>, h: usize)
    requires
        cache.contains_key(path),
        cache[path] == ResourceStatus::Loaded(h),
    ensures
        sync_step(cache, path) == Some(Some(h)),
{
}

} // verus!
