//! Fixtures for exercising the solver and the registry: an in-memory file
//! fetcher and a set of scenarios.
use vstd::prelude::*;

use crate::registry::{L10nRegistry, L10nRegistrySetupError, is_duplicate};
use crate::source::{FileFetcher, FileSource};

verus! {

/// An in-memory set of files, each a path and its text.
#[derive(Clone)]
pub struct MockFileFetcher {
    pub files: Vec<(String, String)>,
}

impl MockFileFetcher {
    /// A fetcher that serves `files`.
    pub fn new(files: Vec<(String, String)>) -> (f: MockFileFetcher)
        ensures
            f.files == files,
    {
        MockFileFetcher { files }
    }

    /// The text of the first file whose path is `path`, if any.
    pub fn lookup(&self, path: &str) -> (r: Option<String>)
        ensures
            match r {
                Some(text) => exists|i: int|
                    0 <= i < self.files@.len() && (#[trigger] self.files@[i]).0@ == path@
                        && text@ == self.files@[i].1@ && forall|j: int|
                        0 <= j < i ==> (#[trigger] self.files@[j]).0@ != path@,
                None => forall|i: int| 0 <= i < self.files@.len() ==> (#[trigger] self.files@[i]).0@ != path@,
            },
    {
        let p = path.to_string();
        let mut i: usize = 0;
        while i < self.files.len()
            invariant
                i <= self.files@.len(),
                p@ == path@,
                forall|j: int| 0 <= j < i ==> (#[trigger] self.files@[j]).0@ != path@,
            decreases self.files@.len() - i,
        {
            if self.files[i].0 == p {
                let text = self.files[i].1.clone();
                return Some(text);
            }
            i = i + 1;
        }
        None
    }
}

/// Relies on `std::io::Error::new`: an error of kind `NotFound`.
#[verifier::external_body]
fn not_found() -> std::io::Error {
    std::io::Error::new(std::io::ErrorKind::NotFound, "missing")
}

impl FileFetcher for MockFileFetcher {
    fn fetch_sync(&self, path: &str) -> Result<String, std::io::Error> {
        match self.lookup(path) {
            Some(text) => Ok(text),
            None => Err(not_found()),
        }
    }
}

/// A set of files, the sources that hold them, the resources asked for,
/// and the candidates expected, as source indices in registration order.
pub struct Scenario {
    pub name: String,
    pub files: Vec<String>,
    pub sources: Vec<(String, Vec<String>, String)>,
    pub res_ids: Vec<String>,
    pub solutions: Option<Vec<Vec<usize>>>,
}

impl Scenario {
    /// The expected candidates, as sequences.
    pub open spec fn solutions_view(&self) -> Option<Seq<Seq<usize>>> {
        match self.solutions {
            Some(v) => Some(v@.map_values(|c: Vec<usize>| c@)),
            None => None,
        }
    }

    pub fn new(
        name: String,
        files: Vec<String>,
        sources: Vec<(String, Vec<String>, String)>,
        res_ids: Vec<String>,
        solutions: Option<Vec<Vec<usize>>>,
    ) -> (s: Scenario)
        ensures
            s.name == name,
            s.files == files,
            s.sources == sources,
            s.res_ids == res_ids,
            s.solutions == solutions,
    {
        Scenario { name, files, sources, res_ids, solutions }
    }

    /// A fetcher that serves the scenario's files, each with empty text.
    pub fn get_fetcher(&self) -> (f: MockFileFetcher)
        ensures
            f.files@.len() == self.files@.len(),
            forall|i: int|
                0 <= i < self.files@.len() ==> (#[trigger] f.files@[i]).0@ == self.files@[i]@
                    && f.files@[i].1@.len() == 0,
    {
        let mut files: Vec<(String, String)> = Vec::new();
        let mut i: usize = 0;
        while i < self.files.len()
            invariant
                i <= self.files@.len(),
                files@.len() == i,
                forall|j: int|
                    0 <= j < i ==> (#[trigger] files@[j]).0@ == self.files@[j]@ && files@[j].1@.len()
                        == 0,
            decreases self.files@.len() - i,
        {
            files.push((self.files[i].clone(), String::new()));
            i = i + 1;
        }
        MockFileFetcher::new(files)
    }

    /// A registry holding the scenario's sources, in order.
    pub fn get_l10nregistry(&self) -> (r: Result<L10nRegistry, L10nRegistrySetupError>)
        ensures
            r is Ok <==> forall|i: int, j: int|
                0 <= i < j < self.sources@.len() ==> (#[trigger] self.sources@[i]).0@ != (#[trigger] self.sources@[j]).0@,
            r matches Ok(reg) ==> reg.wf() && reg.locks == 0 && reg.sources@.len() == self.sources@.len()
                && forall|i: int|
                0 <= i < self.sources@.len() ==> (#[trigger] reg.sources@[i]).name@ == self.sources@[i].0@
                    && reg.sources@[i].pre_path@ == self.sources@[i].2@,
    {
        let mut reg = L10nRegistry::new();
        let mut fs: Vec<FileSource> = Vec::new();
        let mut i: usize = 0;
        while i < self.sources.len()
            invariant
                i <= self.sources@.len(),
                fs@.len() == i,
                forall|j: int| 0 <= j < i ==> (#[trigger] fs@[j]).wf(),
                forall|j: int|
                    0 <= j < i ==> (#[trigger] fs@[j]).name@ == self.sources@[j].0@ && fs@[j].pre_path@
                        == self.sources@[j].2@,
            decreases self.sources@.len() - i,
        {
            let (name, locales, pre_path) = &self.sources[i];
            let mut ls: Vec<String> = Vec::new();
            let mut k: usize = 0;
            while k < locales.len()
                invariant
                    k <= locales@.len(),
                decreases locales@.len() - k,
            {
                ls.push(locales[k].clone());
                k = k + 1;
            }
            fs.push(FileSource::new(name.clone(), ls, pre_path.clone()));
            i = i + 1;
        }
        let ghost added = fs@;
        proof {
            assert(reg.names() =~= Seq::<Seq<char>>::empty());
            assert forall|i: int| 0 <= i < added.len() implies (is_duplicate(reg.names(), added, i) <==> exists|j: int|
                0 <= j < i && (#[trigger] self.sources@[j]).0@ == self.sources@[i].0@) by {
                if exists|j: int| 0 <= j < i && (#[trigger] self.sources@[j]).0@ == self.sources@[i].0@ {
                    let j = choose|j: int| 0 <= j < i && (#[trigger] self.sources@[j]).0@ == self.sources@[i].0@;
                    assert(added[j].name@ == added[i].name@);
                }
                if is_duplicate(reg.names(), added, i) {
                    let j = choose|j: int| 0 <= j < i && (#[trigger] added[j]).name@ == added[i].name@;
                    assert(self.sources@[j].0@ == self.sources@[i].0@);
                }
            }
        }
        match reg.register_sources(fs) {
            Ok(()) => {
                assert(reg.sources@ =~= added);
                proof {
                    assert forall|i: int, j: int|
                        0 <= i < j < self.sources@.len() implies (#[trigger] self.sources@[i]).0@ != (#[trigger] self.sources@[j]).0@ by {
                        if self.sources@[i].0@ == self.sources@[j].0@ {
                            assert(added[i].name@ == added[j].name@);
                            assert(is_duplicate(Seq::<Seq<char>>::empty(), added, j));
                        }
                    }
                }
                Ok(reg)
            },
            Err(e) => {
                proof {
                    let i = choose|i: int| 0 <= i < added.len() && is_duplicate(Seq::<Seq<char>>::empty(), added, i);
                    let j = choose|j: int| 0 <= j < i && (#[trigger] self.sources@[j]).0@ == self.sources@[i].0@;
                    assert(self.sources@[j].0@ == self.sources@[i].0@);
                }
                Err(e)
            },
        }
    }
}

/// The scenarios: their files and sources, the resources asked for, and
/// the candidates expected, in registration order.
pub fn get_scenarios() -> (r: Vec<Scenario>)
    ensures
        r@.len() == 5,
        r@[0].res_ids@.len() == 1,
        r@[0].sources@.len() == 2,
        r@[0].files@.len() == 2,
        r@[1].res_ids@.len() == 3,
        r@[1].sources@.len() == 2,
        r@[1].files@.len() == 6,
        r@[2].res_ids@.len() == 3,
        r@[2].sources@.len() == 2,
        r@[2].files@.len() == 4,
        r@[3].res_ids@.len() == 19,
        r@[3].sources@.len() == 2,
        r@[3].files@.len() == 19,
        r@[4].res_ids@.len() == 3,
        r@[4].sources@.len() == 4,
        r@[4].files@.len() == 12,
        r@[0].name@ == "one-res-two-sources"@,
        r@[0].solutions_view() == Some(seq![seq![0usize], seq![1usize]]),
        r@[1].name@ == "small"@,
        r@[1].solutions_view() == Some(seq![seq![0usize, 0usize, 0usize], seq![0usize, 0usize, 1usize], seq![0usize, 1usize, 0usize], seq![0usize, 1usize, 1usize], seq![1usize, 0usize, 0usize], seq![1usize, 0usize, 1usize], seq![1usize, 1usize, 0usize], seq![1usize, 1usize, 1usize]]),
        r@[2].name@ == "incomplete"@,
        r@[2].solutions_view() == Some(seq![seq![0usize, 1usize, 0usize], seq![0usize, 1usize, 1usize]]),
        r@[3].name@ == "preferences"@,
        r@[3].solutions_view() == Some(seq![seq![0usize, 0usize, 0usize, 0usize, 0usize, 0usize, 0usize, 0usize, 0usize, 0usize, 0usize, 0usize, 0usize, 0usize, 0usize, 0usize, 1usize, 1usize, 1usize]]),
        r@[4].name@ == "langpack"@,
        r@[4].solutions_view() == None::<Seq<Seq<usize>>>,
{
    let solutions0: Vec<Vec<usize>> = vec![vec![0usize], vec![1usize]];
    let solutions1: Vec<Vec<usize>> = vec![vec![0usize, 0usize, 0usize], vec![0usize, 0usize, 1usize], vec![0usize, 1usize, 0usize], vec![0usize, 1usize, 1usize], vec![1usize, 0usize, 0usize], vec![1usize, 0usize, 1usize], vec![1usize, 1usize, 0usize], vec![1usize, 1usize, 1usize]];
    let solutions2: Vec<Vec<usize>> = vec![vec![0usize, 1usize, 0usize], vec![0usize, 1usize, 1usize]];
    let solutions3: Vec<Vec<usize>> = vec![vec![0usize, 0usize, 0usize, 0usize, 0usize, 0usize, 0usize, 0usize, 0usize, 0usize, 0usize, 0usize, 0usize, 0usize, 0usize, 0usize, 1usize, 1usize, 1usize]];
    proof {
        assert(solutions0@.map_values(|c: Vec<usize>| c@) =~~= seq![seq![0usize], seq![1usize]]);
        assert(solutions1@.map_values(|c: Vec<usize>| c@) =~~= seq![seq![0usize, 0usize, 0usize], seq![0usize, 0usize, 1usize], seq![0usize, 1usize, 0usize], seq![0usize, 1usize, 1usize], seq![1usize, 0usize, 0usize], seq![1usize, 0usize, 1usize], seq![1usize, 1usize, 0usize], seq![1usize, 1usize, 1usize]]);
        assert(solutions2@.map_values(|c: Vec<usize>| c@) =~~= seq![seq![0usize, 1usize, 0usize], seq![0usize, 1usize, 1usize]]);
        assert(solutions3@.map_values(|c: Vec<usize>| c@) =~~= seq![seq![0usize, 0usize, 0usize, 0usize, 0usize, 0usize, 0usize, 0usize, 0usize, 0usize, 0usize, 0usize, 0usize, 0usize, 0usize, 0usize, 1usize, 1usize, 1usize]]);
    }
    vec![
        Scenario::new(
            "one-res-two-sources".to_string(),
            vec![
                "browser/browser/main.ftl".to_string(),
                "toolkit/browser/main.ftl".to_string(),
            ],
            vec![
                ("browser".to_string(), vec!["en-US".to_string()], "browser".to_string()),
                ("toolkit".to_string(), vec!["en-US".to_string()], "toolkit".to_string()),
            ],
            vec![
                "browser/main.ftl".to_string(),
            ],
            Some(solutions0),
        ),
        Scenario::new(
            "small".to_string(),
            vec![
                "browser/branding/brand.ftl".to_string(),
                "browser/menu.ftl".to_string(),
                "browser/shared.ftl".to_string(),
                "toolkit/branding/brand.ftl".to_string(),
                "toolkit/menu.ftl".to_string(),
                "toolkit/shared.ftl".to_string(),
            ],
            vec![
                ("browser".to_string(), vec!["en-US".to_string()], "browser".to_string()),
                ("toolkit".to_string(), vec!["en-US".to_string()], "toolkit".to_string()),
            ],
            vec![
                "branding/brand.ftl".to_string(),
                "menu.ftl".to_string(),
                "shared.ftl".to_string(),
            ],
            Some(solutions1),
        ),
        Scenario::new(
            "incomplete".to_string(),
            vec![
                "browser/branding/brand.ftl".to_string(),
                "browser/shared.ftl".to_string(),
                "toolkit/menu.ftl".to_string(),
                "toolkit/shared.ftl".to_string(),
            ],
            vec![
                ("browser".to_string(), vec!["en-US".to_string()], "browser".to_string()),
                ("toolkit".to_string(), vec!["en-US".to_string()], "toolkit".to_string()),
            ],
            vec![
                "branding/brand.ftl".to_string(),
                "menu.ftl".to_string(),
                "shared.ftl".to_string(),
            ],
            Some(solutions2),
        ),
        Scenario::new(
            "preferences".to_string(),
            vec![
                "browser/branding/brand.ftl".to_string(),
                "browser/browser/branding/brandings.ftl".to_string(),
                "browser/browser/branding/sync-brand.ftl".to_string(),
                "browser/browser/preferences/preferences.ftl".to_string(),
                "browser/browser/preferences/fonts.ftl".to_string(),
                "browser/browser/featuregates/features.ftl".to_string(),
                "browser/browser/preferences/addEngine.ftl".to_string(),
                "browser/browser/preferences/blocklists.ftl".to_string(),
                "browser/browser/preferences/clearSiteData.ftl".to_string(),
                "browser/browser/preferences/colors.ftl".to_string(),
                "browser/browser/preferences/connection.ftl".to_string(),
                "browser/browser/preferences/languages.ftl".to_string(),
                "browser/browser/preferences/permissions.ftl".to_string(),
                "browser/browser/preferences/selectBookmark.ftl".to_string(),
                "browser/browser/aboutDialog.ftl".to_string(),
                "browser/browser/sanitize.ftl".to_string(),
                "toolkit/toolkit/updates/history.ftl".to_string(),
                "toolkit/security/certificates/deviceManager.ftl".to_string(),
                "toolkit/security/certificates/certManager.ftl".to_string(),
            ],
            vec![
                ("packaged-browser".to_string(), vec!["en-US".to_string()], "browser".to_string()),
                ("packaged-toolkit".to_string(), vec!["en-US".to_string()], "toolkit".to_string()),
            ],
            vec![
                "branding/brand.ftl".to_string(),
                "browser/branding/brandings.ftl".to_string(),
                "browser/branding/sync-brand.ftl".to_string(),
                "browser/preferences/preferences.ftl".to_string(),
                "browser/preferences/fonts.ftl".to_string(),
                "browser/featuregates/features.ftl".to_string(),
                "browser/preferences/addEngine.ftl".to_string(),
                "browser/preferences/blocklists.ftl".to_string(),
                "browser/preferences/clearSiteData.ftl".to_string(),
                "browser/preferences/colors.ftl".to_string(),
                "browser/preferences/connection.ftl".to_string(),
                "browser/preferences/languages.ftl".to_string(),
                "browser/preferences/permissions.ftl".to_string(),
                "browser/preferences/selectBookmark.ftl".to_string(),
                "browser/aboutDialog.ftl".to_string(),
                "browser/sanitize.ftl".to_string(),
                "toolkit/updates/history.ftl".to_string(),
                "security/certificates/deviceManager.ftl".to_string(),
                "security/certificates/certManager.ftl".to_string(),
            ],
            Some(solutions3),
        ),
        Scenario::new(
            "langpack".to_string(),
            vec![
                "packaged/browser/branding/brand.ftl".to_string(),
                "packaged/browser/menu.ftl".to_string(),
                "packaged/browser/shared.ftl".to_string(),
                "packaged/toolkit/branding/brand.ftl".to_string(),
                "packaged/toolkit/menu.ftl".to_string(),
                "packaged/toolkit/shared.ftl".to_string(),
                "langpack/browser/branding/brand.ftl".to_string(),
                "langpack/browser/menu.ftl".to_string(),
                "langpack/browser/shared.ftl".to_string(),
                "langpack/toolkit/branding/brand.ftl".to_string(),
                "langpack/toolkit/menu.ftl".to_string(),
                "langpack/toolkit/shared.ftl".to_string(),
            ],
            vec![
                ("packaged-browser".to_string(), vec!["en-US".to_string()], "packaged/browser".to_string()),
                ("packaged-toolkit".to_string(), vec!["en-US".to_string()], "packaged/toolkit".to_string()),
                ("langpack-browser".to_string(), vec!["en-US".to_string()], "langpack/browser".to_string()),
                ("langpack-toolkit".to_string(), vec!["en-US".to_string()], "langpack/toolkit".to_string()),
            ],
            vec![
                "branding/brand.ftl".to_string(),
                "menu.ftl".to_string(),
                "shared.ftl".to_string(),
            ],
            None,
        ),
    ]
}

} // verus!
