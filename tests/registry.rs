use l10nregistry::registry::{L10nRegistry, L10nRegistrySetupError};
use l10nregistry::source::{FileSource, SyncLookup};
use l10nregistry::testing::MockFileFetcher;

const FTL_RESOURCE_TOOLKIT: &str = "toolkit/global/textActions.ftl";

fn source(name: &str, path: &str) -> FileSource {
    FileSource::new(name.to_string(), vec!["en-US".to_string()], path.to_string())
}

fn names(reg: &L10nRegistry) -> Vec<String> {
    reg.sources.iter().map(|s| s.name.clone()).collect()
}

#[test]
fn test_generate_sources_for_file() {
    let mut reg = L10nRegistry::new();
    reg.register_sources(vec![
        source("browser", "browser/{locale}"),
        source("toolkit", "toolkit/{locale}"),
    ])
    .unwrap();

    let toolkit = reg.get_source("toolkit").unwrap();
    let browser = reg.get_source("browser").unwrap();
    assert_eq!(toolkit.name, "toolkit");
    assert_eq!(browser.name, "browser");

    assert_eq!(reg.generate_sources_for_file("en-US", FTL_RESOURCE_TOOLKIT), vec![0, 1]);

    // The browser source turns out not to have the file.
    let fetcher = MockFileFetcher::new(vec![(
        "toolkit/en-US/toolkit/global/textActions.ftl".to_string(),
        "a = b\n".to_string(),
    )]);
    let fs = reg.source_idx_mut(1);
    assert_eq!(fs.name, "browser");
    assert!(fs.fetch_file_sync(&fetcher, "en-US", FTL_RESOURCE_TOOLKIT).0.is_none());
    assert_eq!(reg.generate_sources_for_file("en-US", FTL_RESOURCE_TOOLKIT), vec![1]);

    // The toolkit source has it.
    let fs = reg.source_idx_mut(0);
    assert_eq!(fs.name, "toolkit");
    assert!(fs.fetch_file_sync(&fetcher, "en-US", FTL_RESOURCE_TOOLKIT).0.is_some());
    assert_eq!(fs.lookup_sync("en-US", FTL_RESOURCE_TOOLKIT), SyncLookup::Cached(Some(0)));
    assert_eq!(reg.generate_sources_for_file("en-US", FTL_RESOURCE_TOOLKIT), vec![1]);

    // No source has another locale.
    assert_eq!(reg.generate_sources_for_file("de", FTL_RESOURCE_TOOLKIT), Vec::<usize>::new());
}

#[test]
fn last_registered_comes_first() {
    let mut reg = L10nRegistry::new();
    reg.register_sources(vec![source("a", "a"), source("b", "b"), source("c", "c")]).unwrap();
    assert_eq!(reg.len(), 3);
    assert_eq!(reg.source_idx(0).name, "c");
    assert_eq!(reg.source_idx(2).name, "a");
}

#[test]
fn duplicate_source_is_refused() {
    let mut reg = L10nRegistry::new();
    reg.register_sources(vec![source("a", "a")]).unwrap();
    assert_eq!(
        reg.register_sources(vec![source("b", "b"), source("a", "x")]),
        Err(L10nRegistrySetupError::DuplicatedSource { name: "a".to_string() })
    );
    assert_eq!(names(&reg), vec!["a"]);
    assert_eq!(
        reg.register_sources(vec![source("c", "c"), source("c", "d")]),
        Err(L10nRegistrySetupError::DuplicatedSource { name: "c".to_string() })
    );
    assert_eq!(names(&reg), vec!["a"]);
}

#[test]
fn locked_registry_refuses_changes() {
    let mut reg = L10nRegistry::new();
    reg.register_sources(vec![source("a", "a")]).unwrap();
    reg.lock();
    assert!(reg.is_locked());
    assert_eq!(
        reg.register_sources(vec![source("b", "b")]),
        Err(L10nRegistrySetupError::RegistryLocked)
    );
    assert_eq!(reg.update_sources(vec![source("a", "z")]), Err(L10nRegistrySetupError::RegistryLocked));
    assert_eq!(reg.remove_sources(vec!["a".to_string()]), Err(L10nRegistrySetupError::RegistryLocked));
    reg.unlock();
    assert!(!reg.is_locked());
    assert!(reg.remove_sources(vec!["a".to_string()]).is_ok());
    assert!(reg.is_empty());
}

#[test]
fn update_replaces_by_name() {
    let mut reg = L10nRegistry::new();
    reg.register_sources(vec![source("a", "a"), source("b", "b")]).unwrap();
    reg.update_sources(vec![source("b", "b2"), source("b", "b3")]).unwrap();
    assert_eq!(names(&reg), vec!["a", "b"]);
    assert_eq!(reg.sources[1].pre_path, "b3");
    assert_eq!(reg.sources[0].pre_path, "a");
    assert_eq!(
        reg.update_sources(vec![source("a", "a2"), source("x", "x")]),
        Err(L10nRegistrySetupError::MissingSource { name: "x".to_string() })
    );
    assert_eq!(reg.sources[0].pre_path, "a");
}

#[test]
fn remove_ignores_unknown_names() {
    let mut reg = L10nRegistry::new();
    reg.register_sources(vec![source("a", "a"), source("b", "b"), source("c", "c")]).unwrap();
    reg.remove_sources(vec!["b".to_string(), "zzz".to_string()]).unwrap();
    assert_eq!(names(&reg), vec!["a", "c"]);
    assert!(reg.get_source("b").is_none());
}
