use l10nregistry::source::{AsyncLookup, FileFetcher, FileSource, SyncLookup};
use l10nregistry::testing::MockFileFetcher;

const MENU: &str = "toolkit/menu.ftl";
const MISSING: &str = "missing.ftl";

fn toolkit() -> FileSource {
    FileSource::new(
        "toolkit".to_string(),
        vec!["en-US".to_string()],
        "./tests/resources/toolkit/{locale}/".to_string(),
    )
}

fn fetcher() -> MockFileFetcher {
    MockFileFetcher::new(vec![(
        "./tests/resources/toolkit/en-US/toolkit/menu.ftl".to_string(),
        "menu-open = Open\nmenu-close = Close\n".to_string(),
    )])
}

fn fetch_sync(fs: &mut FileSource, f: &MockFileFetcher, res_id: &str) -> Option<usize> {
    fs.fetch_file_sync(f, "en-US", res_id).0
}

#[test]
fn path_substitutes_locale() {
    let fs = FileSource::new("browser".to_string(), vec![], "browser/{locale}".to_string());
    assert_eq!(fs.get_path("en-US", "menu.ftl"), "browser/en-US/menu.ftl");
    assert_eq!(
        toolkit().get_path("en-US", MENU),
        "./tests/resources/toolkit/en-US/toolkit/menu.ftl"
    );
    let fs = FileSource::new("t".to_string(), vec![], "{locale}/x/{locale}".to_string());
    assert_eq!(fs.get_path("de", "a.ftl"), "de/x/de/a.ftl");
}

#[test]
fn test_fetch_sync() {
    let mut fs = toolkit();
    let f = fetcher();
    assert!(fetch_sync(&mut fs, &f, MENU).is_some());
    assert!(fetch_sync(&mut fs, &f, MISSING).is_none());
}

#[test]
fn test_fetch_has_value_sync() {
    let mut fs = toolkit();
    let f = fetcher();
    assert_eq!(fs.has_file("en-US", MENU), None);
    assert!(fetch_sync(&mut fs, &f, MENU).is_some());
    assert_eq!(fs.has_file("en-US", MENU), Some(true));

    assert_eq!(fs.has_file("en-US", MISSING), None);
    assert!(fetch_sync(&mut fs, &f, MISSING).is_none());
    assert_eq!(fs.has_file("en-US", MISSING), Some(false));
}

#[test]
fn unsupported_locale_has_no_file() {
    let mut fs = toolkit();
    let f = fetcher();
    assert!(fetch_sync(&mut fs, &f, MENU).is_some());
    assert_eq!(fs.has_file("de", MENU), Some(false));
}

#[test]
fn sync_fetch_is_cached() {
    let mut fs = toolkit();
    let f = fetcher();
    let h = fetch_sync(&mut fs, &f, MENU).unwrap();
    assert_eq!(fs.lookup_sync("en-US", MENU), SyncLookup::Cached(Some(h)));
    assert_eq!(fetch_sync(&mut fs, &f, MENU), Some(h));
    assert_eq!(fs.resources.len(), 1);
}

#[test]
fn async_fetch_starts_once() {
    let mut fs = toolkit();
    let path = fs.get_path("en-US", MENU);
    assert_eq!(fs.lookup_async("en-US", MENU), AsyncLookup::Start(path.clone()));
    assert_eq!(fs.lookup_async("en-US", MENU), AsyncLookup::Pending(path.clone()));
    assert_eq!(fs.has_file("en-US", MENU), None);
    let (h, errors) = fs.resolve(path.clone(), fetcher().lookup(&path));
    assert!(errors.is_empty());
    let h = h.unwrap();
    assert_eq!(fs.has_file("en-US", MENU), Some(true));
    assert_eq!(fs.lookup_async("en-US", MENU), AsyncLookup::Ready(Some(h)));
}

#[test]
fn sync_after_async_round_trip() {
    let mut fs = toolkit();
    let f = fetcher();
    let path = match fs.lookup_async("en-US", MENU) {
        AsyncLookup::Start(p) => p,
        other => panic!("unexpected {:?}", other),
    };
    let (h, _) = fs.resolve(path.clone(), f.lookup(&path));
    let h = h.unwrap();
    // No new fetch: the cached resource itself comes back.
    assert_eq!(fs.lookup_sync("en-US", MENU), SyncLookup::Cached(Some(h)));
    assert!(std::rc::Rc::ptr_eq(fs.resource(h), fs.resource(h)));
    assert_eq!(fs.resources.len(), 1);
}

#[test]
fn file_source_sync_after_async_fail() {
    let mut fs = toolkit();
    let f = fetcher();
    let path = match fs.lookup_async("en-US", MENU) {
        AsyncLookup::Start(p) => p,
        other => panic!("unexpected {:?}", other),
    };
    // A synchronous fetch while the asynchronous one is in flight.
    assert_eq!(fs.lookup_sync("en-US", MENU), SyncLookup::Overload(path.clone()));
    let file2 = fetch_sync(&mut fs, &f, MENU);
    assert!(file2.is_some());
    // The cache still waits for the asynchronous fetch.
    assert_eq!(fs.has_file("en-US", MENU), None);
    let (h, _) = fs.resolve(path, f.lookup("./tests/resources/toolkit/en-US/toolkit/menu.ftl"));
    assert!(h.is_some());
    assert_eq!(fs.has_file("en-US", MENU), Some(true));
}

#[test]
fn async_missing_file() {
    let mut fs = toolkit();
    let path = fs.get_path("en-US", MISSING);
    assert_eq!(fs.lookup_async("en-US", MISSING), AsyncLookup::Start(path.clone()));
    let (h, _) = fs.resolve(path, None);
    assert_eq!(h, None);
    assert_eq!(fs.has_file("en-US", MISSING), Some(false));
    assert_eq!(fs.lookup_async("en-US", MISSING), AsyncLookup::Ready(None));
    assert_eq!(fs.lookup_sync("en-US", MISSING), SyncLookup::Cached(None));
}

#[test]
fn completed_entry_never_regresses() {
    let mut fs = toolkit();
    let f = fetcher();
    let h = fetch_sync(&mut fs, &f, MENU).unwrap();
    let path = fs.get_path("en-US", MENU);
    // A late write-back cannot replace a completed outcome.
    let (again, _) = fs.resolve(path.clone(), None);
    assert_eq!(again, Some(h));
    assert_eq!(fs.has_file("en-US", MENU), Some(true));
    let (again, _) = fs.finish_fetch_sync(path, None);
    assert_eq!(again, None);
    assert_eq!(fs.lookup_sync("en-US", MENU), SyncLookup::Cached(Some(h)));
}

#[test]
fn parse_errors_still_load() {
    let mut fs = toolkit();
    let path = fs.get_path("en-US", MENU);
    let (h, errors) = fs.finish_fetch_sync(path, Some("key = value\n!!! broken\n".to_string()));
    assert!(h.is_some());
    assert!(!errors.is_empty());
    assert_eq!(fs.has_file("en-US", MENU), Some(true));
}

#[test]
fn mock_fetcher_returns_first_match() {
    let f = MockFileFetcher::new(vec![
        ("a".to_string(), "1".to_string()),
        ("b".to_string(), "2".to_string()),
        ("a".to_string(), "3".to_string()),
    ]);
    assert_eq!(f.lookup("a"), Some("1".to_string()));
    assert_eq!(f.lookup("b"), Some("2".to_string()));
    assert_eq!(f.lookup("c"), None);
}

#[test]
fn interleaved_fetches_never_regress() {
    let f = fetcher();
    for seed in 0u32..100 {
        let mut fs = toolkit();
        let mut x = seed.wrapping_mul(2654435761).wrapping_add(1);
        let mut settled: Vec<Option<bool>> = vec![None, None];
        let mut starts = vec![0usize, 0];
        let mut in_flight: Vec<String> = vec![];
        for _ in 0..30 {
            x ^= x << 13;
            x ^= x >> 17;
            x ^= x << 5;
            let which = (x % 2) as usize;
            let res = [MENU, MISSING][which];
            match (x >> 4) % 3 {
                0 => {
                    fs.fetch_file_sync(&f, "en-US", res);
                }
                1 => {
                    if let AsyncLookup::Start(p) = fs.lookup_async("en-US", res) {
                        starts[which] += 1;
                        in_flight.push(p);
                    }
                }
                _ => {
                    if let Some(p) = in_flight.pop() {
                        let text = f.lookup(&p);
                        fs.resolve(p, text);
                    }
                }
            }
            for (i, res) in [MENU, MISSING].iter().enumerate() {
                let now = fs.has_file("en-US", res);
                match settled[i] {
                    Some(v) => assert_eq!(now, Some(v)),
                    None => settled[i] = now,
                }
            }
        }
        assert!(starts[0] <= 1 && starts[1] <= 1);
        if let Some(v) = settled[0] {
            assert!(v);
        }
        if let Some(v) = settled[1] {
            assert!(!v);
        }
    }
}
