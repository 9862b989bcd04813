use l10nregistry::generation::{resources_for_order, BundleGeneration, BundleGenerationSync, GenerationStep};
use l10nregistry::registry::L10nRegistry;
use l10nregistry::source::FileSource;
use l10nregistry::testing::MockFileFetcher;

fn matrix(rows: &[&str]) -> Vec<Vec<bool>> {
    rows.iter().map(|r| r.chars().map(|c| c == 'x').collect()).collect()
}

/// Runs the serial generation with one matrix per locale.
fn run_sync(per_locale: &[Vec<Vec<bool>>], width: usize, depth: usize) -> Vec<GenerationStep> {
    let mut g = BundleGenerationSync::new(per_locale.len(), width, depth);
    let mut steps = vec![];
    loop {
        let values = per_locale.get(g.locale).cloned().unwrap_or_default();
        let step = g.next_step(&|r: usize, s: usize| values[r][s]);
        let done = step == GenerationStep::Done;
        steps.push(step);
        if done {
            return steps;
        }
        assert!(steps.len() < 1000);
    }
}

fn run_async(per_locale: &[Vec<Vec<bool>>], width: usize, depth: usize) -> Vec<GenerationStep> {
    let mut g = BundleGeneration::new(per_locale.len(), width, depth);
    let mut steps = vec![];
    loop {
        let step = g.next_step();
        match step {
            GenerationStep::Test(q) => {
                let values = &per_locale[g.locale];
                let results: Vec<bool> = q.iter().map(|&(r, s)| values[r][s]).collect();
                if let Some(order) = g.apply_test_result(&results) {
                    steps.push(GenerationStep::Bundle { locale: g.locale, order });
                }
            }
            GenerationStep::Done => {
                steps.push(GenerationStep::Done);
                return steps;
            }
            other => steps.push(other),
        }
        assert!(steps.len() < 1000);
    }
}

#[test]
fn locales_in_order_with_missing_report() {
    let expected = vec![
        GenerationStep::ReportMissing { locale: 0, res: vec![1] },
        GenerationStep::Bundle { locale: 1, order: vec![0, 1] },
        GenerationStep::Bundle { locale: 1, order: vec![1, 1] },
        GenerationStep::LocaleDone { locale: 1 },
        GenerationStep::Done,
    ];
    // In the first locale resource 1 is in no source.
    let locales = vec![matrix(&["x.", ".."]), matrix(&["xx", ".x"])];
    assert_eq!(run_sync(&locales, 2, 2), expected);
    assert_eq!(run_async(&locales, 2, 2), expected);
}

#[test]
fn no_locales_is_done_at_once() {
    assert_eq!(run_sync(&[], 2, 2), vec![GenerationStep::Done]);
    assert_eq!(run_async(&[], 2, 2), vec![GenerationStep::Done]);
}

#[test]
fn no_sources_reports_every_resource() {
    let locales = vec![vec![vec![], vec![]]];
    let expected = vec![
        GenerationStep::ReportMissing { locale: 0, res: vec![0, 1] },
        GenerationStep::Done,
    ];
    assert_eq!(run_sync(&locales, 2, 0), expected);
    assert_eq!(run_async(&locales, 2, 0), expected);
}

#[test]
fn resources_for_order_needs_loaded_cells() {
    let mut reg = L10nRegistry::new();
    reg.register_sources(vec![
        FileSource::new("browser".to_string(), vec!["en-US".to_string()], "browser/{locale}".to_string()),
        FileSource::new("toolkit".to_string(), vec!["en-US".to_string()], "toolkit/{locale}".to_string()),
    ])
    .unwrap();
    let fetcher = MockFileFetcher::new(vec![
        ("browser/en-US/a.ftl".to_string(), "a = A\n".to_string()),
        ("toolkit/en-US/b.ftl".to_string(), "b = B\n".to_string()),
    ]);
    let res_ids = vec!["a.ftl".to_string(), "b.ftl".to_string()];
    // Priority index 0 is toolkit (registered last), 1 is browser.
    let order = vec![1, 0];
    assert_eq!(resources_for_order(&reg, "en-US", &order, &res_ids), None);
    reg.source_idx_mut(1).fetch_file_sync(&fetcher, "en-US", "a.ftl");
    assert_eq!(resources_for_order(&reg, "en-US", &order, &res_ids), None);
    reg.source_idx_mut(0).fetch_file_sync(&fetcher, "en-US", "b.ftl");
    assert_eq!(resources_for_order(&reg, "en-US", &order, &res_ids), Some(vec![(0, 0), (1, 0)]));
    // A cell known missing gives no bundle.
    reg.source_idx_mut(0).fetch_file_sync(&fetcher, "en-US", "a.ftl");
    assert_eq!(resources_for_order(&reg, "en-US", &vec![0, 0], &res_ids), None);
}
