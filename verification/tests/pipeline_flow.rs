use ovh_parsing::parse::RawLink;
use ovh_parsing::parse::RawGroup;
use ovh_parsing::parse::RawRouter;
use ovh_parsing::parse::parse_snapshot;
use ovh_parsing::metrics::ExperimentResults;
use ovh_parsing::metrics::sort_results;
use ovh_parsing::files::FileMetadata;
use ovh_parsing::files::StepUnit;
use ovh_parsing::files::WindowError;
use ovh_parsing::files::cut_start_stop_timestamp;
use ovh_parsing::files::filter_files_by_timestamp;
use ovh_parsing::files::get_by_files_step;
use ovh_parsing::files::get_by_unit_step;
use ovh_parsing::files::get_vec_values_from_idxs;
use ovh_parsing::files::sort_files;

fn good_doc(load: u64) -> Vec<RawRouter> {
    vec![RawRouter {
        name: "gra-g1".to_string(),
        groups: vec![RawGroup {
            name: "g".to_string(),
            links: vec![
                RawLink {
                    label: Some("l1".to_string()),
                    load: Some(load),
                    peer: Some("rbx-1".to_string()),
                },
                RawLink {
                    label: Some("l2".to_string()),
                    load: Some(10),
                    peer: Some("rbx-1".to_string()),
                },
            ],
        }],
    }]
}

fn bad_doc() -> Vec<RawRouter> {
    vec![RawRouter {
        name: "gra-g1".to_string(),
        groups: vec![RawGroup {
            name: "g".to_string(),
            links: vec![RawLink { label: Some("l1".to_string()), load: None, peer: None }],
        }],
    }]
}

#[test]
fn test_pipeline_drops_failed_file_and_sorts() {
    // four files, one failing to parse: exactly three summaries come out,
    // sorted by timestamp whatever the completion order was
    let inputs: Vec<(i64, Vec<RawRouter>)> = vec![
        (300, good_doc(90)),
        (100, good_doc(80)),
        (200, bad_doc()),
        (50, good_doc(70)),
    ];
    let mut collected: Vec<ExperimentResults> = Vec::new();
    for (ts, doc) in &inputs {
        if let Ok(snap) = parse_snapshot(doc, *ts) {
            assert!(snap.fits_check());
            collected.push(snap.compute_metrics());
        }
    }
    assert_eq!(collected.len(), 3);
    let sorted = sort_results(collected);
    let stamps: Vec<i64> = sorted.iter().map(|r| r.timestamp).collect();
    assert_eq!(stamps, vec![50, 100, 300]);
    assert_eq!(sorted[0].ecmp_diffs, vec![60]);
    assert_eq!(sorted[1].ecmp_diffs, vec![70]);
    assert_eq!(sorted[2].ecmp_diffs, vec![80]);
}

fn fm(path: &str, ts: i64) -> FileMetadata {
    FileMetadata { filepath: path.to_string(), timestamp: ts }
}

#[test]
fn test_sort_files_by_timestamp() {
    let files = vec![fm("c", 30), fm("a", 10), fm("b", 20)];
    let sorted = sort_files(files);
    let stamps: Vec<i64> = sorted.iter().map(|f| f.timestamp).collect();
    assert_eq!(stamps, vec![10, 20, 30]);
    assert_eq!(sorted[0].filepath, "a");
}

#[test]
fn test_cut_start_stop_window() {
    let files = vec![fm("a", 10), fm("b", 20), fm("c", 30), fm("d", 40)];
    assert_eq!(cut_start_stop_timestamp(&files, 20, Some(40)), Ok((1, 3)));
    // without a stop, the window runs through the last file
    assert_eq!(cut_start_stop_timestamp(&files, 20, None), Ok((1, 3)));
    assert_eq!(cut_start_stop_timestamp(&files, 15, Some(40)), Err(WindowError::StartNotFound));
    assert_eq!(cut_start_stop_timestamp(&files, 20, Some(35)), Err(WindowError::StopNotFound));
    assert_eq!(cut_start_stop_timestamp(&files, 30, Some(20)), Err(WindowError::InvalidWindow));
    assert_eq!(cut_start_stop_timestamp(&files, 40, None), Err(WindowError::InvalidWindow));
}

#[test]
fn test_get_by_unit_step_hours() {
    let files = vec![
        fm("a", 0),
        fm("b", 1800),
        fm("c", 3600),
        fm("d", 3700),
        fm("e", 7300),
    ];
    // the first file always, then each file a full hour after the last
    // selected one
    assert_eq!(get_by_unit_step(&files, 1, StepUnit::Hour), vec![0, 2, 4]);
    // the all-files unit selects everything (and re-selects index zero)
    assert_eq!(get_by_unit_step(&files, 0, StepUnit::All), vec![0, 0, 1, 2, 3, 4]);
}

#[test]
fn test_get_by_unit_step_days() {
    let files = vec![fm("a", 0), fm("b", 86399), fm("c", 86400 * 2)];
    assert_eq!(get_by_unit_step(&files, 1, StepUnit::Day), vec![0, 2]);
}

#[test]
fn test_get_by_files_step() {
    let files = vec![fm("a", 0), fm("b", 1), fm("c", 2), fm("d", 3), fm("e", 4)];
    assert_eq!(get_by_files_step(&files, 2), vec![0, 2, 4]);
    assert_eq!(get_by_files_step(&files, 1), vec![0, 1, 2, 3, 4]);
    assert_eq!(get_by_files_step(&files, 7), vec![0]);
}

#[test]
fn test_get_vec_values_from_idxs() {
    let values = vec![10, 20, 30, 40];
    let idxs = vec![3, 0, 2];
    let picked = get_vec_values_from_idxs(&values, &idxs);
    assert_eq!(picked, vec![&40, &10, &30]);
}

#[test]
fn test_filter_files_by_timestamp() {
    let files = vec![fm("a", 10), fm("b", 20), fm("c", 30)];
    let kept = filter_files_by_timestamp(&files, 15, 30);
    let stamps: Vec<i64> = kept.iter().map(|f| f.timestamp).collect();
    assert_eq!(stamps, vec![20, 30]);
    assert_eq!(kept[0].filepath, "b");
}
