use image_watch::baseline::apply_delta;
use image_watch::delivery::{chunk_change, token_refresh_interval_millis};
use image_watch::file_change_data::{FileAddData, FileChangeData};
use image_watch::file_tracker::{partition_by_delivery, FileTracker};
use image_watch::scanner::{has_watched_extension, sort_newest_first, FileChangeTracker};

fn entries(v: &[(&str, i64)]) -> Vec<(String, i64)> {
    v.iter().map(|(p, t)| (p.to_string(), *t)).collect()
}

fn strings(v: &[&str]) -> Vec<String> {
    v.iter().map(|s| s.to_string()).collect()
}

#[test]
fn merge_interleaves_by_time() {
    let baseline = FileAddData(entries(&[("c", 30), ("a", 10)]));
    let change = FileChangeData::new(vec![], entries(&[("d", 40), ("b", 20), ("z", 5)]));
    let r = apply_delta(&baseline, &change);
    assert_eq!(r.0, entries(&[("d", 40), ("c", 30), ("b", 20), ("a", 10), ("z", 5)]));
}

#[test]
fn merge_drops_removed_paths() {
    let baseline = FileAddData(entries(&[("c", 30), ("b", 20), ("a", 10)]));
    let change = FileChangeData::new(strings(&["b", "a"]), entries(&[("e", 25)]));
    let r = apply_delta(&baseline, &change);
    assert_eq!(r.0, entries(&[("c", 30), ("e", 25)]));
}

#[test]
fn merge_equal_times_put_added_first() {
    let baseline = FileAddData(entries(&[("old", 10)]));
    let change = FileChangeData::new(vec![], entries(&[("new", 10)]));
    let r = apply_delta(&baseline, &change);
    assert_eq!(r.0, entries(&[("new", 10), ("old", 10)]));
}

#[test]
fn merge_result_sorted_and_unique() {
    let baseline = FileAddData(entries(&[("f", 90), ("e", 70), ("d", 50), ("c", 30)]));
    let change = FileChangeData::new(strings(&["e", "c"]), entries(&[("x", 80), ("y", 50), ("w", 1)]));
    let r = apply_delta(&baseline, &change);
    let times: Vec<i64> = r.0.iter().map(|e| e.1).collect();
    assert!(times.windows(2).all(|w| w[0] >= w[1]));
    let mut paths: Vec<&str> = r.0.iter().map(|e| e.0.as_str()).collect();
    paths.sort();
    assert_eq!(paths, vec!["d", "f", "w", "x", "y"]);
}

#[test]
fn merge_into_empty_baseline() {
    let baseline = FileAddData::new();
    let change = FileChangeData::new(vec![], entries(&[("a.jpg", 7)]));
    assert_eq!(apply_delta(&baseline, &change).0, entries(&[("a.jpg", 7)]));
}

#[test]
fn change_data_emptiness() {
    let empty = FileChangeData::new(vec![], vec![]);
    assert!(empty.is_empty());
    assert!(!empty.is_not_empty());
    let some = FileChangeData::new(strings(&["a"]), vec![]);
    assert!(!some.is_empty());
    assert!(some.is_not_empty());
    assert!(FileAddData::new().0.is_empty());
}

#[test]
fn watched_extensions() {
    let exts = strings(&["jpg", "jpeg"]);
    assert!(has_watched_extension("a.jpg", &exts));
    assert!(has_watched_extension("dir/sub/b.tar.jpeg", &exts));
    assert!(!has_watched_extension("a.png", &exts));
    assert!(!has_watched_extension("a.JPG", &exts));
    assert!(!has_watched_extension("dir/.jpg", &exts));
    assert!(!has_watched_extension("jpg", &exts));
    assert!(!has_watched_extension("dir.jpg/file", &exts));
    assert!(!has_watched_extension("a.jpgx", &exts));
    assert!(has_watched_extension("..jpg", &exts));
}

#[test]
fn sort_keeps_ties_in_order() {
    let r = sort_newest_first(entries(&[("a", 1), ("b", 3), ("c", 1), ("d", 2)]));
    assert_eq!(r, entries(&[("b", 3), ("d", 2), ("a", 1), ("c", 1)]));
}

#[test]
fn scanner_delta_between_scans() {
    let mut tracker = FileChangeTracker::new(strings(&["jpg"]));
    let walked = strings(&["a.jpg", "b.txt", "c.jpg", "a.jpg"]);
    let found = tracker.select_found(&walked);
    assert_eq!(found, strings(&["a.jpg", "c.jpg"]));
    assert_eq!(tracker.new_paths(&found), strings(&["a.jpg", "c.jpg"]));
    let change = tracker.finish_scan(found, entries(&[("a.jpg", 5), ("c.jpg", 9)]));
    assert!(change.removed.0.is_empty());
    assert_eq!(change.added.0, entries(&[("c.jpg", 9), ("a.jpg", 5)]));

    let found = tracker.select_found(&strings(&["c.jpg", "d.jpg"]));
    assert_eq!(tracker.new_paths(&found), strings(&["d.jpg"]));
    let change = tracker.finish_scan(found, entries(&[("d.jpg", 11)]));
    assert_eq!(change.removed.0, strings(&["a.jpg"]));
    assert_eq!(change.added.0, entries(&[("d.jpg", 11)]));

    let found = tracker.select_found(&strings(&["c.jpg", "d.jpg"]));
    assert!(tracker.new_paths(&found).is_empty());
    let change = tracker.finish_scan(found, vec![]);
    assert!(change.is_empty());
}

#[test]
fn chunks_cover_added_once() {
    let change = FileChangeData::new(
        strings(&["gone"]),
        entries(&[("e", 5), ("d", 4), ("c", 3), ("b", 2), ("a", 1)]),
    );
    let chunks = chunk_change(&change, 2);
    assert_eq!(chunks.len(), 3);
    assert_eq!(chunks[0].removed.0, strings(&["gone"]));
    assert!(chunks[1].removed.0.is_empty());
    assert!(chunks[2].removed.0.is_empty());
    assert_eq!(chunks[0].added.0, entries(&[("e", 5), ("d", 4)]));
    assert_eq!(chunks[1].added.0, entries(&[("c", 3), ("b", 2)]));
    assert_eq!(chunks[2].added.0, entries(&[("a", 1)]));
}

#[test]
fn chunks_of_exact_multiple() {
    let change = FileChangeData::new(vec![], entries(&[("d", 4), ("c", 3), ("b", 2), ("a", 1)]));
    let chunks = chunk_change(&change, 2);
    assert_eq!(chunks.len(), 2);
    let chunks = chunk_change(&change, 10);
    assert_eq!(chunks.len(), 1);
    assert_eq!(chunks[0].added.0.len(), 4);
}

#[test]
fn chunk_of_removal_only() {
    let change = FileChangeData::new(strings(&["x", "y"]), vec![]);
    let chunks = chunk_change(&change, 3);
    assert_eq!(chunks.len(), 1);
    assert_eq!(chunks[0].removed.0, strings(&["x", "y"]));
    assert!(chunks[0].added.0.is_empty());
}

#[test]
fn full_sync_is_whole_baseline() {
    let mut tracker = FileTracker::new();
    tracker.handle_change(&FileChangeData::new(vec![], entries(&[("b", 2), ("a", 1)])));
    tracker.handle_change(&FileChangeData::new(vec![], entries(&[("c", 3)])));
    let sync = tracker.full_sync();
    assert!(sync.removed.0.is_empty());
    assert_eq!(sync.added.0, entries(&[("c", 3), ("b", 2), ("a", 1)]));
}

#[test]
fn end_to_end_single_file() {
    let mut scanner = FileChangeTracker::new(strings(&["jpg"]));
    let mut tracker = FileTracker::new();

    let early = tracker.full_sync();
    assert!(early.removed.0.is_empty());
    assert!(early.added.0.is_empty());
    assert_eq!(chunk_change(&early, 4).len(), 1);

    let found = scanner.select_found(&vec![]);
    let change = scanner.finish_scan(found, vec![]);
    assert!(change.is_empty());

    let found = scanner.select_found(&strings(&["a.jpg"]));
    assert_eq!(scanner.new_paths(&found), strings(&["a.jpg"]));
    let change = scanner.finish_scan(found, entries(&[("a.jpg", 1000)]));
    assert!(change.removed.0.is_empty());
    assert_eq!(change.added.0, entries(&[("a.jpg", 1000)]));

    tracker.handle_change(&change);
    let late = tracker.full_sync();
    assert!(late.removed.0.is_empty());
    assert_eq!(late.added.0, entries(&[("a.jpg", 1000)]));

    let delivered = chunk_change(&change, 4);
    assert_eq!(delivered.len(), 1);
    assert_eq!(delivered[0].added.0, entries(&[("a.jpg", 1000)]));
}

#[test]
fn failed_subscribers_are_split_off() {
    let subs = vec![1u32, 2, 3, 4, 5];
    let (kept, failed) = partition_by_delivery(subs, &vec![true, false, true, true, false]);
    assert_eq!(kept, vec![1, 3, 4]);
    assert_eq!(failed, vec![2, 5]);
    let (kept, failed) = partition_by_delivery(Vec::<u32>::new(), &vec![]);
    assert!(kept.is_empty() && failed.is_empty());
}

#[test]
fn refresh_interval_is_nine_tenths_of_ttl() {
    assert_eq!(token_refresh_interval_millis(3_600_000), 3_240_000);
    assert_eq!(token_refresh_interval_millis(15), 13);
    assert_eq!(token_refresh_interval_millis(0), 0);
    assert_eq!(token_refresh_interval_millis(u64::MAX), 16_602_069_666_338_596_453);
}

#[test]
fn merge_excludes_removed_added_path() {
    let baseline = FileAddData(entries(&[("a", 10)]));
    let change = FileChangeData::new(strings(&["b"]), entries(&[("b", 20), ("c", 5)]));
    assert_eq!(apply_delta(&baseline, &change).0, entries(&[("a", 10), ("c", 5)]));
}

#[test]
fn scan_keeps_stamped_order_on_equal_times() {
    let mut tracker = FileChangeTracker::new(strings(&["jpg"]));
    let found = tracker.select_found(&strings(&["x.jpg", "y.jpg", "z.jpg"]));
    let change = tracker.finish_scan(found, entries(&[("y.jpg", 5), ("x.jpg", 7), ("z.jpg", 5)]));
    assert_eq!(change.added.0, entries(&[("x.jpg", 7), ("y.jpg", 5), ("z.jpg", 5)]));
}

#[test]
fn re_added_path_replaces_baseline_entry() {
    let baseline = FileAddData(entries(&[("a", 1)]));
    let change = FileChangeData::new(vec![], entries(&[("a", 2)]));
    assert_eq!(apply_delta(&baseline, &change).0, entries(&[("a", 2)]));
}

#[test]
fn repeated_added_path_keeps_newest() {
    let baseline = FileAddData(entries(&[("b", 4)]));
    let change = FileChangeData::new(vec![], entries(&[("a", 5), ("a", 3), ("c", 1)]));
    assert_eq!(apply_delta(&baseline, &change).0, entries(&[("a", 5), ("b", 4), ("c", 1)]));
}
