use hoolamike::hash_path::ArchiveHashPath;
use hoolamike::nested_archives::{Lookup, NestedArchivesService};

fn hp(hash: u64, path: &[&str]) -> ArchiveHashPath {
    ArchiveHashPath { source_hash: hash, path: path.iter().map(|s| s.to_string()).collect() }
}

/// Runs a fetch to its end, extracting by naming the result after its parent.
fn fetch(svc: &mut NestedArchivesService<String>, p: ArchiveHashPath, extractions: &mut Vec<String>) -> Option<String> {
    match svc.get(&p) {
        Lookup::Cached(i) => Some(svc.handle(i).clone()),
        Lookup::OnDisk(path) => Some(path),
        Lookup::Missing => None,
        Lookup::Extract { parent, segment } => {
            let parent_handle = fetch(svc, parent, extractions)?;
            let handle = format!("{parent_handle}!{segment}");
            extractions.push(handle.clone());
            svc.store(p, handle.clone());
            Some(handle)
        }
    }
}

fn service(max_size: usize) -> NestedArchivesService<String> {
    NestedArchivesService::new(
        vec![(1, "/dl/one.7z".to_string()), (2, "/dl/two.7z".to_string()), (3, "/dl/three.7z".to_string()), (4, "/dl/four.7z".to_string())],
        max_size,
    )
}

fn cached_paths(svc: &NestedArchivesService<String>) -> Vec<(u64, Vec<String>)> {
    svc.cache.iter().map(|e| (e.path.source_hash, e.path.path.clone())).collect()
}

#[test]
fn empty_inner_path_resolves_to_the_download() {
    let mut svc = service(4);
    let mut log = Vec::new();
    assert_eq!(fetch(&mut svc, hp(2, &[]), &mut log), Some("/dl/two.7z".to_string()));
    assert!(log.is_empty());
    assert!(svc.cache.is_empty());
}

#[test]
fn unknown_download_is_missing() {
    let mut svc = service(4);
    assert!(matches!(svc.get(&hp(9, &[])), Lookup::Missing));
}

#[test]
fn one_level_extraction_caches_one_entry() {
    let mut svc = service(4);
    let mut log = Vec::new();
    assert_eq!(fetch(&mut svc, hp(1, &["readme.txt"]), &mut log), Some("/dl/one.7z!readme.txt".to_string()));
    assert_eq!(log.len(), 1);
    assert_eq!(cached_paths(&svc), vec![(1, vec!["readme.txt".to_string()])]);
}

#[test]
fn nested_extraction_reuses_the_parent() {
    let mut svc = service(8);
    let mut log = Vec::new();
    fetch(&mut svc, hp(1, &["a.bsa", "x.nif"]), &mut log);
    fetch(&mut svc, hp(1, &["a.bsa", "y.nif"]), &mut log);
    assert_eq!(
        log,
        vec!["/dl/one.7z!a.bsa".to_string(), "/dl/one.7z!a.bsa!x.nif".to_string(), "/dl/one.7z!a.bsa!y.nif".to_string()]
    );
}

#[test]
fn cache_of_one_extracts_each_level_once() {
    let mut svc = service(1);
    let mut log = Vec::new();
    let handle = fetch(&mut svc, hp(1, &["a", "b", "c"]), &mut log);
    assert_eq!(handle, Some("/dl/one.7z!a!b!c".to_string()));
    assert_eq!(log.len(), 3);
    assert_eq!(cached_paths(&svc), vec![(1, vec!["a".to_string(), "b".to_string(), "c".to_string()])]);
}

#[test]
fn least_recently_used_archives_are_evicted() {
    let mut svc = service(2);
    let mut log = Vec::new();
    for hash in 1..=4 {
        fetch(&mut svc, hp(hash, &["inner"]), &mut log);
        assert!(svc.cache.len() <= 2);
    }
    let kept: Vec<u64> = svc.cache.iter().map(|e| e.path.source_hash).collect();
    assert_eq!(kept, vec![3, 4]);
}

#[test]
fn cached_hit_refreshes_its_ancestors() {
    let mut svc = service(8);
    let mut log = Vec::new();
    fetch(&mut svc, hp(1, &["a", "b"]), &mut log);
    fetch(&mut svc, hp(2, &["z"]), &mut log);
    fetch(&mut svc, hp(1, &["a", "b"]), &mut log);
    assert_eq!(log.len(), 3);
    let stamp = |p: &[&str], hash: u64| {
        svc.cache
            .iter()
            .find(|e| e.path.source_hash == hash && e.path.path == p.iter().map(|s| s.to_string()).collect::<Vec<_>>())
            .map(|e| e.last_accessed)
            .unwrap()
    };
    assert!(stamp(&["a"], 1) >= stamp(&["a", "b"], 1));
    assert!(stamp(&["a", "b"], 1) > stamp(&["z"], 2));
}

#[test]
fn cleanup_removes_the_path_and_its_ancestors() {
    let mut svc = service(8);
    let mut log = Vec::new();
    fetch(&mut svc, hp(1, &["a", "b"]), &mut log);
    fetch(&mut svc, hp(1, &["c"]), &mut log);
    svc.cleanup(hp(1, &["a", "b"]));
    assert_eq!(cached_paths(&svc), vec![(1, vec!["c".to_string()])]);
}

#[test]
fn cache_of_zero_keeps_nothing() {
    let mut svc = service(0);
    let mut log = Vec::new();
    assert_eq!(fetch(&mut svc, hp(1, &["a"]), &mut log), Some("/dl/one.7z!a".to_string()));
    assert!(svc.cache.is_empty());
}

#[test]
fn parent_splits_off_the_last_segment() {
    let (parent, last) = hp(5, &["a", "b"]).parent().unwrap();
    assert_eq!(parent.path, vec!["a".to_string()]);
    assert_eq!(parent.source_hash, 5);
    assert_eq!(last, "b");
    assert!(hp(5, &[]).parent().is_none());
    assert!(hp(5, &["a"]).is_prefix_of(&hp(5, &["a", "b"])));
    assert!(!hp(5, &["a", "b"]).is_prefix_of(&hp(5, &["a"])));
    assert!(!hp(4, &["a"]).is_prefix_of(&hp(5, &["a", "b"])));
}
