use hoolamike::queue::{LazyArchive, QueuedArchives};

#[test]
fn write_archive_collects_each_entry_once() {
    let mut queue: QueuedArchives<&str, u32> = QueuedArchives::new();
    for (i, inner) in ["a", "b/c", "d"].iter().enumerate() {
        assert!(queue.insert("O.bsa".to_string(), "meta", inner.to_string(), i as u32).is_ok());
    }
    let archives = queue.take();
    assert_eq!(archives.len(), 1);
    assert_eq!(archives[0].0, "O.bsa");
    let inner: Vec<&str> = archives[0].1.files.iter().map(|(p, _)| p.as_str()).collect();
    assert_eq!(inner, vec!["a", "b/c", "d"]);
    assert!(queue.take().is_empty());
}

#[test]
fn duplicate_entry_is_refused() {
    let mut queue: QueuedArchives<(), u32> = QueuedArchives::new();
    queue.insert("O.bsa".to_string(), (), "a".to_string(), 1).ok().unwrap();
    let err = queue.insert("O.bsa".to_string(), (), "a".to_string(), 2).err().unwrap();
    assert_eq!(err.archive_path, "O.bsa");
    assert_eq!(err.inner_path, "a");
    assert!(queue.insert("P.bsa".to_string(), (), "a".to_string(), 3).is_ok());
    let archives = queue.take();
    assert_eq!(archives.len(), 2);
    assert_eq!(archives[0].1.files.len(), 1);
}

#[test]
fn lazy_archive_refuses_a_second_file_for_a_path() {
    let mut archive: LazyArchive<(), u8> = LazyArchive::new(());
    assert!(archive.insert("x".to_string(), 1).is_ok());
    assert_eq!(archive.insert("x".to_string(), 2), Err("x".to_string()));
    assert!(archive.contains("x"));
    assert!(!archive.contains("y"));
}

#[test]
fn archives_come_out_in_ascending_path_order() {
    let mut queue: QueuedArchives<(), u32> = QueuedArchives::new();
    queue.insert("b.bsa".to_string(), (), "x".to_string(), 1).ok().unwrap();
    queue.insert("a.bsa".to_string(), (), "y".to_string(), 2).ok().unwrap();
    queue.insert("c.bsa".to_string(), (), "z".to_string(), 3).ok().unwrap();
    queue.insert("a.bsa".to_string(), (), "w".to_string(), 4).ok().unwrap();
    let archives = queue.take();
    let order: Vec<&str> = archives.iter().map(|(p, _)| p.as_str()).collect();
    assert_eq!(order, vec!["a.bsa", "b.bsa", "c.bsa"]);
    assert_eq!(archives[0].1.files.iter().map(|(p, f)| (p.as_str(), *f)).collect::<Vec<_>>(), vec![("y", 2), ("w", 4)]);
}
