use hoolamike::hash_path::ArchiveHashPath;
use hoolamike::registry::{Claim, Registry};

fn hp(hash: u64, path: &[&str]) -> ArchiveHashPath {
    ArchiveHashPath { source_hash: hash, path: path.iter().map(|s| s.to_string()).collect() }
}

#[test]
fn concurrent_requests_produce_once() {
    let mut registry: Registry<Result<String, String>> = Registry::new();
    assert!(matches!(registry.claim(hp(1, &["a"])), Claim::Produce));
    assert!(matches!(registry.claim(hp(1, &["a"])), Claim::Wait));
    assert!(matches!(registry.claim(hp(1, &["b"])), Claim::Produce));
    assert!(registry.publish(&hp(1, &["a"]), Ok("bytes".to_string())));
    match registry.claim(hp(1, &["a"])) {
        Claim::Ready(i) => assert_eq!(registry.result(i), &Some(Ok("bytes".to_string()))),
        _ => panic!("expected a published result"),
    }
}

#[test]
fn first_publication_wins_and_failures_are_shared() {
    let mut registry: Registry<Result<String, String>> = Registry::new();
    registry.claim(hp(2, &[]));
    assert!(registry.publish(&hp(2, &[]), Err("broken".to_string())));
    assert!(!registry.publish(&hp(2, &[]), Ok("late".to_string())));
    match registry.claim(hp(2, &[])) {
        Claim::Ready(i) => assert_eq!(registry.result(i), &Some(Err("broken".to_string()))),
        _ => panic!("expected a published result"),
    }
}

#[test]
fn publishing_without_a_request_changes_nothing() {
    let mut registry: Registry<u32> = Registry::new();
    assert!(!registry.publish(&hp(3, &["x"]), 7));
    assert!(matches!(registry.claim(hp(3, &["x"])), Claim::Produce));
}
