use novadb_session::cursor::{
    clamp_batch_size, Batch, CursorSession, Pulled, SessionError, SessionManager,
    DEFAULT_BATCH_SIZE, MAX_BATCH_SIZE, MIN_BATCH_SIZE,
};

/// Fills one batch from `source`, as a caller does against a driver stream.
fn fill(mut batch: Batch<u32>, source: &mut std::vec::IntoIter<Option<u32>>) -> Vec<u32> {
    while batch.needs_pull() {
        let pulled = match source.next() {
            Some(Some(doc)) => Pulled::Item(doc),
            Some(None) => Pulled::Failed,
            None => Pulled::Exhausted,
        };
        batch.accept(pulled);
    }
    batch.finish()
}

fn documents(n: u32) -> std::vec::IntoIter<Option<u32>> {
    (0..n).map(Some).collect::<Vec<_>>().into_iter()
}

#[test]
fn batch_size_is_clamped_into_range() {
    assert_eq!(clamp_batch_size(0), 1);
    assert_eq!(clamp_batch_size(1), 1);
    assert_eq!(clamp_batch_size(50), 50);
    assert_eq!(clamp_batch_size(1000), 1000);
    assert_eq!(clamp_batch_size(1001), 1000);
    assert_eq!(clamp_batch_size(usize::MAX), 1000);
    assert_eq!((MIN_BATCH_SIZE, DEFAULT_BATCH_SIZE, MAX_BATCH_SIZE), (1, 50, 1000));
}

#[test]
fn session_defaults_to_fifty_and_clamps() {
    let plain = CursorSession::new((), None);
    assert_eq!(plain.batch_size, 50);
    assert_eq!(CursorSession::new((), Some(0)).batch_size, 1);
    assert_eq!(CursorSession::new((), Some(7)).batch_size, 7);
    assert_eq!(CursorSession::new((), Some(5000)).batch_size, 1000);

    let mut session = CursorSession::new(3u8, None);
    session.set_batch_size(0);
    assert_eq!(session.batch_size, 1);
    session.set_batch_size(250);
    assert_eq!(session.batch_size, 250);
    session.set_batch_size(1_000_000);
    assert_eq!(session.batch_size, 1000);
    assert_eq!(session.cursor, 3);
}

#[test]
fn a_fetch_never_returns_more_than_the_batch_size() {
    for size in [1usize, 2, 10, 50, 999, 1000] {
        let session = CursorSession::new((), Some(size));
        let mut source = documents(2500);
        let batch = fill(session.next_batch(), &mut source);
        assert_eq!(batch.len(), size);
    }
}

#[test]
fn a_batch_size_out_of_range_is_clamped_at_the_fetch() {
    let zero = CursorSession { cursor: (), batch_size: 0 };
    let mut source = documents(10);
    assert_eq!(fill(zero.next_batch(), &mut source), vec![0]);

    let huge = CursorSession { cursor: (), batch_size: 40_000 };
    let mut source = documents(2500);
    assert_eq!(fill(huge.next_batch(), &mut source).len(), 1000);
}

#[test]
fn find_of_120_documents_comes_in_batches_of_50_50_20() {
    let mut manager: SessionManager<()> = SessionManager::new();
    let id = manager.start((), Some(50));
    let mut source = documents(120);

    let (_, batch) = manager.fetch_next::<u32>(&id).unwrap();
    let first = fill(batch, &mut source);
    let (_, batch) = manager.fetch_next::<u32>(&id).unwrap();
    let second = fill(batch, &mut source);
    let (_, batch) = manager.fetch_next::<u32>(&id).unwrap();
    let third = fill(batch, &mut source);
    let (_, batch) = manager.fetch_next::<u32>(&id).unwrap();
    let fourth = fill(batch, &mut source);

    assert_eq!(first, (0..50).collect::<Vec<u32>>());
    assert_eq!(second, (50..100).collect::<Vec<u32>>());
    assert_eq!(third, (100..120).collect::<Vec<u32>>());
    assert!(fourth.is_empty());
}

#[test]
fn repeated_fetches_drain_the_result_set_once() {
    for (total, size) in [(0u32, 5usize), (1, 1), (9, 3), (10, 3), (1000, 1000), (2001, 1000)] {
        let session = CursorSession::new((), Some(size));
        let mut source = documents(total);
        let mut seen: Vec<u32> = Vec::new();
        loop {
            let batch = fill(session.next_batch(), &mut source);
            assert!(batch.len() <= size);
            let short = batch.len() < size;
            seen.extend(batch);
            if short {
                break;
            }
        }
        assert_eq!(seen, (0..total).collect::<Vec<u32>>());
        assert!(fill(session.next_batch(), &mut source).is_empty());
    }
}

#[test]
fn a_document_that_fails_to_decode_is_passed_over() {
    let session = CursorSession::new((), Some(4));
    let mut source = vec![Some(1), None, Some(3), Some(4), Some(5), None, Some(7)].into_iter();
    assert_eq!(fill(session.next_batch(), &mut source), vec![1, 3, 4]);
    assert_eq!(fill(session.next_batch(), &mut source), vec![5, 7]);
    assert!(fill(session.next_batch(), &mut source).is_empty());
}

#[test]
fn a_batch_of_failures_only_is_empty_and_the_next_goes_on() {
    let session = CursorSession::new((), Some(2));
    let mut source = vec![None, None, Some(9)].into_iter();
    assert!(fill(session.next_batch(), &mut source).is_empty());
    assert_eq!(fill(session.next_batch(), &mut source), vec![9]);
}

#[test]
fn a_complete_batch_takes_nothing_more() {
    let mut batch: Batch<u32> = Batch::begin(2);
    assert!(batch.needs_pull());
    batch.accept(Pulled::Item(1));
    batch.accept(Pulled::Item(2));
    assert!(!batch.needs_pull());
    batch.accept(Pulled::Item(3));
    assert_eq!(batch.len(), 2);
    assert_eq!(batch.finish(), vec![1, 2]);

    let mut ended: Batch<u32> = Batch::begin(5);
    ended.accept(Pulled::Item(1));
    ended.accept(Pulled::Exhausted);
    assert!(!ended.needs_pull());
    ended.accept(Pulled::Item(2));
    assert_eq!(ended.finish(), vec![1]);
}

#[test]
fn session_not_found_in_words() {
    assert_eq!(SessionError::SessionNotFound.message(), "Invalid session ID");
}

#[test]
fn fetch_on_an_unknown_session_fails() {
    let manager: SessionManager<u8> = SessionManager::new();
    assert_eq!(manager.fetch_next::<u32>("nope").err(), Some(SessionError::SessionNotFound));
    assert_eq!(manager.session("nope").err(), Some(SessionError::SessionNotFound));
}

#[test]
fn cancel_then_fetch_is_session_not_found() {
    let mut manager: SessionManager<u8> = SessionManager::new();
    let id = manager.start(7, None);
    assert_eq!(id.chars().count(), 36);
    assert!(manager.fetch_next::<u32>(&id).is_ok());
    manager.cancel(&id);
    assert_eq!(manager.fetch_next::<u32>(&id).err(), Some(SessionError::SessionNotFound));
    manager.cancel(&id);
    assert_eq!(manager.fetch_next::<u32>(&id).err(), Some(SessionError::SessionNotFound));
    assert_eq!(manager.len(), 0);
}

#[test]
fn sessions_are_kept_apart() {
    let mut manager: SessionManager<&str> = SessionManager::new();
    manager.insert("s1".to_string(), CursorSession::new("first", Some(2)));
    manager.insert("s2".to_string(), CursorSession::new("second", None));
    assert_eq!(manager.len(), 2);

    let (cursor, batch) = manager.fetch_next::<u32>("s1").unwrap();
    assert_eq!(*cursor, "first");
    let mut source = documents(5);
    assert_eq!(fill(batch, &mut source), vec![0, 1]);

    assert_eq!(manager.session("s2").unwrap().batch_size, 50);
    manager.cancel("s1");
    assert!(manager.fetch_next::<u32>("s1").is_err());
    assert_eq!(manager.session("s2").unwrap().cursor, "second");
}

#[test]
fn set_batch_size_through_the_manager() {
    let mut manager: SessionManager<u8> = SessionManager::new();
    manager.insert("s".to_string(), CursorSession::new(1, None));
    assert_eq!(manager.set_batch_size("s", 5000), Ok(()));
    assert_eq!(manager.session("s").unwrap().batch_size, 1000);
    assert_eq!(manager.set_batch_size("s", 0), Ok(()));
    assert_eq!(manager.session("s").unwrap().batch_size, 1);
    assert_eq!(manager.session("s").unwrap().cursor, 1);
    assert_eq!(manager.set_batch_size("t", 5), Err(SessionError::SessionNotFound));
}
