use iqdb_server::index::{score_of, Index, Match, Record};
use iqdb_server::lifecycle::{Lifecycle, Phase};
use iqdb_server::protocol::{commit, parse_id, precheck, ApiError, Mutation, StoreFailure};

fn ids(r: &[Match]) -> Vec<u64> {
    r.iter().map(|m| m.id).collect()
}

fn payload() -> Vec<u8> {
    vec![3, 1, 4, 1, 5, 9, 2, 6]
}

#[test]
fn insert_then_query_returns_it() {
    let mut index = Index::new();
    let m = Mutation::Insert { id: 1, signature: payload() };
    assert_eq!(precheck(&index, &m), Ok(()));
    assert_eq!(commit(&mut index, m, Ok(())), Ok(()));
    let r = index.query(&payload(), 10);
    assert_eq!(r, vec![Match { id: 1, score: 8 }]);
}

#[test]
fn delete_then_query_misses_it() {
    let mut index = Index::new();
    assert_eq!(commit(&mut index, Mutation::Insert { id: 1, signature: payload() }, Ok(())), Ok(()));
    let m = Mutation::Delete { id: 1 };
    assert_eq!(precheck(&index, &m), Ok(()));
    assert_eq!(commit(&mut index, m, Ok(())), Ok(()));
    assert!(!ids(&index.query(&payload(), 10)).contains(&1));
    assert_eq!(index.len(), 0);
}

#[test]
fn failed_store_write_leaves_index() {
    let mut index = Index::new();
    assert_eq!(commit(&mut index, Mutation::Insert { id: 1, signature: payload() }, Ok(())), Ok(()));
    let r = commit(&mut index, Mutation::Insert { id: 2, signature: vec![7, 7] }, Err(StoreFailure));
    assert_eq!(r, Err(ApiError::Persistence));
    assert_eq!(index.len(), 1);
    assert!(!index.contains(2));
    assert_eq!(index.query(&payload(), 10), vec![Match { id: 1, score: 8 }]);
}

#[test]
fn failed_store_delete_leaves_index() {
    let mut index = Index::new();
    assert_eq!(commit(&mut index, Mutation::Insert { id: 5, signature: payload() }, Ok(())), Ok(()));
    let r = commit(&mut index, Mutation::Delete { id: 5 }, Err(StoreFailure));
    assert_eq!(r, Err(ApiError::Persistence));
    assert!(index.contains(5));
}

#[test]
fn delete_unknown_is_not_found() {
    let mut index = Index::new();
    assert_eq!(commit(&mut index, Mutation::Insert { id: 1, signature: payload() }, Ok(())), Ok(()));
    let m = Mutation::Delete { id: 99 };
    assert_eq!(precheck(&index, &m), Err(ApiError::NotFound));
    assert_eq!(commit(&mut index, m, Ok(())), Err(ApiError::NotFound));
    assert_eq!(index.len(), 1);
    assert!(index.contains(1));
}

#[test]
fn signal_drains_then_stops() {
    let mut life = Lifecycle::new();
    assert!(life.try_accept());
    assert_eq!(life.in_flight(), 1);
    life.signal();
    assert_eq!(life.phase(), Phase::Draining);
    assert!(!life.try_accept());
    assert_eq!(life.in_flight(), 1);
    life.finish();
    assert_eq!(life.phase(), Phase::Stopped);
    assert!(!life.try_accept());
}

#[test]
fn signal_when_idle_stops_at_once() {
    let mut life = Lifecycle::new();
    life.signal();
    assert_eq!(life.phase(), Phase::Stopped);
    life.signal();
    assert_eq!(life.phase(), Phase::Stopped);
}

#[test]
fn loaded_records_give_size() {
    let records = vec![
        Record { id: 1, signature: vec![1, 2] },
        Record { id: 2, signature: vec![3, 4] },
        Record { id: 3, signature: vec![5, 6] },
    ];
    let index = Index::build(records);
    assert_eq!(index.len(), 3);
    assert!(index.contains(1) && index.contains(2) && index.contains(3));
}

#[test]
fn build_later_record_replaces_earlier() {
    let records = vec![
        Record { id: 4, signature: vec![1, 1] },
        Record { id: 4, signature: vec![2, 2] },
    ];
    let index = Index::build(records);
    assert_eq!(index.len(), 1);
    assert_eq!(index.query(&vec![2, 2], 5), vec![Match { id: 4, score: 2 }]);
}

#[test]
fn build_empty() {
    let index = Index::build(Vec::new());
    assert_eq!(index.len(), 0);
    assert_eq!(index.query(&vec![1], 3), Vec::<Match>::new());
}

#[test]
fn insert_replaces_in_place() {
    let mut index = Index::new();
    index.insert(1, vec![0, 0, 0]);
    index.insert(2, vec![9, 9, 9]);
    index.insert(1, vec![9, 9, 0]);
    assert_eq!(index.len(), 2);
    assert_eq!(index.position(1), Some(0));
    assert_eq!(index.position(2), Some(1));
    assert_eq!(index.position(3), None);
    assert_eq!(
        index.query(&vec![9, 9, 9], 5),
        vec![Match { id: 2, score: 3 }, Match { id: 1, score: 2 }]
    );
}

#[test]
fn remove_reports_presence() {
    let mut index = Index::new();
    index.insert(1, vec![1]);
    index.insert(2, vec![2]);
    index.insert(3, vec![3]);
    assert!(index.remove(2));
    assert!(!index.remove(2));
    assert_eq!(index.len(), 2);
    assert_eq!(index.position(3), Some(1));
}

#[test]
fn query_ranks_and_cuts() {
    let mut index = Index::new();
    index.insert(10, vec![1, 2, 3, 4]);
    index.insert(11, vec![1, 2, 0, 0]);
    index.insert(12, vec![1, 2, 3, 0]);
    index.insert(13, vec![0, 0, 0, 0]);
    let q = vec![1, 2, 3, 4];
    assert_eq!(
        index.query(&q, 2),
        vec![Match { id: 10, score: 4 }, Match { id: 12, score: 3 }]
    );
    let all = index.query(&q, 10);
    assert_eq!(ids(&all), vec![10, 12, 11, 13]);
    assert_eq!(all[3].score, 0);
    assert_eq!(index.query(&q, 0), Vec::<Match>::new());
}

#[test]
fn score_counts_agreeing_positions() {
    assert_eq!(score_of(&vec![1, 2, 3], &vec![1, 0, 3, 7]), 2);
    assert_eq!(score_of(&vec![5, 5, 5, 5], &vec![5, 5]), 2);
    assert_eq!(score_of(&vec![], &vec![1]), 0);
    assert_eq!(score_of(&vec![4, 4], &vec![4, 4]), 2);
}

#[test]
fn parse_id_accepts_decimal() {
    assert_eq!(parse_id(b"1"), Ok(1));
    assert_eq!(parse_id(b"0042"), Ok(42));
    assert_eq!(parse_id(b"18446744073709551615"), Ok(u64::MAX));
}

#[test]
fn parse_id_rejects_malformed() {
    assert_eq!(parse_id(b""), Err(ApiError::MalformedId));
    assert_eq!(parse_id(b"12a"), Err(ApiError::MalformedId));
    assert_eq!(parse_id(b"-3"), Err(ApiError::MalformedId));
    assert_eq!(parse_id(b"18446744073709551616"), Err(ApiError::MalformedId));
    assert_eq!(parse_id(b"99999999999999999999x"), Err(ApiError::MalformedId));
}

#[test]
fn mutation_reports_its_id() {
    assert_eq!(Mutation::Insert { id: 7, signature: vec![] }.id(), 7);
    assert_eq!(Mutation::Delete { id: 8 }.id(), 8);
}
