use ssb_db::{Error, OffsetLog, SqliteSsbDb, SsbMessage};
use ssb_multiformats::multihash::Multihash;

const AUTHOR: &str = "@U5GvOKP/YUza9k53DSXxT0mk3PIrnyAmessvNfZl5E0=.ed25519";
const OTHER: &str = "@EMovhfIrFk4NihAKnRNhrfRaqIhBv1Wj8pTxJNgvCCY=.ed25519";
const FEED_LEN: u32 = 6006;

fn key_of(author: &str, seq: u32) -> String {
    let mut digest = [0u8; 32];
    digest[..4].copy_from_slice(&seq.to_be_bytes());
    digest[4] = author.len() as u8;
    digest[5] = author.as_bytes()[1];
    Multihash::Message(digest).to_legacy_string()
}

fn envelope(author: &str, seq: u32) -> Vec<u8> {
    format!(
        "{{\"key\":\"{}\",\"value\":{{\"previous\":null,\"author\":\"{}\",\"sequence\":{},\"timestamp\":1500000000000,\"hash\":\"sha256\",\"content\":{{\"type\":\"post\",\"text\":\"number {}\"}},\"signature\":\"sig.sig.ed25519\"}},\"timestamp\":1500000000001}}",
        key_of(author, seq), author, seq, seq
    )
    .into_bytes()
}

fn feed(author: &str, from: u32, to: u32) -> Vec<Vec<u8>> {
    (from..=to).map(|s| envelope(author, s)).collect()
}

fn log_with(messages: &[Vec<u8>]) -> Vec<u8> {
    let mut log = OffsetLog::new();
    log.append_batch(messages).unwrap();
    log.as_bytes().to_vec()
}

fn indexed_store() -> SqliteSsbDb {
    let mut db = SqliteSsbDb::new(log_with(&feed(AUTHOR, 1, FEED_LEN)));
    db.update_indexes_from_offset_file().unwrap();
    db
}

#[test]
fn get_entry_by_key_works() {
    let db = indexed_store();
    let key_str = key_of(AUTHOR, 17);
    let entry = db.get_entry_by_key(&key_str).unwrap();
    let value: serde_json::Value = serde_json::from_slice(&entry).unwrap();
    assert_eq!(value["key"].as_str().unwrap(), key_str);
    assert_eq!(value["value"]["sequence"], 17);
}

#[test]
fn get_entry_by_key_not_found() {
    let db = indexed_store();
    assert_eq!(db.get_entry_by_key(&key_of(OTHER, 1)), Err(Error::MessageNotFound));
}

#[test]
fn get_entry_by_seq_works() {
    let db = indexed_store();
    let entry = db.get_entry_by_seq(AUTHOR, 6001).unwrap().unwrap();
    assert_eq!(entry, envelope(AUTHOR, 6001));
    assert_eq!(db.get_entry_by_seq(AUTHOR, 6007), Ok(None));
    assert_eq!(db.get_entry_by_seq(OTHER, 1), Ok(None));
}

#[test]
fn get_feed_latest_sequence_works() {
    let db = indexed_store();
    assert_eq!(db.get_feed_latest_sequence(AUTHOR).unwrap().unwrap(), 6006);
    assert_eq!(db.get_feed_latest_sequence(OTHER), Ok(None));
}

#[test]
fn get_entries_kv_newer_than_sequence_works() {
    let db = indexed_store();
    let res = db
        .get_entries_newer_than_sequence(AUTHOR, 6000, None, true, true)
        .unwrap();
    assert_eq!(res.len(), 6);
    for (i, entry) in res.iter().enumerate() {
        assert_eq!(entry, &envelope(AUTHOR, 6001 + i as u32));
        let v: serde_json::Value = serde_json::from_slice(entry).unwrap();
        assert_eq!(v["value"]["author"], AUTHOR);
    }
}

#[test]
fn get_entries_newer_than_sequence_works_with_limit() {
    let db = indexed_store();
    let res = db
        .get_entries_newer_than_sequence(AUTHOR, 6000, Some(2), true, true)
        .unwrap();
    assert_eq!(res.len(), 2);
    assert_eq!(res[1], envelope(AUTHOR, 6002));
}

#[test]
fn get_entries_k_newer_than_sequence_works() {
    let db = indexed_store();
    let res = db
        .get_entries_newer_than_sequence(AUTHOR, 6000, None, true, false)
        .unwrap();
    assert_eq!(res.len(), 6);
    for (i, entry) in res.iter().enumerate() {
        let (key, rest) = Multihash::from_legacy(entry).unwrap();
        assert!(rest.is_empty());
        assert_eq!(key.to_legacy_string(), key_of(AUTHOR, 6001 + i as u32));
    }
}

#[test]
fn get_entries_v_newer_than_sequence_works() {
    let db = indexed_store();
    let res = db
        .get_entries_newer_than_sequence(AUTHOR, 6000, None, false, true)
        .unwrap();
    assert_eq!(res.len(), 6);
    for (i, entry) in res.iter().enumerate() {
        let v: serde_json::Value = serde_json::from_slice(entry).unwrap();
        let sent: serde_json::Value = serde_json::from_slice(&envelope(AUTHOR, 6001 + i as u32)).unwrap();
        assert_eq!(v, sent["value"]);
        let text = std::str::from_utf8(entry).unwrap();
        let order = ["\"previous\"", "\"author\"", "\"sequence\"", "\"timestamp\"", "\"hash\"", "\"content\"", "\"signature\""];
        let positions: Vec<usize> = order.iter().map(|f| text.find(f).unwrap()).collect();
        assert!(positions.windows(2).all(|w| w[0] < w[1]));
    }
}

#[test]
fn get_entries_no_kv_newer_than_sequence_errors() {
    let db = indexed_store();
    let res = db.get_entries_newer_than_sequence(AUTHOR, 6000, None, false, false);
    assert!(res.is_err());
    assert_eq!(res, Err(Error::IncludeKeysIncludeValuesBothFalse));
}

#[test]
fn append_batch_works() {
    let entries = OffsetLog::from_bytes(log_with(&feed(AUTHOR, 1, FEED_LEN)))
        .iter_at_offset(0)
        .into_iter()
        .map(|e| e.data)
        .collect::<Vec<_>>();
    let mut db = SqliteSsbDb::new(Vec::new());
    let res = db.append_batch(AUTHOR, &entries);
    assert!(res.is_ok());
    let seq = db.get_feed_latest_sequence(AUTHOR).unwrap();
    assert_eq!(seq.unwrap(), 6006);
    assert_eq!(db.offset_log().as_bytes(), &log_with(&feed(AUTHOR, 1, FEED_LEN))[..]);
}

#[test]
fn rebuild_indexes_works() {
    let mut db = indexed_store();
    let res = db.rebuild_indexes();
    assert!(res.is_ok());
    let seq = db.get_feed_latest_sequence(AUTHOR).unwrap();
    assert_eq!(seq.unwrap(), 6006);
}

#[test]
fn rebuild_changes_no_query_result() {
    let mut db = SqliteSsbDb::new(Vec::new());
    db.append_batch(AUTHOR, &feed(AUTHOR, 1, 20)).unwrap();
    db.append_batch(OTHER, &feed(OTHER, 1, 5)).unwrap();
    let before_kv = db.get_entries_newer_than_sequence(AUTHOR, 3, None, true, true).unwrap();
    let before_k = db.get_entries_newer_than_sequence(OTHER, 0, Some(3), true, false).unwrap();
    let before_key = db.get_entry_by_key(&key_of(OTHER, 2)).unwrap();
    db.rebuild_indexes().unwrap();
    assert_eq!(db.get_entries_newer_than_sequence(AUTHOR, 3, None, true, true).unwrap(), before_kv);
    assert_eq!(db.get_entries_newer_than_sequence(OTHER, 0, Some(3), true, false).unwrap(), before_k);
    assert_eq!(db.get_entry_by_key(&key_of(OTHER, 2)).unwrap(), before_key);
    assert_eq!(db.get_feed_latest_sequence(OTHER), Ok(Some(5)));
}

#[test]
fn updating_twice_changes_nothing() {
    let mut db = indexed_store();
    let before = db.get_entries_newer_than_sequence(AUTHOR, 0, None, true, false).unwrap();
    db.update_indexes_from_offset_file().unwrap();
    db.update_indexes_from_offset_file().unwrap();
    let after = db.get_entries_newer_than_sequence(AUTHOR, 0, None, true, false).unwrap();
    assert_eq!(before.len(), 6006);
    assert_eq!(before, after);
}

#[test]
fn incremental_update_indexes_only_new_entries() {
    let mut log = OffsetLog::new();
    log.append_batch(&feed(AUTHOR, 1, 3)).unwrap();
    let mut db = SqliteSsbDb::new(log.as_bytes().to_vec());
    assert_eq!(db.get_feed_latest_sequence(AUTHOR), Ok(None));
    db.update_indexes_from_offset_file().unwrap();
    assert_eq!(db.get_feed_latest_sequence(AUTHOR), Ok(Some(3)));
    db.append_batch(AUTHOR, &feed(AUTHOR, 4, 9)).unwrap();
    assert_eq!(db.get_feed_latest_sequence(AUTHOR), Ok(Some(9)));
    let all = db.get_entries_newer_than_sequence(AUTHOR, 0, None, true, true).unwrap();
    assert_eq!(all, feed(AUTHOR, 1, 9));
}

#[test]
fn high_water_mark_never_falls() {
    let mut db = SqliteSsbDb::new(Vec::new());
    let mut last: Option<Vec<u8>> = None;
    for round in 0..5u32 {
        db.append_batch(AUTHOR, &feed(AUTHOR, round * 4 + 1, round * 4 + 4)).unwrap();
        let newest = db.get_entry_by_seq(AUTHOR, (round * 4 + 4) as i32).unwrap().unwrap();
        if let Some(prev) = &last {
            assert!(prev != &newest);
        }
        last = Some(newest);
        assert_eq!(db.get_feed_latest_sequence(AUTHOR), Ok(Some((round * 4 + 4) as i32)));
    }
    db.rebuild_indexes().unwrap();
    assert_eq!(db.get_feed_latest_sequence(AUTHOR), Ok(Some(20)));
}

#[test]
fn every_parseable_frame_is_indexed() {
    let mut messages = feed(AUTHOR, 1, 10);
    messages.insert(4, b"not an envelope".to_vec());
    let db = {
        let mut db = SqliteSsbDb::new(log_with(&messages));
        db.update_indexes_from_offset_file().unwrap();
        db
    };
    for s in 1..=10 {
        assert_eq!(db.get_entry_by_seq(AUTHOR, s).unwrap().unwrap(), envelope(AUTHOR, s as u32));
        assert_eq!(db.get_entry_by_key(&key_of(AUTHOR, s as u32)).unwrap(), envelope(AUTHOR, s as u32));
    }
    assert_eq!(db.get_entries_newer_than_sequence(AUTHOR, 0, None, true, true).unwrap().len(), 10);
}

#[test]
fn tombstone_changes_no_query_result() {
    let plain = feed(AUTHOR, 1, 8);
    let mut with_tombstone = plain.clone();
    with_tombstone.insert(3, vec![0u8; 120]);
    with_tombstone.insert(7, vec![0u8; 1]);
    let mut a = SqliteSsbDb::new(log_with(&plain));
    let mut b = SqliteSsbDb::new(log_with(&with_tombstone));
    a.update_indexes_from_offset_file().unwrap();
    b.update_indexes_from_offset_file().unwrap();
    assert_eq!(a.get_feed_latest_sequence(AUTHOR), b.get_feed_latest_sequence(AUTHOR));
    for flags in [(true, true), (true, false), (false, true)] {
        assert_eq!(
            a.get_entries_newer_than_sequence(AUTHOR, 2, None, flags.0, flags.1),
            b.get_entries_newer_than_sequence(AUTHOR, 2, None, flags.0, flags.1)
        );
    }
    assert_eq!(a.get_entry_by_seq(AUTHOR, 5), b.get_entry_by_seq(AUTHOR, 5));
}

#[test]
fn tombstone_as_last_frame_is_skipped_on_resume() {
    let mut db = SqliteSsbDb::new(Vec::new());
    db.append_batch(AUTHOR, &feed(AUTHOR, 1, 2)).unwrap();
    db.append_batch(AUTHOR, &[vec![0u8; 30]]).unwrap();
    db.append_batch(AUTHOR, &feed(AUTHOR, 3, 4)).unwrap();
    assert_eq!(db.get_feed_latest_sequence(AUTHOR), Ok(Some(4)));
    assert_eq!(db.get_entries_newer_than_sequence(AUTHOR, 0, None, true, true).unwrap(), feed(AUTHOR, 1, 4));
}

#[test]
fn first_frame_at_offset_zero_is_indexed_once() {
    let mut db = SqliteSsbDb::new(log_with(&feed(AUTHOR, 1, 1)));
    db.update_indexes_from_offset_file().unwrap();
    db.update_indexes_from_offset_file().unwrap();
    let res = db.get_entries_newer_than_sequence(AUTHOR, 0, None, true, true).unwrap();
    assert_eq!(res.len(), 1);
}

#[test]
fn keys_projection_parses_back_as_envelope_keys() {
    let db = indexed_store();
    let kv = db.get_entries_newer_than_sequence(AUTHOR, 6003, None, true, true).unwrap();
    let k = db.get_entries_newer_than_sequence(AUTHOR, 6003, None, true, false).unwrap();
    for (entry, key) in kv.iter().zip(k.iter()) {
        let m: serde_json::Value = serde_json::from_slice(entry).unwrap();
        assert_eq!(m["key"].as_str().unwrap().as_bytes(), &key[..]);
    }
    let _unused: Option<SsbMessage> = None;
}

#[test]
fn values_projection_drops_unreadable_entries() {
    let mut messages = feed(AUTHOR, 1, 4);
    messages[2] = format!(
        "{{\"key\":\"{}\",\"value\":{{\"author\":\"{}\",\"sequence\":3,\"n\":1,\"n\":2}}}}",
        key_of(AUTHOR, 3),
        AUTHOR
    )
    .into_bytes();
    let mut db = SqliteSsbDb::new(log_with(&messages));
    db.update_indexes_from_offset_file().unwrap();
    let whole = db.get_entries_newer_than_sequence(AUTHOR, 0, None, true, true).unwrap();
    assert_eq!(whole.len(), 4);
    let values = db.get_entries_newer_than_sequence(AUTHOR, 0, None, false, true).unwrap();
    assert_eq!(values.len(), 3);
    let seqs: Vec<u64> = values
        .iter()
        .map(|v| serde_json::from_slice::<serde_json::Value>(v).unwrap()["sequence"].as_u64().unwrap())
        .collect();
    assert_eq!(seqs, vec![1, 2, 4]);
    let limited = db.get_entries_newer_than_sequence(AUTHOR, 0, Some(2), false, true).unwrap();
    assert_eq!(limited, values[..2].to_vec());
}

#[test]
fn update_on_a_current_index_changes_nothing() {
    let mut db = SqliteSsbDb::new(log_with(&feed(AUTHOR, 1, 5)));
    db.update_indexes_from_offset_file().unwrap();
    let before = db.get_entries_newer_than_sequence(AUTHOR, 0, None, true, true).unwrap();
    assert_eq!(db.update_indexes_from_offset_file(), Ok(()));
    assert_eq!(db.get_entries_newer_than_sequence(AUTHOR, 0, None, true, true).unwrap(), before);
}
