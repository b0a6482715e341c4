use ssb_db::db::{
    append_item, find_feed_flume_seqs_newer_than, find_feed_latest_seq,
    find_message_flume_seq_by_author_and_sequence, find_message_flume_seq_by_key,
    find_or_create_author, find_or_create_key, get_latest, insert_message,
};
use ssb_db::ssb_message::{parse_message, project_value};
use ssb_db::{Error, Index};

const ALICE: &str = "@U5GvOKP/YUza9k53DSXxT0mk3PIrnyAmessvNfZl5E0=.ed25519";
const BOB: &str = "@EMovhfIrFk4NihAKnRNhrfRaqIhBv1Wj8pTxJNgvCCY=.ed25519";

fn envelope(key: &str, author: &str, seq: u32) -> Vec<u8> {
    format!(
        "{{\"key\":\"{}\",\"value\":{{\"previous\":null,\"author\":\"{}\",\"sequence\":{},\"timestamp\":1500000000000,\"hash\":\"sha256\",\"content\":{{\"type\":\"post\",\"text\":\"hi\"}},\"signature\":\"sig.sig.ed25519\"}},\"timestamp\":1500000000001}}",
        key, author, seq
    )
    .into_bytes()
}

#[test]
fn find_or_create_reuses_ids() {
    let mut idx = Index::new();
    assert_eq!(find_or_create_author(&mut idx, ALICE), Ok(1));
    assert_eq!(find_or_create_author(&mut idx, BOB), Ok(2));
    assert_eq!(find_or_create_author(&mut idx, ALICE), Ok(1));
    assert_eq!(find_or_create_key(&mut idx, "%k1"), Ok(1));
    assert_eq!(find_or_create_key(&mut idx, "%k1"), Ok(1));
    assert_eq!(find_or_create_key(&mut idx, "%k2"), Ok(2));
    assert_eq!(idx.len(), 0);
}

#[test]
fn insert_message_refuses_only_duplicates() {
    let mut idx = Index::new();
    let a = find_or_create_author(&mut idx, ALICE).unwrap();
    let k = find_or_create_key(&mut idx, "%k1").unwrap();
    assert_eq!(get_latest(&idx), None);
    assert_eq!(insert_message(&mut idx, 1, 0, k, a), Ok(1));
    assert_eq!(get_latest(&idx), Some(0));
    assert_eq!(insert_message(&mut idx, 2, 0, k, a), Err(Error::SqliteAppendError));
    assert_eq!(insert_message(&mut idx, 2, 100, k, 7), Err(Error::SqliteAppendError));
    assert_eq!(insert_message(&mut idx, 2, -5, k, a), Err(Error::SqliteAppendError));
    assert_eq!(insert_message(&mut idx, 2, 100, k, a), Ok(1));
    assert_eq!(get_latest(&idx), Some(100));
    assert_eq!(insert_message(&mut idx, 3, 50, k, a), Ok(1));
    assert_eq!(get_latest(&idx), Some(100));
    assert_eq!(insert_message(&mut idx, 4, 50, k, a), Err(Error::SqliteAppendError));
    assert_eq!(idx.len(), 3);
    assert_eq!(find_feed_flume_seqs_newer_than(&idx, ALICE, 0, None), vec![0, 100, 50]);
}

#[test]
fn queries_over_two_feeds() {
    let mut idx = Index::new();
    let mut off: u64 = 0;
    for seq in 1..=5u32 {
        append_item(&mut idx, off, &envelope(&format!("%a{}", seq), ALICE, seq)).unwrap();
        off += 100;
        append_item(&mut idx, off, &envelope(&format!("%b{}", seq), BOB, seq * 10)).unwrap();
        off += 100;
    }
    assert_eq!(find_feed_latest_seq(&idx, ALICE), Some(5));
    assert_eq!(find_feed_latest_seq(&idx, BOB), Some(50));
    assert_eq!(find_feed_latest_seq(&idx, "@nobody"), None);
    assert_eq!(find_message_flume_seq_by_key(&idx, "%b2"), Some(300));
    assert_eq!(find_message_flume_seq_by_key(&idx, "%zz"), None);
    assert_eq!(find_message_flume_seq_by_author_and_sequence(&idx, ALICE, 3), Some(400));
    assert_eq!(find_message_flume_seq_by_author_and_sequence(&idx, ALICE, 30), None);
    assert_eq!(find_message_flume_seq_by_author_and_sequence(&idx, BOB, 30), Some(500));
    assert_eq!(find_feed_flume_seqs_newer_than(&idx, ALICE, 2, None), vec![400, 600, 800]);
    assert_eq!(find_feed_flume_seqs_newer_than(&idx, ALICE, 2, Some(2)), vec![400, 600]);
    assert_eq!(find_feed_flume_seqs_newer_than(&idx, ALICE, 2, Some(0)), Vec::<u64>::new());
    assert_eq!(find_feed_flume_seqs_newer_than(&idx, ALICE, 2, Some(-1)), vec![400, 600, 800]);
    assert_eq!(find_feed_flume_seqs_newer_than(&idx, ALICE, 5, None), Vec::<u64>::new());
    assert_eq!(find_feed_flume_seqs_newer_than(&idx, "@nobody", 0, None), Vec::<u64>::new());
}

#[test]
fn append_item_skips_what_holds_no_envelope() {
    let mut idx = Index::new();
    assert_eq!(append_item(&mut idx, 0, &[0u8; 40]), Ok(()));
    assert_eq!(append_item(&mut idx, 52, b"not json"), Ok(()));
    assert_eq!(append_item(&mut idx, 72, b"{\"key\":\"%k\"}"), Ok(()));
    assert_eq!(idx.len(), 0);
    assert_eq!(get_latest(&idx), None);
    assert_eq!(append_item(&mut idx, 100, &envelope("%k", ALICE, 1)), Ok(()));
    assert_eq!(get_latest(&idx), Some(100));
    assert_eq!(append_item(&mut idx, 100, &envelope("%k2", ALICE, 2)), Err(Error::SqliteAppendError));
}

#[test]
fn parse_message_reads_the_envelope() {
    let m = parse_message(&envelope("%key.sha256", ALICE, 42)).unwrap();
    assert_eq!(m.key, "%key.sha256");
    assert_eq!(m.value.author, ALICE);
    assert_eq!(m.value.sequence, 42);
    assert!(parse_message(&[0u8; 16]).is_none());
    assert!(parse_message(&[]).is_none());
    assert!(parse_message(b"{\"key\":\"%k\",\"value\":{\"author\":\"@a\",\"sequence\":-1}}").is_none());
    assert!(parse_message(b"{\"key\":\"%k\",\"value\":{\"author\":\"@a\",\"sequence\":4294967296}}").is_none());
    assert!(parse_message(b"{\"key\":\"%k\",\"value\":{\"author\":\"@a\",\"sequence\":4294967295}}").is_some());
}

#[test]
fn large_sequences_are_held_in_32_signed_bits() {
    let mut idx = Index::new();
    let e = b"{\"key\":\"%k\",\"value\":{\"author\":\"@a\",\"sequence\":4294967295}}";
    append_item(&mut idx, 0, e).unwrap();
    assert_eq!(find_feed_latest_seq(&idx, "@a"), Some(-1));
}

#[test]
fn project_value_keeps_field_order() {
    let v = project_value(&envelope("%k", ALICE, 7)).unwrap().unwrap();
    let text = String::from_utf8(v).unwrap();
    let p = text.find("\"previous\"").unwrap();
    let a = text.find("\"author\"").unwrap();
    let s = text.find("\"sequence\"").unwrap();
    let c = text.find("\"content\"").unwrap();
    assert!(p < a && a < s && s < c);
    let parsed: serde_json::Value = serde_json::from_str(&text).unwrap();
    assert_eq!(parsed["sequence"], 7);
    assert_eq!(parsed["author"], ALICE);
    assert!(parsed.get("key").is_none());
}

#[test]
fn project_value_drops_what_it_cannot_read() {
    assert_eq!(project_value(b"garbage"), Ok(None));
    assert_eq!(project_value(&[0u8; 8]), Ok(None));
    assert_eq!(project_value(b"[1,2]"), Ok(None));
    assert_eq!(project_value(b"{\"key\":\"%k\"}"), Ok(None));
    // serde_json takes these, the legacy format does not
    let dup = b"{\"key\":\"%k\",\"value\":{\"author\":\"@a\",\"sequence\":1,\"author\":\"@a\"}}";
    assert!(parse_message(dup).is_some());
    assert_eq!(project_value(dup), Ok(None));
    let neg_zero = b"{\"key\":\"%k\",\"value\":{\"author\":\"@a\",\"sequence\":1,\"t\":-0}}";
    assert!(parse_message(neg_zero).is_some());
    assert_eq!(project_value(neg_zero), Ok(None));
    let fine = b"{\"key\":\"%k\",\"value\":{\"author\":\"@a\",\"sequence\":1,\"t\":0}}";
    let v = project_value(fine).unwrap().unwrap();
    let parsed: serde_json::Value = serde_json::from_slice(&v).unwrap();
    assert_eq!(parsed["t"], 0);
}

#[test]
fn error_messages() {
    assert_eq!(
        Error::IncludeKeysIncludeValuesBothFalse.message(),
        "`include_keys` and `include_values` were both false. Pick one or both."
    );
    assert_eq!(Error::OffsetGetError.message(), "Error, could not find entry at expected offset.");
}
