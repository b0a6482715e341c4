use ssb_db::{Error, OffsetLog};

#[test]
fn frame_layout_is_length_payload_length_next() {
    let mut log = OffsetLog::new();
    let off = log.append(&[1, 2, 3, 4]).unwrap();
    assert_eq!(off, 0);
    assert_eq!(
        log.as_bytes(),
        &[0, 0, 0, 4, 1, 2, 3, 4, 0, 0, 0, 4, 0, 0, 0, 16][..]
    );
    let off2 = log.append(&[9]).unwrap();
    assert_eq!(off2, 16);
    assert_eq!(&log.as_bytes()[16..], &[0, 0, 0, 1, 9, 0, 0, 0, 1, 0, 0, 0, 29][..]);
    assert_eq!(log.end(), 29);
}

#[test]
fn batch_round_trip() {
    let mut log = OffsetLog::new();
    log.append(b"first").unwrap();
    let payloads: Vec<Vec<u8>> = vec![b"a".to_vec(), Vec::new(), b"hello world".to_vec(), vec![0; 7]];
    let offs = log.append_batch(&payloads).unwrap();
    assert_eq!(offs, vec![17, 30, 42, 65]);
    for (o, p) in offs.iter().zip(payloads.iter()) {
        assert_eq!(&log.get(*o).unwrap(), p);
    }
    assert_eq!(log.end(), 65 + 12 + 7);
}

#[test]
fn empty_batch_changes_nothing() {
    let mut log = OffsetLog::new();
    log.append(b"x").unwrap();
    let offs = log.append_batch(&[]).unwrap();
    assert!(offs.is_empty());
    assert_eq!(log.end(), 13);
}

#[test]
fn get_rejects_bad_offsets() {
    let mut log = OffsetLog::new();
    log.append(b"abcdef").unwrap();
    assert_eq!(log.get(1), Err(Error::OffsetGetError));
    assert_eq!(log.get(4), Err(Error::OffsetGetError));
    assert_eq!(log.get(18), Err(Error::OffsetGetError));
    assert_eq!(log.get(1000), Err(Error::OffsetGetError));
    assert_eq!(log.get(0).unwrap(), b"abcdef".to_vec());
}

#[test]
fn get_rejects_disagreeing_lengths() {
    let mut log = OffsetLog::new();
    log.append(b"abcd").unwrap();
    let mut bytes = log.as_bytes().to_vec();
    bytes[11] = 5;
    let broken = OffsetLog::from_bytes(bytes);
    assert_eq!(broken.get(0), Err(Error::OffsetGetError));
}

#[test]
fn iteration_stops_at_torn_frame() {
    let mut log = OffsetLog::new();
    log.append_batch(&[b"one".to_vec(), b"two".to_vec(), b"three".to_vec()]).unwrap();
    let mut bytes = log.as_bytes().to_vec();
    bytes.truncate(bytes.len() - 3);
    let torn = OffsetLog::from_bytes(bytes);
    let entries = torn.iter_at_offset(0);
    assert_eq!(entries.len(), 2);
    assert_eq!(entries[0].offset, 0);
    assert_eq!(entries[0].data, b"one".to_vec());
    assert_eq!(entries[1].offset, 15);
    assert_eq!(entries[1].data, b"two".to_vec());
}

#[test]
fn iteration_from_an_offset() {
    let mut log = OffsetLog::new();
    let offs = log
        .append_batch(&[b"one".to_vec(), b"two".to_vec(), b"three".to_vec()])
        .unwrap();
    let entries = log.iter_at_offset(offs[1]);
    assert_eq!(entries.len(), 2);
    assert_eq!(entries[0].data, b"two".to_vec());
    assert_eq!(entries[1].offset, offs[2]);
    assert_eq!(entries[1].data, b"three".to_vec());
    assert!(log.iter_at_offset(log.end()).is_empty());
    assert!(log.iter_at_offset(1).is_empty());
}
