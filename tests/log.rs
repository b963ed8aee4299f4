use rumqttlog::datalog::DataLog;
use rumqttlog::request::{Config, DataRequest};
use rumqttlog::segment::SegmentLog;
use std::sync::Arc;

fn config(max_segment_size: u64, max_payload_per_read: usize) -> Arc<Config> {
    Arc::new(Config {
        id: 0,
        max_segment_size,
        max_segment_count: 10,
        max_connections: 100,
        max_payload_per_read,
    })
}

#[test]
fn segment_reads_jump_across_segments() {
    let mut log = SegmentLog::new(100);
    for i in 0..250u32 {
        log.append(vec![(i % 256) as u8]);
    }
    let b = log.readv((0, 0), 1000).unwrap();
    assert_eq!(b.payloads.len(), 100);
    assert_eq!(b.jump, Some(100));
    let b = log.readv((100, 100), 1000).unwrap();
    assert_eq!(b.payloads.len(), 100);
    assert_eq!(b.jump, Some(200));
    assert_eq!(b.payloads[0], vec![100u8]);
    let b = log.readv((200, 200), 1000).unwrap();
    assert_eq!(b.payloads.len(), 50);
    assert_eq!(b.jump, None);
    assert_eq!((b.base_offset, b.record_offset), (200, 250));
    assert!(log.readv((200, 250), 1000).is_none());
}

#[test]
fn segment_append_returns_offsets() {
    let mut log = SegmentLog::new(2);
    assert_eq!(log.append(vec![1, 2]), (0, 0));
    assert_eq!(log.append(vec![3]), (1, 1));
    assert_eq!(log.append(vec![4]), (1, 2));
    assert_eq!(log.append(vec![5]), (3, 3));
}

#[test]
fn segment_reads_are_capped_and_concatenate() {
    let mut log = SegmentLog::new(1000);
    for i in 0..10u8 {
        log.append(vec![i]);
    }
    let mut cursor = (0u64, 0u64);
    let mut all: Vec<Vec<u8>> = Vec::new();
    let mut reads = 0;
    while let Some(b) = log.readv(cursor, 3) {
        assert!(b.payloads.len() <= 3);
        cursor = match b.jump {
            Some(j) => (j, j),
            None => (b.base_offset, b.record_offset),
        };
        all.extend(b.payloads);
        reads += 1;
    }
    assert_eq!(reads, 4);
    let expected: Vec<Vec<u8>> = (0..10u8).map(|i| vec![i]).collect();
    assert_eq!(all, expected);
}

#[test]
fn resumed_read_returns_only_later_records() {
    let mut log = SegmentLog::new(1000);
    log.append(vec![1]);
    log.append(vec![2]);
    let b = log.readv((0, 0), 10).unwrap();
    let cursor = (b.base_offset, b.record_offset);
    log.append(vec![3]);
    log.append(vec![4]);
    let b = log.readv(cursor, 10).unwrap();
    assert_eq!(b.payloads, vec![vec![3u8], vec![4u8]]);
}

#[test]
fn segment_read_from_unknown_cursor_is_none() {
    let mut log = SegmentLog::new(1000);
    log.append(vec![1]);
    assert!(log.readv((5, 5), 10).is_none());
    assert!(log.readv((0, 2), 10).is_none());
    assert!(log.readv((0, 0), 0).is_none());
}

#[test]
fn replication_isolation() {
    let mut data = DataLog::new(0, config(1024, 100));
    let r1 = data.append_to_commitlog(1, "t", vec![1]);
    assert_eq!(r1, Some((true, (0, 0))));
    let r2 = data.append_to_commitlog(15, "t", vec![2]);
    assert_eq!(r2, Some((true, (0, 0))));
    let r3 = data.append_to_commitlog(2, "t", vec![3]);
    assert_eq!(r3, Some((true, (0, 0))));
    assert_eq!(data.append_to_commitlog(15, "t", vec![4]), Some((false, (0, 1))));

    let request = DataRequest::new("t".to_string());
    let reply = data.handle_data_request(20, &request).unwrap();
    assert_eq!(reply.payload, vec![vec![2u8], vec![4u8], vec![1u8], vec![3u8]]);
    assert_eq!(reply.cursors, [(0, 2), (0, 1), (0, 1)]);

    let reply = data.handle_data_request(1, &request).unwrap();
    assert_eq!(reply.payload, vec![vec![2u8], vec![4u8]]);
    assert_eq!(reply.cursors, [(0, 2), (0, 0), (0, 0)]);
}

#[test]
fn caught_up_slots_keep_their_cursor() {
    let mut data = DataLog::new(0, config(1024, 100));
    data.append_to_commitlog(1, "t", vec![1]);
    let mut request = DataRequest::new("t".to_string());
    request.cursors = [(0, 0), (0, 0), (7, 7)];
    let reply = data.extract_all_data(&request).unwrap();
    assert_eq!(reply.cursors, [(0, 0), (0, 1), (7, 7)]);
    assert_eq!(reply.topic, "t");

    request.cursors = reply.cursors;
    assert!(data.extract_all_data(&request).is_none());
    assert!(data.extract_connection_data(&request).is_none());
}

#[test]
fn unknown_topic_reads_nothing() {
    let mut data = DataLog::new(1, config(1024, 100));
    data.append_to_commitlog(30, "a", vec![1]);
    let request = DataRequest::new("b".to_string());
    assert!(data.handle_data_request(30, &request).is_none());
}

#[test]
fn seek_moves_cursor_of_one_slot_to_tail() {
    let mut data = DataLog::new(0, config(1, 100));
    data.append_to_commitlog(11, "a", vec![1]);
    data.append_to_commitlog(11, "a", vec![2]);
    data.append_to_commitlog(11, "a", vec![3]);
    let mut topics = vec![
        ("a".to_string(), 1u8, [(0u64, 0u64), (5, 5), (6, 6)]),
        ("b".to_string(), 0u8, [(9u64, 9u64), (5, 5), (6, 6)]),
    ];
    data.seek_offsets_to_end(0, &mut topics);
    assert_eq!(topics[0].2, [(2, 3), (5, 5), (6, 6)]);
    assert_eq!(topics[1].2, [(0, 0), (5, 5), (6, 6)]);
    assert_eq!(topics[0].1, 1);
}

#[test]
fn data_log_segment_jump() {
    let mut data = DataLog::new(0, config(100, 1000));
    for i in 0..250u32 {
        data.append_to_commitlog(15, "t", vec![(i % 256) as u8]);
    }
    let mut request = DataRequest::new("t".to_string());
    let reply = data.extract_all_data(&request).unwrap();
    assert_eq!(reply.payload.len(), 100);
    assert_eq!(reply.cursors[0], (100, 100));
    request.cursors = reply.cursors;
    let reply = data.extract_all_data(&request).unwrap();
    assert_eq!(reply.payload.len(), 100);
    assert_eq!(reply.payload[0], vec![100u8]);
    assert_eq!(reply.cursors[0], (200, 200));
    request.cursors = reply.cursors;
    let reply = data.extract_all_data(&request).unwrap();
    assert_eq!(reply.payload.len(), 50);
    assert_eq!(reply.cursors[0], (200, 250));
    request.cursors = reply.cursors;
    assert!(data.extract_all_data(&request).is_none());
}

#[test]
fn two_records_come_back_in_one_reply() {
    let mut data = DataLog::new(0, config(1024, 100));
    data.append_to_commitlog(10, "hello/1/world", vec![1, 2, 3]);
    data.append_to_commitlog(10, "hello/1/world", vec![4, 5, 6]);
    data.append_to_commitlog(10, "hello/2/world", vec![13, 14, 15]);
    data.append_to_commitlog(10, "hello/2/world", vec![16, 17, 18]);
    let reply = data.handle_data_request(11, &DataRequest::new("hello/1/world".to_string())).unwrap();
    assert_eq!(reply.payload, vec![vec![1u8, 2, 3], vec![4u8, 5, 6]]);
    let reply = data.handle_data_request(11, &DataRequest::new("hello/2/world".to_string())).unwrap();
    assert_eq!(reply.payload, vec![vec![13u8, 14, 15], vec![16u8, 17, 18]]);
}
