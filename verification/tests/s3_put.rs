use std::collections::HashMap;

use sector_store::s3::config::{S3Config, CONFIG_FILE, DATASTORE_FILE};
use sector_store::s3::datastore::{object_exist, Datastore, Object, EMPTY_DATASTORE};
use sector_store::s3::error::S3Error;
use sector_store::s3::get::get_object_with_ranges;
use sector_store::s3::parts::{part_key, Part};
use sector_store::s3::put::{put_object, put_zero_object, PutObject};
use sector_store::s3::update::{update_object, PartUpdate};
use sector_store::s3::upload::{
    multipart_upload, CompletedPart, UploadStep, DEFAULT_UPLOAD_PART_SIZE,
};

type Bucket = HashMap<String, Vec<u8>>;

/// Runs an upload to its end and gives what arrived.
fn upload(key: &str, body: &[u8], part_size: usize) -> Vec<u8> {
    let mut upload =
        multipart_upload(key, Some("id".to_string()), body.to_vec(), part_size).unwrap();
    let mut pieces: Vec<Vec<u8>> = Vec::new();
    loop {
        match upload.next() {
            UploadStep::UploadPart { part_number, data } => {
                assert_eq!(part_number as usize, pieces.len() + 1);
                pieces.push(data);
                upload.uploaded(Some(format!("tag{}", part_number))).unwrap();
            }
            UploadStep::Complete { parts } => {
                assert_eq!(parts.len(), pieces.len());
                for (i, part) in parts.iter().enumerate() {
                    assert_eq!(part.part_number as usize, i + 1);
                    assert_eq!(part.e_tag, format!("tag{}", i + 1));
                }
                return pieces.concat();
            }
        }
    }
}

/// Puts a content part by part.
fn run_put(mut put: PutObject, content: &[u8], bucket: &mut Bucket) -> Object {
    let mut at = 0;
    while let Some(len) = put.next_read() {
        let stored_len = bucket.get(&put.next_key()).map(|data| data.len() as u64);
        let data = content[at..at + len].to_vec();
        if let Some(part) = put.part_read(&data, stored_len) {
            let stored = upload(&part.key, &part.data, 3);
            bucket.insert(part.key, stored);
            put.part_stored();
        }
        at += len;
    }
    assert_eq!(at, content.len());
    put.finish()
}

/// Overwrites bytes of an object part by part.
fn run_update(store: &Datastore, key: &str, offset: u64, content: &[u8], bucket: &mut Bucket) {
    let mut update = update_object(store, key, offset, content.len() as u64).unwrap();
    let mut at = 0;
    while let Some(part) = update.next_part() {
        let key = update.next_key();
        let old = bucket.get(&key).cloned().unwrap_or_default();
        let ps = update.part_size as usize;
        let head = old[..part.head].to_vec();
        let body = content[at..at + part.body].to_vec();
        let tail = if part.tail == 0 { Vec::new() } else { old[ps - part.tail..ps].to_vec() };
        bucket.insert(key, part.replacement(&head, &body, &tail));
        at += part.body;
        update.part_uploaded();
    }
    assert_eq!(at, content.len());
}

fn read(bucket: &Bucket, key: &str, part_size: u64, len: u64) -> Vec<u8> {
    (0..len)
        .map(|pos| bucket[&part_key(key, pos / part_size)][(pos % part_size) as usize])
        .collect()
}

fn object(len: usize) -> Vec<u8> {
    (0..len).map(|i| (i * 13 % 251 + 1) as u8).collect()
}

#[test]
fn an_upload_sends_the_body_in_pieces() {
    for len in [0usize, 1, 3, 4, 9, 10] {
        let body = object(len);
        assert_eq!(upload("k", &body, 3), body);
    }
    let started = multipart_upload("k", Some("u".to_string()), vec![9, 8], 5).unwrap();
    assert_eq!(started.upload_id, "u");
    assert_eq!(started.next(), UploadStep::UploadPart { part_number: 1, data: vec![9, 8] });
    let empty = multipart_upload("k", Some("u".to_string()), Vec::new(), 5).unwrap();
    assert_eq!(empty.next(), UploadStep::Complete { parts: Vec::<CompletedPart>::new() });
    let no_pieces = multipart_upload("k", Some("u".to_string()), Vec::new(), 0).unwrap();
    assert_eq!(no_pieces.next(), UploadStep::Complete { parts: Vec::<CompletedPart>::new() });
    assert_eq!(DEFAULT_UPLOAD_PART_SIZE, 468_713_472);
}

#[test]
fn an_upload_needs_its_id_and_its_tags() {
    let error = multipart_upload("k/0", None, vec![1], 5).unwrap_err();
    assert_eq!(error, S3Error::MissingUploadId { key: "k/0".to_string() });
    assert_eq!(error.message(), "k/0, must need upload id");
    let mut upload = multipart_upload("k/0", Some("u".to_string()), vec![1, 2], 1).unwrap();
    let error = upload.uploaded(None).unwrap_err();
    assert_eq!(error, S3Error::MissingETag { key: "k/0".to_string() });
    assert_eq!(error.message(), "k/0 must need e_tag");
    assert_eq!(upload.next(), UploadStep::UploadPart { part_number: 1, data: vec![1] });
}

#[test]
fn a_put_reads_back() {
    for len in [0usize, 1, 9, 10, 11, 20, 37] {
        let content = object(len);
        let mut bucket = Bucket::new();
        let put = put_object("a".to_string(), len as u64, 10);
        let obj = run_put(put, &content, &mut bucket);
        assert_eq!(
            obj,
            Object {
                key: "a".to_string(),
                total_size: len as u64,
                part_size: 10,
                parts_len: (len as u64 + 9) / 10,
            }
        );
        assert_eq!(bucket.len(), obj.parts_len as usize);
        assert!(bucket.values().all(|part| part.len() == 10));
        assert_eq!(read(&bucket, "a", 10, len as u64), content);
    }
}

#[test]
fn a_short_last_part_keeps_the_end_of_the_one_before() {
    let mut bucket = Bucket::new();
    run_put(put_object("a".to_string(), 6, 4), &[1, 2, 3, 4, 5, 6], &mut bucket);
    assert_eq!(bucket["a/0"], vec![1, 2, 3, 4]);
    assert_eq!(bucket["a/1"], vec![5, 6, 3, 4]);
    let mut bucket = Bucket::new();
    run_put(put_object("b".to_string(), 2, 4), &[5, 6], &mut bucket);
    assert_eq!(bucket["b/0"], vec![5, 6, 0, 0]);
}

#[test]
fn a_part_that_is_there_in_full_is_kept() {
    let mut bucket = Bucket::new();
    bucket.insert("a/0".to_string(), vec![9; 4]);
    bucket.insert("a/1".to_string(), vec![9; 3]);
    run_put(put_object("a".to_string(), 8, 4), &[1, 2, 3, 4, 5, 6, 7, 8], &mut bucket);
    assert_eq!(bucket["a/0"], vec![9; 4]);
    assert_eq!(bucket["a/1"], vec![5, 6, 7, 8]);
}

#[test]
fn an_object_is_recorded_once_all_its_parts_are_stored() {
    let mut store = Datastore::new(None);
    let mut put = put_object("a".to_string(), 6, 4);
    assert!(put.part_read(&vec![1, 2, 3, 4], None).is_some());
    assert!(put.part_read(&vec![5, 6], Some(3)).is_some());
    assert_eq!((put.body_len, put.pending), (0, 2));
    put.part_stored();
    assert_eq!(put.pending, 1);
    let failed: Result<(), String> = put.conclude(Err("refused".to_string()), &mut store);
    assert_eq!(failed, Err("refused".to_string()));
    assert!(!object_exist(&store, "a"));

    let mut put = put_object("a".to_string(), 6, 4);
    assert!(put.part_read(&vec![1, 2, 3, 4], None).is_some());
    assert!(put.part_read(&vec![5, 6], Some(4)).is_none());
    assert_eq!(put.pending, 1);
    put.part_stored();
    let done: Result<(), String> = put.conclude(Ok(()), &mut store);
    assert_eq!(done, Ok(()));
    assert_eq!(
        store.get("a"),
        Some(Object { key: "a".to_string(), total_size: 6, part_size: 4, parts_len: 2 })
    );
}

#[test]
fn uploads_may_end_in_any_order() {
    let content = object(37);
    let mut bucket = Bucket::new();
    bucket.insert("a/2".to_string(), content[20..30].to_vec());
    let mut put = put_object("a".to_string(), 37, 10);
    let mut in_flight = Vec::new();
    let mut at = 0;
    while let Some(len) = put.next_read() {
        let stored_len = bucket.get(&put.next_key()).map(|data| data.len() as u64);
        in_flight.extend(put.part_read(&content[at..at + len].to_vec(), stored_len));
        at += len;
    }
    assert_eq!(put.pending, 3);
    while let Some(part) = in_flight.pop() {
        bucket.insert(part.key, part.data);
    }
    for _ in 0..3 {
        put.part_stored();
    }
    assert_eq!(put.finish().parts_len, 4);
    assert_eq!(read(&bucket, "a", 10, 37), content);
}

#[test]
fn an_update_that_is_cut_short_leaves_whole_parts() {
    let content = object(30);
    let mut bucket = Bucket::new();
    let mut store = Datastore::new(None);
    store.put(run_put(put_object("a".to_string(), 30, 10), &content, &mut bucket));
    let mut update = update_object(&store, "a", 5, 20).unwrap();
    let part = update.next_part().unwrap();
    let head = bucket["a/0"][..part.head].to_vec();
    let new = part.replacement(&head, &vec![255; part.body], &Vec::new());
    bucket.insert(update.next_key(), new);
    update.part_uploaded();
    assert_eq!(update.parts_num, 1);
    let mut expected = content.clone();
    expected[5..10].copy_from_slice(&[255; 5]);
    assert_eq!(read(&bucket, "a", 10, 30), expected);
}

#[test]
fn an_object_of_zeros_is_all_zeros() {
    let mut bucket = Bucket::new();
    let put = put_zero_object("z", 10, 4);
    let obj = run_put(put, &[0; 10], &mut bucket);
    assert_eq!(obj.key, "z");
    assert_eq!(obj.parts_len, 3);
    assert!(bucket.values().all(|part| *part == vec![0; 4]));
}

#[test]
fn an_update_changes_its_bytes_only() {
    let content = object(40);
    for (offset, len) in
        [(0u64, 40usize), (0, 10), (3, 4), (3, 7), (3, 8), (10, 10), (15, 20), (39, 1), (12, 0), (20, 0)]
    {
        let mut bucket = Bucket::new();
        let mut store = Datastore::new(None);
        store.put(run_put(put_object("a".to_string(), 40, 10), &content, &mut bucket));
        let new: Vec<u8> = vec![255; len];
        run_update(&store, "a", offset, &new, &mut bucket);
        let mut expected = content.clone();
        expected[offset as usize..offset as usize + len].copy_from_slice(&new);
        assert_eq!(read(&bucket, "a", 10, 40), expected);
    }
}

/// Reads ranges of an object through requests to its parts.
fn get(store: &Datastore, key: &str, ranges: &[(u64, u64)], bucket: &Bucket) -> Vec<Part> {
    let plan = get_object_with_ranges(store, key, ranges).unwrap().unwrap();
    let runs = plan
        .requests
        .iter()
        .map(|request| {
            let part = &bucket[&part_key(key, request.parts_num)];
            request
                .spans
                .iter()
                .map(|span| Part {
                    offset: span.start as u64,
                    data: part[span.start..span.start + span.len].to_vec(),
                })
                .collect()
        })
        .collect();
    plan.finish(&runs).unwrap()
}

#[test]
fn what_was_put_and_updated_is_got() {
    let mut content = object(33);
    let mut bucket = Bucket::new();
    let mut store = Datastore::new(None);
    bucket.insert("a/1".to_string(), content[10..20].to_vec());
    store.put(run_put(put_object("a".to_string(), 33, 10), &content, &mut bucket));
    let ranges = [(0u64, 33u64), (9, 2), (25, 8)];
    for (part, (offset, len)) in get(&store, "a", &ranges, &bucket).iter().zip(ranges) {
        assert_eq!(part.offset, offset);
        assert_eq!(part.data, content[offset as usize..(offset + len) as usize].to_vec());
    }
    run_update(&store, "a", 8, &[200; 15], &mut bucket);
    content[8..23].copy_from_slice(&[200; 15]);
    for (part, (offset, len)) in get(&store, "a", &ranges, &bucket).iter().zip(ranges) {
        assert_eq!(part.data, content[offset as usize..(offset + len) as usize].to_vec());
    }
}

#[test]
fn an_update_asks_for_what_stays() {
    let mut store = Datastore::new(None);
    store.put(Object { key: "a".to_string(), total_size: 40, part_size: 10, parts_len: 4 });
    let mut update = update_object(&store, "a", 13, 15).unwrap();
    let part = update.next_part().unwrap();
    assert_eq!(part, PartUpdate { parts_num: 1, head: 3, body: 7, tail: 0 });
    assert_eq!(update.next_key(), "a/1");
    assert_eq!(part.head_range(), Some("bytes=0-2".to_string()));
    assert_eq!(part.tail_range(), None);
    update.part_uploaded();
    let part = update.next_part().unwrap();
    assert_eq!(part, PartUpdate { parts_num: 2, head: 0, body: 8, tail: 2 });
    assert_eq!(part.head_range(), None);
    assert_eq!(part.tail_range(), Some("bytes=8-9".to_string()));
    update.part_uploaded();
    assert_eq!(update.next_part(), None);
    let inside = update_object(&store, "a", 2, 3).unwrap().next_part().unwrap();
    assert_eq!(inside, PartUpdate { parts_num: 0, head: 2, body: 3, tail: 5 });
    let nothing = update_object(&store, "a", 20, 0).unwrap().next_part().unwrap();
    assert_eq!(nothing, PartUpdate { parts_num: 2, head: 0, body: 0, tail: 10 });
    let error = update_object(&store, "b", 0, 1).unwrap_err();
    assert_eq!(error, S3Error::NotFound { key: "b".to_string() });
}

#[test]
fn the_datastore_keeps_the_last_object_of_a_key() {
    let obj = |key: &str, total_size: u64| Object {
        key: key.to_string(),
        total_size,
        part_size: 4,
        parts_len: 1,
    };
    let mut store = Datastore::new(None);
    assert_eq!(EMPTY_DATASTORE, "{}");
    assert!(store.entries().is_empty());
    assert!(!object_exist(&store, "a"));
    store.put(obj("a", 1));
    store.put(obj("b", 2));
    store.put(obj("a", 3));
    assert!(object_exist(&store, "a"));
    assert_eq!(store.get("a"), Some(obj("a", 3)));
    assert_eq!(store.get("b"), Some(obj("b", 2)));
    assert_eq!(store.get("c"), None);
    assert_eq!(store.entries().len(), 2);
}

#[test]
fn a_saved_datastore_is_restored_in_any_order() {
    let obj = |key: &str, total_size: u64| Object {
        key: key.to_string(),
        total_size,
        part_size: 4,
        parts_len: 1,
    };
    let mut store = Datastore::new(None);
    store.put(obj("a", 1));
    store.put(obj("b", 2));
    let mut saved: Vec<(String, Object)> = Vec::new();
    for (key, object) in store.entries() {
        saved.insert(0, (key.clone(), object.clone()));
    }
    let restored = Datastore::new(Some(saved));
    assert_eq!(restored.get("a"), store.get("a"));
    assert_eq!(restored.get("b"), store.get("b"));
    let twice = Datastore::new(Some(vec![
        ("a".to_string(), obj("a", 1)),
        ("a".to_string(), obj("a", 2)),
    ]));
    assert_eq!(twice.get("a"), Some(obj("a", 2)));
    assert_eq!(twice.entries().len(), 1);
}

#[test]
fn requests_are_signed_with_both_keys_only() {
    let mut config = S3Config {
        endpoint: "http://localhost".to_string(),
        bucket: "plots".to_string(),
        region: "r".to_string(),
        access_key: Some("a".to_string()),
        secret_key: None,
        part_size: 4,
    };
    assert_eq!(config.credentials(), None);
    config.secret_key = Some("s".to_string());
    assert_eq!(config.credentials(), Some(("a".to_string(), "s".to_string())));
    config.access_key = None;
    assert_eq!(config.credentials(), None);
    assert_eq!(config.clone(), config);
    assert_eq!(CONFIG_FILE, ".s3config");
    assert_eq!(DATASTORE_FILE, "datastore.json");
}
