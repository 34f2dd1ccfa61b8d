use bettermq::codec::{encode_request, EnqueueRequest};
use bettermq::kv::{new_kvstore, DbKind, KvError, KvStore};
use bettermq::worker::TaskItem;
use bettermq::priority_queue::{
    hydrate, hydrate_all, make_one_queue, nack_record, AckRequest, DequeueRequest, NackRequest, PriorityQueueSvc, QueueError,
};
use std::time::{SystemTime, UNIX_EPOCH};

fn scratch_dir(name: &str) -> String {
    let nanos = SystemTime::now().duration_since(UNIX_EPOCH).unwrap().as_nanos();
    format!("/tmp/bettermq_tests/{}_{}", name, nanos)
}

fn open_stores(dir: &str) -> (KvStore, KvStore) {
    let m = new_kvstore(DbKind::SLED, format!("{}/t", dir)).expect("message store");
    let i = new_kvstore(DbKind::SLED, format!("{}/t_index", dir)).expect("index store");
    (m, i)
}

fn open_queue(dir: &str, now: u64) -> PriorityQueueSvc {
    let (m, i) = open_stores(dir);
    make_one_queue(m, i, &"n1".to_string(), &"t".to_string(), now).expect("queue opens")
}

fn enq(q: &mut PriorityQueueSvc, meta: &str, priority: i32, after: u32, now: u64) -> String {
    let req = EnqueueRequest {
        topic: "t".to_string(),
        payload: meta.as_bytes().to_vec(),
        meta: meta.to_string(),
        priority,
        deliver_after: after,
    };
    q.enqueue(&req, now).expect("enqueue").message_id
}

fn deq(q: &mut PriorityQueueSvc, count: i32, lease: i32, now: u64) -> Vec<String> {
    let req = DequeueRequest { topic: "t".to_string(), count, lease_duration: lease };
    q.dequeue(&req, now).expect("dequeue").items.into_iter().map(|i| i.meta).collect()
}

fn ack(q: &mut PriorityQueueSvc, id: &str) -> Result<(), QueueError> {
    q.ack(&AckRequest { topic: "t".to_string(), message_id: id.to_string() })
}

#[test]
fn store_keeps_and_lists_entries() {
    let dir = scratch_dir("store");
    let (mut m, _i) = open_stores(&dir);
    assert!(matches!(m.get(&vec![1]), Err(KvError::NotFound(_))));
    assert!(matches!(m.max_key(), Err(KvError::NotFound(_))));
    for k in [vec![3u8], vec![1u8], vec![2u8, 0u8], vec![2u8], vec![9u8]] {
        m.set(&k, vec![k[0] * 10]).unwrap();
    }
    assert_eq!(m.get(&vec![2, 0]).unwrap(), vec![20]);
    assert_eq!(m.max_key().unwrap(), vec![9]);
    let mut items = Vec::new();
    m.scan(&vec![2], &vec![9], 10, &mut items).unwrap();
    let keys: Vec<Vec<u8>> = items.iter().map(|p| p.0.clone()).collect();
    assert_eq!(keys, vec![vec![2], vec![2, 0], vec![3]]);
    let mut page = Vec::new();
    m.scan(&vec![0], &vec![255], 2, &mut page).unwrap();
    assert_eq!(page.len(), 2);
    let mut none = Vec::new();
    m.scan(&vec![0], &vec![255], 0, &mut none).unwrap();
    assert_eq!(none.len(), 0);
    m.remove(&vec![9]).unwrap();
    m.remove(&vec![9]).unwrap();
    assert_eq!(m.max_key().unwrap(), vec![3]);
}

#[test]
fn rocksdb_backend_is_refused() {
    assert!(matches!(new_kvstore(DbKind::ROCKSDB, scratch_dir("rocks")), Err(KvError::IoError(_))));
}

#[test]
fn scenario_priority_delay_lease_and_removal() {
    let dir = scratch_dir("scenario");
    let mut q = open_queue(&dir, 0);
    let t0 = 1_000_000u64;
    enq(&mut q, "r1", 1, 0, t0);
    enq(&mut q, "r2", 0, 0, t0);
    enq(&mut q, "r3", 1, 0, t0);
    enq(&mut q, "r4", -1, 2000, t0);
    assert_eq!(deq(&mut q, 4, 0, t0), vec!["r2", "r1", "r3"]);

    let t1 = t0 + 2100;
    q.tick(t1);
    assert_eq!(deq(&mut q, 1, 5000, t1), vec!["r4"]);

    let t2 = t1 + 5100;
    q.tick(t2);
    assert_eq!(deq(&mut q, 1, 0, t2), vec!["r4"]);

    let t3 = t2 + 5100;
    q.tick(t3);
    assert_eq!(deq(&mut q, 1, 0, t3).len(), 0);
}

#[test]
fn enqueue_replies_with_decimal_ids_and_node() {
    let dir = scratch_dir("ids");
    let mut q = open_queue(&dir, 0);
    let req = EnqueueRequest { topic: "t".to_string(), payload: vec![1], meta: String::new(), priority: 0, deliver_after: 0 };
    let a = q.enqueue(&req, 5).unwrap();
    let b = q.enqueue(&req, 5).unwrap();
    assert_eq!(a.message_id, "1");
    assert_eq!(b.message_id, "2");
    assert_eq!(a.node_id, "n1");
}

#[test]
fn dequeue_returns_payload_meta_priority_and_id() {
    let dir = scratch_dir("items");
    let mut q = open_queue(&dir, 0);
    let req = EnqueueRequest { topic: "t".to_string(), payload: vec![9, 8, 7], meta: "m".to_string(), priority: 5, deliver_after: 0 };
    let id = q.enqueue(&req, 10).unwrap().message_id;
    let items = q.dequeue(&DequeueRequest { topic: "t".to_string(), count: 1, lease_duration: 0 }, 10).unwrap().items;
    assert_eq!(items.len(), 1);
    assert_eq!(items[0].message_id, id);
    assert_eq!(items[0].payload, vec![9, 8, 7]);
    assert_eq!(items[0].meta, "m");
    assert_eq!(items[0].priority, 5);
}

#[test]
fn lease_expiry_redelivers_the_same_message() {
    let dir = scratch_dir("lease");
    let mut q = open_queue(&dir, 0);
    let id = enq(&mut q, "x", 2, 0, 100);
    let first = q.dequeue(&DequeueRequest { topic: "t".to_string(), count: 1, lease_duration: 300 }, 100).unwrap().items;
    assert_eq!(first[0].message_id, id);
    q.tick(399);
    assert_eq!(deq(&mut q, 1, 0, 399).len(), 0);
    q.tick(400);
    let again = q.dequeue(&DequeueRequest { topic: "t".to_string(), count: 1, lease_duration: 0 }, 400).unwrap().items;
    assert_eq!(again[0].message_id, id);
    assert_eq!(again[0].payload, first[0].payload);
    assert_eq!(again[0].meta, first[0].meta);
    assert_eq!(again[0].priority, first[0].priority);
}

#[test]
fn ack_is_final() {
    let dir = scratch_dir("ack");
    let mut q = open_queue(&dir, 0);
    let id = enq(&mut q, "x", 0, 0, 100);
    let other = enq(&mut q, "y", 1, 0, 100);
    assert!(matches!(ack(&mut q, &other), Err(QueueError::NotFound(_))));
    assert_eq!(deq(&mut q, 1, 1000, 100), vec!["x"]);
    assert!(ack(&mut q, &id).is_ok());
    assert!(matches!(ack(&mut q, &id), Err(QueueError::NotFound(_))));
    assert!(matches!(ack(&mut q, "not-a-number"), Err(QueueError::NotFound(_))));
    q.tick(5000);
    assert_eq!(deq(&mut q, 10, 0, 5000), vec!["y"]);
    assert_eq!(q.get_stats().ready_size, 0);
    assert_eq!(q.get_stats().delayed_size, 0);
}

#[test]
fn nack_keeps_payload_and_takes_new_meta_and_delay() {
    let dir = scratch_dir("nack");
    let mut q = open_queue(&dir, 0);
    let id = enq(&mut q, "old", 3, 0, 100);
    let got = q.dequeue(&DequeueRequest { topic: "t".to_string(), count: 1, lease_duration: 1000 }, 100).unwrap().items;
    let payload = got[0].payload.clone();
    let nack = NackRequest { topic: "t".to_string(), message_id: id.clone(), meta: "new".to_string(), deliver_after: 500 };
    assert!(q.nack(&nack, 200).is_ok());
    q.tick(699);
    assert_eq!(deq(&mut q, 1, 0, 699).len(), 0);
    q.tick(700);
    let items = q.dequeue(&DequeueRequest { topic: "t".to_string(), count: 1, lease_duration: 1000 }, 700).unwrap().items;
    assert_eq!(items[0].message_id, id);
    assert_eq!(items[0].payload, payload);
    assert_eq!(items[0].meta, "new");
    assert_eq!(items[0].priority, 3);
    let keep = NackRequest { topic: "t".to_string(), message_id: id.clone(), meta: String::new(), deliver_after: 0 };
    assert!(q.nack(&keep, 800).is_ok());
    assert_eq!(deq(&mut q, 1, 0, 800), vec!["new"]);
}

#[test]
fn nack_of_unknown_message_is_not_found() {
    let dir = scratch_dir("nack_missing");
    let mut q = open_queue(&dir, 0);
    let nack = NackRequest { topic: "t".to_string(), message_id: "77".to_string(), meta: String::new(), deliver_after: 0 };
    assert!(matches!(q.nack(&nack, 1), Err(QueueError::NotFound(_))));
    let bad = NackRequest { topic: "t".to_string(), message_id: "x".to_string(), meta: String::new(), deliver_after: 0 };
    assert!(matches!(q.nack(&bad, 1), Err(QueueError::NotFound(_))));
}

#[test]
fn restart_keeps_messages_order_and_sequence() {
    let dir = scratch_dir("restart");
    let largest;
    {
        let mut q = open_queue(&dir, 0);
        enq(&mut q, "a", 2, 0, 100);
        enq(&mut q, "b", 1, 0, 100);
        largest = enq(&mut q, "c", 1, 0, 100).parse::<u64>().unwrap();
    }
    let mut q = open_queue(&dir, 200);
    assert_eq!(q.get_stats().ready_size, 3);
    let next = enq(&mut q, "d", 9, 0, 300).parse::<u64>().unwrap();
    assert!(next > largest);
    assert_eq!(deq(&mut q, 3, 0, 300), vec!["b", "c", "a"]);
}

#[test]
fn restart_after_acking_the_latest_keeps_the_counter() {
    let dir = scratch_dir("restart_ack");
    let last;
    {
        let mut q = open_queue(&dir, 0);
        enq(&mut q, "a", 0, 0, 100);
        last = enq(&mut q, "b", 1, 0, 100);
        assert_eq!(deq(&mut q, 2, 0, 100), vec!["a", "b"]);
    }
    let mut q = open_queue(&dir, 200);
    assert_eq!(q.get_stats().ready_size, 0);
    let next = enq(&mut q, "c", 0, 0, 300);
    assert!(next.parse::<u64>().unwrap() > last.parse::<u64>().unwrap());
}

#[test]
fn delayed_message_survives_restart() {
    let dir = scratch_dir("restart_delay");
    {
        let mut q = open_queue(&dir, 0);
        enq(&mut q, "later", 0, 1000, 100);
    }
    let mut q = open_queue(&dir, 500);
    assert_eq!(q.get_stats().delayed_size, 1);
    q.tick(1100);
    assert_eq!(deq(&mut q, 1, 0, 1100), vec!["later"]);
}

#[test]
fn exhausted_sequence_is_an_unknown_error() {
    let dir = scratch_dir("exhausted");
    let (mut m, i) = open_stores(&dir);
    m.set(&vec![255u8; 8], vec![]).unwrap();
    let mut q = make_one_queue(m, i, &"n1".to_string(), &"t".to_string(), 0).expect("queue opens");
    let req = EnqueueRequest { topic: "t".to_string(), payload: vec![], meta: String::new(), priority: 0, deliver_after: 0 };
    assert!(matches!(q.enqueue(&req, 1), Err(QueueError::Unknown(_))));
}

#[test]
fn counter_continues_from_the_greatest_key() {
    let dir = scratch_dir("counter");
    let (mut m, i) = open_stores(&dir);
    m.set(&41u64.to_be_bytes().to_vec(), vec![]).unwrap();
    m.set(&7u64.to_be_bytes().to_vec(), vec![]).unwrap();
    let mut q = make_one_queue(m, i, &"n1".to_string(), &"t".to_string(), 0).expect("queue opens");
    assert_eq!(enq(&mut q, "x", 0, 0, 1), "42");
}

#[test]
fn malformed_stores_fail_to_open() {
    let dir = scratch_dir("malformed_key");
    let (mut m, i) = open_stores(&dir);
    m.set(&vec![1u8], vec![]).unwrap();
    assert!(make_one_queue(m, i, &"n1".to_string(), &"t".to_string(), 0).is_err());

    let dir2 = scratch_dir("malformed_index");
    let (m2, mut i2) = open_stores(&dir2);
    i2.set(&5u64.to_be_bytes().to_vec(), vec![1, 2, 3]).unwrap();
    assert!(make_one_queue(m2, i2, &"n1".to_string(), &"t".to_string(), 0).is_err());
}

#[test]
fn recovery_reads_more_than_one_page() {
    let dir = scratch_dir("pages");
    {
        let mut q = open_queue(&dir, 0);
        for n in 0..250 {
            enq(&mut q, &format!("m{}", n), 0, 0, 10);
        }
    }
    let q = open_queue(&dir, 20);
    assert_eq!(q.get_stats().ready_size, 250);
}

#[test]
fn clock_reads_milliseconds_since_the_epoch() {
    let t = bettermq::utils::timestamp();
    assert!(t > 1_600_000_000_000);
    assert!(bettermq::utils::timestamp() >= t);
}

#[test]
fn hydrate_reads_stored_records_only() {
    let key = 12u64.to_be_bytes().to_vec();
    let req = EnqueueRequest { topic: "t".to_string(), payload: vec![4, 5], meta: "m".to_string(), priority: -2, deliver_after: 0 };
    let item = hydrate(&key, &Ok(encode_request(&req))).expect("hydrates");
    assert_eq!(item.message_id, "12");
    assert_eq!(item.payload, vec![4, 5]);
    assert_eq!(item.meta, "m");
    assert_eq!(item.priority, -2);
    assert!(hydrate(&key, &Ok(vec![1, 2])).is_none());
    assert!(hydrate(&key, &Err(KvError::IoError("down".to_string()))).is_none());
    assert!(hydrate(&key, &Err(KvError::NotFound("gone".to_string()))).is_none());
}

#[test]
fn nack_record_from_each_read_outcome() {
    let req = EnqueueRequest { topic: "t".to_string(), payload: vec![7], meta: "old".to_string(), priority: 4, deliver_after: 10 };
    let bytes = encode_request(&req);
    let x = nack_record(Ok(bytes.clone()), &"new".to_string(), 99).ok().expect("record");
    assert_eq!(x.payload, vec![7]);
    assert_eq!(x.meta, "new");
    assert_eq!(x.priority, 4);
    assert_eq!(x.deliver_after, 99);
    let y = nack_record(Ok(bytes), &String::new(), 5).ok().expect("record");
    assert_eq!(y.meta, "old");
    assert!(matches!(nack_record(Err(KvError::NotFound("x".to_string())), &String::new(), 0), Err(QueueError::NotFound(_))));
    assert!(matches!(nack_record(Err(KvError::IoError("x".to_string())), &String::new(), 0), Err(QueueError::Unknown(_))));
    assert!(matches!(nack_record(Ok(vec![1, 2, 3]), &String::new(), 0), Err(QueueError::Unknown(_))));
}

#[test]
fn hydrate_all_keeps_every_readable_record_in_order() {
    let tasks: Vec<TaskItem> = (1..=4u64)
        .map(|n| TaskItem { priority: 0, timestamp: 0, message_id: n.to_be_bytes().to_vec() })
        .collect();
    let rec = |m: &str| {
        encode_request(&EnqueueRequest { topic: "t".to_string(), payload: vec![1], meta: m.to_string(), priority: 0, deliver_after: 0 })
    };
    let reads = vec![
        Ok(rec("a")),
        Err(KvError::IoError("down".to_string())),
        Ok(vec![9, 9]),
        Ok(rec("d")),
    ];
    let items = hydrate_all(&tasks, &reads);
    let got: Vec<(String, String)> = items.into_iter().map(|i| (i.message_id, i.meta)).collect();
    assert_eq!(got, vec![("1".to_string(), "a".to_string()), ("4".to_string(), "d".to_string())]);
}
