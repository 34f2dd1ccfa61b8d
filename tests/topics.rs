use bettermq::codec::EnqueueRequest;
use bettermq::multi_queue::{
    has_substring, has_suffix, index_path, is_topic_dir_name, is_valid_topic_name,
    list_topics_from_dir, new, topic_path, MultiQueueSvc,
};
use bettermq::priority_queue::{AckRequest, DequeueRequest, NackRequest, QueueError};
use std::time::{SystemTime, UNIX_EPOCH};

fn scratch_dir(name: &str) -> String {
    let nanos = SystemTime::now().duration_since(UNIX_EPOCH).unwrap().as_nanos();
    format!("/tmp/bettermq_tests/{}_{}", name, nanos)
}

fn service(name: &str) -> MultiQueueSvc {
    new(scratch_dir(name), "n1".to_string(), vec![], vec![], 0).expect("service")
}

fn enqueue_to(svc: &mut MultiQueueSvc, topic: &str, meta: &str) -> Result<String, QueueError> {
    let req = EnqueueRequest { topic: topic.to_string(), payload: vec![1], meta: meta.to_string(), priority: 0, deliver_after: 0 };
    svc.enqueue(&req, 10).map(|r| r.message_id)
}

#[test]
fn topic_names_are_checked() {
    let mut svc = service("names");
    assert!(matches!(svc.create_topic(&String::new(), 0), Err(QueueError::InvalidArgument(_))));
    assert!(matches!(svc.create_topic(&"a_index".to_string(), 0), Err(QueueError::InvalidArgument(_))));
    assert!(matches!(svc.create_topic(&"x_gcy".to_string(), 0), Err(QueueError::InvalidArgument(_))));
    assert!(svc.create_topic(&"foo".to_string(), 0).is_ok());
    assert!(matches!(svc.create_topic(&"foo".to_string(), 0), Err(QueueError::AlreadyExists(_))));
    assert_eq!(svc.get_active_topics().len(), 1);
}

#[test]
fn name_helpers() {
    assert!(is_valid_topic_name("orders"));
    assert!(!is_valid_topic_name(""));
    assert!(!is_valid_topic_name("my_index_x"));
    assert!(!is_valid_topic_name("a_gc"));
    assert!(has_substring("abcabd", "abd"));
    assert!(!has_substring("ab", "abc"));
    assert!(has_substring("ab", ""));
    assert!(has_suffix("t_index", "_index"));
    assert!(!has_suffix("t_indexx", "_index"));
    assert!(is_topic_dir_name("orders"));
    assert!(!is_topic_dir_name("orders_index"));
    assert!(!is_topic_dir_name("orders_gc"));
    assert!(is_topic_dir_name("orders_gc_x"));
}

#[test]
fn listing_keeps_topic_directories_only() {
    let entries: Vec<String> = ["a", "a_index", "b_gc", "c", "b_gc_index"].iter().map(|s| s.to_string()).collect();
    assert_eq!(list_topics_from_dir(&entries), vec!["a".to_string(), "c".to_string()]);
}

#[test]
fn paths_of_a_topic() {
    assert_eq!(topic_path(&"/data".to_string(), &"t".to_string()), "/data/t");
    assert_eq!(index_path(&"/data".to_string(), &"t".to_string()), "/data/t_index");
}

#[test]
fn unknown_topic_is_not_found() {
    let mut svc = service("unknown");
    match enqueue_to(&mut svc, "nope", "m") {
        Err(QueueError::NotFound(m)) => assert_eq!(m, "nope"),
        _ => panic!("expected NotFound"),
    }
    let d = DequeueRequest { topic: "nope".to_string(), count: 1, lease_duration: 0 };
    assert!(matches!(svc.dequeue(&d, 0), Err(QueueError::NotFound(_))));
    let a = AckRequest { topic: "nope".to_string(), message_id: "1".to_string() };
    assert!(matches!(svc.ack(&a), Err(QueueError::NotFound(_))));
    let n = NackRequest { topic: "nope".to_string(), message_id: "1".to_string(), meta: String::new(), deliver_after: 0 };
    assert!(matches!(svc.nack(&n, 0), Err(QueueError::NotFound(_))));
}

#[test]
fn topics_are_isolated() {
    let mut svc = service("isolation");
    svc.create_topic(&"a".to_string(), 0).unwrap();
    svc.create_topic(&"b".to_string(), 0).unwrap();
    enqueue_to(&mut svc, "a", "a1").unwrap();
    enqueue_to(&mut svc, "a", "a2").unwrap();
    enqueue_to(&mut svc, "b", "b1").unwrap();
    let d = DequeueRequest { topic: "a".to_string(), count: 10, lease_duration: 0 };
    let items = svc.dequeue(&d, 20).unwrap().items;
    assert_eq!(items.len(), 2);
    let stats = svc.get_active_topics();
    let b = stats.iter().find(|s| s.topic == "b").unwrap();
    assert_eq!(b.ready_size, 1);
    let a = stats.iter().find(|s| s.topic == "a").unwrap();
    assert_eq!(a.ready_size, 0);
}

#[test]
fn removed_topic_is_gone() {
    let mut svc = service("remove");
    svc.create_topic(&"gone".to_string(), 0).unwrap();
    assert!(matches!(svc.remove_topic(&String::new()), Err(QueueError::InvalidArgument(_))));
    let mut q = svc.remove_topic(&"gone".to_string()).ok().expect("removed");
    q.stop();
    assert!(!q.tick(100));
    assert!(matches!(svc.remove_topic(&"gone".to_string()), Err(QueueError::NotFound(_))));
    assert!(matches!(enqueue_to(&mut svc, "gone", "m"), Err(QueueError::NotFound(_))));
}

#[test]
fn startup_opens_configured_and_listed_topics_once() {
    let dir = scratch_dir("startup");
    let svc = new(
        dir,
        "n1".to_string(),
        vec!["root".to_string(), "x".to_string()],
        vec!["x".to_string(), "x_index".to_string(), "y".to_string(), "z_gc".to_string()],
        0,
    )
    .expect("service");
    let names: Vec<String> = svc.get_active_topics().into_iter().map(|s| s.topic).collect();
    assert_eq!(names, vec!["root".to_string(), "x".to_string(), "y".to_string()]);
}

#[test]
fn tick_all_promotes_every_topic() {
    let mut svc = service("tick");
    svc.create_topic(&"a".to_string(), 0).unwrap();
    let req = EnqueueRequest { topic: "a".to_string(), payload: vec![], meta: "m".to_string(), priority: 0, deliver_after: 50 };
    svc.enqueue(&req, 100).unwrap();
    assert_eq!(svc.get_active_topics()[0].delayed_size, 1);
    svc.tick_all(150);
    assert_eq!(svc.get_active_topics()[0].ready_size, 1);
}
