use pgmq::engine::Pgmq;
use pgmq::error::QueueError;
use pgmq::message::{Message, MAX_TIMESTAMP};
use pgmq::name::is_valid_queue_name;
use pgmq::partition::{initial_partitioning, next_high_water, partition_of, Partitioning};
use pgmq::table::{delete_outcome, QueueTable};

fn text(s: &str) -> String {
    s.to_string()
}

fn ids(ms: &[Message]) -> Vec<i64> {
    ms.iter().map(|m| m.msg_id).collect()
}

#[test]
fn create_then_send_counts_one_row() {
    let mut q = Pgmq::new();
    assert_eq!(q.pgmq_create("q1", 100), Ok(()));
    assert_eq!(q.queue_length("q1"), Ok(0));
    assert_eq!(q.pgmq_send("q1", text("{\"x\":\"y\"}"), 100), Ok(1));
    assert_eq!(q.queue_length("q1"), Ok(1));
}

#[test]
fn read_hides_and_counts_without_deleting() {
    let mut q = Pgmq::new();
    q.pgmq_create("q1", 100).unwrap();
    q.pgmq_send("q1", text("{\"x\":\"y\"}"), 100).unwrap();
    let got = q.pgmq_read("q1", 10, 1, 100).unwrap();
    assert_eq!(got.len(), 1);
    assert_eq!(got[0].msg_id, 1);
    assert_eq!(got[0].read_ct, 1);
    assert_eq!(got[0].vt, 110);
    assert_eq!(got[0].enqueued_at, 100);
    assert_eq!(got[0].message, "{\"x\":\"y\"}");
    assert_eq!(q.queue_length("q1"), Ok(1));
    // hidden until the offset has passed
    assert_eq!(q.pgmq_pop("q1", 109).unwrap().len(), 0);
    let popped = q.pgmq_pop("q1", 110).unwrap();
    assert_eq!(popped.len(), 1);
    assert_eq!(popped[0].read_ct, 1);
    assert_eq!(q.queue_length("q1"), Ok(0));
}

#[test]
fn read_pop_delete_lifecycle() {
    let mut q = Pgmq::new();
    q.pgmq_create("q2", 0).unwrap();
    let id1 = q.pgmq_send("q2", text("{\"x\":1}"), 0).unwrap();
    let id2 = q.pgmq_send("q2", text("{\"x\":2}"), 0).unwrap();
    assert_eq!((id1, id2), (1, 2));
    let msg1 = q.pgmq_read("q2", 1, 1, 0).unwrap();
    let msg2 = q.pgmq_pop("q2", 0).unwrap();
    assert_eq!(ids(&msg1), vec![1]);
    assert_eq!(ids(&msg2), vec![2]);
    assert_eq!(msg2[0].read_ct, 0);
    let nothing = q.pgmq_read("q2", 2, 1, 0).unwrap();
    assert_eq!(nothing.len(), 0);
    assert_eq!(q.queue_length("q2"), Ok(1));
    assert_eq!(q.pgmq_delete("q2", id1), Ok(true));
    assert_eq!(q.pgmq_delete("q2", id1), Ok(false));
    assert_eq!(q.queue_length("q2"), Ok(0));
}

#[test]
fn partitioned_queue_rotates_and_behaves_alike() {
    let mut q = Pgmq::new();
    q.pgmq_create_partitioned("pq", 2, 0).unwrap();
    assert_eq!(q.queue_partitioning("pq"), Ok(Some(Partitioning { size: 2, high_water: 4 })));
    assert_eq!(q.pgmq_send("pq", text("1"), 0), Ok(1));
    assert_eq!(q.pgmq_send("pq", text("2"), 0), Ok(2));
    assert_eq!(q.queue_partitioning("pq"), Ok(Some(Partitioning { size: 2, high_water: 4 })));
    assert_eq!(q.pgmq_send("pq", text("3"), 0), Ok(3));
    assert_eq!(q.queue_partitioning("pq"), Ok(Some(Partitioning { size: 2, high_water: 6 })));
    assert_eq!(partition_of(3, 2), 1);
    assert_eq!(ids(&q.pgmq_read("pq", 5, 1, 0).unwrap()), vec![1]);
    assert_eq!(ids(&q.pgmq_pop("pq", 0).unwrap()), vec![2]);
    assert_eq!(ids(&q.pgmq_pop("pq", 0).unwrap()), vec![3]);
    assert_eq!(q.pgmq_delete("pq", 1), Ok(true));
    assert_eq!(q.queue_length("pq"), Ok(0));
}

#[test]
fn list_queues_in_creation_order() {
    let mut q = Pgmq::new();
    assert_eq!(q.pgmq_list_queues().len(), 0);
    q.pgmq_create("first", 5).unwrap();
    q.pgmq_create_partitioned("second", 10000, 7).unwrap();
    assert_eq!(q.pgmq_list_queues(), vec![(text("first"), 5), (text("second"), 7)]);
    assert_eq!(q.queue_partitioning("first"), Ok(None));
}

#[test]
fn create_errors() {
    let mut q = Pgmq::new();
    q.pgmq_create("dup", 0).unwrap();
    assert_eq!(q.pgmq_create("dup", 0), Err(QueueError::DuplicateQueue));
    assert_eq!(q.pgmq_create_partitioned("dup", 5, 0), Err(QueueError::DuplicateQueue));
    assert_eq!(q.pgmq_create("Bad-Name", 0), Err(QueueError::InvalidQueueName));
    assert_eq!(q.pgmq_create("", 0), Err(QueueError::InvalidQueueName));
    assert_eq!(q.pgmq_create_partitioned("../x", 5, 0), Err(QueueError::InvalidQueueName));
    assert_eq!(q.pgmq_create_partitioned("p", 0, 0), Err(QueueError::InvalidPartitionSize));
    assert_eq!(q.pgmq_list_queues().len(), 1);
}

#[test]
fn missing_queue_errors() {
    let mut q = Pgmq::new();
    assert_eq!(q.pgmq_send("nope", text("1"), 0), Err(QueueError::QueueNotFound));
    assert_eq!(q.pgmq_read("nope", 1, 1, 0), Err(QueueError::QueueNotFound));
    assert_eq!(q.pgmq_pop("nope", 0), Err(QueueError::QueueNotFound));
    assert_eq!(q.pgmq_delete("nope", 1), Err(QueueError::QueueNotFound));
    assert_eq!(q.queue_length("nope"), Err(QueueError::QueueNotFound));
}

#[test]
fn ids_increase_and_never_repeat() {
    let mut q = Pgmq::new();
    q.pgmq_create("m", 0).unwrap();
    let mut last = 0;
    for k in 0..20 {
        let id = q.pgmq_send("m", format!("{}", k), k).unwrap();
        assert!(id > last);
        last = id;
        if k % 3 == 0 {
            q.pgmq_pop("m", k).unwrap();
        }
    }
    assert_eq!(last, 20);
}

#[test]
fn overlapping_claims_are_disjoint() {
    let mut t = QueueTable::new();
    for k in 0..5 {
        t.enqueue(format!("{}", k), 0).unwrap();
    }
    let a = t.read(30, 2, 0);
    let b = t.read(30, 10, 10);
    assert_eq!(ids(&a), vec![1, 2]);
    assert_eq!(ids(&b), vec![3, 4, 5]);
    assert_eq!(t.read(30, 10, 29).len(), 0);
    let again = t.read(30, 10, 30);
    assert_eq!(ids(&again), vec![1, 2]);
    assert_eq!(again[0].read_ct, 2);
}

#[test]
fn read_with_no_room_or_nothing_visible() {
    let mut t = QueueTable::new();
    t.enqueue(text("a"), 50).unwrap();
    assert_eq!(t.read(10, 0, 50).len(), 0);
    assert_eq!(t.read(10, -3, 50).len(), 0);
    assert_eq!(t.read(10, 5, 49).len(), 0);
    assert_eq!(t.pop(5, 49).len(), 0);
    assert_eq!(t.len(), 1);
    let negative = t.read(-20, 1, MAX_TIMESTAMP);
    assert_eq!(negative[0].vt, MAX_TIMESTAMP - 20);
}

#[test]
fn popped_message_cannot_be_found_again() {
    let mut t = QueueTable::new();
    let id = t.enqueue(text("p"), 0).unwrap();
    let out = t.pop(1, 0);
    assert_eq!(ids(&out), vec![id]);
    assert_eq!(t.read(0, 10, 100).len(), 0);
    assert_eq!(t.pop(10, 100).len(), 0);
    assert_eq!(t.delete(id), Ok(false));
}

#[test]
fn delete_twice() {
    let mut t = QueueTable::new();
    t.enqueue(text("a"), 0).unwrap();
    t.enqueue(text("b"), 0).unwrap();
    assert_eq!(t.delete(1), Ok(true));
    assert_eq!(t.delete(1), Ok(false));
    assert_eq!(t.delete(7), Ok(false));
    assert_eq!(t.len(), 1);
    assert_eq!(ids(&t.pop(5, 0)), vec![2]);
}

#[test]
fn round_trip_keeps_payload() {
    let mut t = QueueTable::new();
    let id = t.enqueue(text("{\"k\":[1,2]}"), 3).unwrap();
    let out = t.pop(1, 3);
    assert_eq!(out.len(), 1);
    assert_eq!(out[0].msg_id, id);
    assert_eq!(out[0].message, "{\"k\":[1,2]}");
    assert_eq!(out[0].read_ct, 0);
    assert_eq!(out[0].enqueued_at, 3);
    assert_eq!(t.len(), 0);
}

#[test]
fn send_json_stores_compact_text() {
    let mut q = Pgmq::new();
    q.pgmq_create("j", 0).unwrap();
    let mut map = serde_json::Map::new();
    map.insert(text("x"), serde_json::Value::String(text("y")));
    let v = serde_json::Value::Object(map);
    assert_eq!(q.pgmq_send_json("j", &v, 0), Ok(1));
    assert_eq!(q.pgmq_send_json("none", &v, 0), Err(QueueError::QueueNotFound));
    let out = q.pgmq_pop("j", 0).unwrap();
    assert_eq!(out[0].message, "{\"x\":\"y\"}");
}

#[test]
fn queue_names() {
    assert!(is_valid_queue_name("test_queue"));
    assert!(is_valid_queue_name("_q9"));
    assert!(!is_valid_queue_name("9q"));
    assert!(!is_valid_queue_name("a b"));
    assert!(!is_valid_queue_name("Upper"));
    assert!(is_valid_queue_name(&"a".repeat(47)));
    assert!(!is_valid_queue_name(&"a".repeat(48)));
}

#[test]
fn partition_policy_values() {
    assert_eq!(partition_of(1, 10000), 0);
    assert_eq!(partition_of(10000, 10000), 0);
    assert_eq!(partition_of(10001, 10000), 1);
    let p = initial_partitioning(10);
    assert_eq!(p, Partitioning { size: 10, high_water: 20 });
    assert_eq!(next_high_water(10, p), 20);
    assert_eq!(next_high_water(11, p), 30);
    let big = initial_partitioning(i64::MAX);
    assert_eq!(big.high_water, i64::MAX);
    assert_eq!(next_high_water(1, big), i64::MAX);
}

#[test]
fn partition_unavailable_when_range_cannot_grow() {
    let mut t = QueueTable::new_partitioned(i64::MAX / 2 + 1);
    assert_eq!(t.partitioning().unwrap().high_water, i64::MAX);
    assert_eq!(t.enqueue(text("a"), 0), Ok(1));
}

#[test]
fn delete_outcome_by_row_count() {
    assert_eq!(delete_outcome(0), Ok(false));
    assert_eq!(delete_outcome(1), Ok(true));
    assert_eq!(delete_outcome(2), Err(QueueError::InconsistentRows));
}

#[test]
fn partitioned_lifecycle() {
    let mut q = Pgmq::new();
    q.pgmq_create_partitioned("test_internal", 2, 0).unwrap();
    assert_eq!(q.pgmq_list_queues().len(), 1);
    let msg_id1 = q.pgmq_send("test_internal", text("{\"x\":1}"), 0).unwrap();
    let msg_id2 = q.pgmq_send("test_internal", text("{\"x\":2}"), 0).unwrap();
    assert_eq!(msg_id1, 1);
    assert_eq!(msg_id2, 2);
    let msg1 = q.pgmq_read("test_internal", 1, 1, 0).unwrap();
    let msg2 = q.pgmq_pop("test_internal", 0).unwrap();
    assert_eq!(msg1.len(), 1);
    assert_eq!(msg2.len(), 1);
    assert_eq!(msg1[0].msg_id, msg_id1);
    assert_eq!(msg2[0].msg_id, msg_id2);
    let nothing = q.pgmq_read("test_internal", 2, 1, 0).unwrap();
    assert_eq!(nothing.len(), 0);
    assert_eq!(q.queue_length("test_internal"), Ok(1));
    assert_eq!(q.pgmq_delete("test_internal", msg_id1), Ok(true));
    assert_eq!(q.pgmq_delete("test_internal", msg_id1), Ok(false));
    assert_eq!(q.queue_length("test_internal"), Ok(0));
}

#[test]
fn duplicate_partitioned_name_wins_over_size() {
    let mut q = Pgmq::new();
    q.pgmq_create("taken", 0).unwrap();
    assert_eq!(q.pgmq_create_partitioned("taken", 0, 0), Err(QueueError::DuplicateQueue));
    assert_eq!(q.pgmq_create_partitioned("taken", -5, 0), Err(QueueError::DuplicateQueue));
    assert_eq!(q.pgmq_create_partitioned("free", 0, 0), Err(QueueError::InvalidPartitionSize));
}
