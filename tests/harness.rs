use wasm_tracing::error::Error;
use wasm_tracing::message::WorkerMessage;
use wasm_tracing::mutex::{finish_lock, finish_unlock, join_thread, spawn_thread, start_lock};
use wasm_tracing::thread::{thread_id, ThreadIds, ThreadInternals, WorkRegistry};
use wasm_tracing::tracing::{
    self, add_event, aquire_hook, fork_hook, generate_binary_trace, join_hook, read_hook,
    release_hook, request_hook, write_hook, Event, Op, TraceBuffer, UNASSIGNED_THREAD,
};
use wasm_tracing::url::get_bindgen_url;

#[test]
fn thread_ids_are_handed_out_in_order_and_memorized() {
    let mut ids = ThreadIds::new();
    let mut main_slot: Option<u32> = None;
    let mut worker_slot: Option<u32> = None;
    assert_eq!(thread_id(&mut main_slot, &mut ids), Some(0));
    assert_eq!(thread_id(&mut worker_slot, &mut ids), Some(1));
    assert_eq!(thread_id(&mut main_slot, &mut ids), Some(0));
    assert_eq!(main_slot, Some(0));
    assert_eq!(worker_slot, Some(1));
    assert_eq!(ids.next_available_thread_id(), Some(2));
}

#[test]
fn unassigned_thread_is_tagged_with_the_sentinel() {
    assert_eq!(tracing::thread_id(None), u32::MAX);
    assert_eq!(tracing::thread_id(Some(4)), 4);
    assert_eq!(UNASSIGNED_THREAD, u32::MAX);
}

#[test]
fn join_returns_exactly_the_written_outcome() {
    let mut internals: ThreadInternals<Result<u32, String>> = ThreadInternals::new(3);
    assert_eq!(internals.tid(), 3);
    assert!(!internals.is_finished());
    assert_eq!(internals.take_result(), None);
    internals.set_result(Ok(42));
    assert!(internals.is_finished());
    assert_eq!(internals.take_result(), Some(Ok(42)));
    assert_eq!(internals.take_result(), None);
    assert!(!internals.is_finished());
}

#[test]
fn join_returns_a_failed_outcome_without_aborting() {
    let mut internals: ThreadInternals<Result<u32, String>> = ThreadInternals::new(0);
    internals.set_result(Err(String::from("worker panicked")));
    assert_eq!(internals.take_result(), Some(Err(String::from("worker panicked"))));
}

#[test]
fn registry_take_is_one_shot_and_ids_are_reused_lifo() {
    let mut registry: WorkRegistry<&str> = WorkRegistry::new();
    let a = registry.insert("a");
    let b = registry.insert("b");
    let c = registry.insert("c");
    assert_eq!((a, b, c), (0, 1, 2));
    assert_eq!(registry.take(b), Some("b"));
    assert_eq!(registry.take(b), None);
    assert_eq!(registry.take(a), Some("a"));
    assert_eq!(registry.take(99), None);
    // Most recently freed first.
    assert_eq!(registry.insert("d"), a);
    assert_eq!(registry.insert("e"), b);
    assert_eq!(registry.insert("f"), 3);
    assert_eq!(registry.take(a), Some("d"));
    assert_eq!(registry.take(c), Some("c"));
}

#[test]
fn lock_hooks_bracket_each_acquisition() {
    let mut trace = TraceBuffer::new();
    // Two threads contend for lock 9: both request, thread 1 gets it first.
    start_lock(&mut trace, 1, 9);
    start_lock(&mut trace, 2, 9);
    finish_lock(&mut trace, 1, 9);
    finish_unlock(&mut trace, 1, 9);
    finish_lock(&mut trace, 2, 9);
    finish_unlock(&mut trace, 2, 9);
    let events = trace.events().clone();
    let requests: Vec<usize> = (0..events.len())
        .filter(|&i| events[i].op == Op::Request { lock: 9 })
        .collect();
    let acquires: Vec<usize> = (0..events.len())
        .filter(|&i| events[i].op == Op::Aquire { lock: 9 })
        .collect();
    assert_eq!(requests.len(), 2);
    assert_eq!(acquires.len(), 2);
    for &a in &acquires {
        let own = requests.iter().find(|&&r| events[r].t == events[a].t).unwrap();
        assert!(*own < a);
    }
    assert_eq!(events[3], Event { t: 1, op: Op::Release { lock: 9 }, loc: (0, 0) });
}

#[test]
fn capture_api_appends_in_order() {
    let mut trace = TraceBuffer::new();
    read_hook(&mut trace, 0, 100, 4, 1, 2);
    write_hook(&mut trace, 0, 100, 4, 1, 3);
    aquire_hook(&mut trace, 0, 7, 1, 4);
    request_hook(&mut trace, 0, 7, 1, 5);
    release_hook(&mut trace, 0, 7, 1, 6);
    fork_hook(&mut trace, 0, 1, 1, 7);
    join_hook(&mut trace, 0, 1, 1, 8);
    add_event(&mut trace, 1, Op::Read { addr: 1, n: 1 }, (9, 9));
    spawn_thread(&mut trace, 0, 2);
    join_thread(&mut trace, 0, 2);
    assert_eq!(trace.len(), 10);
    let ops: Vec<Op> = trace.events().iter().map(|e| e.op).collect();
    assert_eq!(
        ops,
        vec![
            Op::Read { addr: 100, n: 4 },
            Op::Write { addr: 100, n: 4 },
            Op::Aquire { lock: 7 },
            Op::Request { lock: 7 },
            Op::Release { lock: 7 },
            Op::Fork { tid: 1 },
            Op::Join { tid: 1 },
            Op::Read { addr: 1, n: 1 },
            Op::Fork { tid: 2 },
            Op::Join { tid: 2 },
        ]
    );
    assert_eq!(trace.events()[7], Event { t: 1, op: Op::Read { addr: 1, n: 1 }, loc: (9, 9) });
    assert_eq!(trace.events()[0].loc, (1, 2));
    let ids: Vec<u8> = ops.iter().map(|op| op.id()).collect();
    assert_eq!(ids, vec![2, 3, 0, 8, 1, 4, 5, 2, 4, 5]);
    let bytes = generate_binary_trace(&trace).unwrap();
    assert_eq!(bytes.len(), 18 + 8 * 10);
    assert_eq!(&bytes[0..2], &[0, 3]);
}

#[test]
fn worker_messages_round_trip_through_their_tags() {
    assert_eq!(WorkerMessage::Init { task: 5 }.kind(), "init");
    assert_eq!(WorkerMessage::Close.kind(), "close");
    assert_eq!(WorkerMessage::Url { url: String::from("blob:x") }.kind(), "url");
    assert!(matches!(
        WorkerMessage::from_kind("init", Some(5), None),
        Ok(WorkerMessage::Init { task: 5 })
    ));
    assert!(matches!(WorkerMessage::from_kind("close", None, None), Ok(WorkerMessage::Close)));
    match WorkerMessage::from_kind("url", None, Some(String::from("blob:x"))) {
        Ok(WorkerMessage::Url { url }) => assert_eq!(url, "blob:x"),
        _ => panic!("expected a url message"),
    }
    assert_eq!(
        WorkerMessage::from_kind("init", None, None).err(),
        Some(Error::MissingField(String::from("task")))
    );
    assert_eq!(
        WorkerMessage::from_kind("url", None, None).err(),
        Some(Error::MissingField(String::from("url")))
    );
    assert_eq!(
        WorkerMessage::from_kind("launch", Some(1), None).err(),
        Some(Error::UnknownMessage(String::from("launch")))
    );
}

#[test]
fn error_messages() {
    assert_eq!(Error::JsError(String::from("boom")).message(), "boom");
    assert_eq!(Error::InvalidHandle(String::from("gone")).message(), "gone");
    assert_eq!(
        Error::UnknownMessage(String::from("x")).message(),
        "unknown worker message type: x"
    );
    assert_eq!(
        Error::MissingField(String::from("task")).message(),
        "worker message lacks field: task"
    );
}

#[test]
fn bindgen_url_defaults_to_index_js() {
    assert_eq!(
        get_bindgen_url(String::from("https://example.org"), None),
        "https://example.org/index.js"
    );
    assert_eq!(
        get_bindgen_url(String::from("https://example.org"), Some("/pkg/app.js")),
        "https://example.org/pkg/app.js"
    );
}
