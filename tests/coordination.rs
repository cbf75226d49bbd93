use distsort::protocol::{
    decode_frame, declared_len, encode_frame, handle_message, is_sorted_chunk, FrameError,
    HandlerAction,
};
use distsort::queue::TaskQueue;
use std::sync::{Arc, Mutex};
use distsort::record::{Message, StudentRanking};
use distsort::worker::{
    after_connect_attempt, is_finished, task_result, worker_step, ConnectStep, WorkerEvent,
    WorkerState, BACKOFF_MS, CONNECT_ATTEMPTS,
};

fn rec(id: &str, year: i32, uni: i32, batch: i32) -> StudentRanking {
    StudentRanking {
        student_id: id.to_string(),
        batch_year: year,
        university_ranking: uni,
        batch_ranking: batch,
    }
}

fn queue_of(tasks: &[&str]) -> TaskQueue {
    let mut q = TaskQueue::new();
    q.enqueue(tasks.iter().map(|t| t.to_string()).collect());
    q
}

#[test]
fn next_task_pops_each_task_once() {
    let mut q = queue_of(&["t1.csv", "t2.csv", "t3.csv"]);
    let mut got: Vec<String> = Vec::new();
    for _ in 0..5 {
        if let Some(t) = q.next_task() {
            got.push(t);
        }
    }
    assert_eq!(got.len(), 3);
    got.sort();
    assert_eq!(got, vec!["t1.csv", "t2.csv", "t3.csv"]);
    assert_eq!(q.pending_count(), 0);
    assert!(q.next_task().is_none());
}

#[test]
fn fewer_callers_than_tasks() {
    let mut q = queue_of(&["a", "b", "c", "d"]);
    assert_eq!(q.next_task(), Some("d".to_string()));
    assert_eq!(q.next_task(), Some("c".to_string()));
    assert_eq!(q.pending_count(), 2);
    assert_eq!(q.task_count(), 4);
}

#[test]
fn shared_queue_under_lock_hands_out_each_task_once() {
    let q = Arc::new(Mutex::new(queue_of(&["a", "b", "c", "d", "e", "f", "g"])));
    let callers: Vec<Arc<Mutex<TaskQueue>>> = (0..10).map(|_| Arc::clone(&q)).collect();
    let mut got: Vec<String> = callers.iter().filter_map(|c| c.lock().unwrap().next_task()).collect();
    assert_eq!(got.len(), 7);
    got.sort();
    assert_eq!(got, vec!["a", "b", "c", "d", "e", "f", "g"]);
}

#[test]
fn completion_after_every_result() {
    let chunks = vec![
        vec![rec("a", 1, 0, 0), rec("b", 2, 0, 0)],
        vec![rec("c", 0, 0, 0)],
        vec![rec("d", 5, 0, 0), rec("e", 6, 0, 0), rec("f", 7, 0, 0)],
    ];
    let total: usize = chunks.iter().map(|c| c.len()).sum();
    let mut q = queue_of(&["0", "1", "2"]);
    assert!(!q.is_complete());
    let mut returned = 0usize;
    let mut worker_done = [false, false];
    while !(worker_done[0] && worker_done[1]) {
        for w in 0..2 {
            if worker_done[w] {
                continue;
            }
            match handle_message(&mut q, Message::RequestTask) {
                HandlerAction::Reply(Message::AssignTask(t)) => {
                    let idx: usize = t.parse().unwrap();
                    let reply = task_result(chunks[idx].clone());
                    if let Message::TaskResult(v) = &reply {
                        returned += v.len();
                    }
                    assert!(matches!(handle_message(&mut q, reply), HandlerAction::Continue));
                }
                HandlerAction::Reply(Message::NoMoreTasks) => worker_done[w] = true,
                _ => panic!("unexpected answer"),
            }
        }
    }
    assert!(q.is_complete());
    assert_eq!(q.result_count(), 3);
    assert_eq!(returned, total);
    let merged = q.merge_results();
    assert_eq!(merged.len(), total);
    let ids: Vec<String> = merged.iter().map(|r| r.student_id.clone()).collect();
    assert_eq!(ids, vec!["c", "a", "b", "d", "e", "f"]);
}

#[test]
fn lost_task_leaves_run_incomplete() {
    let mut q = queue_of(&["x", "y"]);
    let _ = q.next_task();
    let _ = q.next_task();
    q.record_result(vec![rec("a", 1, 1, 1)]);
    assert!(!q.is_complete());
    assert_eq!(q.result_count(), 1);
}

#[test]
fn empty_queue_is_complete_at_once() {
    let q = TaskQueue::new();
    assert!(q.is_complete());
}

#[test]
fn handler_rejects_unexpected_messages() {
    let mut q = queue_of(&["x"]);
    assert!(matches!(handle_message(&mut q, Message::NoMoreTasks), HandlerAction::Close));
    assert!(matches!(
        handle_message(&mut q, Message::AssignTask("x".to_string())),
        HandlerAction::Close
    ));
    let unsorted = vec![rec("b", 2, 0, 0), rec("a", 1, 0, 0)];
    assert!(matches!(handle_message(&mut q, Message::TaskResult(unsorted)), HandlerAction::Close));
    assert_eq!(q.result_count(), 0);
    assert_eq!(q.pending_count(), 1);
}

#[test]
fn sortedness_check() {
    assert!(is_sorted_chunk(&Vec::new()));
    assert!(is_sorted_chunk(&vec![rec("a", 1, 2, 3), rec("b", 1, 2, 3), rec("c", 1, 2, 4)]));
    assert!(!is_sorted_chunk(&vec![rec("a", 1, 2, 4), rec("b", 1, 2, 3)]));
}

#[test]
fn frame_round_trip() {
    let payload: Vec<u8> = vec![1, 0, 0, 0, 7, 0, 0, 0, 0, 0, 0, 0, b'a'];
    let frame = encode_frame(&payload);
    assert_eq!(&frame[..4], &[0, 0, 0, 13]);
    let mut buf = frame.clone();
    buf.extend_from_slice(&[9, 9]);
    let (p, used) = decode_frame(&buf).unwrap();
    assert_eq!(p, payload);
    assert_eq!(used, 17);
}

#[test]
fn frame_of_empty_payload() {
    let frame = encode_frame(&Vec::new());
    assert_eq!(frame, vec![0, 0, 0, 0]);
    assert_eq!(decode_frame(&frame), Ok((Vec::new(), 4)));
}

#[test]
fn frame_length_is_big_endian() {
    let payload = vec![0u8; 0x0102];
    let frame = encode_frame(&payload);
    assert_eq!(&frame[..4], &[0, 0, 1, 2]);
    assert_eq!(declared_len(&vec![0x12, 0x34, 0x56, 0x78]), 0x1234_5678);
}

#[test]
fn truncated_frame_is_rejected() {
    let frame = encode_frame(&vec![5u8, 6, 7, 8, 9]);
    for n in 4..frame.len() {
        assert_eq!(decode_frame(&frame[..n].to_vec()), Err(FrameError::Truncated));
    }
    assert_eq!(decode_frame(&vec![0, 0, 0, 200, 1, 2]), Err(FrameError::Truncated));
}

#[test]
fn short_header_is_rejected() {
    assert_eq!(decode_frame(&Vec::new()), Err(FrameError::ShortHeader));
    assert_eq!(decode_frame(&vec![0, 0, 1]), Err(FrameError::ShortHeader));
}

#[test]
fn retry_connects_once_listening() {
    let up_from = 3u32;
    let mut made = 0u32;
    let mut waited = 0u64;
    let outcome = loop {
        made += 1;
        match after_connect_attempt(made, made >= up_from) {
            ConnectStep::Connected => break Some(made),
            ConnectStep::Retry { wait_ms } => waited += wait_ms,
            ConnectStep::GiveUp => break None,
        }
    };
    assert_eq!(outcome, Some(3));
    assert_eq!(waited, 2 * BACKOFF_MS);
}

#[test]
fn retry_gives_up_after_all_attempts() {
    let mut made = 0u32;
    let outcome = loop {
        made += 1;
        match after_connect_attempt(made, false) {
            ConnectStep::Connected => break Some(made),
            ConnectStep::Retry { wait_ms } => assert_eq!(wait_ms, 1000),
            ConnectStep::GiveUp => break None,
        }
    };
    assert_eq!(outcome, None);
    assert_eq!(made, CONNECT_ATTEMPTS);
    assert_eq!(CONNECT_ATTEMPTS, 5);
}

#[test]
fn worker_session_runs_to_done() {
    let s = worker_step(WorkerState::Start, WorkerEvent::Sent);
    assert!(matches!(s, WorkerState::AwaitResponse));
    let s = worker_step(s, WorkerEvent::Received(Message::AssignTask("f.csv".to_string())));
    assert!(matches!(&s, WorkerState::Working(t) if t == "f.csv"));
    assert!(!is_finished(&s));
    let s = worker_step(s, WorkerEvent::Sent);
    assert!(matches!(s, WorkerState::Start));
    let s = worker_step(s, WorkerEvent::Sent);
    let s = worker_step(s, WorkerEvent::Received(Message::NoMoreTasks));
    assert!(matches!(s, WorkerState::Done));
    assert!(is_finished(&s));
    let s = worker_step(s, WorkerEvent::Failed);
    assert!(matches!(s, WorkerState::Done));
}

#[test]
fn worker_disconnects_on_failure_or_bad_message() {
    let s = worker_step(WorkerState::AwaitResponse, WorkerEvent::Failed);
    assert!(matches!(s, WorkerState::Disconnected));
    let s = worker_step(WorkerState::AwaitResponse, WorkerEvent::Received(Message::RequestTask));
    assert!(matches!(s, WorkerState::Disconnected));
    let s = worker_step(WorkerState::Start, WorkerEvent::Received(Message::NoMoreTasks));
    assert!(matches!(s, WorkerState::Disconnected));
    assert!(is_finished(&s));
}

#[test]
fn task_result_sorts_records() {
    match task_result(vec![rec("b", 2020, 5, 1), rec("a", 2020, 3, 2)]) {
        Message::TaskResult(v) => {
            let ids: Vec<&str> = v.iter().map(|r| r.student_id.as_str()).collect();
            assert_eq!(ids, vec!["a", "b"]);
        }
        _ => panic!("not a result"),
    }
}
