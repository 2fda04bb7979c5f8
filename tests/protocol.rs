use matrix_server::codec::{encode_words, word};
use matrix_server::matrix::{calculate, Matrix};
use matrix_server::protocol::{
    encode_reply, parse_request, respond, Action, Parsed, Reply, Request,
};
use matrix_server::store::{MatrixStore, ResultStore};

fn frame(ws: &[u32]) -> Vec<u8> {
    encode_words(&ws.to_vec())
}

fn submit_frame(a: &Matrix, b: &Matrix) -> Vec<u8> {
    let mut ws = vec![7u32, a.len() as u32];
    for row in a.iter().chain(b.iter()) {
        ws.extend_from_slice(row);
    }
    frame(&ws)
}

fn request(bytes: &[u8]) -> Request {
    match parse_request(bytes) {
        Parsed::Complete { request, used } => {
            assert_eq!(used, bytes.len());
            request
        }
        _ => panic!("frame not complete"),
    }
}

fn words_of(bytes: &[u8]) -> Vec<u32> {
    assert_eq!(bytes.len() % 4, 0);
    (0..bytes.len() / 4).map(|k| word(bytes, k)).collect()
}

fn reply_words(act: Action) -> Vec<u32> {
    match act {
        Action::Send { reply } => words_of(&encode_reply(&reply)),
        _ => panic!("no reply"),
    }
}

/// Runs a dispatch action the way the server does, synchronously.
fn compute(act: Action, results: &mut ResultStore, workers: usize) {
    match act {
        Action::Compute { id, a, b } => results.put(id, calculate(&a, &b, workers)),
        _ => panic!("no computation"),
    }
}

#[test]
fn parse_needs_more_bytes() {
    assert!(matches!(parse_request(&[]), Parsed::NeedMore { total: 4 }));
    assert!(matches!(parse_request(&[0, 0, 0]), Parsed::NeedMore { total: 4 }));
    assert!(matches!(parse_request(&frame(&[9])), Parsed::NeedMore { total: 8 }));
    assert!(matches!(parse_request(&frame(&[10])), Parsed::NeedMore { total: 8 }));
    assert!(matches!(parse_request(&frame(&[7])), Parsed::NeedMore { total: 8 }));
    assert!(matches!(parse_request(&frame(&[7, 2, 1, 2])), Parsed::NeedMore { total: 40 }));
}

#[test]
fn parse_each_opcode() {
    assert!(matches!(request(&frame(&[5])), Request::Ping));
    assert!(matches!(request(&frame(&[9, 42])), Request::Dispatch { id: 42 }));
    assert!(matches!(request(&frame(&[10, 3])), Request::Poll { id: 3 }));
    assert!(matches!(request(&frame(&[99])), Request::Unknown { opcode: 99 }));
    let a = vec![vec![1u32, 2], vec![3, 4]];
    let b = vec![vec![5u32, 6], vec![7, 8]];
    match request(&submit_frame(&a, &b)) {
        Request::Submit { a: ra, b: rb } => {
            assert_eq!(ra, a);
            assert_eq!(rb, b);
        }
        _ => panic!("not a submission"),
    }
}

#[test]
fn parse_uses_only_the_first_frame() {
    let mut bytes = frame(&[9, 1]);
    bytes.extend(frame(&[5]));
    assert!(matches!(parse_request(&bytes), Parsed::Complete { request: Request::Dispatch { id: 1 }, used: 8 }));
}

#[test]
fn parse_empty_submission() {
    match request(&frame(&[7, 0])) {
        Request::Submit { a, b } => {
            assert!(a.is_empty());
            assert!(b.is_empty());
        }
        _ => panic!("not a submission"),
    }
}

#[test]
fn parse_oversized_submission() {
    assert!(matches!(parse_request(&frame(&[7, u32::MAX])), Parsed::Oversized));
}

#[test]
fn encode_each_reply() {
    assert_eq!(encode_reply(&Reply::Pong), vec![0, 0, 0, 6]);
    assert_eq!(encode_reply(&Reply::Received { id: 2 }), frame(&[8, 2]));
    assert_eq!(encode_reply(&Reply::NotAvailable { id: 4 }), frame(&[11, 4]));
    let result = vec![vec![1u32, 2], vec![3, 4]];
    assert_eq!(
        encode_reply(&Reply::Sending { id: 1, result }),
        frame(&[12, 1, 2, 1, 2, 3, 4])
    );
}

#[test]
fn ping_gets_one_pong_and_changes_nothing() {
    let mut jobs = MatrixStore::new();
    let results = ResultStore::new();
    jobs.submit(vec![vec![1]], vec![vec![2]]);
    let act = respond(request(&frame(&[5])), &mut jobs, &results);
    assert_eq!(reply_words(act), vec![6]);
    assert_eq!(jobs.len(), 1);
    assert_eq!(results.try_get(0), None);
}

#[test]
fn unknown_opcode_is_ignored() {
    let mut jobs = MatrixStore::new();
    let results = ResultStore::new();
    let act = respond(request(&frame(&[1234])), &mut jobs, &results);
    assert!(matches!(act, Action::Nothing));
    assert_eq!(jobs.len(), 0);
}

#[test]
fn dispatch_of_unknown_job_is_dropped() {
    let mut jobs = MatrixStore::new();
    let results = ResultStore::new();
    let act = respond(request(&frame(&[9, 0])), &mut jobs, &results);
    assert!(matches!(act, Action::Nothing));
}

#[test]
fn poll_before_dispatch_is_not_available() {
    let mut jobs = MatrixStore::new();
    let results = ResultStore::new();
    let a = vec![vec![1u32]];
    respond(request(&submit_frame(&a, &a)), &mut jobs, &results);
    assert_eq!(reply_words(respond(request(&frame(&[10, 0])), &mut jobs, &results)), vec![11, 0]);
    assert_eq!(reply_words(respond(request(&frame(&[10, 7])), &mut jobs, &results)), vec![11, 7]);
}

#[test]
fn repeated_polls_return_the_same_result() {
    let mut jobs = MatrixStore::new();
    let mut results = ResultStore::new();
    let a = vec![vec![1u32, 2], vec![3, 4]];
    respond(request(&submit_frame(&a, &a)), &mut jobs, &results);
    respond(request(&submit_frame(&a, &a)), &mut jobs, &results);
    let act = respond(request(&frame(&[9, 0])), &mut jobs, &results);
    compute(act, &mut results, 4);
    let first = reply_words(respond(request(&frame(&[10, 0])), &mut jobs, &results));
    assert_eq!(first, vec![12, 0, 2, 2, 4, 6, 8]);
    let act = respond(request(&frame(&[9, 1])), &mut jobs, &results);
    compute(act, &mut results, 0);
    let second = reply_words(respond(request(&frame(&[10, 0])), &mut jobs, &results));
    assert_eq!(first, second);
}

#[test]
fn three_by_three_scenario() {
    let mut jobs = MatrixStore::new();
    let mut results = ResultStore::new();
    let a = vec![vec![1u32, 2, 3], vec![4, 5, 6], vec![7, 8, 9]];
    let b = vec![vec![9u32, 8, 7], vec![6, 5, 4], vec![3, 2, 1]];
    let act = respond(request(&submit_frame(&a, &b)), &mut jobs, &results);
    assert_eq!(reply_words(act), vec![8, 0]);
    let act = respond(request(&frame(&[9, 0])), &mut jobs, &results);
    compute(act, &mut results, 4);
    let got = reply_words(respond(request(&frame(&[10, 0])), &mut jobs, &results));
    assert_eq!(got, vec![12, 0, 3, 10, 10, 10, 10, 10, 10, 10, 10, 10]);
}

#[test]
fn two_clients_get_distinct_increasing_ids() {
    let mut jobs = MatrixStore::new();
    let results = ResultStore::new();
    let first = vec![vec![1u32, 2], vec![3, 4]];
    let second = vec![vec![5u32, 6], vec![7, 8]];
    let mut ids = Vec::new();
    for (k, m) in [&first, &second, &second, &first].iter().enumerate() {
        let act = respond(request(&submit_frame(m, m)), &mut jobs, &results);
        let ws = reply_words(act);
        assert_eq!(ws[0], 8);
        assert_eq!(ws[1], k as u32);
        ids.push(ws[1]);
    }
    assert_eq!(ids, vec![0, 1, 2, 3]);
    assert_eq!(jobs.get(1).unwrap().0, second);
    assert_eq!(jobs.get(3).unwrap().0, first);
}
