use protohackers::jobs::{ClientJobs, JobCenter, Request, RequestData, Response, ResponseStatus};
use serde_json::Value;

fn names(q: &[&str]) -> Vec<String> {
    q.iter().map(|s| s.to_string()).collect()
}

fn job(n: i64) -> Value {
    Value::from(n)
}

fn status(r: &Response) -> ResponseStatus {
    r.status
}

#[test]
fn response_builders() {
    let r = Response::new_with_status(ResponseStatus::NoJob);
    assert_eq!(r.status, ResponseStatus::NoJob);
    assert!(r.id.is_none() && r.job.is_none() && r.pri.is_none() && r.queue.is_none());
    let r = Response::new_with_status(ResponseStatus::Okay).with_id(12);
    assert_eq!(r.status, ResponseStatus::Okay);
    assert_eq!(r.id, Some(12));
}

#[test]
fn put_then_get_highest_priority() {
    let mut c: JobCenter<u32> = JobCenter::new();
    let (r, h) = c._put("q1".to_string(), job(1), 10);
    assert_eq!(status(&r), ResponseStatus::Okay);
    assert_eq!(r.id, Some(0));
    assert!(h.is_none());
    c.next_id += 1;
    let (r, _) = c._put("q2".to_string(), job(2), 30);
    assert_eq!(r.id, Some(1));
    c.next_id += 1;
    let (r, _) = c._put("q1".to_string(), job(3), 20);
    assert_eq!(r.id, Some(2));
    c.next_id += 1;

    let got = c._get(&names(&["q1", "q2"]), false, 7).unwrap();
    assert_eq!(got.status, ResponseStatus::Okay);
    assert_eq!(got.id, Some(1));
    assert_eq!(got.pri, Some(30));
    assert_eq!(got.queue, Some("q2".to_string()));
    assert_eq!(got.job, Some(job(2)));

    let got = c._get(&names(&["q1", "q2"]), false, 7).unwrap();
    assert_eq!(got.id, Some(2));
    let got = c._get(&names(&["q1"]), false, 8).unwrap();
    assert_eq!(got.id, Some(0));
    let got = c._get(&names(&["q1", "q2"]), false, 8).unwrap();
    assert_eq!(got.status, ResponseStatus::NoJob);
    assert!(c._get(&names(&["q1"]), true, 8).is_none());
}

#[test]
fn best_index_ignores_missing_queues() {
    let mut c: JobCenter<u32> = JobCenter::new();
    c._put("a".to_string(), job(1), 5);
    c.next_id += 1;
    let best = c._get_best_index_queue(&names(&["zzz", "a"]));
    assert_eq!(best, Some((0, "a".to_string())));
    assert_eq!(c._get_best_index_queue(&names(&["zzz"])), None);
}

#[test]
fn abort_and_delete() {
    let mut c: JobCenter<u32> = JobCenter::new();
    c._put("q".to_string(), job(1), 3);
    c.next_id += 1;
    let got = c._get(&names(&["q"]), false, 1).unwrap();
    assert_eq!(got.id, Some(0));

    let (r, h) = c._abort(2, 0);
    assert_eq!(r.status, ResponseStatus::Error);
    assert!(h.is_none());
    let (r, _) = c._abort(1, 0);
    assert_eq!(r.status, ResponseStatus::Okay);
    let (r, _) = c._abort(1, 0);
    assert_eq!(r.status, ResponseStatus::NoJob);

    let got = c._get(&names(&["q"]), false, 3).unwrap();
    assert_eq!(got.id, Some(0));
    assert_eq!(c._delete(0).status, ResponseStatus::Okay);
    assert_eq!(c._delete(0).status, ResponseStatus::NoJob);
    let (r, _) = c._abort(3, 0);
    assert_eq!(r.status, ResponseStatus::NoJob);
    assert_eq!(c._get(&names(&["q"]), false, 3).unwrap().status, ResponseStatus::NoJob);
}

#[test]
fn waiting_client_gets_put_job() {
    let mut c: JobCenter<u32> = JobCenter::new();
    let d = c._process_request(Request {
        data: RequestData::Get { queues: names(&["q"]), wait: true },
        cid: 4,
        response_tx: 40,
    });
    assert!(d.is_empty());
    assert_eq!(c.awaiting_clients.len(), 1);

    let d = c._process_request(Request {
        data: RequestData::Put { queue: "q".to_string(), job: job(9), pri: 1 },
        cid: 5,
        response_tx: 50,
    });
    assert_eq!(d.len(), 2);
    assert_eq!(d[0].to, 40);
    assert_eq!(d[0].response.id, Some(0));
    assert_eq!(d[0].response.job, Some(job(9)));
    assert!(d[0].must_arrive);
    assert_eq!(d[1].to, 50);
    assert_eq!(d[1].response.status, ResponseStatus::Okay);
    assert_eq!(d[1].response.id, Some(0));
    assert!(c.awaiting_clients.is_empty());
    assert_eq!(c.next_id, 1);

    let got = c._get(&names(&["q"]), false, 6).unwrap();
    assert_eq!(got.status, ResponseStatus::NoJob);
}

#[test]
fn aborted_job_goes_to_waiting_client() {
    let mut c: JobCenter<u32> = JobCenter::new();
    c._process_request(Request {
        data: RequestData::Put { queue: "q".to_string(), job: job(1), pri: 2 },
        cid: 1,
        response_tx: 10,
    });
    let d = c._process_request(Request {
        data: RequestData::Get { queues: names(&["q"]), wait: false },
        cid: 1,
        response_tx: 10,
    });
    assert_eq!(d.len(), 1);
    assert_eq!(d[0].response.id, Some(0));
    c._process_request(Request {
        data: RequestData::Get { queues: names(&["q"]), wait: true },
        cid: 2,
        response_tx: 20,
    });
    let d = c._process_request(Request { data: RequestData::Abort { id: 0 }, cid: 1, response_tx: 10 });
    assert_eq!(d.len(), 2);
    assert_eq!(d[0].to, 20);
    assert_eq!(d[0].response.id, Some(0));
    assert_eq!(d[1].to, 10);
    assert_eq!(d[1].response.status, ResponseStatus::Okay);
    assert!(!d[1].must_arrive);

    let d = c._process_request(Request { data: RequestData::Delete { id: 0 }, cid: 3, response_tx: 30 });
    assert_eq!(d.len(), 1);
    assert_eq!(d[0].response.status, ResponseStatus::Okay);
    let d = c._process_request(Request { data: RequestData::Delete { id: 0 }, cid: 3, response_tx: 30 });
    assert_eq!(d[0].response.status, ResponseStatus::NoJob);
}

#[test]
fn priority_zero_is_never_handed_out() {
    let mut c: JobCenter<u32> = JobCenter::new();
    c._put("q".to_string(), job(1), 0);
    c.next_id += 1;
    let got = c._get(&names(&["q"]), false, 1).unwrap();
    assert_eq!(got.status, ResponseStatus::NoJob);
}

#[test]
fn handed_jobs_are_aborted_on_disconnect() {
    let mut c = ClientJobs::new();
    c.note_response(true, Some(3));
    c.note_response(false, Some(9));
    c.note_response(false, None);
    c.note_response(true, Some(5));
    let aborts: Vec<usize> = c
        .on_disconnect()
        .into_iter()
        .map(|r| match r {
            RequestData::Abort { id } => id,
            _ => panic!("only aborts are made on disconnect"),
        })
        .collect();
    assert_eq!(aborts, vec![3, 5]);
}

#[test]
fn waiting_client_is_served_by_a_later_put() {
    let mut c: JobCenter<u32> = JobCenter::new();
    c._process_request(Request {
        data: RequestData::Put { queue: "q".to_string(), job: job(1), pri: 0 },
        cid: 1,
        response_tx: 10,
    });
    let d = c._process_request(Request {
        data: RequestData::Get { queues: names(&["q", "r"]), wait: true },
        cid: 2,
        response_tx: 20,
    });
    assert!(d.is_empty());
    let d = c._process_request(Request {
        data: RequestData::Put { queue: "r".to_string(), job: job(2), pri: 4 },
        cid: 3,
        response_tx: 30,
    });
    assert_eq!(d.len(), 2);
    assert_eq!(d[0].to, 20);
    assert_eq!(d[0].response.id, Some(1));
    assert!(c.awaiting_clients.is_empty());
}
