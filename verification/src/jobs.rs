use serde_json::Value;
use std::collections::HashMap;
use vstd::prelude::*;

verus! {

broadcast use vstd::std_specs::hash::group_hash_axioms;

/// The JSON value of a job, carried through unread.
#[verifier::external_type_specification]
#[verifier::external_body]
pub struct ExValue(Value);

/// Calls `Value::clone`; the contract claims that the copy is the same value.
#[verifier::external_body]
fn clone_job(v: &Value) -> (r: Value)
    ensures
        r == *v,
{
    v.clone()
}

#[derive(Debug, Clone, Copy, PartialEq, Eq, Structural)]
pub enum ResponseStatus {
    Okay,
    NoJob,
    Error,
}

/// An answer to a client.
#[derive(Debug)]
pub struct Response {
    pub status: ResponseStatus,
    pub id: Option<usize>,
    pub job: Option<Value>,
    pub pri: Option<usize>,
    pub queue: Option<String>,
}

/// A response as its fields say, the queue's name taken by its characters.
pub ghost struct ResponseView {
    pub status: ResponseStatus,
    pub id: Option<usize>,
    pub job: Option<Value>,
    pub pri: Option<usize>,
    pub queue: Option<Seq<char>>,
}

impl View for Response {
    type V = ResponseView;

    open spec fn view(&self) -> ResponseView {
        ResponseView {
            status: self.status,
            id: self.id,
            job: self.job,
            pri: self.pri,
            queue: match self.queue {
                Some(q) => Some(q@),
                None => None,
            },
        }
    }
}

pub open spec fn status_only(status: ResponseStatus) -> ResponseView {
    ResponseView { status, id: None, job: None, pri: None, queue: None }
}

impl Response {
    pub fn new_with_status(status: ResponseStatus) -> (r: Self)
        ensures
            r@ == status_only(status),
    {
        Response { status, id: None, job: None, pri: None, queue: None }
    }

    pub fn with_id(self, id: usize) -> (r: Self)
        ensures
            r@ == (ResponseView { id: Some(id), ..self@ }),
    {
        Response { status: self.status, id: Some(id), job: self.job, pri: self.pri, queue: self.queue }
    }
}

/// A job in a queue.
pub struct JobInfo {
    pub id: usize,
    pub data: Value,
    pub pri: usize,
    pub locked_by: Option<usize>,
    pub queue: String,
}

pub ghost struct JobView {
    pub id: usize,
    pub data: Value,
    pub pri: usize,
    pub locked_by: Option<usize>,
    pub queue: Seq<char>,
}

impl View for JobInfo {
    type V = JobView;

    open spec fn view(&self) -> JobView {
        JobView {
            id: self.id,
            data: self.data,
            pri: self.pri,
            locked_by: self.locked_by,
            queue: self.queue@,
        }
    }
}

/// A named queue of jobs, kept in ascending order of priority.
pub struct JobQueue {
    pub name: String,
    pub jobs: Vec<JobInfo>,
}

pub ghost struct QueueView {
    pub name: Seq<char>,
    pub jobs: Seq<JobView>,
}

impl View for JobQueue {
    type V = QueueView;

    open spec fn view(&self) -> QueueView {
        QueueView { name: self.name@, jobs: job_views(self.jobs@) }
    }
}


/// The index of the queue named `name`, if there is one.
pub open spec fn queue_index(qs: Seq<QueueView>, name: Seq<char>) -> Option<int>
    decreases qs.len(),
{
    if qs.len() == 0 {
        None
    } else if qs.last().name == name {
        Some(qs.len() - 1)
    } else {
        queue_index(qs.drop_last(), name)
    }
}

/// The index of the last job of `js` that no client holds, if there is one.
pub open spec fn last_unlocked(js: Seq<JobView>) -> Option<int>
    decreases js.len(),
{
    if js.len() == 0 {
        None
    } else if js.last().locked_by is None {
        Some(js.len() - 1)
    } else {
        last_unlocked(js.drop_last())
    }
}

/// The job that a request for the queues `names` gets: in each queue that exists,
/// the last job that no client holds (the one with the highest priority); of
/// those, the one with the highest priority above 0, the first queue in `names`
/// winning a tie. Gives the job's index in its queue, the queue's name and the
/// job's priority.
pub open spec fn best_candidate(qs: Seq<QueueView>, names: Seq<Seq<char>>) -> Option<
    (int, Seq<char>, usize),
>
    decreases names.len(),
{
    if names.len() == 0 {
        None
    } else {
        let prev = best_candidate(qs, names.drop_last());
        let best_pri: usize = match prev {
            Some(c) => c.2,
            None => 0,
        };
        let name = names.last();
        match queue_index(qs, name) {
            Some(qi) => match last_unlocked(qs[qi].jobs) {
                Some(i) => if qs[qi].jobs[i].pri > best_pri {
                    Some((i, name, qs[qi].jobs[i].pri))
                } else {
                    prev
                },
                None => prev,
            },
            None => prev,
        }
    }
}

pub open spec fn names_of(v: Seq<String>) -> Seq<Seq<char>> {
    v.map_values(|s: String| s@)
}

/// `qs` with the job at index `i` of queue `qi` held by `holder`.
pub open spec fn with_holder(qs: Seq<QueueView>, qi: int, i: int, holder: Option<usize>) -> Seq<
    QueueView,
> {
    qs.update(
        qi,
        QueueView {
            name: qs[qi].name,
            jobs: qs[qi].jobs.update(i, JobView { locked_by: holder, ..qs[qi].jobs[i] }),
        },
    )
}

/// The answer that hands out `j`.
pub open spec fn job_response(j: JobView) -> ResponseView {
    ResponseView {
        status: ResponseStatus::Okay,
        id: Some(j.id),
        job: Some(j.data),
        pri: Some(j.pri),
        queue: Some(j.queue),
    }
}

/// No two queues share a name.
pub open spec fn names_distinct(qs: Seq<QueueView>) -> bool {
    forall|a: int, b: int|
        0 <= a < b < qs.len() ==> (#[trigger] qs[a]).name != (#[trigger] qs[b]).name
}

/// Each job names its own queue and has an id below `next_id`.
pub open spec fn jobs_placed(qs: Seq<QueueView>, next_id: usize) -> bool {
    forall|a: int, j: int|
        0 <= a < qs.len() && 0 <= j < qs[a].jobs.len() ==> {
            &&& (#[trigger] qs[a].jobs[j]).queue == qs[a].name
            &&& qs[a].jobs[j].id < next_id
        }
}

/// Each queue is in ascending order of priority.
pub open spec fn queues_sorted(qs: Seq<QueueView>) -> bool {
    forall|a: int, i: int, j: int|
        0 <= a < qs.len() && 0 <= i < j < qs[a].jobs.len() ==> (#[trigger] qs[a].jobs[i]).pri <= (
        #[trigger] qs[a].jobs[j]).pri
}

/// No two jobs share an id.
pub open spec fn ids_distinct(qs: Seq<QueueView>) -> bool {
    forall|a: int, i: int, b: int, j: int|
        0 <= a < qs.len() && 0 <= i < qs[a].jobs.len() && 0 <= b < qs.len() && 0 <= j
            < qs[b].jobs.len() && (a != b || i != j) ==> (#[trigger] qs[a].jobs[i]).id != (
        #[trigger] qs[b].jobs[j]).id
}

/// The queue `name` holds a job `id`.
pub open spec fn holds_job(qs: Seq<QueueView>, name: Seq<char>, id: usize) -> bool {
    exists|a: int, j: int|
        0 <= a < qs.len() && 0 <= j < qs[a].jobs.len() && qs[a].name == name && (
        #[trigger] qs[a].jobs[j]).id == id
}

/// Every job that a client holds is in the queue that its lock names.
pub open spec fn locks_held(qs: Seq<QueueView>, locks: Map<usize, (Seq<char>, usize)>) -> bool {
    forall|id: usize| #[trigger] locks.contains_key(id) ==> holds_job(qs, locks[id].0, id)
}

/// What the job centre keeps true between requests.
pub open spec fn state_wf(
    qs: Seq<QueueView>,
    locks: Map<usize, (Seq<char>, usize)>,
    next_id: usize,
) -> bool {
    &&& names_distinct(qs)
    &&& jobs_placed(qs, next_id)
    &&& queues_sorted(qs)
    &&& ids_distinct(qs)
    &&& locks_held(qs, locks)
}

/// Who holds a job changes none of what the job centre keeps true, and a lock on
/// a job of the queues keeps it too.
pub proof fn lemma_wf_hold(
    qs: Seq<QueueView>,
    locks: Map<usize, (Seq<char>, usize)>,
    next_id: usize,
    qi: int,
    i: int,
    holder: Option<usize>,
    lock: Option<usize>,
)
    requires
        state_wf(qs, locks, next_id),
        0 <= qi < qs.len(),
        0 <= i < qs[qi].jobs.len(),
    ensures
        state_wf(with_holder(qs, qi, i, holder), locks, next_id),
        lock matches Some(c) ==> state_wf(
            with_holder(qs, qi, i, holder),
            locks.insert(qs[qi].jobs[i].id, (qs[qi].name, c)),
            next_id,
        ),
{
    let nq = with_holder(qs, qi, i, holder);
    assert forall|a: int, j: int| 0 <= a < nq.len() && 0 <= j < nq[a].jobs.len() implies nq[a].jobs[j].id
        == qs[a].jobs[j].id && nq[a].jobs[j].pri == qs[a].jobs[j].pri && nq[a].jobs[j].queue
        == qs[a].jobs[j].queue && nq[a].name == qs[a].name by {
        if a == qi && j == i {
        } else {
        }
    }
    assert(names_distinct(nq));
    assert(jobs_placed(nq, next_id));
    assert(queues_sorted(nq));
    assert(ids_distinct(nq));
    assert forall|id: usize| #[trigger] locks.contains_key(id) implies holds_job(nq, locks[id].0, id) by {
        assert(holds_job(qs, locks[id].0, id));
        let (a, j) = choose|a: int, j: int|
            0 <= a < qs.len() && 0 <= j < qs[a].jobs.len() && qs[a].name == locks[id].0 && (
            #[trigger] qs[a].jobs[j]).id == id;
        assert(nq[a].jobs[j].id == id);
    }
    match lock {
        Some(c) => {
            let l2 = locks.insert(qs[qi].jobs[i].id, (qs[qi].name, c));
            assert forall|id: usize| #[trigger] l2.contains_key(id) implies holds_job(nq, l2[id].0, id) by {
                if id == qs[qi].jobs[i].id {
                    assert(nq[qi].jobs[i].id == id);
                } else {
                    assert(locks.contains_key(id));
                }
            }
        },
        None => {},
    }
}

/// `new_js` is `old_js` with `job` inserted where the priorities stay in order.
pub open spec fn inserted_in_order(old_js: Seq<JobView>, new_js: Seq<JobView>, job: JobView) -> bool {
    exists|k: int|
        0 <= k <= old_js.len() && new_js == old_js.insert(k, job) && (forall|i: int|
            0 <= i < k ==> (#[trigger] old_js[i]).pri <= job.pri) && (forall|i: int|
            k <= i < old_js.len() ==> (#[trigger] old_js[i]).pri >= job.pri)
}

/// The queues after `job` was put in the queue `name`: inserted in order where the
/// queue exists, in a new queue at the end otherwise.
pub open spec fn put_into(old_qs: Seq<QueueView>, new_qs: Seq<QueueView>, name: Seq<char>, job: JobView) -> bool {
    match queue_index(old_qs, name) {
        Some(qi) => new_qs.len() == old_qs.len() && (forall|a: int|
            0 <= a < old_qs.len() && a != qi ==> #[trigger] new_qs[a] == old_qs[a]) && new_qs[qi].name
            == name && inserted_in_order(old_qs[qi].jobs, new_qs[qi].jobs, job),
        None => new_qs == old_qs.push(QueueView { name, jobs: seq![job] }),
    }
}

/// The index of the first waiting client that wants the queue `name`.
pub open spec fn first_waiting(waiting: Seq<(usize, Seq<Seq<char>>)>, name: Seq<char>) -> Option<int>
    decreases waiting.len(),
{
    if waiting.len() == 0 {
        None
    } else {
        match first_waiting(waiting.drop_last(), name) {
            Some(w) => Some(w),
            None => if waiting.last().1.contains(name) {
                Some(waiting.len() - 1)
            } else {
                None
            },
        }
    }
}

/// Calls `slice::binary_search_by_key` on the jobs' priorities and takes the
/// index it gives, found or not. Over jobs in ascending order of priority, the
/// contract claims what std documents: the index is where `pri` can stand with
/// the order kept (which of several equal priorities it is next to is left
/// unsaid).
#[verifier::external_body]
fn insertion_index(jobs: &Vec<JobInfo>, pri: usize) -> (r: usize)
    requires
        forall|i: int, j: int| 0 <= i < j < jobs@.len() ==> (#[trigger] jobs@[i]).pri <= (#[trigger] jobs@[j]).pri,
    ensures
        r <= jobs@.len(),
        forall|i: int| 0 <= i < r ==> (#[trigger] jobs@[i]).pri <= pri,
        forall|i: int| r <= i < jobs@.len() ==> (#[trigger] jobs@[i]).pri >= pri,
{
    jobs.binary_search_by_key(&pri, |j| j.pri).unwrap_or_else(|e| e)
}

fn contains_name(names: &Vec<String>, name: &String) -> (b: bool)
    ensures
        b == names_of(names@).contains(name@),
{
    let mut i: usize = 0;
    while i < names.len()
        invariant
            i <= names@.len(),
            forall|j: int| 0 <= j < i ==> names@[j]@ != name@,
        decreases names@.len() - i,
    {
        if names[i] == *name {
            assert(names_of(names@)[i as int] == name@);
            return true;
        }
        i = i + 1;
    }
    assert forall|j: int| 0 <= j < names_of(names@).len() implies names_of(names@)[j] != name@ by {
        assert(names_of(names@)[j] == names@[j]@);
    }
    false
}

pub open spec fn opt_view(r: Option<Response>) -> Option<ResponseView> {
    match r {
        Some(x) => Some(x@),
        None => None,
    }
}

pub open spec fn handoff_view<T>(h: Option<(T, Response)>) -> Option<(T, ResponseView)> {
    match h {
        Some(x) => Some((x.0, x.1@)),
        None => None,
    }
}

/// What a get for the queues `names` by the client `cid` does: the best job goes
/// to the client, which then holds it; where there is none, the answer is that
/// there is no job, or nothing at all where the client waits.
pub open spec fn get_effect<T>(
    o: JobCenter<T>,
    n: JobCenter<T>,
    names: Seq<Seq<char>>,
    wait: bool,
    cid: usize,
    r: Option<ResponseView>,
) -> bool {
    &&& n.next_id == o.next_id
    &&& n.awaiting_clients@ == o.awaiting_clients@
    &&& match best_candidate(o.queues(), names) {
        Some(c) => {
            let qi = queue_index(o.queues(), c.1).unwrap();
            let job = o.queues()[qi].jobs[c.0];
            &&& r == Some(job_response(job))
            &&& n.queues() == with_holder(o.queues(), qi, c.0, Some(cid))
            &&& n.locks() == o.locks().insert(job.id, (job.queue, cid))
        },
        None => {
            &&& n.queues() == o.queues()
            &&& n.locks() == o.locks()
            &&& r == if wait {
                None
            } else {
                Some(status_only(ResponseStatus::NoJob))
            }
        },
    }
}

/// What putting a job in the queue `name` does: it gets the id `next_id` and goes
/// in order into its queue; where a client waits for that queue, the first such
/// client gets it and holds it (the handoff names that client's channel).
pub open spec fn put_effect<T>(
    o: JobCenter<T>,
    n: JobCenter<T>,
    name: Seq<char>,
    job: Value,
    pri: usize,
    r: ResponseView,
    handoff: Option<(T, ResponseView)>,
) -> bool {
    &&& r == ResponseView { id: Some(o.next_id), ..status_only(ResponseStatus::Okay) }
    &&& match first_waiting(o.waiting(), name) {
        Some(w) => {
            let cid = o.waiting()[w].0;
            let new_job = JobView { id: o.next_id, data: job, pri, locked_by: Some(cid), queue: name };
            &&& handoff == Some((o.awaiting_clients@[w].response_tx, job_response(new_job)))
            &&& n.awaiting_clients@ == o.awaiting_clients@.remove(w)
            &&& n.locks() == o.locks().insert(o.next_id, (name, cid))
            &&& put_into(o.queues(), n.queues(), name, new_job)
        },
        None => {
            let new_job = JobView { id: o.next_id, data: job, pri, locked_by: None, queue: name };
            &&& handoff is None
            &&& n.awaiting_clients@ == o.awaiting_clients@
            &&& n.locks() == o.locks()
            &&& put_into(o.queues(), n.queues(), name, new_job)
        },
    }
}

/// What an abort of the job `id` by the client `request_cid` does: a job that the
/// client holds goes to the first client waiting for its queue (the job then shows
/// `request_cid` as its holder, while its lock names the new client) or is free
/// again; a job that the client does not hold is not touched: an error where
/// another client holds it, no job where none does.
pub open spec fn abort_effect<T>(
    o: JobCenter<T>,
    n: JobCenter<T>,
    request_cid: usize,
    id: usize,
    r: ResponseView,
    handoff: Option<(T, ResponseView)>,
) -> bool {
    &&& n.next_id == o.next_id
    &&& if !o.locks().contains_key(id) || o.locks()[id].1 != request_cid {
        &&& r == status_only(
            if !o.locks().contains_key(id) {
                ResponseStatus::NoJob
            } else {
                ResponseStatus::Error
            },
        )
        &&& handoff is None
        &&& n.queues() == o.queues()
        &&& n.locks() == o.locks()
        &&& n.awaiting_clients@ == o.awaiting_clients@
    } else {
        let name = o.locks()[id].0;
        let qi = queue_index(o.queues(), name).unwrap();
        let j = job_index(o.queues()[qi].jobs, id).unwrap();
        let job = o.queues()[qi].jobs[j];
        &&& r == status_only(ResponseStatus::Okay)
        &&& match first_waiting(o.waiting(), name) {
            Some(w) => {
                &&& handoff == Some((o.awaiting_clients@[w].response_tx, job_response(job)))
                &&& n.awaiting_clients@ == o.awaiting_clients@.remove(w)
                &&& n.locks() == o.locks().insert(id, (name, o.waiting()[w].0))
                &&& n.queues() == with_holder(o.queues(), qi, j, Some(request_cid))
            },
            None => {
                &&& handoff is None
                &&& n.awaiting_clients@ == o.awaiting_clients@
                &&& n.locks() == o.locks().remove(id)
                &&& n.queues() == with_holder(o.queues(), qi, j, None)
            },
        }
    }
}

/// The first queue (in the order the job centre keeps them) that holds a job `id`.
pub open spec fn queue_with_job(qs: Seq<QueueView>, id: usize) -> Option<int>
    decreases qs.len(),
{
    if qs.len() == 0 {
        None
    } else {
        match queue_with_job(qs.drop_last(), id) {
            Some(a) => Some(a),
            None => if job_index(qs.last().jobs, id) is Some {
                Some(qs.len() - 1)
            } else {
                None
            },
        }
    }
}

/// `qs` without the job at index `j` of queue `a`.
pub open spec fn without_job(qs: Seq<QueueView>, a: int, j: int) -> Seq<QueueView> {
    qs.update(a, QueueView { name: qs[a].name, jobs: qs[a].jobs.remove(j) })
}

/// What a delete of the job `id` does: the job leaves its queue, and its lock
/// goes; no job where there is none.
pub open spec fn delete_effect<T>(o: JobCenter<T>, n: JobCenter<T>, id: usize, r: ResponseView) -> bool {
    &&& n.next_id == o.next_id
    &&& n.awaiting_clients@ == o.awaiting_clients@
    &&& match queue_with_job(o.queues(), id) {
        Some(a) => {
            let j = job_index(o.queues()[a].jobs, id).unwrap();
            &&& r == status_only(ResponseStatus::Okay)
            &&& n.queues() == without_job(o.queues(), a, j)
            &&& n.locks() == o.locks().remove(id)
        },
        None => {
            &&& r == status_only(ResponseStatus::NoJob)
            &&& n.queues() == o.queues()
            &&& n.locks() == o.locks()
        },
    }
}

/// What a client asks of the job centre.
pub enum RequestData {
    Get { queues: Vec<String>, wait: bool },
    Put { queue: String, job: Value, pri: usize },
    Delete { id: usize },
    Abort { id: usize },
}

/// A request from the client `cid`, with where its answer goes.
pub struct Request<T> {
    pub data: RequestData,
    pub cid: usize,
    pub response_tx: T,
}

/// An answer to deliver: where, what, and whether a failure to deliver it is
/// fatal (it is not for answers to aborts and deletes).
pub struct Delivery<T> {
    pub to: T,
    pub response: Response,
    pub must_arrive: bool,
}

pub open spec fn deliveries_view<T>(d: Seq<Delivery<T>>) -> Seq<(T, ResponseView, bool)> {
    d.map_values(|x: Delivery<T>| (x.to, x.response@, x.must_arrive))
}

/// The handoff that a list of deliveries starts with, where it has two.
pub open spec fn leading_handoff<T>(d: Seq<(T, ResponseView, bool)>) -> Option<(T, ResponseView)> {
    if d.len() == 2 {
        Some((d[0].0, d[0].1))
    } else {
        None
    }
}

/// What a request does to the job centre `o`, giving `n` and the answers `d`:
/// a get answers its client or, waiting, leaves it among the waiting clients; a
/// put takes the next id; a handoff to a waiting client comes before the answer to
/// the requester.
pub open spec fn request_effect<T>(
    o: JobCenter<T>,
    n: JobCenter<T>,
    req: Request<T>,
    d: Seq<(T, ResponseView, bool)>,
) -> bool {
    match req.data {
        RequestData::Get { queues, wait } => {
            let mid = JobCenter { awaiting_clients: o.awaiting_clients, ..n };
            if d.len() == 1 {
                &&& get_effect(o, mid, names_of(queues@), wait, req.cid, Some(d[0].1))
                &&& d[0].0 == req.response_tx && d[0].2
                &&& n.awaiting_clients@ == o.awaiting_clients@
            } else {
                &&& d.len() == 0
                &&& get_effect(o, mid, names_of(queues@), wait, req.cid, None)
                &&& n.awaiting_clients@ == o.awaiting_clients@.push(
                    AwaitingClient { cid: req.cid, queues, response_tx: req.response_tx },
                )
            }
        },
        RequestData::Put { queue, job, pri } => {
            &&& n.next_id == o.next_id + 1
            &&& 1 <= d.len() <= 2
            &&& put_effect(
                o,
                JobCenter { next_id: o.next_id, ..n },
                queue@,
                job,
                pri,
                d.last().1,
                leading_handoff(d),
            )
            &&& d.len() == 2 ==> d[0].2
            &&& d.last().0 == req.response_tx && d.last().2
        },
        RequestData::Abort { id } => {
            &&& 1 <= d.len() <= 2
            &&& abort_effect(o, n, req.cid, id, d.last().1, leading_handoff(d))
            &&& d.len() == 2 ==> d[0].2
            &&& d.last().0 == req.response_tx && !d.last().2
        },
        RequestData::Delete { id } => {
            &&& d.len() == 1
            &&& delete_effect(o, n, id, d[0].1)
            &&& d[0].0 == req.response_tx && !d[0].2
        },
    }
}

/// The jobs that one connection was handed, which are aborted when it goes.
pub struct ClientJobs {
    pub acquired_ids: Vec<usize>,
}

impl ClientJobs {
    pub fn new() -> (c: Self)
        ensures
            c.acquired_ids@ == Seq::<usize>::empty(),
    {
        ClientJobs { acquired_ids: Vec::new() }
    }

    /// Notes an answer sent to the client: one that hands out a job (and so
    /// carries its id) adds the id.
    pub fn note_response(&mut self, hands_job: bool, id: Option<usize>)
        requires
            hands_job ==> id is Some,
        ensures
            final(self).acquired_ids@ == if hands_job {
                old(self).acquired_ids@.push(id.unwrap())
            } else {
                old(self).acquired_ids@
            },
    {
        if hands_job {
            match id {
                Some(i) => self.acquired_ids.push(i),
                None => {},
            }
        }
    }

    /// The requests to make when the client goes: an abort of each job it was
    /// handed, in order.
    pub fn on_disconnect(&self) -> (r: Vec<RequestData>)
        ensures
            r@.len() == self.acquired_ids@.len(),
            forall|k: int|
                0 <= k < r@.len() ==> (#[trigger] r@[k]) == (RequestData::Abort {
                    id: self.acquired_ids@[k],
                }),
    {
        let mut out: Vec<RequestData> = Vec::new();
        let mut k: usize = 0;
        while k < self.acquired_ids.len()
            invariant
                k <= self.acquired_ids@.len(),
                out@.len() == k,
                forall|j: int|
                    0 <= j < k ==> (#[trigger] out@[j]) == (RequestData::Abort { id: self.acquired_ids@[j] }),
            decreases self.acquired_ids@.len() - k,
        {
            out.push(RequestData::Abort { id: self.acquired_ids[k] });
            k = k + 1;
        }
        out
    }
}

/// A client waiting for a job from one of its queues.
pub struct AwaitingClient<T> {
    pub cid: usize,
    pub queues: Vec<String>,
    /// Where the job goes when one comes.
    pub response_tx: T,
}

/// The job centre: the queues, the jobs that clients hold, and the clients that
/// wait.
pub struct JobCenter<T> {
    pub next_id: usize,
    /// For each job that a client holds: its queue and the client.
    pub job_locks: HashMap<usize, (String, usize)>,
    pub jobs: Vec<JobQueue>,
    pub awaiting_clients: Vec<AwaitingClient<T>>,
}

pub open spec fn job_views(js: Seq<JobInfo>) -> Seq<JobView> {
    js.map_values(|j: JobInfo| j@)
}

/// The index of the last job of `q` that no client holds.
fn last_unlocked_index(q: &Vec<JobInfo>) -> (r: Option<usize>)
    ensures
        r matches Some(i) ==> last_unlocked(job_views(q@)) == Some(i as int) && i < q@.len(),
        r is None ==> last_unlocked(job_views(q@)) is None,
{
    let mut i: usize = q.len();
    assert(job_views(q@).take(i as int) =~= job_views(q@));
    while i > 0
        invariant
            i <= q@.len(),
            last_unlocked(job_views(q@)) == last_unlocked(job_views(q@).take(i as int)),
        decreases i,
    {
        let ghost js = job_views(q@).take(i as int);
        assert(js.drop_last() =~= job_views(q@).take(i - 1));
        assert(js.last() == q@[i - 1]@);
        if q[i - 1].locked_by.is_none() {
            return Some(i - 1);
        }
        i = i - 1;
    }
    None
}

impl<T> JobCenter<T> {
    pub open spec fn queues(&self) -> Seq<QueueView> {
        self.jobs@.map_values(|q: JobQueue| q@)
    }

    /// For each job that a client holds: its queue's name and the client.
    pub open spec fn locks(&self) -> Map<usize, (Seq<char>, usize)> {
        self.job_locks@.map_values(|v: (String, usize)| (v.0@, v.1))
    }

    /// The waiting clients and the queues that each wants.
    pub open spec fn waiting(&self) -> Seq<(usize, Seq<Seq<char>>)> {
        self.awaiting_clients@.map_values(|c: AwaitingClient<T>| (c.cid, names_of(c.queues@)))
    }

    /// What the job centre keeps true between requests.
    pub open spec fn wf(&self) -> bool {
        state_wf(self.queues(), self.locks(), self.next_id)
    }

    /// All that the job centre keeps true between requests: `wf`, each job showing
    /// a holder exactly where a lock on it is kept, and no client waiting for a
    /// queue that holds a free job of positive priority.
    pub open spec fn consistent(&self) -> bool {
        &&& self.wf()
        &&& locks_match(self.queues(), self.locks())
        &&& waiters_starved(self.queues(), self.waiting())
    }

    pub fn new() -> (c: Self)
        ensures
            c.wf(),
            c.consistent(),
            c.next_id == 0,
            c.job_locks@ == Map::<usize, (String, usize)>::empty(),
            c.queues() == Seq::<QueueView>::empty(),
            c.awaiting_clients@.len() == 0,
    {
        let c = JobCenter {
            next_id: 0,
            job_locks: HashMap::new(),
            jobs: Vec::new(),
            awaiting_clients: Vec::new(),
        };
        assert(c.queues() =~= Seq::<QueueView>::empty());
        c
    }

    fn find_queue(&self, name: &String) -> (r: Option<usize>)
        ensures
            r matches Some(i) ==> queue_index(self.queues(), name@) == Some(i as int) && i
                < self.jobs@.len(),
            r is None ==> queue_index(self.queues(), name@) is None,
    {
        let mut i: usize = self.jobs.len();
        assert(self.queues().take(i as int) =~= self.queues());
        while i > 0
            invariant
                i <= self.jobs@.len(),
                queue_index(self.queues(), name@) == queue_index(
                    self.queues().take(i as int),
                    name@,
                ),
            decreases i,
        {
            let ghost qs = self.queues().take(i as int);
            assert(qs.drop_last() =~= self.queues().take(i - 1));
            assert(qs.last() == self.jobs@[i - 1]@);
            if self.jobs[i - 1].name == *name {
                return Some(i - 1);
            }
            i = i - 1;
        }
        None
    }

    /// Finds the job that a request for the queues `queues` gets: its index in
    /// its queue and the queue's name.
    pub fn _get_best_index_queue(&self, queues: &Vec<String>) -> (r: Option<(usize, String)>)
        ensures
            match best_candidate(self.queues(), names_of(queues@)) {
                Some(c) => r matches Some(x) && x.0 == c.0 && x.1@ == c.1,
                None => r is None,
            },
    {
        let mut best_index_in_queue: Option<(usize, String)> = None;
        let mut best_pri: usize = 0;
        let mut k: usize = 0;
        while k < queues.len()
            invariant
                k <= queues@.len(),
                match best_candidate(self.queues(), names_of(queues@.take(k as int))) {
                    Some(c) => best_index_in_queue matches Some(x) && x.0 == c.0 && x.1@ == c.1
                        && best_pri == c.2,
                    None => best_index_in_queue is None && best_pri == 0,
                },
            decreases queues@.len() - k,
        {
            let ghost prefix = names_of(queues@.take(k + 1));
            assert(prefix.drop_last() =~= names_of(queues@.take(k as int)));
            assert(prefix.last() == queues@[k as int]@);
            let q_name = &queues[k];
            match self.find_queue(q_name) {
                Some(qi) => {
                    let q = &self.jobs[qi].jobs;
                    assert(self.queues()[qi as int] == self.jobs@[qi as int]@);
                    let found = last_unlocked_index(q);
                    match found {
                        Some(j) => {
                            assert(self.jobs@[qi as int]@.jobs[j as int] == q@[j as int]@);
                            if q[j].pri > best_pri {
                                best_index_in_queue = Some((j, q_name.clone()));
                                best_pri = q[j].pri;
                            }
                        },
                        None => {},
                    }
                },
                None => {},
            }
            k = k + 1;
        }
        assert(queues@.take(queues@.len() as int) =~= queues@);
        best_index_in_queue
    }

    /// Sets who holds the job at index `i` of queue `qi`.
    fn set_holder(&mut self, qi: usize, i: usize, holder: Option<usize>)
        requires
            qi < old(self).jobs@.len(),
            i < old(self).jobs@[qi as int].jobs@.len(),
        ensures
            final(self).queues() == with_holder(old(self).queues(), qi as int, i as int, holder),
            final(self).next_id == old(self).next_id,
            final(self).job_locks@ == old(self).job_locks@,
            final(self).awaiting_clients@ == old(self).awaiting_clients@,
    {
        self.jobs[qi].jobs[i].locked_by = holder;
        assert(job_views(self.jobs@[qi as int].jobs@) =~= old(self).queues()[qi as int].jobs.update(
            i as int,
            JobView { locked_by: holder, ..old(self).queues()[qi as int].jobs[i as int] },
        ));
        assert(self.queues() =~= with_holder(old(self).queues(), qi as int, i as int, holder));
    }

    /// Finds the first waiting client that wants the queue `name`.
    fn find_waiting(&self, name: &String) -> (r: Option<usize>)
        ensures
            r matches Some(w) ==> first_waiting(self.waiting(), name@) == Some(w as int) && w
                < self.awaiting_clients@.len(),
            r is None ==> first_waiting(self.waiting(), name@) is None,
    {
        let mut i: usize = 0;
        while i < self.awaiting_clients.len()
            invariant
                i <= self.awaiting_clients@.len(),
                first_waiting(self.waiting().take(i as int), name@) is None,
            decreases self.awaiting_clients@.len() - i,
        {
            let ghost w = self.waiting().take(i + 1);
            assert(w.drop_last() =~= self.waiting().take(i as int));
            assert(w.last() == self.waiting()[i as int]);
            if contains_name(&self.awaiting_clients[i].queues, name) {
                proof {
                    lemma_first_waiting_prefix(self.waiting(), name@, i + 1);
                }
                return Some(i);
            }
            i = i + 1;
        }
        assert(self.waiting().take(i as int) =~= self.waiting());
        None
    }

    /// Puts a job in the queue `queue` under the id `next_id`. Where a client waits
    /// for that queue, the first such client gets the job and holds it; the
    /// client's channel and its answer are handed back. Answers with the new id.
    pub fn _put(&mut self, queue: String, job: Value, pri: usize) -> (r: (
        Response,
        Option<(T, Response)>,
    ))
        requires
            old(self).wf(),
            old(self).next_id < usize::MAX,
        ensures
            final(self).next_id == old(self).next_id,
            state_wf(final(self).queues(), final(self).locks(), (old(self).next_id + 1) as usize),
            put_effect(*old(self), *final(self), queue@, job, pri, r.0@, handoff_view(r.1)),
    {
        let mut locked_by: Option<usize> = None;
        let mut handoff: Option<(T, Response)> = None;
        let ghost old_locks = self.locks();
        let ghost old_waiting = self.waiting();
        let ghost old_qs = self.queues();
        match self.find_waiting(&queue) {
            Some(i) => {
                let awaiting_client = self.awaiting_clients.remove(i);
                let response = Response {
                    status: ResponseStatus::Okay,
                    id: Some(self.next_id),
                    job: Some(clone_job(&job)),
                    pri: Some(pri),
                    queue: Some(queue.clone()),
                };
                assert(old_waiting[i as int].0 == awaiting_client.cid);
                locked_by = Some(awaiting_client.cid);
                self.job_locks.insert(self.next_id, (queue.clone(), awaiting_client.cid));
                handoff = Some((awaiting_client.response_tx, response));
            },
            None => {},
        }
        let ghost mid_locks = self.locks();
        assert(mid_locks =~= match locked_by {
            Some(c) => old_locks.insert(self.next_id, (queue@, c)),
            None => old_locks,
        });
        let new_job_info = JobInfo {
            id: self.next_id,
            data: job,
            pri,
            queue: queue.clone(),
            locked_by,
        };
        let qi = match self.find_queue(&queue) {
            Some(qi) => qi,
            None => {
                let empty = JobQueue { name: queue.clone(), jobs: Vec::new() };
                assert(empty@.jobs =~= Seq::<JobView>::empty());
                self.jobs.push(empty);
                assert(self.queues() =~= old_qs.push(QueueView { name: queue@, jobs: seq![] }));
                self.jobs.len() - 1
            },
        };
        let ghost qs_before = self.queues();
        let ghost new_job = new_job_info@;
        proof {
            lemma_queue_index_bounds(old_qs, queue@);
            lemma_queue_index_none(old_qs, queue@);
        }
        assert(qs_before[qi as int] == self.jobs@[qi as int]@);
        assert forall|i: int, j: int|
            0 <= i < j < self.jobs@[qi as int].jobs@.len() implies (#[trigger] self.jobs@[qi as int].jobs@[i]).pri
            <= (#[trigger] self.jobs@[qi as int].jobs@[j]).pri by {
            assert(qs_before[qi as int].jobs[i] == self.jobs@[qi as int].jobs@[i]@);
            assert(qs_before[qi as int].jobs[j] == self.jobs@[qi as int].jobs@[j]@);
            if queue_index(old_qs, queue@) is Some {
                assert(qs_before[qi as int].jobs[i].pri <= qs_before[qi as int].jobs[j].pri);
            }
        }
        let idx = insertion_index(&self.jobs[qi].jobs, pri);
        assert forall|i: int| 0 <= i < idx implies (#[trigger] qs_before[qi as int].jobs[i]).pri <= pri by {
            assert(qs_before[qi as int].jobs[i] == self.jobs@[qi as int].jobs@[i]@);
        }
        assert forall|i: int| idx <= i < qs_before[qi as int].jobs.len() implies (
        #[trigger] qs_before[qi as int].jobs[i]).pri >= pri by {
            assert(qs_before[qi as int].jobs[i] == self.jobs@[qi as int].jobs@[i]@);
        }
        self.jobs[qi].jobs.insert(idx, new_job_info);
        proof {
            assert(job_views(self.jobs@[qi as int].jobs@) =~= qs_before[qi as int].jobs.insert(
                idx as int,
                new_job,
            ));
            assert(self.queues() =~= qs_before.update(
                qi as int,
                QueueView {
                    name: qs_before[qi as int].name,
                    jobs: qs_before[qi as int].jobs.insert(idx as int, new_job),
                },
            ));
            lemma_wf_put(old_qs, old_locks, self.next_id, queue@, new_job, idx as int, self.queues());
        }
        (Response::new_with_status(ResponseStatus::Okay).with_id(self.next_id), handoff)
    }

    /// Finds the job `id` in queue `qi`.
    fn find_in_queue(&self, qi: usize, id: usize) -> (r: Option<usize>)
        requires
            qi < self.jobs@.len(),
        ensures
            r matches Some(j) ==> job_index(self.queues()[qi as int].jobs, id) == Some(j as int)
                && j < self.jobs@[qi as int].jobs@.len(),
            r is None ==> job_index(self.queues()[qi as int].jobs, id) is None,
    {
        let q = &self.jobs[qi].jobs;
        let ghost js = self.queues()[qi as int].jobs;
        assert(js == job_views(q@));
        assert(js.skip(0) =~= js);
        let mut i: usize = 0;
        while i < q.len()
            invariant
                qi < self.jobs@.len(),
                q == &self.jobs@[qi as int].jobs,
                js == self.queues()[qi as int].jobs,
                i <= q@.len(),
                js == job_views(q@),
                job_index(js, id) == match job_index(js.skip(i as int), id) {
                    Some(k) => Some(k + i),
                    None => None,
                },
            decreases q@.len() - i,
        {
            let ghost rest = js.skip(i as int);
            assert(rest.drop_first() =~= js.skip(i + 1));
            assert(rest[0] == q@[i as int]@);
            if q[i].id == id {
                assert(job_index(rest, id) == Some(0int));
                return Some(i);
            }
            i = i + 1;
        }
        assert(js.skip(i as int) =~= Seq::<JobView>::empty());
        None
    }

    /// Gives up the job `id` that the client `request_cid` holds. Where another
    /// client waits for its queue, the first such client gets the job (the job
    /// then shows `request_cid` as its holder, while its lock names the new
    /// client); otherwise the job is free again. A job that the client does not
    /// hold is not touched: an error where another client holds it, no job where
    /// none does.
    pub fn _abort(&mut self, request_cid: usize, id: usize) -> (r: (Response, Option<(T, Response)>))
        requires
            old(self).wf(),
        ensures
            final(self).wf(),
            abort_effect(*old(self), *final(self), request_cid, id, r.0@, handoff_view(r.1)),
    {
        let ghost old_locks = self.locks();
        let ghost old_map = self.job_locks@;
        let ghost old_qs = self.queues();
        match self.job_locks.remove(&id) {
            Some((queue, cid)) => {
                assert(old_map.contains_key(id) && old_map[id] == (queue, cid));
                assert(old_locks[id] == (queue@, cid));
                if cid != request_cid {
                    self.job_locks.insert(id, (queue, cid));
                    assert(self.job_locks@ =~= old_map);
                    return (Response::new_with_status(ResponseStatus::Error), None);
                }
                assert(old_locks.contains_key(id));
                assert(holds_job(old_qs, queue@, id));
                let qi = match self.find_queue(&queue) {
                    Some(qi) => qi,
                    None => {
                        proof {
                            lemma_queue_index_none(old_qs, queue@);
                        }
                        assert(false);
                        0
                    },
                };
                proof {
                    lemma_queue_index_bounds(old_qs, queue@);
                    lemma_job_index_some(old_qs, qi as int, id);
                }
                let j = match self.find_in_queue(qi, id) {
                    Some(j) => j,
                    None => {
                        assert(false);
                        0
                    },
                };
                proof {
                    lemma_job_index_bounds(old_qs[qi as int].jobs, id);
                }
                assert(old_qs[qi as int].jobs[j as int] == self.jobs@[qi as int].jobs@[j as int]@);
                let ghost mid_map = self.job_locks@;
                let ghost job = old_qs[qi as int].jobs[j as int];
                let mut handoff: Option<(T, Response)> = None;
                match self.find_waiting(&queue) {
                    Some(w) => {
                        let awaiting_client = self.awaiting_clients.remove(w);
                        let response = Response {
                            status: ResponseStatus::Okay,
                            id: Some(self.jobs[qi].jobs[j].id),
                            job: Some(clone_job(&self.jobs[qi].jobs[j].data)),
                            pri: Some(self.jobs[qi].jobs[j].pri),
                            queue: Some(queue.clone()),
                        };
                        assert(job.queue == queue@);
                        self.job_locks.insert(self.jobs[qi].jobs[j].id, (queue.clone(), awaiting_client.cid));
                        self.set_holder(qi, j, Some(request_cid));
                        proof {
                            assert(self.locks() =~= old_locks.insert(id, (queue@, awaiting_client.cid)));
                            lemma_wf_hold(old_qs, old_locks, self.next_id, qi as int, j as int, Some(request_cid), Some(awaiting_client.cid));
                        }
                        handoff = Some((awaiting_client.response_tx, response));
                    },
                    None => {
                        self.set_holder(qi, j, None);
                        proof {
                            assert(self.locks() =~= old_locks.remove(id));
                            lemma_wf_hold(old_qs, old_locks, self.next_id, qi as int, j as int, None, None);
                            lemma_wf_unlock(with_holder(old_qs, qi as int, j as int, None), old_locks, self.next_id, id);
                        }
                    },
                }
                (Response::new_with_status(ResponseStatus::Okay), handoff)
            },
            None => {
                assert(self.job_locks@ =~= old_map);
                (Response::new_with_status(ResponseStatus::NoJob), None)
            },
        }
    }

    /// Carries out one request; returns the answers to deliver, in order.
    pub fn _process_request(&mut self, request: Request<T>) -> (d: Vec<Delivery<T>>)
        requires
            old(self).wf(),
            request.data is Put ==> old(self).next_id < usize::MAX,
        ensures
            final(self).wf(),
            request_effect(*old(self), *final(self), request, deliveries_view(d@)),
            old(self).consistent() ==> final(self).consistent(),
    {
        let ghost req = request;
        let mut out: Vec<Delivery<T>> = Vec::new();
        let Request { data, cid, response_tx } = request;
        match data {
            RequestData::Get { queues, wait } => match self._get(&queues, wait, cid) {
                Some(r) => {
                    out.push(Delivery { to: response_tx, response: r, must_arrive: true });
                },
                None => {
                    self.awaiting_clients.push(AwaitingClient { cid, queues, response_tx });
                },
            },
            RequestData::Put { queue, job, pri } => {
                let (response, handoff) = self._put(queue, job, pri);
                match handoff {
                    Some((tx, r)) => {
                        out.push(Delivery { to: tx, response: r, must_arrive: true });
                    },
                    None => {},
                }
                out.push(Delivery { to: response_tx, response, must_arrive: true });
                self.next_id = self.next_id + 1;
            },
            RequestData::Abort { id } => {
                let (response, handoff) = self._abort(cid, id);
                match handoff {
                    Some((tx, r)) => {
                        out.push(Delivery { to: tx, response: r, must_arrive: true });
                    },
                    None => {},
                }
                out.push(Delivery { to: response_tx, response, must_arrive: false });
            },
            RequestData::Delete { id } => {
                let response = self._delete(id);
                out.push(Delivery { to: response_tx, response, must_arrive: false });
            },
        }
        proof {
            if old(self).consistent() {
                lemma_request_consistent(*old(self), *self, req, deliveries_view(out@));
            }
        }
        out
    }

    /// Deletes the job `id` from whichever queue holds it.
    pub fn _delete(&mut self, id: usize) -> (r: Response)
        requires
            old(self).wf(),
        ensures
            final(self).wf(),
            delete_effect(*old(self), *final(self), id, r@),
    {
        let ghost old_qs = self.queues();
        let ghost old_locks = self.locks();
        let ghost old_map = self.job_locks@;
        let mut a: usize = 0;
        while a < self.jobs.len()
            invariant
                a <= self.jobs@.len(),
                self.queues() == old_qs,
                self.job_locks@ == old_map,
                old_qs == old(self).queues(),
                old_locks == old(self).locks(),
                old_locks == old_map.map_values(|v: (String, usize)| (v.0@, v.1)),
                state_wf(old_qs, old_locks, self.next_id),
                self.next_id == old(self).next_id,
                self.awaiting_clients@ == old(self).awaiting_clients@,
                queue_with_job(old_qs.take(a as int), id) is None,
            decreases self.jobs@.len() - a,
        {
            let ghost pre = old_qs.take(a + 1);
            assert(pre.drop_last() =~= old_qs.take(a as int));
            assert(pre.last() == old_qs[a as int]);
            match self.find_in_queue(a, id) {
                Some(j) => {
                    proof {
                        lemma_queue_with_job_prefix(old_qs, id, a + 1);
                        lemma_job_index_bounds(old_qs[a as int].jobs, id);
                    }
                    assert(old_qs[a as int] == self.jobs@[a as int]@);
                    assert(old_qs[a as int].jobs[j as int] == self.jobs@[a as int].jobs@[j as int]@);
                    let removed_job = self.jobs[a].jobs.remove(j);
                    assert(removed_job.id == id);
                    self.job_locks.remove(&removed_job.id);
                    assert(job_views(self.jobs@[a as int].jobs@) =~= old_qs[a as int].jobs.remove(j as int));
                    assert(self.queues() =~= without_job(old_qs, a as int, j as int));
                    assert(self.locks() =~= old_locks.remove(id));
                    assert(queue_with_job(old_qs, id) == Some(a as int));
                    assert(job_index(old_qs[a as int].jobs, id).unwrap() == j);
                    proof {
                        lemma_wf_delete(old_qs, old_locks, self.next_id, a as int, j as int);
                    }
                    return Response::new_with_status(ResponseStatus::Okay);
                },
                None => {},
            }
            a = a + 1;
        }
        assert(old_qs.take(a as int) =~= old_qs);
        Response::new_with_status(ResponseStatus::NoJob)
    }

    /// Hands the best job of the queues `queues` to the client `cid`, which then
    /// holds it; where there is none, answers that there is no job, or nothing at
    /// all where the client waits.
    pub fn _get(&mut self, queues: &Vec<String>, wait: bool, cid: usize) -> (r: Option<Response>)
        requires
            old(self).wf(),
        ensures
            final(self).wf(),
            get_effect(*old(self), *final(self), names_of(queues@), wait, cid, opt_view(r)),
    {
        proof {
            lemma_best_candidate_bounds(self.queues(), names_of(queues@));
        }
        let best = self._get_best_index_queue(queues);
        match best {
            Some((i, q)) => {
                let qi = match self.find_queue(&q) {
                    Some(qi) => qi,
                    None => {
                        assert(false);
                        0
                    },
                };
                proof {
                    lemma_queue_index_bounds(self.queues(), q@);
                }
                assert(self.queues()[qi as int] == self.jobs@[qi as int]@);
                assert(self.jobs@[qi as int]@.jobs[i as int] == self.jobs@[qi as int].jobs@[i as int]@);
                let ghost old_locks = self.locks();
                let ghost old_qs = self.queues();
                let id = self.jobs[qi].jobs[i].id;
                let data = clone_job(&self.jobs[qi].jobs[i].data);
                let pri = self.jobs[qi].jobs[i].pri;
                let queue = self.jobs[qi].jobs[i].queue.clone();
                let lock_queue = self.jobs[qi].jobs[i].queue.clone();
                let response = Some(
                    Response {
                        status: ResponseStatus::Okay,
                        id: Some(id),
                        job: Some(data),
                        pri: Some(pri),
                        queue: Some(queue),
                    },
                );
                self.set_holder(qi, i, Some(cid));
                self.job_locks.insert(id, (lock_queue, cid));
                proof {
                    assert(self.locks() =~= old_locks.insert(id, (lock_queue@, cid)));
                    lemma_wf_hold(old_qs, old_locks, self.next_id, qi as int, i as int, Some(cid), Some(cid));
                    assert(old_qs[qi as int].jobs[i as int].queue == old_qs[qi as int].name);
                }
                response
            },
            None => {
                if !wait {
                    Some(Response::new_with_status(ResponseStatus::NoJob))
                } else {
                    None
                }
            },
        }
    }

}


proof fn lemma_first_waiting_prefix(w: Seq<(usize, Seq<Seq<char>>)>, name: Seq<char>, k: int)
    requires
        0 < k <= w.len(),
        first_waiting(w.take(k - 1), name) is None,
        w[k - 1].1.contains(name),
    ensures
        first_waiting(w, name) == Some(k - 1),
    decreases w.len() - k,
{
    if k == w.len() {
        assert(w.drop_last() =~= w.take(k - 1));
    } else {
        assert(w.drop_last().take(k - 1) =~= w.take(k - 1));
        assert(w.drop_last()[k - 1] == w[k - 1]);
        lemma_first_waiting_prefix(w.drop_last(), name, k);
    }
}

pub proof fn lemma_queue_index_none(qs: Seq<QueueView>, name: Seq<char>)
    ensures
        queue_index(qs, name) is None ==> forall|a: int| 0 <= a < qs.len() ==> (#[trigger] qs[a]).name != name,
    decreases qs.len(),
{
    if qs.len() > 0 {
        lemma_queue_index_none(qs.drop_last(), name);
        if queue_index(qs, name) is None {
            assert forall|a: int| 0 <= a < qs.len() implies (#[trigger] qs[a]).name != name by {
                if a < qs.len() - 1 {
                    assert(qs[a] == qs.drop_last()[a]);
                }
            }
        }
    }
}

/// The queues that a job goes into: the existing queue of its name, or a new
/// empty one at the end.
pub open spec fn queues_for_put(qs: Seq<QueueView>, name: Seq<char>) -> (Seq<QueueView>, int) {
    match queue_index(qs, name) {
        Some(qi) => (qs, qi),
        None => (qs.push(QueueView { name, jobs: seq![] }), qs.len() as int),
    }
}

/// Putting a new job in order keeps what the job centre keeps true, its lock (if a
/// waiting client takes it) included, once `next_id` has moved past it.
pub proof fn lemma_wf_put(
    old_qs: Seq<QueueView>,
    old_locks: Map<usize, (Seq<char>, usize)>,
    next_id: usize,
    name: Seq<char>,
    job: JobView,
    idx: int,
    final_qs: Seq<QueueView>,
)
    requires
        state_wf(old_qs, old_locks, next_id),
        next_id < usize::MAX,
        job.id == next_id,
        job.queue == name,
        ({
            let (qb, qi) = queues_for_put(old_qs, name);
            &&& 0 <= qi < qb.len()
            &&& 0 <= idx <= qb[qi].jobs.len()
            &&& forall|i: int| 0 <= i < idx ==> (#[trigger] qb[qi].jobs[i]).pri <= job.pri
            &&& forall|i: int| idx <= i < qb[qi].jobs.len() ==> (#[trigger] qb[qi].jobs[i]).pri >= job.pri
            &&& final_qs == qb.update(qi, QueueView { name: qb[qi].name, jobs: qb[qi].jobs.insert(idx, job) })
        }),
    ensures
        put_into(old_qs, final_qs, name, job),
        state_wf(
            final_qs,
            match job.locked_by {
                Some(c) => old_locks.insert(next_id, (name, c)),
                None => old_locks,
            },
            (next_id + 1) as usize,
        ),
{
    let (qb, qi) = queues_for_put(old_qs, name);
    lemma_queue_index_bounds(old_qs, name);
    lemma_queue_index_none(old_qs, name);
    let n1 = (next_id + 1) as usize;
    let nj = qb[qi].jobs.insert(idx, job);
    assert(qb[qi].name == name);
    // every job of `qb` is an old job
    assert forall|a: int| 0 <= a < old_qs.len() implies #[trigger] qb[a] == old_qs[a] by {}
    assert(qb.len() == old_qs.len() || (qb.len() == old_qs.len() + 1 && qb[old_qs.len() as int].jobs.len() == 0 && qi == old_qs.len()));
    // the jobs of the final queues
    assert forall|a: int, j: int| 0 <= a < final_qs.len() && 0 <= j < final_qs[a].jobs.len() implies
        (a == qi && j == idx && #[trigger] final_qs[a].jobs[j] == job) || (a == qi && j < idx
        && final_qs[a].jobs[j] == qb[a].jobs[j]) || (a == qi && j > idx && final_qs[a].jobs[j]
        == qb[a].jobs[j - 1]) || (a != qi && final_qs[a].jobs[j] == qb[a].jobs[j]) by {}
    // put_into
    match queue_index(old_qs, name) {
        Some(q) => {
            assert(inserted_in_order(old_qs[qi].jobs, final_qs[qi].jobs, job));
        },
        None => {
            assert(qb[qi].jobs.len() == 0);
            assert(nj =~= seq![job]);
            assert(final_qs =~= old_qs.push(QueueView { name, jobs: seq![job] }));
        },
    }
    // names
    assert(names_distinct(final_qs)) by {
        assert forall|a: int, b: int| 0 <= a < b < final_qs.len() implies (#[trigger] final_qs[a]).name
            != (#[trigger] final_qs[b]).name by {
            assert(final_qs[a].name == qb[a].name);
            assert(final_qs[b].name == qb[b].name);
            if b == old_qs.len() {
                assert(qb[a] == old_qs[a]);
            } else {
                assert(qb[a] == old_qs[a]);
                assert(qb[b] == old_qs[b]);
            }
        }
    }
    assert(jobs_placed(final_qs, n1)) by {
        assert forall|a: int, j: int| 0 <= a < final_qs.len() && 0 <= j < final_qs[a].jobs.len() implies {
            &&& (#[trigger] final_qs[a].jobs[j]).queue == final_qs[a].name
            &&& final_qs[a].jobs[j].id < n1
        } by {
            assert(final_qs[a].name == qb[a].name);
            if a == qi && j == idx {
            } else if a == qi && j < idx {
                assert(qb[a] == old_qs[a]);
                assert(old_qs[a].jobs[j].queue == old_qs[a].name);
            } else if a == qi {
                assert(qb[a] == old_qs[a]);
                assert(old_qs[a].jobs[j - 1].queue == old_qs[a].name);
            } else {
                assert(qb[a] == old_qs[a]);
                assert(old_qs[a].jobs[j].queue == old_qs[a].name);
            }
        }
    }
    assert(queues_sorted(final_qs)) by {
        assert forall|a: int, i: int, j: int|
            0 <= a < final_qs.len() && 0 <= i < j < final_qs[a].jobs.len() implies (
            #[trigger] final_qs[a].jobs[i]).pri <= (#[trigger] final_qs[a].jobs[j]).pri by {
            if a == qi {
                assert(qb[a] == old_qs[a]);
                if i < idx && j > idx {
                    assert(qb[a].jobs[i].pri <= job.pri);
                    assert(qb[a].jobs[j - 1].pri >= job.pri);
                } else if i < idx && j == idx {
                    assert(qb[a].jobs[i].pri <= job.pri);
                } else if i == idx {
                    assert(qb[a].jobs[j - 1].pri >= job.pri);
                } else if i < idx {
                    assert(old_qs[a].jobs[i].pri <= old_qs[a].jobs[j].pri);
                } else {
                    assert(old_qs[a].jobs[i - 1].pri <= old_qs[a].jobs[j - 1].pri);
                }
            } else {
                assert(qb[a] == old_qs[a]);
                assert(old_qs[a].jobs[i].pri <= old_qs[a].jobs[j].pri);
            }
        }
    }
    // where an old job sits now
    let at = |a: int, j: int|
        {
            if a == qi && j >= idx {
                (a, j + 1)
            } else {
                (a, j)
            }
        };
    assert forall|a: int, j: int| 0 <= a < old_qs.len() && 0 <= j < old_qs[a].jobs.len() implies {
        let p = at(a, j);
        &&& 0 <= p.0 < final_qs.len()
        &&& 0 <= p.1 < final_qs[p.0].jobs.len()
        &&& final_qs[p.0].jobs[p.1] == #[trigger] old_qs[a].jobs[j]
        &&& final_qs[p.0].name == old_qs[a].name
    } by {
        assert(qb[a] == old_qs[a]);
    }
    assert(ids_distinct(final_qs)) by {
        assert forall|a: int, i: int, b: int, j: int|
            0 <= a < final_qs.len() && 0 <= i < final_qs[a].jobs.len() && 0 <= b < final_qs.len()
                && 0 <= j < final_qs[b].jobs.len() && (a != b || i != j) implies (
            #[trigger] final_qs[a].jobs[i]).id != (#[trigger] final_qs[b].jobs[j]).id by {
            let pa = if a == qi && i > idx { (a, i - 1) } else { (a, i) };
            let pb = if b == qi && j > idx { (b, j - 1) } else { (b, j) };
            let new_a = a == qi && i == idx;
            let new_b = b == qi && j == idx;
            if new_a && new_b {
            } else if new_a {
                assert(qb[pb.0] == old_qs[pb.0]);
                assert(old_qs[pb.0].jobs[pb.1].id < next_id);
            } else if new_b {
                assert(qb[pa.0] == old_qs[pa.0]);
                assert(old_qs[pa.0].jobs[pa.1].id < next_id);
            } else {
                assert(qb[pa.0] == old_qs[pa.0]);
                assert(qb[pb.0] == old_qs[pb.0]);
                assert(old_qs[pa.0].jobs[pa.1].id != old_qs[pb.0].jobs[pb.1].id);
            }
        }
    }
    let final_locks = match job.locked_by {
        Some(c) => old_locks.insert(next_id, (name, c)),
        None => old_locks,
    };
    assert(locks_held(final_qs, final_locks)) by {
        assert forall|id: usize| #[trigger] final_locks.contains_key(id) implies holds_job(
            final_qs,
            final_locks[id].0,
            id,
        ) by {
            if job.locked_by is Some && id == next_id {
                assert(final_qs[qi].jobs[idx].id == id);
            } else {
                assert(old_locks.contains_key(id));
                assert(holds_job(old_qs, old_locks[id].0, id));
                let (a, j) = choose|a: int, j: int|
                    0 <= a < old_qs.len() && 0 <= j < old_qs[a].jobs.len() && old_qs[a].name
                        == old_locks[id].0 && (#[trigger] old_qs[a].jobs[j]).id == id;
                let p = at(a, j);
                assert(final_qs[p.0].jobs[p.1] == old_qs[a].jobs[j]);
            }
        }
    }
}

/// The index of the first job `id` in `js`.
pub open spec fn job_index(js: Seq<JobView>, id: usize) -> Option<int>
    decreases js.len(),
{
    if js.len() == 0 {
        None
    } else if js[0].id == id {
        Some(0)
    } else {
        match job_index(js.drop_first(), id) {
            Some(k) => Some(k + 1),
            None => None,
        }
    }
}

pub proof fn lemma_job_index_bounds(js: Seq<JobView>, id: usize)
    ensures
        job_index(js, id) matches Some(k) ==> 0 <= k < js.len() && js[k].id == id,
    decreases js.len(),
{
    if js.len() > 0 {
        lemma_job_index_bounds(js.drop_first(), id);
    }
}

pub proof fn lemma_job_index_of(js: Seq<JobView>, id: usize, k: int)
    requires
        0 <= k < js.len(),
        js[k].id == id,
    ensures
        job_index(js, id) is Some,
    decreases js.len(),
{
    if k > 0 {
        lemma_job_index_of(js.drop_first(), id, k - 1);
    }
}

/// Where the job centre keeps its state, a lock names a queue that holds the job.
pub proof fn lemma_job_index_some(qs: Seq<QueueView>, qi: int, id: usize)
    requires
        names_distinct(qs),
        0 <= qi < qs.len(),
        holds_job(qs, qs[qi].name, id),
    ensures
        job_index(qs[qi].jobs, id) is Some,
{
    let (a, j) = choose|a: int, j: int|
        0 <= a < qs.len() && 0 <= j < qs[a].jobs.len() && qs[a].name == qs[qi].name && (
        #[trigger] qs[a].jobs[j]).id == id;
    if a != qi {
        if a < qi {
            assert(qs[a].name != qs[qi].name);
        } else {
            assert(qs[qi].name != qs[a].name);
        }
    }
    lemma_job_index_of(qs[qi].jobs, id, j);
}

/// Dropping a lock keeps what the job centre keeps true.
pub proof fn lemma_wf_unlock(
    qs: Seq<QueueView>,
    locks: Map<usize, (Seq<char>, usize)>,
    next_id: usize,
    id: usize,
)
    requires
        state_wf(qs, locks, next_id),
    ensures
        state_wf(qs, locks.remove(id), next_id),
{
    assert forall|k: usize| #[trigger] locks.remove(id).contains_key(k) implies holds_job(
        qs,
        locks.remove(id)[k].0,
        k,
    ) by {
        assert(locks.contains_key(k));
    }
}

proof fn lemma_queue_with_job_prefix(qs: Seq<QueueView>, id: usize, k: int)
    requires
        0 < k <= qs.len(),
        queue_with_job(qs.take(k - 1), id) is None,
        job_index(qs[k - 1].jobs, id) is Some,
    ensures
        queue_with_job(qs, id) == Some(k - 1),
    decreases qs.len() - k,
{
    if k == qs.len() {
        assert(qs.drop_last() =~= qs.take(k - 1));
    } else {
        assert(qs.drop_last().take(k - 1) =~= qs.take(k - 1));
        assert(qs.drop_last()[k - 1] == qs[k - 1]);
        lemma_queue_with_job_prefix(qs.drop_last(), id, k);
    }
}

/// Deleting a job, and its lock, keeps what the job centre keeps true.
pub proof fn lemma_wf_delete(
    qs: Seq<QueueView>,
    locks: Map<usize, (Seq<char>, usize)>,
    next_id: usize,
    a: int,
    j: int,
)
    requires
        state_wf(qs, locks, next_id),
        0 <= a < qs.len(),
        0 <= j < qs[a].jobs.len(),
    ensures
        state_wf(without_job(qs, a, j), locks.remove(qs[a].jobs[j].id), next_id),
{
    let nq = without_job(qs, a, j);
    let id = qs[a].jobs[j].id;
    // where a remaining job came from
    let from = |b: int, i: int|
        {
            if b == a && i >= j {
                (b, i + 1)
            } else {
                (b, i)
            }
        };
    assert forall|b: int, i: int| 0 <= b < nq.len() && 0 <= i < nq[b].jobs.len() implies {
        let p = from(b, i);
        &&& 0 <= p.1 < qs[p.0].jobs.len()
        &&& p.0 == b
        &&& #[trigger] nq[b].jobs[i] == qs[p.0].jobs[p.1]
        &&& nq[b].name == qs[b].name
    } by {}
    assert(names_distinct(nq)) by {
        assert forall|x: int, y: int| 0 <= x < y < nq.len() implies (#[trigger] nq[x]).name != (
        #[trigger] nq[y]).name by {
            assert(qs[x].name != qs[y].name);
        }
    }
    assert(jobs_placed(nq, next_id)) by {
        assert forall|b: int, i: int| 0 <= b < nq.len() && 0 <= i < nq[b].jobs.len() implies {
            &&& (#[trigger] nq[b].jobs[i]).queue == nq[b].name
            &&& nq[b].jobs[i].id < next_id
        } by {
            let p = from(b, i);
            assert(qs[p.0].jobs[p.1].queue == qs[p.0].name);
        }
    }
    assert(queues_sorted(nq)) by {
        assert forall|b: int, i: int, k: int| 0 <= b < nq.len() && 0 <= i < k < nq[b].jobs.len() implies (
        #[trigger] nq[b].jobs[i]).pri <= (#[trigger] nq[b].jobs[k]).pri by {
            let p = from(b, i);
            let q = from(b, k);
            assert(qs[b].jobs[p.1].pri <= qs[b].jobs[q.1].pri);
        }
    }
    assert(ids_distinct(nq)) by {
        assert forall|b: int, i: int, c: int, k: int|
            0 <= b < nq.len() && 0 <= i < nq[b].jobs.len() && 0 <= c < nq.len() && 0 <= k
                < nq[c].jobs.len() && (b != c || i != k) implies (#[trigger] nq[b].jobs[i]).id != (
            #[trigger] nq[c].jobs[k]).id by {
            let p = from(b, i);
            let q = from(c, k);
            assert(qs[p.0].jobs[p.1].id != qs[q.0].jobs[q.1].id);
        }
    }
    let nl = locks.remove(id);
    assert(locks_held(nq, nl)) by {
        assert forall|k: usize| #[trigger] nl.contains_key(k) implies holds_job(nq, nl[k].0, k) by {
            assert(locks.contains_key(k));
            assert(holds_job(qs, locks[k].0, k));
            let (b, i) = choose|b: int, i: int|
                0 <= b < qs.len() && 0 <= i < qs[b].jobs.len() && qs[b].name == locks[k].0 && (
                #[trigger] qs[b].jobs[i]).id == k;
            if b == a {
                assert(i != j);
                if i < j {
                    assert(nq[b].jobs[i] == qs[b].jobs[i]);
                } else {
                    assert(nq[b].jobs[i - 1] == qs[b].jobs[i]);
                }
            } else {
                assert(nq[b].jobs[i] == qs[b].jobs[i]);
            }
        }
    }
}

pub proof fn lemma_last_unlocked_bounds(js: Seq<JobView>)
    ensures
        last_unlocked(js) matches Some(i) ==> 0 <= i < js.len() && js[i].locked_by is None,
    decreases js.len(),
{
    if js.len() > 0 {
        lemma_last_unlocked_bounds(js.drop_last());
    }
}

pub proof fn lemma_queue_index_bounds(qs: Seq<QueueView>, name: Seq<char>)
    ensures
        queue_index(qs, name) matches Some(i) ==> 0 <= i < qs.len() && qs[i].name == name,
    decreases qs.len(),
{
    if qs.len() > 0 {
        lemma_queue_index_bounds(qs.drop_last(), name);
    }
}

pub proof fn lemma_best_candidate_bounds(qs: Seq<QueueView>, names: Seq<Seq<char>>)
    ensures
        best_candidate(qs, names) matches Some(c) ==> queue_index(qs, c.1) matches Some(qi) && 0
            <= c.0 < qs[qi].jobs.len() && qs[qi].jobs[c.0].locked_by is None && qs[qi].jobs[c.0].pri
            == c.2 && c.2 > 0 && last_unlocked(qs[qi].jobs) == Some(c.0),
    decreases names.len(),
{
    if names.len() > 0 {
        lemma_best_candidate_bounds(qs, names.drop_last());
        lemma_queue_index_bounds(qs, names.last());
        match queue_index(qs, names.last()) {
            Some(qi) => lemma_last_unlocked_bounds(qs[qi].jobs),
            None => {},
        }
    }
}

/// The last job of a queue that no client holds comes after every other such job.
pub proof fn lemma_last_unlocked_is_last(js: Seq<JobView>, j: int)
    requires
        0 <= j < js.len(),
        js[j].locked_by is None,
    ensures
        last_unlocked(js) matches Some(i) && j <= i,
    decreases js.len(),
{
    if j < js.len() - 1 && js.last().locked_by is Some {
        assert(js.drop_last()[j] == js[j]);
        lemma_last_unlocked_is_last(js.drop_last(), j);
    }
}

/// A get hands out the job of highest priority among those that no client holds
/// in the queues it names; where it hands out none, each such job has priority 0.
pub proof fn lemma_get_takes_highest(qs: Seq<QueueView>, names: Seq<Seq<char>>, a: int, j: int)
    requires
        names_distinct(qs),
        queues_sorted(qs),
        0 <= a < qs.len(),
        names.contains(qs[a].name),
        0 <= j < qs[a].jobs.len(),
        qs[a].jobs[j].locked_by is None,
    ensures
        match best_candidate(qs, names) {
            Some(c) => qs[a].jobs[j].pri <= c.2,
            None => qs[a].jobs[j].pri == 0,
        },
    decreases names.len(),
{
    let rest = names.drop_last();
    let prev = best_candidate(qs, rest);
    lemma_best_candidate_bounds(qs, rest);
    lemma_best_candidate_bounds(qs, names);
    if rest.contains(qs[a].name) {
        lemma_get_takes_highest(qs, rest, a, j);
    } else {
        let k = choose|k: int| 0 <= k < names.len() && names[k] == qs[a].name;
        if k < names.len() - 1 {
            assert(rest[k] == names[k]);
        }
        assert(names.last() == qs[a].name);
        lemma_queue_index_bounds(qs, qs[a].name);
        lemma_queue_index_none(qs, qs[a].name);
        let qi = queue_index(qs, qs[a].name).unwrap();
        assert(qi == a) by {
            if qi != a {
                if qi < a {
                    assert(qs[qi].name != qs[a].name);
                } else {
                    assert(qs[a].name != qs[qi].name);
                }
            }
        }
        lemma_last_unlocked_is_last(qs[a].jobs, j);
        let i = last_unlocked(qs[a].jobs).unwrap();
        lemma_last_unlocked_bounds(qs[a].jobs);
        assert(qs[a].jobs[j].pri <= qs[a].jobs[i].pri) by {
            if j < i {
                assert(qs[a].jobs[j].pri <= qs[a].jobs[i].pri);
            }
        }
    }
}

/// A job shows a holder exactly where a lock on it is kept.
pub open spec fn locks_match(qs: Seq<QueueView>, locks: Map<usize, (Seq<char>, usize)>) -> bool {
    forall|a: int, j: int|
        0 <= a < qs.len() && 0 <= j < qs[a].jobs.len() ==> ((#[trigger] qs[a].jobs[j]).locked_by is Some
            <==> locks.contains_key(qs[a].jobs[j].id))
}

/// No client waits for a queue that holds a free job of positive priority.
pub open spec fn waiters_starved(qs: Seq<QueueView>, waiting: Seq<(usize, Seq<Seq<char>>)>) -> bool {
    forall|w: int, a: int, j: int|
        #![trigger waiting[w], qs[a].jobs[j]]
        0 <= w < waiting.len() && 0 <= a < qs.len() && 0 <= j < qs[a].jobs.len()
            && waiting[w].1.contains(qs[a].name) ==> qs[a].jobs[j].locked_by is Some
            || qs[a].jobs[j].pri == 0
}

proof fn lemma_first_waiting_none(w: Seq<(usize, Seq<Seq<char>>)>, name: Seq<char>)
    ensures
        first_waiting(w, name) is None ==> forall|x: int| 0 <= x < w.len() ==> !(#[trigger] w[x]).1.contains(name),
        first_waiting(w, name) matches Some(k) ==> 0 <= k < w.len(),
    decreases w.len(),
{
    if w.len() > 0 {
        lemma_first_waiting_none(w.drop_last(), name);
        if first_waiting(w, name) is None {
            assert forall|x: int| 0 <= x < w.len() implies !(#[trigger] w[x]).1.contains(name) by {
                if x < w.len() - 1 {
                    assert(w[x] == w.drop_last()[x]);
                }
            }
        }
    }
}

/// Changing who holds one job keeps the locks matching where the lock of that job
/// alone changes, as its holder does.
proof fn lemma_match_hold(
    qs: Seq<QueueView>,
    locks: Map<usize, (Seq<char>, usize)>,
    qi: int,
    i: int,
    holder: Option<usize>,
    nl: Map<usize, (Seq<char>, usize)>,
)
    requires
        locks_match(qs, locks),
        ids_distinct(qs),
        0 <= qi < qs.len(),
        0 <= i < qs[qi].jobs.len(),
        holder is Some <==> nl.contains_key(qs[qi].jobs[i].id),
        forall|k: usize| k != qs[qi].jobs[i].id ==> (#[trigger] nl.contains_key(k) == locks.contains_key(k)),
    ensures
        locks_match(with_holder(qs, qi, i, holder), nl),
{
    let nq = with_holder(qs, qi, i, holder);
    assert forall|a: int, j: int| 0 <= a < nq.len() && 0 <= j < nq[a].jobs.len() implies ((
    #[trigger] nq[a].jobs[j]).locked_by is Some <==> nl.contains_key(nq[a].jobs[j].id)) by {
        if !(a == qi && j == i) {
            assert(nq[a].jobs[j] == qs[a].jobs[j]);
            assert(qs[a].jobs[j].id != qs[qi].jobs[i].id);
        }
    }
}

/// Changing who holds one job keeps waiting clients starved where the job becomes
/// held, or no client waits for its queue.
proof fn lemma_starved_hold(
    qs: Seq<QueueView>,
    w: Seq<(usize, Seq<Seq<char>>)>,
    qi: int,
    i: int,
    holder: Option<usize>,
)
    requires
        waiters_starved(qs, w),
        0 <= qi < qs.len(),
        0 <= i < qs[qi].jobs.len(),
        holder is Some || forall|x: int| 0 <= x < w.len() ==> !(#[trigger] w[x]).1.contains(qs[qi].name),
    ensures
        waiters_starved(with_holder(qs, qi, i, holder), w),
{
    let nq = with_holder(qs, qi, i, holder);
    assert forall|x: int, a: int, j: int|
        #![trigger w[x], nq[a].jobs[j]]
        0 <= x < w.len() && 0 <= a < nq.len() && 0 <= j < nq[a].jobs.len() && w[x].1.contains(
            nq[a].name,
        ) implies nq[a].jobs[j].locked_by is Some || nq[a].jobs[j].pri == 0 by {
        if !(a == qi && j == i) {
            assert(nq[a].jobs[j] == qs[a].jobs[j]);
            assert(qs[a].jobs[j].locked_by is Some || qs[a].jobs[j].pri == 0);
        } else if holder is None {
            assert(!w[x].1.contains(qs[qi].name));
        }
    }
}

/// A client leaving the wait keeps the others starved.
proof fn lemma_starved_remove(qs: Seq<QueueView>, w: Seq<(usize, Seq<Seq<char>>)>, k: int)
    requires
        waiters_starved(qs, w),
        0 <= k < w.len(),
    ensures
        waiters_starved(qs, w.remove(k)),
{
    let nw = w.remove(k);
    assert forall|x: int, a: int, j: int|
        #![trigger nw[x], qs[a].jobs[j]]
        0 <= x < nw.len() && 0 <= a < qs.len() && 0 <= j < qs[a].jobs.len() && nw[x].1.contains(
            qs[a].name,
        ) implies qs[a].jobs[j].locked_by is Some || qs[a].jobs[j].pri == 0 by {
        let y = if x < k { x } else { x + 1 };
        assert(nw[x] == w[y]);
        assert(qs[a].jobs[j].locked_by is Some || qs[a].jobs[j].pri == 0);
    }
}

/// Putting a job in keeps the locks matching and the waiting clients starved,
/// where the job is held exactly when it gets a lock, and held where a remaining
/// client waits for its queue.
proof fn lemma_put_extras(
    oq: Seq<QueueView>,
    nq: Seq<QueueView>,
    ol: Map<usize, (Seq<char>, usize)>,
    nl: Map<usize, (Seq<char>, usize)>,
    next_id: usize,
    name: Seq<char>,
    job: JobView,
    w: Seq<(usize, Seq<Seq<char>>)>,
)
    requires
        state_wf(oq, ol, next_id),
        locks_match(oq, ol),
        waiters_starved(oq, w),
        job.id == next_id,
        put_into(oq, nq, name, job),
        job.locked_by is Some <==> nl.contains_key(next_id),
        forall|k: usize| k != next_id ==> (#[trigger] nl.contains_key(k) == ol.contains_key(k)),
        job.locked_by is Some || forall|x: int| 0 <= x < w.len() ==> !(#[trigger] w[x]).1.contains(name),
    ensures
        locks_match(nq, nl),
        waiters_starved(nq, w),
{
    lemma_queue_index_bounds(oq, name);
    // each job of `nq` is `job` or one of `oq` in a queue of the same name
    assert forall|a: int, j: int| 0 <= a < nq.len() && 0 <= j < nq[a].jobs.len() implies ((
    #[trigger] nq[a].jobs[j]).locked_by is Some <==> nl.contains_key(nq[a].jobs[j].id)) && (
    forall|x: int|
        0 <= x < w.len() && (#[trigger] w[x]).1.contains(nq[a].name) ==> nq[a].jobs[j].locked_by
            is Some || nq[a].jobs[j].pri == 0) by {
        match queue_index(oq, name) {
            Some(qi) => {
                if a != qi {
                    assert(nq[a] == oq[a]);
                    assert(oq[a].jobs[j].id < next_id);
                    assert forall|x: int|
                        0 <= x < w.len() && (#[trigger] w[x]).1.contains(nq[a].name) implies nq[a].jobs[j].locked_by
                            is Some || nq[a].jobs[j].pri == 0 by {
                        assert(oq[a].jobs[j].locked_by is Some || oq[a].jobs[j].pri == 0);
                    }
                } else {
                    let k = choose|k: int|
                        0 <= k <= oq[qi].jobs.len() && nq[qi].jobs == oq[qi].jobs.insert(k, job) && (forall|i: int|
                            0 <= i < k ==> (#[trigger] oq[qi].jobs[i]).pri <= job.pri) && (forall|i: int|
                            k <= i < oq[qi].jobs.len() ==> (#[trigger] oq[qi].jobs[i]).pri >= job.pri);
                    if j != k {
                        let i = if j < k { j } else { j - 1 };
                        assert(nq[a].jobs[j] == oq[qi].jobs[i]);
                        assert(oq[qi].jobs[i].id < next_id);
                        assert forall|x: int|
                            0 <= x < w.len() && (#[trigger] w[x]).1.contains(nq[a].name) implies nq[a].jobs[j].locked_by
                                is Some || nq[a].jobs[j].pri == 0 by {
                            assert(oq[qi].jobs[i].locked_by is Some || oq[qi].jobs[i].pri == 0);
                        }
                    } else {
                        assert(nq[a].jobs[j] == job);
                    }
                }
            },
            None => {
                if a < oq.len() {
                    assert(nq[a] == oq[a]);
                    assert(oq[a].jobs[j].id < next_id);
                    assert forall|x: int|
                        0 <= x < w.len() && (#[trigger] w[x]).1.contains(nq[a].name) implies nq[a].jobs[j].locked_by
                            is Some || nq[a].jobs[j].pri == 0 by {
                        assert(oq[a].jobs[j].locked_by is Some || oq[a].jobs[j].pri == 0);
                    }
                } else {
                    assert(nq[a].jobs[j] == job);
                }
            },
        }
    }
    assert forall|x: int, a: int, j: int|
        #![trigger w[x], nq[a].jobs[j]]
        0 <= x < w.len() && 0 <= a < nq.len() && 0 <= j < nq[a].jobs.len() && w[x].1.contains(
            nq[a].name,
        ) implies nq[a].jobs[j].locked_by is Some || nq[a].jobs[j].pri == 0 by {}
}

proof fn lemma_queue_with_job_bounds(qs: Seq<QueueView>, id: usize)
    ensures
        queue_with_job(qs, id) matches Some(a) ==> 0 <= a < qs.len() && job_index(qs[a].jobs, id) is Some,
    decreases qs.len(),
{
    if qs.len() > 0 {
        lemma_queue_with_job_bounds(qs.drop_last(), id);
    }
}

/// Deleting a job keeps the locks matching, its lock going with it, and the
/// waiting clients starved.
proof fn lemma_delete_extras(
    qs: Seq<QueueView>,
    locks: Map<usize, (Seq<char>, usize)>,
    w: Seq<(usize, Seq<Seq<char>>)>,
    a0: int,
    j0: int,
)
    requires
        ids_distinct(qs),
        locks_match(qs, locks),
        waiters_starved(qs, w),
        0 <= a0 < qs.len(),
        0 <= j0 < qs[a0].jobs.len(),
    ensures
        locks_match(without_job(qs, a0, j0), locks.remove(qs[a0].jobs[j0].id)),
        waiters_starved(without_job(qs, a0, j0), w),
{
    let nq = without_job(qs, a0, j0);
    let id = qs[a0].jobs[j0].id;
    assert forall|a: int, j: int| 0 <= a < nq.len() && 0 <= j < nq[a].jobs.len() implies ((
    #[trigger] nq[a].jobs[j]).locked_by is Some <==> locks.remove(id).contains_key(nq[a].jobs[j].id)) && (
    forall|x: int|
        0 <= x < w.len() && (#[trigger] w[x]).1.contains(nq[a].name) ==> nq[a].jobs[j].locked_by
            is Some || nq[a].jobs[j].pri == 0) by {
        let i = if a == a0 && j >= j0 { j + 1 } else { j };
        assert(nq[a].jobs[j] == qs[a].jobs[i]);
        assert(nq[a].name == qs[a].name);
        assert(qs[a].jobs[i].id != id);
        assert forall|x: int|
            0 <= x < w.len() && (#[trigger] w[x]).1.contains(nq[a].name) implies nq[a].jobs[j].locked_by
                is Some || nq[a].jobs[j].pri == 0 by {
            assert(qs[a].jobs[i].locked_by is Some || qs[a].jobs[i].pri == 0);
        }
    }
    assert forall|x: int, a: int, j: int|
        #![trigger w[x], nq[a].jobs[j]]
        0 <= x < w.len() && 0 <= a < nq.len() && 0 <= j < nq[a].jobs.len() && w[x].1.contains(
            nq[a].name,
        ) implies nq[a].jobs[j].locked_by is Some || nq[a].jobs[j].pri == 0 by {}
}

/// Every request keeps the job centre consistent: from `new`, whatever requests
/// come, each job shows a holder exactly where a lock on it is kept, and no client
/// waits while a job of positive priority in one of its queues is free.
pub proof fn lemma_request_consistent<T>(
    o: JobCenter<T>,
    n: JobCenter<T>,
    req: Request<T>,
    d: Seq<(T, ResponseView, bool)>,
)
    requires
        o.consistent(),
        n.wf(),
        request_effect(o, n, req, d),
    ensures
        n.consistent(),
{
    let oq = o.queues();
    let ol = o.locks();
    let ow = o.waiting();
    match req.data {
        RequestData::Get { queues, wait } => {
            let names = names_of(queues@);
            lemma_best_candidate_bounds(oq, names);
            match best_candidate(oq, names) {
                Some(c) => {
                    lemma_queue_index_bounds(oq, c.1);
                    let qi = queue_index(oq, c.1).unwrap();
                    let job = oq[qi].jobs[c.0];
                    lemma_match_hold(oq, ol, qi, c.0, Some(req.cid), n.locks());
                    lemma_starved_hold(oq, ow, qi, c.0, Some(req.cid));
                    assert(n.waiting() =~= ow);
                },
                None => {
                    if d.len() == 1 {
                        assert(n.waiting() =~= ow);
                    } else {
                        let nw = n.waiting();
                        assert(nw =~= ow.push((req.cid, names)));
                        assert forall|x: int, a: int, j: int|
                            #![trigger nw[x], oq[a].jobs[j]]
                            0 <= x < nw.len() && 0 <= a < oq.len() && 0 <= j < oq[a].jobs.len()
                                && nw[x].1.contains(oq[a].name) implies oq[a].jobs[j].locked_by is Some
                                || oq[a].jobs[j].pri == 0 by {
                            if x < ow.len() {
                                assert(nw[x] == ow[x]);
                                assert(oq[a].jobs[j].locked_by is Some || oq[a].jobs[j].pri == 0);
                            } else if oq[a].jobs[j].locked_by is None {
                                lemma_get_takes_highest(oq, names, a, j);
                            }
                        }
                    }
                },
            }
        },
        RequestData::Put { queue, job, pri } => {
            let name = queue@;
            lemma_first_waiting_none(ow, name);
            match first_waiting(ow, name) {
                Some(w) => {
                    let cid = ow[w].0;
                    let new_job = JobView { id: o.next_id, data: job, pri, locked_by: Some(cid), queue: name };
                    lemma_starved_remove(oq, ow, w);
                    assert(n.waiting() =~= ow.remove(w));
                    lemma_put_extras(oq, n.queues(), ol, n.locks(), o.next_id, name, new_job, ow.remove(w));
                },
                None => {
                    let new_job = JobView { id: o.next_id, data: job, pri, locked_by: None, queue: name };
                    assert(n.waiting() =~= ow);
                    assert(!ol.contains_key(o.next_id)) by {
                        if ol.contains_key(o.next_id) {
                            assert(holds_job(oq, ol[o.next_id].0, o.next_id));
                        }
                    }
                    lemma_put_extras(oq, n.queues(), ol, n.locks(), o.next_id, name, new_job, ow);
                },
            }
        },
        RequestData::Abort { id } => {
            if !ol.contains_key(id) || ol[id].1 != req.cid {
                assert(n.waiting() =~= ow);
            } else {
                let name = ol[id].0;
                assert(holds_job(oq, name, id));
                lemma_queue_index_bounds(oq, name);
                lemma_queue_index_none(oq, name);
                let qi = queue_index(oq, name).unwrap();
                lemma_job_index_some(oq, qi, id);
                lemma_job_index_bounds(oq[qi].jobs, id);
                let j = job_index(oq[qi].jobs, id).unwrap();
                lemma_first_waiting_none(ow, name);
                match first_waiting(ow, name) {
                    Some(w) => {
                        lemma_match_hold(oq, ol, qi, j, Some(req.cid), n.locks());
                        lemma_starved_remove(oq, ow, w);
                        lemma_starved_hold(oq, ow.remove(w), qi, j, Some(req.cid));
                        assert(n.waiting() =~= ow.remove(w));
                    },
                    None => {
                        lemma_match_hold(oq, ol, qi, j, None, n.locks());
                        lemma_starved_hold(oq, ow, qi, j, None);
                        assert(n.waiting() =~= ow);
                    },
                }
            }
        },
        RequestData::Delete { id } => {
            assert(n.waiting() =~= ow);
            lemma_queue_with_job_bounds(oq, id);
            match queue_with_job(oq, id) {
                Some(a) => {
                    lemma_job_index_bounds(oq[a].jobs, id);
                    let j = job_index(oq[a].jobs, id).unwrap();
                    lemma_delete_extras(oq, ol, ow, a, j);
                },
                None => {},
            }
        },
    }
}

} // verus!
