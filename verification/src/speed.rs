use vstd::prelude::*;

use crate::text::bytes_equal;

verus! {

/// A camera: where it stands and the road's limit, in miles per hour.
#[derive(Debug, Clone, Copy, PartialEq, Eq, Structural)]
pub struct Camera {
    pub road: u16,
    pub mile: u16,
    pub limit: u16,
}

/// A plate that a camera saw, and when.
#[derive(Debug)]
pub struct Plate {
    pub plate: Vec<u8>,
    pub timestamp: u32,
}

/// An observation: the camera and what it saw.
#[derive(Debug)]
pub struct Snapshot {
    pub from: Camera,
    pub plate: Plate,
}

pub ghost struct SnapshotView {
    pub from: Camera,
    pub plate: Seq<u8>,
    pub timestamp: u32,
}

impl View for Snapshot {
    type V = SnapshotView;

    open spec fn view(&self) -> SnapshotView {
        SnapshotView { from: self.from, plate: self.plate.plate@, timestamp: self.plate.timestamp }
    }
}

/// A speeding ticket; `speed` is in hundredths of miles per hour.
#[derive(Debug)]
pub struct Ticket {
    pub road: u16,
    pub mile1: u16,
    pub timestamp1: u32,
    pub mile2: u16,
    pub timestamp2: u32,
    pub speed: u16,
    pub plate: Vec<u8>,
}

fn copy_bytes(s: &Vec<u8>) -> (r: Vec<u8>)
    ensures
        r@ == s@,
{
    let r = s.clone();
    assert(r@ =~= s@);
    r
}

impl Snapshot {
    pub fn copy(&self) -> (r: Snapshot)
        ensures
            r@ == self@,
    {
        Snapshot {
            from: self.from,
            plate: Plate { plate: copy_bytes(&self.plate.plate), timestamp: self.plate.timestamp },
        }
    }
}

/// Two observations of one car on one road, the earlier first, with the limit to
/// hold them to.
pub struct Candidate {
    pub first: Snapshot,
    pub second: Snapshot,
    pub limit: u16,
}

pub open spec fn candidate_view(c: Candidate) -> (SnapshotView, SnapshotView, u16) {
    (c.first@, c.second@, c.limit)
}

/// Where a new snapshot goes: just before the one before the first snapshot of the
/// same plate that was taken later (at the front where that is the first), or at
/// the end where there is none.
pub open spec fn snapshot_slot(snaps: Seq<SnapshotView>, new: SnapshotView) -> int
    decreases snaps.len(),
{
    if snaps.len() == 0 {
        0
    } else {
        let prev = snapshot_slot(snaps.drop_last(), new);
        if prev < snaps.len() - 1 {
            prev
        } else if snaps.last().timestamp > new.timestamp && snaps.last().plate == new.plate {
            if snaps.len() - 1 == 0 {
                0
            } else {
                snaps.len() - 2
            }
        } else {
            snaps.len() as int
        }
    }
}

/// The candidate pairs for the snapshot `new`, placed at `cur` in `snaps`: each
/// other snapshot of its plate on its road, in order, paired with it by time and
/// with the other snapshot's limit.
pub open spec fn candidates(snaps: Seq<SnapshotView>, new: SnapshotView, cur: int) -> Seq<
    (SnapshotView, SnapshotView, u16),
>
    decreases snaps.len(),
{
    if snaps.len() == 0 {
        Seq::empty()
    } else {
        let prev = candidates(snaps.drop_last(), new, cur);
        let x = snaps.last();
        if x.plate == new.plate && x.from.road == new.from.road && snaps.len() - 1 != cur {
            if new.timestamp > x.timestamp {
                prev.push((x, new, x.from.limit))
            } else {
                prev.push((new, x, x.from.limit))
            }
        } else {
            prev
        }
    }
}

/// The day of a timestamp in seconds.
pub open spec fn day(t: u32) -> u32 {
    t / 86400
}

pub fn day_of(t: u32) -> (d: u32)
    ensures
        d == day(t),
{
    t / 86400
}

/// Whether a ticket's speed is over the limit (in hundredths, saturating).
pub fn over_limit(speed: u16, limit: u16) -> (b: bool)
    ensures
        b == (speed > (if limit * 100 > u16::MAX {
            u16::MAX as int
        } else {
            limit * 100
        })),
{
    let p: u32 = limit as u32 * 100;
    let cap: u32 = if p > 0xffff {
        0xffff
    } else {
        p
    };
    (speed as u32) > cap
}

/// What became of a ticket.
#[derive(Debug, Clone, Copy, PartialEq, Eq, Structural)]
pub enum TicketRoute {
    /// The car already has a ticket for one of the days it covers.
    AlreadyIssued,
    /// A dispatcher for the road is there: send it the ticket.
    ToDispatcher,
    /// No dispatcher for the road yet: the ticket is kept until one comes.
    Stored,
}

pub ghost struct TicketView {
    pub road: u16,
    pub mile1: u16,
    pub timestamp1: u32,
    pub mile2: u16,
    pub timestamp2: u32,
    pub speed: u16,
    pub plate: Seq<u8>,
}

impl View for Ticket {
    type V = TicketView;

    open spec fn view(&self) -> TicketView {
        TicketView {
            road: self.road,
            mile1: self.mile1,
            timestamp1: self.timestamp1,
            mile2: self.mile2,
            timestamp2: self.timestamp2,
            speed: self.speed,
            plate: self.plate@,
        }
    }
}

impl Ticket {
    pub fn copy(&self) -> (r: Ticket)
        ensures
            r@ == self@,
    {
        Ticket {
            road: self.road,
            mile1: self.mile1,
            timestamp1: self.timestamp1,
            mile2: self.mile2,
            timestamp2: self.timestamp2,
            speed: self.speed,
            plate: copy_bytes(&self.plate),
        }
    }
}

pub open spec fn be16(v: u16) -> Seq<u8> {
    seq![(v / 0x100) as u8, (v % 0x100) as u8]
}

pub open spec fn be32(v: u32) -> Seq<u8> {
    seq![
        (v / 0x100_0000) as u8,
        ((v / 0x1_0000) % 0x100) as u8,
        ((v / 0x100) % 0x100) as u8,
        (v % 0x100) as u8,
    ]
}

pub const TICKET_CODE: u8 = 0x21;

/// A ticket on the wire: its code, the plate with its length, then road, mile1,
/// timestamp1, mile2, timestamp2 and speed, big-endian.
pub open spec fn ticket_wire(t: TicketView) -> Seq<u8> {
    seq![TICKET_CODE, t.plate.len() as u8] + t.plate + be16(t.road) + be16(t.mile1) + be32(
        t.timestamp1,
    ) + be16(t.mile2) + be32(t.timestamp2) + be16(t.speed)
}

fn push_be16(out: &mut Vec<u8>, v: u16)
    ensures
        final(out)@ == old(out)@ + be16(v),
{
    out.push((v / 0x100) as u8);
    out.push((v % 0x100) as u8);
    assert(final(out)@ =~= old(out)@ + be16(v));
}

fn push_be32(out: &mut Vec<u8>, v: u32)
    ensures
        final(out)@ == old(out)@ + be32(v),
{
    out.push((v / 0x100_0000) as u8);
    out.push(((v / 0x1_0000) % 0x100) as u8);
    out.push(((v / 0x100) % 0x100) as u8);
    out.push((v % 0x100) as u8);
    assert(final(out)@ =~= old(out)@ + be32(v));
}

impl Ticket {
    /// The bytes that send the ticket to a dispatcher.
    pub fn to_bytes(&self) -> (r: Vec<u8>)
        requires
            self.plate@.len() <= 255,
        ensures
            r@ == ticket_wire(self@),
    {
        let mut out: Vec<u8> = Vec::new();
        out.push(TICKET_CODE);
        out.push(self.plate.len() as u8);
        let mut i: usize = 0;
        while i < self.plate.len()
            invariant
                i <= self.plate@.len(),
                self.plate@.len() <= 255,
                out@ == seq![TICKET_CODE, self.plate@.len() as u8] + self.plate@.take(i as int),
            decreases self.plate@.len() - i,
        {
            out.push(self.plate[i]);
            assert(self.plate@.take(i + 1) =~= self.plate@.take(i as int).push(self.plate@[i as int]));
            i = i + 1;
        }
        assert(self.plate@.take(self.plate@.len() as int) =~= self.plate@);
        push_be16(&mut out, self.road);
        push_be16(&mut out, self.mile1);
        push_be32(&mut out, self.timestamp1);
        push_be16(&mut out, self.mile2);
        push_be32(&mut out, self.timestamp2);
        push_be16(&mut out, self.speed);
        out
    }
}

/// The car with plate `plate` has a ticket for a day from `from` to `to`.
pub open spec fn already_ticketed(issued: Seq<(Seq<u8>, u32)>, plate: Seq<u8>, from: u32, to: u32) -> bool {
    exists|k: int| 0 <= k < issued.len() && (#[trigger] issued[k]).0 == plate && from <= issued[k].1 <= to
}

pub open spec fn issued_view(v: Seq<(Vec<u8>, u32)>) -> Seq<(Seq<u8>, u32)> {
    v.map_values(|x: (Vec<u8>, u32)| (x.0@, x.1))
}

pub open spec fn idle_view(v: Seq<(Ticket, bool)>) -> Seq<(TicketView, bool)> {
    v.map_values(|x: (Ticket, bool)| (x.0@, x.1))
}

pub const ERROR_CODE: u8 = 0x10;

pub const PLATE_CODE: u8 = 0x20;

pub const WANT_HEART_BEAT_CODE: u8 = 0x40;

pub const HEART_BEAT_CODE: u8 = 0x41;

pub const I_AM_CAMERA_CODE: u8 = 0x80;

pub const I_AM_DISPATCHER_CODE: u8 = 0x81;

/// Where a client connection stands.
#[derive(Debug, Clone, Copy, PartialEq, Eq, Structural)]
pub enum ConnState {
    /// Nothing read yet.
    Greeting,
    /// A heartbeat was asked for before the client said what it is.
    GreetedWithHeartbeat,
    /// The client is a camera.
    Camera,
    /// The client is a dispatcher.
    Dispatcher,
    /// The connection is over.
    Done,
}

/// What to do after reading a message code.
#[derive(Debug, Clone, Copy, PartialEq, Eq, Structural)]
pub enum ConnAction {
    /// Read the interval and send heartbeats at it, alongside the rest.
    StartHeartbeat,
    /// Read the interval and send heartbeats at it until the client goes.
    HeartbeatUntilGone,
    /// Read where the camera stands.
    ReadCamera,
    /// Read the dispatcher's roads and register it.
    ReadDispatcher,
    /// Read a plate and record the snapshot.
    ReadPlate,
    /// Send an error and close.
    SendError,
    /// Close.
    Close,
}

/// The next state and action of a connection in `state` that read the message
/// code `code` (`None` where reading failed).
pub open spec fn conn_step(state: ConnState, code: Option<u8>) -> (ConnState, ConnAction) {
    match code {
        None => (ConnState::Done, ConnAction::Close),
        Some(c) => match state {
            ConnState::Greeting => if c == WANT_HEART_BEAT_CODE {
                (ConnState::GreetedWithHeartbeat, ConnAction::StartHeartbeat)
            } else if c == I_AM_DISPATCHER_CODE {
                (ConnState::Dispatcher, ConnAction::ReadDispatcher)
            } else if c == I_AM_CAMERA_CODE {
                (ConnState::Camera, ConnAction::ReadCamera)
            } else {
                (ConnState::Done, ConnAction::SendError)
            },
            ConnState::GreetedWithHeartbeat => if c == I_AM_DISPATCHER_CODE {
                (ConnState::Dispatcher, ConnAction::ReadDispatcher)
            } else if c == I_AM_CAMERA_CODE {
                (ConnState::Camera, ConnAction::ReadCamera)
            } else {
                (ConnState::Done, ConnAction::SendError)
            },
            ConnState::Camera => if c == PLATE_CODE {
                (ConnState::Camera, ConnAction::ReadPlate)
            } else if c == WANT_HEART_BEAT_CODE {
                (ConnState::Camera, ConnAction::StartHeartbeat)
            } else {
                (ConnState::Done, ConnAction::SendError)
            },
            ConnState::Dispatcher => if c == WANT_HEART_BEAT_CODE {
                (ConnState::Done, ConnAction::HeartbeatUntilGone)
            } else {
                (ConnState::Done, ConnAction::SendError)
            },
            ConnState::Done => (ConnState::Done, ConnAction::Close),
        },
    }
}

/// Decides what a connection does with the message code it read: a client may
/// ask for a heartbeat once before it says whether it is a camera or a
/// dispatcher; a camera then sends plates and heartbeat requests; a dispatcher
/// one heartbeat request; anything else is an error.
pub fn next_step(state: ConnState, code: Option<u8>) -> (r: (ConnState, ConnAction))
    ensures
        r == conn_step(state, code),
{
    match code {
        None => (ConnState::Done, ConnAction::Close),
        Some(c) => match state {
            ConnState::Greeting => if c == WANT_HEART_BEAT_CODE {
                (ConnState::GreetedWithHeartbeat, ConnAction::StartHeartbeat)
            } else if c == I_AM_DISPATCHER_CODE {
                (ConnState::Dispatcher, ConnAction::ReadDispatcher)
            } else if c == I_AM_CAMERA_CODE {
                (ConnState::Camera, ConnAction::ReadCamera)
            } else {
                (ConnState::Done, ConnAction::SendError)
            },
            ConnState::GreetedWithHeartbeat => if c == I_AM_DISPATCHER_CODE {
                (ConnState::Dispatcher, ConnAction::ReadDispatcher)
            } else if c == I_AM_CAMERA_CODE {
                (ConnState::Camera, ConnAction::ReadCamera)
            } else {
                (ConnState::Done, ConnAction::SendError)
            },
            ConnState::Camera => if c == PLATE_CODE {
                (ConnState::Camera, ConnAction::ReadPlate)
            } else if c == WANT_HEART_BEAT_CODE {
                (ConnState::Camera, ConnAction::StartHeartbeat)
            } else {
                (ConnState::Done, ConnAction::SendError)
            },
            ConnState::Dispatcher => if c == WANT_HEART_BEAT_CODE {
                (ConnState::Done, ConnAction::HeartbeatUntilGone)
            } else {
                (ConnState::Done, ConnAction::SendError)
            },
            ConnState::Done => (ConnState::Done, ConnAction::Close),
        },
    }
}

/// A finished connection stays finished, and a client asks for a heartbeat before
/// it says what it is at most once.
pub proof fn lemma_conn_steps(state: ConnState, code: Option<u8>)
    ensures
        state == ConnState::Done ==> conn_step(state, code) == (ConnState::Done, ConnAction::Close),
        state == ConnState::GreetedWithHeartbeat ==> conn_step(state, code).1
            != ConnAction::StartHeartbeat,
        conn_step(state, code).1 == ConnAction::SendError ==> conn_step(state, code).0
            == ConnState::Done,
{
}

/// What each message does to a connection that has not said what it is yet: a
/// client that says it is a camera (0x80) becomes a camera and is read as one; one
/// that says it is a dispatcher (0x81) becomes a dispatcher; a first heartbeat
/// request (0x40) is served and the client asked again what it is; a plate
/// (0x20) or anything else is an error that ends the connection.
pub proof fn lemma_identification(state: ConnState, c: u8)
    requires
        state == ConnState::Greeting || state == ConnState::GreetedWithHeartbeat,
    ensures
        c == 0x80 ==> conn_step(state, Some(c)) == (ConnState::Camera, ConnAction::ReadCamera),
        c == 0x81 ==> conn_step(state, Some(c)) == (ConnState::Dispatcher, ConnAction::ReadDispatcher),
        c == 0x40 && state == ConnState::Greeting ==> conn_step(state, Some(c)) == (
            ConnState::GreetedWithHeartbeat,
            ConnAction::StartHeartbeat,
        ),
        c != 0x80 && c != 0x81 && !(c == 0x40 && state == ConnState::Greeting) ==> conn_step(
            state,
            Some(c),
        ) == (ConnState::Done, ConnAction::SendError),
        conn_step(state, None) == (ConnState::Done, ConnAction::Close),
{
}

/// What each message does to a camera and to a dispatcher: a camera stays a camera
/// through plates (0x20, read as snapshots) and heartbeat requests (0x40); a
/// dispatcher's heartbeat request (0x40) is served until it goes; anything else
/// is an error that ends the connection, and a failed read closes it.
pub proof fn lemma_identified_steps(c: u8)
    ensures
        c == 0x20 ==> conn_step(ConnState::Camera, Some(c)) == (ConnState::Camera, ConnAction::ReadPlate),
        c == 0x40 ==> conn_step(ConnState::Camera, Some(c)) == (
            ConnState::Camera,
            ConnAction::StartHeartbeat,
        ),
        c != 0x20 && c != 0x40 ==> conn_step(ConnState::Camera, Some(c)) == (
            ConnState::Done,
            ConnAction::SendError,
        ),
        c == 0x40 ==> conn_step(ConnState::Dispatcher, Some(c)) == (
            ConnState::Done,
            ConnAction::HeartbeatUntilGone,
        ),
        c != 0x40 ==> conn_step(ConnState::Dispatcher, Some(c)) == (
            ConnState::Done,
            ConnAction::SendError,
        ),
        conn_step(ConnState::Camera, None) == (ConnState::Done, ConnAction::Close),
        conn_step(ConnState::Dispatcher, None) == (ConnState::Done, ConnAction::Close),
{
}

/// There is a dispatcher for `road`.
pub open spec fn has_dispatcher<D>(d: Seq<(u16, Vec<D>)>, road: u16) -> bool {
    exists|k: int| 0 <= k < d.len() && (#[trigger] d[k]).0 == road
}

/// Each road with a dispatcher, and how many dispatcher channels it has.
pub open spec fn channel_counts<D>(d: Seq<(u16, Vec<D>)>) -> Seq<(u16, nat)> {
    d.map_values(|x: (u16, Vec<D>)| (x.0, x.1@.len()))
}

/// The first place of `road` in `d`, or -1.
pub open spec fn road_slot(d: Seq<(u16, nat)>, road: u16) -> int
    decreases d.len(),
{
    if d.len() == 0 {
        -1
    } else {
        let p = road_slot(d.drop_last(), road);
        if p >= 0 {
            p
        } else if d.last().0 == road {
            d.len() - 1
        } else {
            -1
        }
    }
}

/// One more channel for `road`: in its entry, or in a new one at the end.
pub open spec fn with_channel(d: Seq<(u16, nat)>, road: u16) -> Seq<(u16, nat)> {
    let k = road_slot(d, road);
    if k >= 0 {
        d.update(k, (road, d[k].1 + 1))
    } else {
        d.push((road, 1))
    }
}

/// One more channel for each of `roads`, in turn.
pub open spec fn with_channels(d: Seq<(u16, nat)>, roads: Seq<u16>) -> Seq<(u16, nat)>
    decreases roads.len(),
{
    if roads.len() == 0 {
        d
    } else {
        with_channel(with_channels(d, roads.drop_last()), roads.last())
    }
}

/// No road has two entries.
pub open spec fn roads_distinct(d: Seq<(u16, nat)>) -> bool {
    forall|i: int, j: int| 0 <= i < j < d.len() ==> (#[trigger] d[i]).0 != (#[trigger] d[j]).0
}

proof fn lemma_with_channels_distinct(d: Seq<(u16, nat)>, roads: Seq<u16>)
    requires
        roads_distinct(d),
    ensures
        roads_distinct(with_channels(d, roads)),
    decreases roads.len(),
{
    if roads.len() > 0 {
        let prev = with_channels(d, roads.drop_last());
        lemma_with_channels_distinct(d, roads.drop_last());
        lemma_road_slot_bound(prev, roads.last());
        let next = with_channel(prev, roads.last());
        assert forall|i: int, j: int| 0 <= i < j < next.len() implies (#[trigger] next[i]).0 != (
        #[trigger] next[j]).0 by {
            if j == prev.len() {
                assert(next[i] == prev[i]);
            } else {
                assert(next[i].0 == prev[i].0 && next[j].0 == prev[j].0);
            }
        }
    }
}

/// `new` keeps each road of `old` in its place with its channels in theirs, and
/// every other channel in it is a clone of `tx`.
pub open spec fn keeps_and_adds<D: Clone>(old: Seq<(u16, Vec<D>)>, new: Seq<(u16, Vec<D>)>, tx: D) -> bool {
    &&& old.len() <= new.len()
    &&& forall|a: int|
        0 <= a < old.len() ==> (#[trigger] new[a]).0 == old[a].0 && old[a].1@.len() <= new[a].1@.len()
    &&& forall|a: int, j: int|
        0 <= a < new.len() && 0 <= j < new[a].1@.len() ==> if a < old.len() && j < old[a].1@.len() {
            new[a].1@[j] == old[a].1@[j]
        } else {
            cloned(tx, #[trigger] new[a].1@[j])
        }
}

/// The entry of `road` in `d` ends with a clone of `tx`.
pub open spec fn ends_with_clone<D: Clone>(d: Seq<(u16, Vec<D>)>, road: u16, tx: D) -> bool {
    let a = road_slot(channel_counts(d), road);
    &&& 0 <= a < d.len()
    &&& d[a].1@.len() > 0
    &&& cloned(tx, d[a].1@.last())
}

proof fn lemma_road_slot_same_roads(c1: Seq<(u16, nat)>, c2: Seq<(u16, nat)>, road: u16)
    requires
        c1.len() == c2.len(),
        forall|i: int| 0 <= i < c1.len() ==> (#[trigger] c1[i]).0 == c2[i].0,
    ensures
        road_slot(c1, road) == road_slot(c2, road),
    decreases c1.len(),
{
    if c1.len() > 0 {
        lemma_road_slot_same_roads(c1.drop_last(), c2.drop_last(), road);
        assert(c1.last().0 == c2[c1.len() - 1].0);
    }
}

/// A waiting ticket that a new dispatcher for `roads` takes: one not sent yet,
/// on one of its roads.
pub open spec fn taken_by(x: (TicketView, bool), roads: Seq<u16>) -> bool {
    !x.1 && roads.contains(x.0.road)
}

/// The waiting tickets that a new dispatcher for `roads` takes, in order.
pub open spec fn released(idle: Seq<(TicketView, bool)>, roads: Seq<u16>) -> Seq<TicketView>
    decreases idle.len(),
{
    if idle.len() == 0 {
        Seq::empty()
    } else {
        let p = released(idle.drop_last(), roads);
        if taken_by(idle.last(), roads) {
            p.push(idle.last().0)
        } else {
            p
        }
    }
}

/// The waiting tickets after a new dispatcher for `roads` took its own: those are
/// marked sent.
pub open spec fn after_release(idle: Seq<(TicketView, bool)>, roads: Seq<u16>) -> Seq<(TicketView, bool)> {
    idle.map_values(|x: (TicketView, bool)| if taken_by(x, roads) { (x.0, true) } else { x })
}

fn contains_road(roads: &Vec<u16>, road: u16) -> (b: bool)
    ensures
        b == roads@.contains(road),
{
    let mut i: usize = 0;
    while i < roads.len()
        invariant
            i <= roads@.len(),
            forall|j: int| 0 <= j < i ==> roads@[j] != road,
        decreases roads@.len() - i,
    {
        if roads[i] == road {
            return true;
        }
        i = i + 1;
    }
    false
}

/// The tickets, cars and days, and dispatchers that the server keeps.
pub struct State<D> {
    pub snapshots: Vec<Snapshot>,
    pub issued_tickets: Vec<(Vec<u8>, u32)>,
    /// Tickets that wait for a dispatcher, and whether they were sent.
    pub idle_tickets: Vec<(Ticket, bool)>,
    /// Each road with a dispatcher, and its dispatchers' channels.
    pub dispatchrs: Vec<(u16, Vec<D>)>,
}

pub open spec fn snapshot_views(s: Seq<Snapshot>) -> Seq<SnapshotView> {
    s.map_values(|x: Snapshot| x@)
}

impl<D> State<D> {
    /// What the server keeps true: at most one ticket per car and day, and each
    /// road listed once among the dispatchers.
    pub open spec fn wf(&self) -> bool {
        &&& one_per_day(issued_view(self.issued_tickets@))
        &&& roads_distinct(channel_counts(self.dispatchrs@))
    }

    pub fn new() -> (s: Self)
        ensures
            s.wf(),
            s.snapshots@.len() == 0,
            s.issued_tickets@.len() == 0,
            s.idle_tickets@.len() == 0,
            s.dispatchrs@.len() == 0,
    {
        State {
            snapshots: Vec::new(),
            issued_tickets: Vec::new(),
            idle_tickets: Vec::new(),
            dispatchrs: Vec::new(),
        }
    }

    /// Records a new snapshot and returns the pairs of observations that it makes
    /// with the earlier ones of its car on its road.
    pub fn record_snapshot(&mut self, new_snap: Snapshot) -> (c: Vec<Candidate>)
        ensures
            ({
                let old_s = snapshot_views(old(self).snapshots@);
                let cur = snapshot_slot(old_s, new_snap@);
                let new_s = old_s.insert(cur, new_snap@);
                &&& 0 <= cur <= old_s.len()
                &&& snapshot_views(final(self).snapshots@) == new_s
                &&& c@.map_values(|x: Candidate| candidate_view(x)) == candidates(new_s, new_snap@, cur)
            }),
            final(self).issued_tickets@ == old(self).issued_tickets@,
            final(self).idle_tickets@ == old(self).idle_tickets@,
            final(self).dispatchrs@ == old(self).dispatchrs@,
            old(self).wf() ==> final(self).wf(),
    {
        let ghost old_s = snapshot_views(self.snapshots@);
        let mut idx: usize = 0;
        let n = self.snapshots.len();
        while idx < n && !(self.snapshots[idx].plate.timestamp > new_snap.plate.timestamp
            && bytes_equal(self.snapshots[idx].plate.plate.as_slice(), new_snap.plate.plate.as_slice()))
            invariant
                n == self.snapshots@.len(),
                idx <= n,
                self.snapshots@ == old(self).snapshots@,
                old_s == snapshot_views(self.snapshots@),
                snapshot_slot(old_s.take(idx as int), new_snap@) == idx,
            decreases n - idx,
        {
            assert(old_s.take(idx + 1).drop_last() =~= old_s.take(idx as int));
            assert(old_s.take(idx + 1).last() == self.snapshots@[idx as int]@);
            idx = idx + 1;
        }
        let cur: usize;
        if idx < n {
            cur = if idx == 0 { 0 } else { idx - 1 };
            proof {
                assert(old_s.take(idx + 1).drop_last() =~= old_s.take(idx as int));
                assert(old_s.take(idx + 1).last() == self.snapshots@[idx as int]@);
                lemma_slot_settled(old_s, new_snap@, idx as int + 1);
            }
        } else {
            cur = n;
            assert(old_s.take(n as int) =~= old_s);
        }
        let ghost nv = new_snap@;
        let nroad = new_snap.from.road;
        let nts = new_snap.plate.timestamp;
        let nplate = copy_bytes(&new_snap.plate.plate);
        self.snapshots.insert(cur, new_snap);
        let ghost new_s = old_s.insert(cur as int, nv);
        assert(snapshot_views(self.snapshots@) =~= new_s);
        let mut out: Vec<Candidate> = Vec::new();
        let mut i: usize = 0;
        while i < self.snapshots.len()
            invariant
                i <= self.snapshots@.len(),
                snapshot_views(self.snapshots@) == new_s,
                nv.plate == nplate@ && nv.from.road == nroad && nv.timestamp == nts,
                nv == new_s[cur as int],
                cur < self.snapshots@.len(),
                out@.map_values(|x: Candidate| candidate_view(x)) == candidates(new_s.take(i as int), nv, cur as int),
                self.issued_tickets@ == old(self).issued_tickets@,
                self.idle_tickets@ == old(self).idle_tickets@,
                self.dispatchrs@ == old(self).dispatchrs@,
            decreases self.snapshots@.len() - i,
        {
            assert(new_s.take(i + 1).drop_last() =~= new_s.take(i as int));
            assert(new_s.take(i + 1).last() == self.snapshots@[i as int]@);
            let ghost before = out@.map_values(|x: Candidate| candidate_view(x));
            let x = &self.snapshots[i];
            if bytes_equal(x.plate.plate.as_slice(), nplate.as_slice()) && x.from.road == nroad && i != cur {
                let newer = self.snapshots[cur].copy();
                let other = x.copy();
                if nts > x.plate.timestamp {
                    out.push(Candidate { first: other, second: newer, limit: x.from.limit });
                } else {
                    out.push(Candidate { first: newer, second: other, limit: x.from.limit });
                }
                assert(out@.map_values(|x: Candidate| candidate_view(x)) =~= candidates(new_s.take(i + 1), nv, cur as int));
            } else {
                assert(out@.map_values(|x: Candidate| candidate_view(x)) =~= before);
            }
            i = i + 1;
        }
        assert(new_s.take(new_s.len() as int) =~= new_s);
        out
    }
}

impl<D: Clone> State<D> {
    fn find_road(&self, road: u16) -> (r: Option<usize>)
        ensures
            r matches Some(k) ==> k < self.dispatchrs@.len() && k == road_slot(
                channel_counts(self.dispatchrs@),
                road,
            ),
            r is None ==> road_slot(channel_counts(self.dispatchrs@), road) == -1,
            r is None <==> !has_dispatcher(self.dispatchrs@, road),
    {
        let ghost c = channel_counts(self.dispatchrs@);
        let mut k: usize = 0;
        while k < self.dispatchrs.len()
            invariant
                k <= self.dispatchrs@.len(),
                c == channel_counts(self.dispatchrs@),
                road_slot(c.take(k as int), road) == -1,
                forall|j: int| 0 <= j < k ==> self.dispatchrs@[j].0 != road,
            decreases self.dispatchrs@.len() - k,
        {
            assert(c.take(k + 1).drop_last() =~= c.take(k as int));
            if self.dispatchrs[k].0 == road {
                proof {
                    lemma_road_slot_prefix(c, road, k as int + 1);
                }
                return Some(k);
            }
            k = k + 1;
        }
        assert(c.take(k as int) =~= c);
        None
    }

    /// Decides what becomes of a ticket: none where the car already has one for a
    /// day that it covers; otherwise its days are recorded, and it goes to a
    /// dispatcher of its road, or waits for one.
    pub fn issue_ticket(&mut self, ticket: &Ticket) -> (r: TicketRoute)
        ensures
            ({
                let t = ticket@;
                let from = day(t.timestamp1);
                let to = day(t.timestamp2);
                if already_ticketed(issued_view(old(self).issued_tickets@), t.plate, from, to) {
                    &&& r == TicketRoute::AlreadyIssued
                    &&& issued_view(final(self).issued_tickets@) == issued_view(old(self).issued_tickets@)
                    &&& idle_view(final(self).idle_tickets@) == idle_view(old(self).idle_tickets@)
                } else {
                    &&& issued_view(final(self).issued_tickets@) == issued_view(old(self).issued_tickets@)
                        + days_of(t.plate, from, to)
                    &&& if has_dispatcher(old(self).dispatchrs@, t.road) {
                        &&& r == TicketRoute::ToDispatcher
                        &&& idle_view(final(self).idle_tickets@) == idle_view(old(self).idle_tickets@)
                    } else {
                        &&& r == TicketRoute::Stored
                        &&& idle_view(final(self).idle_tickets@) == idle_view(old(self).idle_tickets@).push((t, false))
                    }
                }
            }),
            snapshot_views(final(self).snapshots@) == snapshot_views(old(self).snapshots@),
            final(self).dispatchrs@ == old(self).dispatchrs@,
            old(self).wf() ==> final(self).wf(),
    {
        proof {
            if self.wf() && !already_ticketed(
                issued_view(self.issued_tickets@),
                ticket@.plate,
                day(ticket@.timestamp1),
                day(ticket@.timestamp2),
            ) {
                lemma_one_ticket_per_day(
                    issued_view(self.issued_tickets@),
                    ticket@.plate,
                    day(ticket@.timestamp1),
                    day(ticket@.timestamp2),
                );
            }
        }
        let from_day = day_of(ticket.timestamp1);
        let to_day = day_of(ticket.timestamp2);
        let ghost iv = issued_view(self.issued_tickets@);
        let mut k: usize = 0;
        while k < self.issued_tickets.len()
            invariant
                k <= self.issued_tickets@.len(),
                from_day == day(ticket@.timestamp1),
                to_day == day(ticket@.timestamp2),
                iv == issued_view(self.issued_tickets@),
                self.issued_tickets@ == old(self).issued_tickets@,
                self.snapshots@ == old(self).snapshots@,
                self.dispatchrs@ == old(self).dispatchrs@,
                self.idle_tickets@ == old(self).idle_tickets@,
                forall|j: int| 0 <= j < k ==> !((#[trigger] iv[j]).0 == ticket@.plate && from_day <= iv[j].1 <= to_day),
            decreases self.issued_tickets@.len() - k,
        {
            let entry = &self.issued_tickets[k];
            assert(iv[k as int] == (entry.0@, entry.1));
            if entry.1 >= from_day && entry.1 <= to_day && bytes_equal(entry.0.as_slice(), ticket.plate.as_slice()) {
                assert(already_ticketed(iv, ticket@.plate, from_day, to_day));
                return TicketRoute::AlreadyIssued;
            }
            k = k + 1;
        }
        assert(!already_ticketed(iv, ticket@.plate, from_day, to_day));
        if from_day <= to_day {
            let mut d: u32 = from_day;
            loop
                invariant_except_break
                    from_day <= d <= to_day,
                    issued_view(self.issued_tickets@) == iv + Seq::new(
                        (d - from_day) as nat,
                        |i: int| (ticket@.plate, (from_day + i) as u32),
                    ),
                invariant
                    iv == issued_view(old(self).issued_tickets@),
                    self.snapshots@ == old(self).snapshots@,
                    self.dispatchrs@ == old(self).dispatchrs@,
                    self.idle_tickets@ == old(self).idle_tickets@,
                ensures
                    issued_view(self.issued_tickets@) == iv + Seq::new(
                        (to_day - from_day + 1) as nat,
                        |i: int| (ticket@.plate, (from_day + i) as u32),
                    ),
                decreases to_day - d,
            {
                let ghost before = issued_view(self.issued_tickets@);
                self.issued_tickets.push((copy_bytes(&ticket.plate), d));
                assert(issued_view(self.issued_tickets@) =~= before.push((ticket@.plate, d)));
                if d == to_day {
                    assert(issued_view(self.issued_tickets@) =~= iv + Seq::new(
                        (to_day - from_day + 1) as nat,
                        |i: int| (ticket@.plate, (from_day + i) as u32),
                    ));
                    break;
                }
                d = d + 1;
                assert(issued_view(self.issued_tickets@) =~= iv + Seq::new(
                    (d - from_day) as nat,
                    |i: int| (ticket@.plate, (from_day + i) as u32),
                ));
            }
        } else {
            assert(issued_view(self.issued_tickets@) =~= iv + Seq::<(Seq<u8>, u32)>::empty());
        }
        match self.find_road(ticket.road) {
            Some(_) => TicketRoute::ToDispatcher,
            None => {
                let ghost before = idle_view(self.idle_tickets@);
                self.idle_tickets.push((ticket.copy(), false));
                assert(idle_view(self.idle_tickets@) =~= before.push((ticket@, false)));
                TicketRoute::Stored
            },
        }
    }

    /// Registers a dispatcher for `roads`, reached through `tx`, and hands it the
    /// waiting tickets that it takes, which are then marked sent.
    pub fn register_dispatcher(&mut self, roads: &Vec<u16>, tx: D) -> (sent: Vec<Ticket>)
        ensures
            channel_counts(final(self).dispatchrs@) == with_channels(
                channel_counts(old(self).dispatchrs@),
                roads@,
            ),
            idle_view(final(self).idle_tickets@) == after_release(
                idle_view(old(self).idle_tickets@),
                roads@,
            ),
            sent@.map_values(|t: Ticket| t@) == released(idle_view(old(self).idle_tickets@), roads@),
            snapshot_views(final(self).snapshots@) == snapshot_views(old(self).snapshots@),
            issued_view(final(self).issued_tickets@) == issued_view(old(self).issued_tickets@),
            keeps_and_adds(old(self).dispatchrs@, final(self).dispatchrs@, tx),
            forall|k: int|
                0 <= k < roads@.len() ==> ends_with_clone(final(self).dispatchrs@, #[trigger] roads@[k], tx),
            old(self).wf() ==> final(self).wf(),
    {
        let ghost c0 = channel_counts(self.dispatchrs@);
        let ghost d0 = self.dispatchrs@;
        proof {
            if roads_distinct(c0) {
                lemma_with_channels_distinct(c0, roads@);
            }
        }
        let mut i: usize = 0;
        while i < roads.len()
            invariant
                i <= roads@.len(),
                channel_counts(self.dispatchrs@) == with_channels(c0, roads@.take(i as int)),
                d0 == old(self).dispatchrs@,
                keeps_and_adds(d0, self.dispatchrs@, tx),
                forall|k: int| 0 <= k < i ==> ends_with_clone(self.dispatchrs@, #[trigger] roads@[k], tx),
                self.snapshots@ == old(self).snapshots@,
                self.issued_tickets@ == old(self).issued_tickets@,
                self.idle_tickets@ == old(self).idle_tickets@,
            decreases roads@.len() - i,
        {
            let road = roads[i];
            let ghost before = channel_counts(self.dispatchrs@);
            assert(roads@.take(i + 1).drop_last() =~= roads@.take(i as int));
            match self.find_road(road) {
                Some(k) => {
                    proof {
                        lemma_road_slot_bound(before, road);
                    }
                    let ghost prev = self.dispatchrs@;
                    let c = tx.clone();
                    self.dispatchrs[k].1.push(c);
                    assert(channel_counts(self.dispatchrs@) =~= with_channel(before, road));
                    assert forall|a: int, j: int|
                        0 <= a < self.dispatchrs@.len() && 0 <= j < self.dispatchrs@[a].1@.len()
                            && !(a < d0.len() && j < d0[a].1@.len()) implies cloned(
                        tx,
                        #[trigger] self.dispatchrs@[a].1@[j],
                    ) by {
                        if a == k && j == prev[a].1@.len() {
                        } else {
                            assert(self.dispatchrs@[a].1@[j] == prev[a].1@[j]);
                        }
                    }
                    proof {
                        let now = channel_counts(self.dispatchrs@);
                        assert forall|q: int| 0 <= q < now.len() implies (#[trigger] now[q]).0
                            == before[q].0 by {
                            assert(self.dispatchrs@[q].0 == prev[q].0);
                        }
                        assert forall|x: int| 0 <= x <= i implies ends_with_clone(
                            self.dispatchrs@,
                            #[trigger] roads@[x],
                            tx,
                        ) by {
                            lemma_road_slot_same_roads(now, before, roads@[x]);
                            let a = road_slot(before, roads@[x]);
                            if a != k {
                                assert(self.dispatchrs@[a] == prev[a]);
                            }
                        }
                    }
                },
                None => {
                    let ghost prev = self.dispatchrs@;
                    let mut chans: Vec<D> = Vec::new();
                    chans.push(tx.clone());
                    self.dispatchrs.push((road, chans));
                    assert(channel_counts(self.dispatchrs@) =~= with_channel(before, road));
                    assert forall|a: int, j: int|
                        0 <= a < self.dispatchrs@.len() && 0 <= j < self.dispatchrs@[a].1@.len()
                            && !(a < d0.len() && j < d0[a].1@.len()) implies cloned(
                        tx,
                        #[trigger] self.dispatchrs@[a].1@[j],
                    ) by {
                        if a < prev.len() {
                            assert(self.dispatchrs@[a] == prev[a]);
                        }
                    }
                    proof {
                        let now = channel_counts(self.dispatchrs@);
                        assert(now.drop_last() =~= before);
                        assert forall|x: int| 0 <= x <= i implies ends_with_clone(
                            self.dispatchrs@,
                            #[trigger] roads@[x],
                            tx,
                        ) by {
                            let a = road_slot(before, roads@[x]);
                            if x < i {
                                lemma_road_slot_bound(before, roads@[x]);
                                assert(self.dispatchrs@[a] == prev[a]);
                            }
                        }
                    }
                },
            }
            i = i + 1;
        }
        assert(roads@.take(roads@.len() as int) =~= roads@);
        let ghost iv0 = idle_view(self.idle_tickets@);
        let mut sent: Vec<Ticket> = Vec::new();
        let mut j: usize = 0;
        while j < self.idle_tickets.len()
            invariant
                j <= self.idle_tickets@.len(),
                self.idle_tickets@.len() == iv0.len(),
                iv0 == idle_view(old(self).idle_tickets@),
                forall|m: int|
                    0 <= m < j ==> #[trigger] idle_view(self.idle_tickets@)[m] == (if taken_by(
                        iv0[m],
                        roads@,
                    ) {
                        (iv0[m].0, true)
                    } else {
                        iv0[m]
                    }),
                forall|m: int| j <= m < iv0.len() ==> #[trigger] idle_view(self.idle_tickets@)[m] == iv0[m],
                sent@.map_values(|t: Ticket| t@) == released(iv0.take(j as int), roads@),
                channel_counts(self.dispatchrs@) == with_channels(c0, roads@),
                keeps_and_adds(old(self).dispatchrs@, self.dispatchrs@, tx),
                forall|k: int|
                    0 <= k < roads@.len() ==> ends_with_clone(self.dispatchrs@, #[trigger] roads@[k], tx),
                self.snapshots@ == old(self).snapshots@,
                self.issued_tickets@ == old(self).issued_tickets@,
            decreases self.idle_tickets@.len() - j,
        {
            assert(iv0.take(j + 1).drop_last() =~= iv0.take(j as int));
            assert(idle_view(self.idle_tickets@)[j as int] == iv0[j as int]);
            let ghost before = sent@.map_values(|t: Ticket| t@);
            let ghost prev = self.idle_tickets@;
            if !self.idle_tickets[j].1 && contains_road(roads, self.idle_tickets[j].0.road) {
                sent.push(self.idle_tickets[j].0.copy());
                self.idle_tickets[j].1 = true;
                assert(sent@.map_values(|t: Ticket| t@) =~= before.push(iv0[j as int].0));
                assert(self.idle_tickets@[j as int].0 == prev[j as int].0);
                assert(idle_view(self.idle_tickets@) =~= idle_view(prev).update(
                    j as int,
                    (iv0[j as int].0, true),
                ));
            } else {
                assert(sent@.map_values(|t: Ticket| t@) =~= before);
            }
            assert(taken_by(iv0[j as int], roads@) ==> idle_view(self.idle_tickets@)[j as int] == (
            iv0[j as int].0, true));
            j = j + 1;
        }
        assert(iv0.take(iv0.len() as int) =~= iv0);
        assert(idle_view(self.idle_tickets@) =~= after_release(iv0, roads@));
        sent
    }
}

/// No car has two records for one day.
pub open spec fn one_per_day(issued: Seq<(Seq<u8>, u32)>) -> bool {
    forall|i: int, j: int| 0 <= i < j < issued.len() ==> #[trigger] issued[i] != #[trigger] issued[j]
}

/// The records of the days from `from` to `to` for the car `plate`.
pub open spec fn days_of(plate: Seq<u8>, from: u32, to: u32) -> Seq<(Seq<u8>, u32)> {
    Seq::new(
        (if from <= to {
            to - from + 1
        } else {
            0
        }) as nat,
        |i: int| (plate, (from + i) as u32),
    )
}

/// A car gets at most one ticket a day: where the records held at most one per
/// car and day, they still do after `issue_ticket` records the days of a ticket
/// that it did not refuse.
pub proof fn lemma_one_ticket_per_day(issued: Seq<(Seq<u8>, u32)>, plate: Seq<u8>, from: u32, to: u32)
    requires
        one_per_day(issued),
        !already_ticketed(issued, plate, from, to),
    ensures
        one_per_day(issued + days_of(plate, from, to)),
{
    let all = issued + days_of(plate, from, to);
    let n = issued.len() as int;
    assert forall|i: int, j: int| 0 <= i < j < all.len() implies #[trigger] all[i] != #[trigger] all[j] by {
        if j < n {
            assert(all[i] == issued[i] && all[j] == issued[j]);
        } else if i < n {
            assert(all[i] == issued[i]);
            if all[i] == all[j] {
                assert(issued[i].0 == plate && from <= issued[i].1 <= to);
                assert(already_ticketed(issued, plate, from, to));
            }
        } else {
            assert(all[i].1 == from + (i - n) && all[j].1 == from + (j - n));
        }
    }
}

/// Two tickets of one car that `issue_ticket` both let through cover no common
/// day: the records that the first one added stay (records only grow), and the
/// second one goes through only where none of its days is among them.
pub proof fn lemma_tickets_disjoint(
    before: Seq<(Seq<u8>, u32)>,
    later: Seq<(Seq<u8>, u32)>,
    plate: Seq<u8>,
    from1: u32,
    to1: u32,
    from2: u32,
    to2: u32,
)
    requires
        from1 <= to1,
        from2 <= to2,
        (before + days_of(plate, from1, to1)).is_prefix_of(later),
        !already_ticketed(later, plate, from2, to2),
    ensures
        to1 < from2 || to2 < from1,
{
    let first = before + days_of(plate, from1, to1);
    if !(to1 < from2 || to2 < from1) {
        let d: u32 = if from1 >= from2 { from1 } else { from2 };
        let k = before.len() + (d - from1);
        assert(from2 <= d <= to2 && from1 <= d <= to1);
        assert(0 <= k < first.len());
        assert(first[k] == (plate, d));
        assert(first.len() <= later.len() && first =~= later.subrange(0, first.len() as int));
        assert(later.subrange(0, first.len() as int)[k] == later[k]);
        assert(later[k] == first[k]);
        assert(0 <= k < later.len() && later[k].0 == plate && from2 <= later[k].1 <= to2);
        assert(already_ticketed(later, plate, from2, to2));
    }
}

proof fn lemma_road_slot_prefix(d: Seq<(u16, nat)>, road: u16, k: int)
    requires
        0 <= k <= d.len(),
    ensures
        road_slot(d.take(k), road) >= 0 ==> road_slot(d, road) == road_slot(d.take(k), road),
        road_slot(d.take(k), road) < k,
    decreases d.len() - k,
{
    if k < d.len() {
        lemma_road_slot_prefix(d, road, k + 1);
        assert(d.take(k + 1).drop_last() =~= d.take(k));
    } else {
        assert(d.take(k) =~= d);
    }
    lemma_road_slot_bound(d.take(k), road);
}

proof fn lemma_road_slot_bound(d: Seq<(u16, nat)>, road: u16)
    ensures
        -1 <= road_slot(d, road) < d.len(),
        road_slot(d, road) >= 0 ==> d[road_slot(d, road)].0 == road,
        road_slot(d, road) == -1 <==> forall|j: int| 0 <= j < d.len() ==> d[j].0 != road,
    decreases d.len(),
{
    if d.len() > 0 {
        let e = d.drop_last();
        lemma_road_slot_bound(e, road);
        if road_slot(d, road) == -1 {
            assert forall|j: int| 0 <= j < d.len() implies d[j].0 != road by {
                if j < d.len() - 1 {
                    assert(e[j] == d[j]);
                }
            }
        } else {
            assert(d[road_slot(d, road)].0 == road);
        }
    }
}

proof fn lemma_slot_prefix(s: Seq<SnapshotView>, new: SnapshotView, k: int)
    requires
        0 <= k <= s.len(),
    ensures
        snapshot_slot(s.take(k), new) <= k,
        snapshot_slot(s.take(k), new) < k ==> snapshot_slot(s, new) == snapshot_slot(s.take(k), new),
    decreases s.len() - k,
{
    if k < s.len() {
        lemma_slot_prefix(s, new, k + 1);
        assert(s.take(k + 1).drop_last() =~= s.take(k));
    } else {
        assert(s.take(k) =~= s);
    }
    if k > 0 {
        lemma_slot_bound(s.take(k), new);
    }
}

proof fn lemma_slot_bound(s: Seq<SnapshotView>, new: SnapshotView)
    ensures
        0 <= snapshot_slot(s, new) <= s.len(),
    decreases s.len(),
{
    if s.len() > 0 {
        lemma_slot_bound(s.drop_last(), new);
    }
}

proof fn lemma_slot_settled(s: Seq<SnapshotView>, new: SnapshotView, k: int)
    requires
        0 < k <= s.len(),
        snapshot_slot(s.take(k - 1), new) == k - 1,
        s[k - 1].timestamp > new.timestamp && s[k - 1].plate == new.plate,
    ensures
        snapshot_slot(s, new) == if k - 1 == 0 { 0 } else { k - 2 },
{
    assert(s.take(k).drop_last() =~= s.take(k - 1));
    assert(s.take(k).last() == s[k - 1]);
    lemma_slot_prefix(s, new, k);
}

} // verus!
