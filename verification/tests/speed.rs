use protohackers::speed::{
    day_of, next_step, over_limit, Camera, ConnAction, ConnState, Plate, Snapshot, State, Ticket,
    TicketRoute,
};

fn snap(road: u16, mile: u16, limit: u16, plate: &[u8], timestamp: u32) -> Snapshot {
    Snapshot { from: Camera { road, mile, limit }, plate: Plate { plate: plate.to_vec(), timestamp } }
}

fn ticket(road: u16, plate: &[u8], t1: u32, t2: u32) -> Ticket {
    Ticket { road, mile1: 8, timestamp1: t1, mile2: 9, timestamp2: t2, speed: 8000, plate: plate.to_vec() }
}

#[test]
fn days_and_limits() {
    assert_eq!(day_of(0), 0);
    assert_eq!(day_of(86399), 0);
    assert_eq!(day_of(86400), 1);
    assert!(over_limit(6001, 60));
    assert!(!over_limit(6000, 60));
    assert!(!over_limit(65535, 700));
    assert!(over_limit(65535, 600));
}

#[test]
fn ticket_wire_format() {
    let t = Ticket {
        road: 66,
        mile1: 100,
        timestamp1: 123456,
        mile2: 110,
        timestamp2: 123816,
        speed: 10000,
        plate: b"UN1X".to_vec(),
    };
    assert_eq!(
        t.to_bytes(),
        vec![
            0x21, 0x04, 0x55, 0x4e, 0x31, 0x58, 0x00, 0x42, 0x00, 0x64, 0x00, 0x01, 0xe2, 0x40,
            0x00, 0x6e, 0x00, 0x01, 0xe3, 0xa8, 0x27, 0x10,
        ]
    );
}

#[test]
fn snapshots_pair_up_by_plate_and_road() {
    let mut st: State<u8> = State::new();
    let c = st.record_snapshot(snap(123, 8, 60, b"UN1X", 0));
    assert!(c.is_empty());
    let c = st.record_snapshot(snap(123, 9, 60, b"UN1X", 45));
    assert_eq!(c.len(), 1);
    assert_eq!(c[0].first.plate.timestamp, 0);
    assert_eq!(c[0].second.plate.timestamp, 45);
    assert_eq!(c[0].second.from.mile, 9);
    assert_eq!(c[0].limit, 60);
    let c = st.record_snapshot(snap(124, 9, 60, b"UN1X", 50));
    assert!(c.is_empty());
    let c = st.record_snapshot(snap(123, 10, 60, b"OTHER", 50));
    assert!(c.is_empty());
    assert_eq!(st.snapshots.len(), 4);
}

#[test]
fn earlier_snapshot_comes_first_in_pair() {
    let mut st: State<u8> = State::new();
    st.record_snapshot(snap(1, 20, 50, b"AB", 100));
    let c = st.record_snapshot(snap(1, 10, 50, b"AB", 10));
    assert_eq!(c.len(), 1);
    assert_eq!(c[0].first.plate.timestamp, 10);
    assert_eq!(c[0].second.plate.timestamp, 100);
    assert_eq!(st.snapshots[0].plate.timestamp, 10);
}

#[test]
fn one_ticket_per_day() {
    let mut st: State<u8> = State::new();
    assert_eq!(st.issue_ticket(&ticket(1, b"AB", 0, 10)), TicketRoute::Stored);
    assert_eq!(st.issue_ticket(&ticket(1, b"AB", 20, 30)), TicketRoute::AlreadyIssued);
    assert_eq!(st.issue_ticket(&ticket(1, b"CD", 20, 30)), TicketRoute::Stored);
    assert_eq!(st.issue_ticket(&ticket(1, b"AB", 86400, 86500)), TicketRoute::Stored);
    assert_eq!(st.issue_ticket(&ticket(1, b"AB", 80000, 90000)), TicketRoute::AlreadyIssued);
    assert_eq!(st.issued_tickets.len(), 3);
    assert_eq!(st.idle_tickets.len(), 3);
}

#[test]
fn ticket_spanning_days_records_each() {
    let mut st: State<u8> = State::new();
    assert_eq!(st.issue_ticket(&ticket(1, b"AB", 86000, 2 * 86400 + 5)), TicketRoute::Stored);
    let days: Vec<u32> = st.issued_tickets.iter().map(|(_, d)| *d).collect();
    assert_eq!(days, vec![0, 1, 2]);
}

#[test]
fn dispatchers_take_waiting_tickets() {
    let mut st: State<u8> = State::new();
    st.issue_ticket(&ticket(1, b"AA", 0, 10));
    st.issue_ticket(&ticket(2, b"BB", 0, 10));
    st.issue_ticket(&ticket(1, b"CC", 0, 10));
    let sent = st.register_dispatcher(&vec![1, 3], 7);
    let plates: Vec<Vec<u8>> = sent.iter().map(|t| t.plate.clone()).collect();
    assert_eq!(plates, vec![b"AA".to_vec(), b"CC".to_vec()]);
    let flags: Vec<bool> = st.idle_tickets.iter().map(|(_, s)| *s).collect();
    assert_eq!(flags, vec![true, false, true]);
    assert_eq!(st.dispatchrs.len(), 2);
    assert_eq!(st.dispatchrs[0].0, 1);
    assert_eq!(st.dispatchrs[1].0, 3);

    let sent = st.register_dispatcher(&vec![1, 2], 8);
    assert_eq!(sent.len(), 1);
    assert_eq!(sent[0].plate, b"BB".to_vec());
    assert_eq!(st.dispatchrs[0].1, vec![7, 8]);
    assert_eq!(st.dispatchrs[2].0, 2);

    assert_eq!(st.issue_ticket(&ticket(2, b"DD", 0, 10)), TicketRoute::ToDispatcher);
    assert_eq!(st.idle_tickets.len(), 3);
}

#[test]
fn connection_steps() {
    assert_eq!(next_step(ConnState::Greeting, Some(0x40)), (ConnState::GreetedWithHeartbeat, ConnAction::StartHeartbeat));
    assert_eq!(next_step(ConnState::GreetedWithHeartbeat, Some(0x40)), (ConnState::Done, ConnAction::SendError));
    assert_eq!(next_step(ConnState::GreetedWithHeartbeat, Some(0x80)), (ConnState::Camera, ConnAction::ReadCamera));
    assert_eq!(next_step(ConnState::Greeting, Some(0x81)), (ConnState::Dispatcher, ConnAction::ReadDispatcher));
    assert_eq!(next_step(ConnState::Greeting, Some(0x20)), (ConnState::Done, ConnAction::SendError));
    assert_eq!(next_step(ConnState::Camera, Some(0x20)), (ConnState::Camera, ConnAction::ReadPlate));
    assert_eq!(next_step(ConnState::Camera, Some(0x40)), (ConnState::Camera, ConnAction::StartHeartbeat));
    assert_eq!(next_step(ConnState::Camera, Some(0x81)), (ConnState::Done, ConnAction::SendError));
    assert_eq!(next_step(ConnState::Dispatcher, Some(0x40)), (ConnState::Done, ConnAction::HeartbeatUntilGone));
    assert_eq!(next_step(ConnState::Dispatcher, Some(0x20)), (ConnState::Done, ConnAction::SendError));
    assert_eq!(next_step(ConnState::Camera, None), (ConnState::Done, ConnAction::Close));
    assert_eq!(next_step(ConnState::Done, Some(0x20)), (ConnState::Done, ConnAction::Close));
}

#[test]
fn new_dispatcher_channel_is_added_to_each_road() {
    let mut st: State<u8> = State::new();
    st.register_dispatcher(&vec![5], 1);
    st.register_dispatcher(&vec![5, 6, 6], 2);
    assert_eq!(st.dispatchrs.len(), 2);
    assert_eq!(st.dispatchrs[0], (5, vec![1, 2]));
    assert_eq!(st.dispatchrs[1], (6, vec![2, 2]));
}
