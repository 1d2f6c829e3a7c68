use speed_daemon::codec::{InboundMessage, Ticket};
use speed_daemon::engine::{check_traffic_log, TicketBook};
use speed_daemon::session::{handle_message, Reply};
use speed_daemon::state::FlockState;

fn add_camera(state: &mut FlockState, id: u128, road: u16, mile: u16, limit: u16) {
    assert!(state.connect(id));
    assert_eq!(
        handle_message(state, id, InboundMessage::IAmCamera { road, mile, limit }),
        Reply::Continue
    );
}

fn add_dispatcher(state: &mut FlockState, id: u128, roads: Vec<u16>) {
    assert!(state.connect(id));
    assert_eq!(
        handle_message(state, id, InboundMessage::IAmDispatcher { roads }),
        Reply::Continue
    );
}

fn see(state: &mut FlockState, id: u128, plate: &str, timestamp: u32) {
    assert_eq!(
        handle_message(
            state,
            id,
            InboundMessage::Plate { plate: plate.as_bytes().to_vec(), timestamp }
        ),
        Reply::Continue
    );
}

fn two_cameras(limit: u16) -> FlockState {
    let mut state = FlockState::new();
    add_camera(&mut state, 1, 5, 0, limit);
    add_camera(&mut state, 2, 5, 60, limit);
    see(&mut state, 1, "ABC123", 0);
    see(&mut state, 2, "ABC123", 3600);
    state
}

fn expected_ticket() -> Ticket {
    Ticket {
        plate: b"ABC123".to_vec(),
        road: 5,
        mile1: 0,
        timestamp1: 0,
        mile2: 60,
        timestamp2: 3600,
        speed: 6000,
    }
}

#[test]
fn exactly_at_limit_is_no_violation() {
    let state = two_cameras(60);
    assert!(check_traffic_log(&state).is_empty());
}

#[test]
fn over_limit_gives_one_ticket() {
    let state = two_cameras(55);
    assert_eq!(check_traffic_log(&state), vec![expected_ticket()]);
}

#[test]
fn ticket_waits_for_dispatcher_and_is_sent_once() {
    let mut state = two_cameras(55);
    let mut book = TicketBook::new();
    let cands = check_traffic_log(&state);
    assert_eq!(cands.len(), 1);
    assert_eq!(book.route(&state, &cands[0]), None);
    add_dispatcher(&mut state, 9, vec![3, 5]);
    let cands = check_traffic_log(&state);
    assert_eq!(cands, vec![expected_ticket()]);
    assert_eq!(book.route(&state, &cands[0]), Some(9));
    assert!(book.record(cands[0].clone()));
    assert_eq!(book.len(), 1);
    let again = check_traffic_log(&state);
    assert_eq!(again, cands);
    assert_eq!(book.route(&state, &again[0]), None);
    assert!(!book.record(again[0].clone()));
    assert_eq!(book.len(), 1);
}

#[test]
fn dispatcher_for_other_road_gets_nothing() {
    let mut state = two_cameras(55);
    add_dispatcher(&mut state, 9, vec![6]);
    let book = TicketBook::new();
    let cands = check_traffic_log(&state);
    assert_eq!(book.route(&state, &cands[0]), None);
}

#[test]
fn one_ticket_per_plate_per_day() {
    let mut state = FlockState::new();
    add_camera(&mut state, 1, 5, 0, 50);
    add_camera(&mut state, 2, 5, 100, 50);
    add_camera(&mut state, 3, 7, 0, 50);
    add_camera(&mut state, 4, 7, 100, 50);
    let day10 = 10 * 86400;
    see(&mut state, 1, "ABC123", day10 + 100);
    see(&mut state, 2, "ABC123", day10 + 3700);
    see(&mut state, 3, "ABC123", day10 + 50000);
    see(&mut state, 4, "ABC123", day10 + 53600);
    add_dispatcher(&mut state, 9, vec![5, 7]);
    let cands = check_traffic_log(&state);
    assert_eq!(cands.len(), 2);
    assert_eq!(cands[0].road, 5);
    assert_eq!(cands[1].road, 7);
    let mut book = TicketBook::new();
    assert_eq!(book.route(&state, &cands[0]), Some(9));
    assert!(book.record(cands[0].clone()));
    assert_eq!(book.route(&state, &cands[1]), None);
    assert!(!book.record(cands[1].clone()));
}

#[test]
fn ticket_spanning_days_blocks_each_day_it_touches() {
    let mut book = TicketBook::new();
    let long = Ticket {
        plate: b"P".to_vec(),
        road: 1,
        mile1: 0,
        timestamp1: 9 * 86400 + 80000,
        mile2: 1000,
        timestamp2: 11 * 86400 + 10,
        speed: 100,
    };
    assert!(book.record(long));
    let inside = Ticket {
        plate: b"P".to_vec(),
        road: 2,
        mile1: 0,
        timestamp1: 10 * 86400,
        mile2: 50,
        timestamp2: 10 * 86400 + 600,
        speed: 30000,
    };
    assert!(!book.may_issue(&inside));
    let other_plate = Ticket { plate: b"Q".to_vec(), ..inside.clone() };
    assert!(book.may_issue(&other_plate));
    let next_day = Ticket {
        timestamp1: 12 * 86400,
        timestamp2: 12 * 86400 + 600,
        ..inside.clone()
    };
    assert!(book.may_issue(&next_day));
}

#[test]
fn distinct_roads_are_never_paired() {
    let mut state = FlockState::new();
    add_camera(&mut state, 1, 5, 0, 10);
    add_camera(&mut state, 2, 6, 60, 10);
    see(&mut state, 1, "ABC123", 0);
    see(&mut state, 2, "ABC123", 60);
    assert!(check_traffic_log(&state).is_empty());
}

#[test]
fn only_consecutive_sightings_are_paired() {
    let mut state = FlockState::new();
    add_camera(&mut state, 1, 5, 0, 60);
    add_camera(&mut state, 2, 5, 10, 60);
    add_camera(&mut state, 3, 6, 20, 60);
    see(&mut state, 2, "ABC123", 600);
    see(&mut state, 1, "ABC123", 0);
    see(&mut state, 3, "ABC123", 300);
    assert!(check_traffic_log(&state).is_empty());
}

#[test]
fn sightings_are_ordered_by_time_not_arrival() {
    let mut state = FlockState::new();
    add_camera(&mut state, 1, 5, 0, 60);
    add_camera(&mut state, 2, 5, 10, 60);
    see(&mut state, 2, "ABC123", 300);
    see(&mut state, 1, "ABC123", 0);
    let cands = check_traffic_log(&state);
    assert_eq!(
        cands,
        vec![Ticket {
            plate: b"ABC123".to_vec(),
            road: 5,
            mile1: 0,
            timestamp1: 0,
            mile2: 10,
            timestamp2: 300,
            speed: 12000,
        }]
    );
}

#[test]
fn plates_are_not_mixed() {
    let mut state = FlockState::new();
    add_camera(&mut state, 1, 5, 0, 60);
    add_camera(&mut state, 2, 5, 10, 60);
    see(&mut state, 1, "AAA", 0);
    see(&mut state, 2, "BBB", 60);
    assert!(check_traffic_log(&state).is_empty());
}

#[test]
fn zero_distance_or_zero_time_is_skipped() {
    let mut state = FlockState::new();
    add_camera(&mut state, 1, 5, 0, 1);
    add_camera(&mut state, 2, 5, 0, 1);
    add_camera(&mut state, 3, 5, 10, 1);
    see(&mut state, 1, "A", 0);
    see(&mut state, 2, "A", 10);
    see(&mut state, 1, "B", 100);
    see(&mut state, 3, "B", 100);
    assert!(check_traffic_log(&state).is_empty());
}

#[test]
fn speed_is_truncated_toward_zero() {
    let mut state = FlockState::new();
    add_camera(&mut state, 1, 5, 0, 0);
    add_camera(&mut state, 2, 5, 1, 0);
    see(&mut state, 1, "A", 0);
    see(&mut state, 2, "A", 7);
    let cands = check_traffic_log(&state);
    assert_eq!(cands.len(), 1);
    assert_eq!(cands[0].speed, 51428);
}

#[test]
fn speed_one_hundredth_over_limit_is_flagged() {
    let mut state = FlockState::new();
    add_camera(&mut state, 1, 5, 0, 59);
    add_camera(&mut state, 2, 5, 1, 59);
    see(&mut state, 1, "A", 0);
    see(&mut state, 2, "A", 61);
    let cands = check_traffic_log(&state);
    assert_eq!(cands.len(), 1);
    assert_eq!(cands[0].speed, 5901);
}

#[test]
fn speed_is_capped_at_largest_16_bit_value() {
    let mut state = FlockState::new();
    add_camera(&mut state, 1, 5, 0, 100);
    add_camera(&mut state, 2, 5, 60000, 100);
    see(&mut state, 1, "A", 0);
    see(&mut state, 2, "A", 1);
    let cands = check_traffic_log(&state);
    assert_eq!(cands.len(), 1);
    assert_eq!(cands[0].speed, 65535);
}

#[test]
fn sightings_of_departed_non_cameras_are_skipped() {
    let mut state = FlockState::new();
    add_camera(&mut state, 1, 5, 0, 10);
    add_camera(&mut state, 2, 5, 60, 10);
    see(&mut state, 1, "A", 0);
    state.disconnect(1);
    see(&mut state, 2, "A", 60);
    let cands = check_traffic_log(&state);
    assert_eq!(cands.len(), 1);
    assert_eq!(cands[0].mile1, 0);
}

#[test]
fn snapshot_scans_like_the_live_state() {
    let mut state = two_cameras(55);
    add_dispatcher(&mut state, 9, vec![5]);
    let copy = state.snapshot();
    see(&mut state, 1, "LATE", 10);
    assert_eq!(copy.log_len(), 2);
    assert_eq!(state.log_len(), 3);
    assert_eq!(check_traffic_log(&copy), check_traffic_log(&state));
    assert_eq!(copy.find_dispatcher(5), Some(9));
}
