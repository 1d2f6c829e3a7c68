//! The per-connection state machine: a connection starts unidentified, says
//! once that it is a camera or a dispatcher, and only cameras report plates.
use vstd::prelude::*;
use crate::codec::{InboundMessage, InboundView};
use crate::state::{camera_of, CameraSite, ClientRole, FlockState, RoleView, SightingView, StateView};

verus! {

/// Why a connection is refused and closed.
#[derive(Clone, Copy, Debug, PartialEq, Eq, Structural)]
pub enum ProtocolError {
    /// A second IAmCamera or IAmDispatcher on one connection.
    AlreadyIdentified,
    /// A Plate from a connection that is not a camera.
    NotACamera,
    /// A message whose tag is unknown.
    IllegalMessage,
    /// A Plate message whose plate is not valid UTF-8.
    MalformedPlate,
}

impl ProtocolError {
    /// The text sent to the client in the Error message.
    pub fn text(&self) -> (r: &'static str)
        ensures
            *self == ProtocolError::AlreadyIdentified ==> r@ == "already identified"@,
            *self == ProtocolError::NotACamera ==> r@ == "only cameras can report plates"@,
            *self == ProtocolError::IllegalMessage ==> r@ == "illegal message type"@,
            *self == ProtocolError::MalformedPlate ==> r@ == "plate is not valid UTF-8"@,
    {
        match self {
            ProtocolError::AlreadyIdentified => "already identified",
            ProtocolError::NotACamera => "only cameras can report plates",
            ProtocolError::IllegalMessage => "illegal message type",
            ProtocolError::MalformedPlate => "plate is not valid UTF-8",
        }
    }
}

/// What the connection has to do after a message.
#[derive(Clone, Copy, Debug, PartialEq, Eq, Structural)]
pub enum Reply {
    /// Read the next message.
    Continue,
    /// Send a heartbeat every `interval` tenths of a second from now on, in
    /// place of any earlier heartbeat.
    StartHeartbeat { interval: u32 },
    /// Send an Error message and close the connection.
    Reject { error: ProtocolError },
}

/// The time between two heartbeats, in milliseconds, for an interval given in
/// tenths of a second.
pub fn heartbeat_period_millis(interval: u32) -> (r: u64)
    ensures
        r == interval as u64 * 100,
{
    interval as u64 * 100
}

/// The effect of one message from connection `id` on the shared state, and the reply.
pub open spec fn step(s: StateView, id: u128, m: InboundView) -> (StateView, Reply) {
    match m {
        InboundView::WantHeartbeat { interval } => (
            s,
            if interval == 0 {
                Reply::Continue
            } else {
                Reply::StartHeartbeat { interval }
            },
        ),
        InboundView::IAmCamera { road, mile, limit } => if s.roles[id] is Unidentified {
            (
                StateView {
                    roles: s.roles.insert(id, RoleView::Camera { road, mile, limit }),
                    log: s.log,
                },
                Reply::Continue,
            )
        } else {
            (s, Reply::Reject { error: ProtocolError::AlreadyIdentified })
        },
        InboundView::IAmDispatcher { roads } => if s.roles[id] is Unidentified {
            (
                StateView { roles: s.roles.insert(id, RoleView::Dispatcher { roads }), log: s.log },
                Reply::Continue,
            )
        } else {
            (s, Reply::Reject { error: ProtocolError::AlreadyIdentified })
        },
        InboundView::Plate { plate, timestamp } => if camera_of(s.roles, id) is Some {
            (
                StateView {
                    roles: s.roles,
                    log: s.log.push(SightingView { client_id: id, plate, timestamp }),
                },
                Reply::Continue,
            )
        } else {
            (s, Reply::Reject { error: ProtocolError::NotACamera })
        },
    }
}

/// The state after connection `id` sends `msgs` in turn; the first rejected
/// message closes the connection and ends the run.
pub open spec fn run(s: StateView, id: u128, msgs: Seq<InboundView>) -> StateView
    decreases msgs.len(),
{
    if msgs.len() == 0 {
        s
    } else {
        let (next, reply) = step(s, id, msgs[0]);
        if reply is Reject {
            next
        } else {
            run(next, id, msgs.drop_first())
        }
    }
}

/// Applies one decoded message from the registered connection `id`.
pub fn handle_message(state: &mut FlockState, id: u128, msg: InboundMessage) -> (r: Reply)
    requires
        old(state).wf(),
        old(state)@.roles.contains_key(id),
    ensures
        final(state).wf(),
        (final(state)@, r) == step(old(state)@, id, msg@),
{
    match msg {
        InboundMessage::WantHeartbeat { interval } => {
            if interval == 0 {
                Reply::Continue
            } else {
                Reply::StartHeartbeat { interval }
            }
        },
        InboundMessage::IAmCamera { road, mile, limit } => {
            if state.identify(id, ClientRole::Camera { road, mile, limit }) {
                Reply::Continue
            } else {
                Reply::Reject { error: ProtocolError::AlreadyIdentified }
            }
        },
        InboundMessage::IAmDispatcher { roads } => {
            if state.identify(id, ClientRole::Dispatcher { roads }) {
                Reply::Continue
            } else {
                Reply::Reject { error: ProtocolError::AlreadyIdentified }
            }
        },
        InboundMessage::Plate { plate, timestamp } => {
            if state.record_sighting(id, plate, timestamp) {
                Reply::Continue
            } else {
                Reply::Reject { error: ProtocolError::NotACamera }
            }
        },
    }
}

proof fn lemma_heartbeats_change_nothing(
    s: StateView,
    id: u128,
    heartbeats: Seq<InboundView>,
    rest: Seq<InboundView>,
)
    requires
        forall|k: int| 0 <= k < heartbeats.len() ==> #[trigger] heartbeats[k] is WantHeartbeat,
    ensures
        run(s, id, heartbeats + rest) == run(s, id, rest),
    decreases heartbeats.len(),
{
    if heartbeats.len() > 0 {
        let tail = heartbeats.drop_first();
        assert((heartbeats + rest).drop_first() =~= tail + rest);
        assert((heartbeats + rest)[0] == heartbeats[0]);
        assert forall|k: int| 0 <= k < tail.len() implies #[trigger] tail[k] is WantHeartbeat by {
            assert(tail[k] == heartbeats[k + 1]);
        }
        lemma_heartbeats_change_nothing(s, id, tail, rest);
    }
}

/// A connection that says it is a camera and then reports a plate, with any
/// heartbeat requests in between, logs one sighting under its identity, and
/// that identity resolves to the road, mile and limit it announced.
pub proof fn lemma_camera_plate_sighting(
    s: StateView,
    id: u128,
    road: u16,
    mile: u16,
    limit: u16,
    heartbeats: Seq<InboundView>,
    plate: Seq<u8>,
    timestamp: u32,
)
    requires
        s.roles.contains_key(id),
        s.roles[id] is Unidentified,
        forall|k: int| 0 <= k < heartbeats.len() ==> #[trigger] heartbeats[k] is WantHeartbeat,
    ensures
        ({
            let end = run(
                s,
                id,
                seq![InboundView::IAmCamera { road, mile, limit }] + heartbeats + seq![
                    InboundView::Plate { plate, timestamp },
                ],
            );
            &&& end.log == s.log.push(SightingView { client_id: id, plate, timestamp })
            &&& camera_of(end.roles, id) == Some(CameraSite { road, mile, limit })
        }),
{
    let camera = InboundView::IAmCamera { road, mile, limit };
    let plate_msg = InboundView::Plate { plate, timestamp };
    let msgs = seq![camera] + heartbeats + seq![plate_msg];
    let (s1, r1) = step(s, id, camera);
    assert(msgs[0] == camera);
    assert(msgs.drop_first() =~= heartbeats + seq![plate_msg]);
    lemma_heartbeats_change_nothing(s1, id, heartbeats, seq![plate_msg]);
    let (s2, r2) = step(s1, id, plate_msg);
    assert(seq![plate_msg].drop_first() =~= Seq::<InboundView>::empty());
    assert(seq![plate_msg][0] == plate_msg);
    assert(camera_of(s1.roles, id) is Some);
    assert(run(s2, id, Seq::<InboundView>::empty()) == s2);
    assert(run(s1, id, seq![plate_msg]) == s2);
}

/// A second identification on one connection, whether as camera or as
/// dispatcher, is rejected, and the role of the first one stays.
pub proof fn lemma_second_identification_rejected(
    s: StateView,
    id: u128,
    first: InboundView,
    second: InboundView,
)
    requires
        s.roles.contains_key(id),
        s.roles[id] is Unidentified,
        first is IAmCamera || first is IAmDispatcher,
        second is IAmCamera || second is IAmDispatcher,
    ensures
        ({
            let (s1, r1) = step(s, id, first);
            let (s2, r2) = step(s1, id, second);
            &&& r1 == Reply::Continue
            &&& r2 == (Reply::Reject { error: ProtocolError::AlreadyIdentified })
            &&& s2 == s1
            &&& s1.log == s.log
            &&& s1.roles == s.roles.insert(
                id,
                match first {
                    InboundView::IAmCamera { road, mile, limit } => RoleView::Camera {
                        road,
                        mile,
                        limit,
                    },
                    InboundView::IAmDispatcher { roads } => RoleView::Dispatcher { roads },
                    _ => RoleView::Unidentified,
                },
            )
        }),
{
}

/// A dispatcher that reports a plate is rejected, and nothing is logged.
pub proof fn lemma_dispatcher_plate_rejected(
    s: StateView,
    id: u128,
    plate: Seq<u8>,
    timestamp: u32,
)
    requires
        s.roles.contains_key(id),
        s.roles[id] is Dispatcher,
    ensures
        step(s, id, InboundView::Plate { plate, timestamp }) == (
            s,
            Reply::Reject { error: ProtocolError::NotACamera },
        ),
{
}

} // verus!
