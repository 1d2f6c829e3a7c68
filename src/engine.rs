//! The violation engine: pairs each sighting with the next sighting of the
//! same plate, turns pairs that show speeding into candidate tickets, and
//! keeps the book of tickets already issued so that no plate gets more than
//! one ticket for any day.
use vstd::prelude::*;
use crate::codec::{Ticket, TicketView};
use crate::state::{camera_of, covers, CameraSite, FlockState, SightingView, StateView};

verus! {

/// Seconds in a day.
pub const SECONDS_PER_DAY: u32 = 86400;

/// Sighting `i` of the log comes from a connection known to be a camera.
pub open spec fn placed(s: StateView, i: int) -> bool {
    0 <= i < s.log.len() && camera_of(s.roles, s.log[i].client_id) is Some
}

/// The site of the camera behind sighting `i`.
pub open spec fn site(s: StateView, i: int) -> CameraSite {
    camera_of(s.roles, s.log[i].client_id)->Some_0
}

/// Sighting `j` comes after sighting `i` when ordered by timestamp, equal
/// timestamps keeping the order of the log.
pub open spec fn later(log: Seq<SightingView>, i: int, j: int) -> bool {
    log[i].timestamp < log[j].timestamp || (log[i].timestamp == log[j].timestamp && i < j)
}

/// Sighting `j` is a placed sighting of the same plate as `i`, after it.
pub open spec fn follows(s: StateView, i: int, j: int) -> bool {
    placed(s, j) && s.log[j].plate == s.log[i].plate && later(s.log, i, j)
}

/// Sighting `j` is the next placed sighting of the plate of `i`.
pub open spec fn is_successor(s: StateView, i: int, j: int) -> bool {
    &&& placed(s, i)
    &&& follows(s, i, j)
    &&& forall|k: int| #[trigger] follows(s, i, k) ==> !later(s.log, k, j)
}

/// Distance between two miles.
pub open spec fn mile_gap(a: u16, b: u16) -> nat {
    if a <= b {
        (b - a) as nat
    } else {
        (a - b) as nat
    }
}

/// Average speed in hundredths of a mile per hour over `distance` miles in
/// `elapsed` seconds, truncated toward zero.
pub open spec fn speed_100x(distance: nat, elapsed: nat) -> nat {
    distance * 360000 / elapsed
}

/// The speed as a ticket carries it: at most the largest 16-bit value.
pub open spec fn ticket_speed(distance: nat, elapsed: nat) -> u16 {
    let v = speed_100x(distance, elapsed);
    if v > 65535 {
        65535
    } else {
        v as u16
    }
}

/// The ticket owed for the pair of sightings `i`, `j`, if they show speeding:
/// both on one road, some distance and some time apart, faster than the first
/// camera's limit.
pub open spec fn pair_ticket(s: StateView, i: int, j: int) -> Option<TicketView> {
    let a = site(s, i);
    let b = site(s, j);
    let distance = mile_gap(a.mile, b.mile);
    let elapsed = (s.log[j].timestamp - s.log[i].timestamp) as nat;
    if a.road == b.road && distance > 0 && elapsed > 0 && speed_100x(distance, elapsed) > a.limit
        * 100 {
        Some(
            TicketView {
                plate: s.log[i].plate,
                road: a.road,
                mile1: a.mile,
                timestamp1: s.log[i].timestamp,
                mile2: b.mile,
                timestamp2: s.log[j].timestamp,
                speed: ticket_speed(distance, elapsed),
            },
        )
    } else {
        None
    }
}

/// The candidate ticket that sighting `i` and its successor give, if any.
pub open spec fn candidate_at(s: StateView, i: int) -> Option<TicketView> {
    if exists|j: int| is_successor(s, i, j) {
        pair_ticket(s, i, choose|j: int| is_successor(s, i, j))
    } else {
        None
    }
}

/// The candidate tickets of the first `n` sightings, in log order.
pub open spec fn candidates(s: StateView, n: int) -> Seq<TicketView>
    decreases n,
{
    if n <= 0 {
        Seq::empty()
    } else {
        match candidate_at(s, n - 1) {
            Some(t) => candidates(s, n - 1).push(t),
            None => candidates(s, n - 1),
        }
    }
}

/// The candidate tickets of the whole log.
pub open spec fn all_candidates(s: StateView) -> Seq<TicketView> {
    candidates(s, s.log.len() as int)
}

/// A sighting has at most one successor.
pub proof fn lemma_successor_unique(s: StateView, i: int, j1: int, j2: int)
    requires
        is_successor(s, i, j1),
        is_successor(s, i, j2),
    ensures
        j1 == j2,
{
    assert(follows(s, i, j1));
    assert(follows(s, i, j2));
}

fn same_bytes(a: &Vec<u8>, b: &Vec<u8>) -> (r: bool)
    ensures
        r == (a@ == b@),
{
    if a.len() != b.len() {
        return false;
    }
    let mut i: usize = 0;
    while i < a.len()
        invariant
            a@.len() == b@.len(),
            i <= a@.len(),
            forall|k: int| 0 <= k < i ==> a@[k] == b@[k],
        decreases a@.len() - i,
    {
        if a[i] != b[i] {
            return false;
        }
        i = i + 1;
    }
    assert(a@ =~= b@);
    true
}

fn successor(state: &FlockState, i: usize) -> (r: Option<usize>)
    requires
        state.wf(),
        placed(state@, i as int),
    ensures
        match r {
            Some(j) => is_successor(state@, i as int, j as int),
            None => forall|j: int| !is_successor(state@, i as int, j),
        },
{
    let ghost s = state@;
    let n = state.log_len();
    let first = state.sighting(i);
    let mut best: Option<usize> = None;
    let mut k: usize = 0;
    while k < n
        invariant
            state.wf(),
            s == state@,
            n == s.log.len(),
            i < n,
            first@ == s.log[i as int],
            k <= n,
            match best {
                Some(b) => b < k && follows(s, i as int, b as int) && forall|m: int|
                    0 <= m < k && #[trigger] follows(s, i as int, m) ==> !later(s.log, m, b as int),
                None => forall|m: int| 0 <= m < k ==> !#[trigger] follows(s, i as int, m),
            },
        decreases n - k,
    {
        let other = state.sighting(k);
        if state.camera_site(other.client_id).is_some() && same_bytes(&other.plate, &first.plate) {
            let after: bool = first.timestamp < other.timestamp || (first.timestamp
                == other.timestamp && i < k);
            if after {
                let better: bool = match best {
                    None => true,
                    Some(b) => {
                        let cur = state.sighting(b);
                        other.timestamp < cur.timestamp || (other.timestamp == cur.timestamp && k
                            < b)
                    },
                };
                if better {
                    best = Some(k);
                }
            }
        }
        k = k + 1;
    }
    match best {
        Some(b) => {
            assert forall|m: int| #[trigger] follows(s, i as int, m) implies !later(
                s.log,
                m,
                b as int,
            ) by {
                assert(0 <= m < n);
            }
        },
        None => {
            assert forall|j: int| !is_successor(s, i as int, j) by {
                if is_successor(s, i as int, j) {
                    assert(follows(s, i as int, j));
                }
            }
        },
    }
    best
}

fn pair_candidate(state: &FlockState, i: usize, j: usize) -> (r: Option<Ticket>)
    requires
        state.wf(),
        is_successor(state@, i as int, j as int),
    ensures
        match r {
            Some(t) => pair_ticket(state@, i as int, j as int) == Some(t@),
            None => pair_ticket(state@, i as int, j as int) is None,
        },
{
    let first = state.sighting(i);
    let second = state.sighting(j);
    let a = state.camera_site(first.client_id).unwrap();
    let b = state.camera_site(second.client_id).unwrap();
    let distance: u64 = if a.mile <= b.mile {
        (b.mile - a.mile) as u64
    } else {
        (a.mile - b.mile) as u64
    };
    let elapsed: u64 = (second.timestamp - first.timestamp) as u64;
    if a.road != b.road || distance == 0 || elapsed == 0 {
        return None;
    }
    let speed: u64 = distance * 360000 / elapsed;
    if speed <= (a.limit as u64) * 100 {
        return None;
    }
    let shown: u16 = if speed > 65535 {
        65535
    } else {
        speed as u16
    };
    Some(
        Ticket {
            plate: first.plate.clone(),
            road: a.road,
            mile1: a.mile,
            timestamp1: first.timestamp,
            mile2: b.mile,
            timestamp2: second.timestamp,
            speed: shown,
        },
    )
}

/// Scans the log for speeding: each placed sighting is paired with the next
/// placed sighting of the same plate, and each pair that shows speeding gives
/// one candidate ticket, in the order of the log.
pub fn check_traffic_log(state: &FlockState) -> (r: Vec<Ticket>)
    requires
        state.wf(),
    ensures
        r@.map_values(|t: Ticket| t@) == all_candidates(state@),
{
    let ghost s = state@;
    let n = state.log_len();
    let mut out: Vec<Ticket> = Vec::new();
    let mut i: usize = 0;
    while i < n
        invariant
            state.wf(),
            s == state@,
            n == s.log.len(),
            i <= n,
            out@.map_values(|t: Ticket| t@) == candidates(s, i as int),
        decreases n - i,
    {
        let ghost before = out@;
        let id = state.sighting(i).client_id;
        if state.camera_site(id).is_some() {
            match successor(state, i) {
                Some(j) => {
                    proof {
                        lemma_successor_unique(s, i as int, j as int, choose|j: int| is_successor(s, i as int, j));
                    }
                    match pair_candidate(state, i, j) {
                        Some(t) => {
                            out.push(t);
                            assert(out@.map_values(|t: Ticket| t@) =~= before.map_values(
                                |t: Ticket| t@,
                            ).push(t@));
                        },
                        None => {},
                    }
                },
                None => {},
            }
        }
        i = i + 1;
    }
    out
}

/// The day of a timestamp.
pub open spec fn day(ts: u32) -> int {
    ts as int / SECONDS_PER_DAY as int
}

/// The observation interval of `t` touches day `d`.
pub open spec fn touches(t: TicketView, d: int) -> bool {
    day(t.timestamp1) <= d <= day(t.timestamp2)
}

/// The observation intervals of `a` and `b` share a day.
pub open spec fn share_a_day(a: TicketView, b: TicketView) -> bool {
    day(a.timestamp1) <= day(b.timestamp2) && day(b.timestamp1) <= day(a.timestamp2)
}

/// A ticket for the plate of `t` on some day that `t` touches is already issued.
pub open spec fn blocked(issued: Seq<TicketView>, t: TicketView) -> bool {
    exists|k: int|
        0 <= k < issued.len() && issued[k].plate == t.plate && #[trigger] share_a_day(issued[k], t)
}

/// The tickets issued so far, which mark, for each plate, the days it has been
/// ticketed for.
///
/// A ticket marks every day from its first to its last observation, so a set
/// of (plate, day) markers would need one entry per day of the interval, up to
/// some fifty thousand for one ticket. The book keeps the issued tickets
/// themselves instead: the marked days of a plate are the union of their
/// intervals, and one list answers both "already issued" and "day taken".
pub struct TicketBook {
    issued: Vec<Ticket>,
}

impl View for TicketBook {
    type V = Seq<TicketView>;

    closed spec fn view(&self) -> Seq<TicketView> {
        self.issued@.map_values(|t: Ticket| t@)
    }
}

/// No two issued tickets for one plate touch a common day, and each ticket's
/// observations are in order.
pub open spec fn book_wf(issued: Seq<TicketView>) -> bool {
    &&& forall|k: int| 0 <= k < issued.len() ==> #[trigger] issued[k].timestamp1 <= issued[k].timestamp2
    &&& forall|k1: int, k2: int|
        0 <= k1 < issued.len() && 0 <= k2 < issued.len() && k1 != k2 && issued[k1].plate
            == issued[k2].plate ==> !#[trigger] share_a_day(issued[k1], issued[k2])
}

impl TicketBook {
    /// A book with no ticket issued.
    pub fn new() -> (r: TicketBook)
        ensures
            r@ == Seq::<TicketView>::empty(),
            book_wf(r@),
    {
        let r = TicketBook { issued: Vec::new() };
        assert(r@ =~= Seq::<TicketView>::empty());
        r
    }

    /// Number of tickets issued.
    pub fn len(&self) -> (r: usize)
        ensures
            r == self@.len(),
    {
        self.issued.len()
    }

    /// Whether `t` may still be issued: no ticket for its plate touches one of its days.
    pub fn may_issue(&self, t: &Ticket) -> (r: bool)
        ensures
            r == !blocked(self@, t@),
    {
        let d1 = t.timestamp1 / SECONDS_PER_DAY;
        let d2 = t.timestamp2 / SECONDS_PER_DAY;
        let mut k: usize = 0;
        while k < self.issued.len()
            invariant
                k <= self@.len(),
                d1 == day(t.timestamp1),
                d2 == day(t.timestamp2),
                forall|m: int|
                    0 <= m < k ==> !(self@[m].plate == t@.plate && #[trigger] share_a_day(
                        self@[m],
                        t@,
                    )),
            decreases self@.len() - k,
        {
            let other = &self.issued[k];
            assert(other@ == self@[k as int]);
            if other.timestamp1 / SECONDS_PER_DAY <= d2 && d1 <= other.timestamp2 / SECONDS_PER_DAY
                && same_bytes(&other.plate, &t.plate) {
                assert(self@[k as int].plate == t@.plate && share_a_day(self@[k as int], t@));
                return false;
            }
            k = k + 1;
        }
        true
    }

    /// Enters `t` as issued, unless a ticket for its plate already touches one
    /// of its days or its observations are out of order; says whether it did.
    pub fn record(&mut self, t: Ticket) -> (r: bool)
        requires
            book_wf(old(self)@),
        ensures
            book_wf(final(self)@),
            r == (!blocked(old(self)@, t@) && t.timestamp1 <= t.timestamp2),
            final(self)@ == (if r {
                old(self)@.push(t@)
            } else {
                old(self)@
            }),
    {
        if t.timestamp1 > t.timestamp2 || !self.may_issue(&t) {
            return false;
        }
        let ghost tv = t@;
        self.issued.push(t);
        assert(self@ =~= old(self)@.push(tv));
        assert forall|k1: int, k2: int|
            0 <= k1 < self@.len() && 0 <= k2 < self@.len() && k1 != k2 && self@[k1].plate
                == self@[k2].plate implies !#[trigger] share_a_day(self@[k1], self@[k2]) by {
            if k2 == old(self)@.len() {
                assert(!share_a_day(old(self)@[k1], tv));
            } else if k1 == old(self)@.len() {
                assert(!share_a_day(old(self)@[k2], tv));
            }
        }
        true
    }

    /// The dispatcher to send `t` to: one responsible for its road, when `t`
    /// may still be issued.
    pub fn route(&self, state: &FlockState, t: &Ticket) -> (r: Option<u128>)
        requires
            state.wf(),
        ensures
            match r {
                Some(id) => !blocked(self@, t@) && covers(state@.roles, id, t.road),
                None => blocked(self@, t@) || forall|id: u128| !#[trigger] covers(
                    state@.roles,
                    id,
                    t.road,
                ),
            },
    {
        if !self.may_issue(t) {
            return None;
        }
        state.find_dispatcher(t.road)
    }
}

/// No plate is ever ticketed twice for one day: two distinct issued tickets
/// for the same plate never touch a common day.
pub proof fn lemma_one_ticket_per_plate_and_day(issued: Seq<TicketView>, k1: int, k2: int, d: int)
    requires
        book_wf(issued),
        0 <= k1 < issued.len(),
        0 <= k2 < issued.len(),
        k1 != k2,
        issued[k1].plate == issued[k2].plate,
        touches(issued[k1], d),
    ensures
        !touches(issued[k2], d),
{
    assert(!share_a_day(issued[k1], issued[k2]));
}

/// A ticket once issued is never issued again: on every later scan it is blocked.
pub proof fn lemma_issued_stays_blocked(issued: Seq<TicketView>, k: int)
    requires
        book_wf(issued),
        0 <= k < issued.len(),
    ensures
        blocked(issued, issued[k]),
{
    assert(issued[k].timestamp1 <= issued[k].timestamp2);
    assert(day(issued[k].timestamp1) <= day(issued[k].timestamp2)) by (nonlinear_arith)
        requires
            issued[k].timestamp1 <= issued[k].timestamp2,
    ;
    assert(share_a_day(issued[k], issued[k]));
}

/// Scanning is a function of the log and of where the cameras stand: two states
/// that agree on both give the same candidates, whatever dispatchers come and go.
pub proof fn lemma_scan_repeatable(a: StateView, b: StateView, n: int)
    requires
        a.log == b.log,
        forall|id: u128| camera_of(a.roles, id) == camera_of(b.roles, id),
    ensures
        candidates(a, n) == candidates(b, n),
    decreases n,
{
    if n > 0 {
        lemma_scan_repeatable(a, b, n - 1);
        let i = n - 1;
        assert forall|j: int| is_successor(a, i, j) <==> is_successor(b, i, j) by {
            assert forall|k: int| follows(a, i, k) <==> follows(b, i, k) by {
                if 0 <= k < a.log.len() {
                    assert(camera_of(a.roles, a.log[k].client_id) == camera_of(
                        b.roles,
                        b.log[k].client_id,
                    ));
                }
            }
            if 0 <= i < a.log.len() {
                assert(camera_of(a.roles, a.log[i].client_id) == camera_of(
                    b.roles,
                    b.log[i].client_id,
                ));
            }
            if is_successor(a, i, j) {
                assert forall|k: int| #[trigger] follows(b, i, k) implies !later(b.log, k, j) by {
                    assert(follows(a, i, k));
                }
            }
            if is_successor(b, i, j) {
                assert forall|k: int| #[trigger] follows(a, i, k) implies !later(a.log, k, j) by {
                    assert(follows(b, i, k));
                }
            }
        }
        if exists|j: int| is_successor(a, i, j) {
            let ja = choose|j: int| is_successor(a, i, j);
            let jb = choose|j: int| is_successor(b, i, j);
            lemma_successor_unique(a, i, ja, jb);
            assert(site(a, i) == site(b, i));
            assert(site(a, ja) == site(b, ja));
        }
    }
}

/// Sightings on two different roads are never paired, even when one follows
/// the other directly.
pub proof fn lemma_distinct_roads_never_paired(s: StateView, i: int, j: int)
    requires
        is_successor(s, i, j),
        site(s, i).road != site(s, j).road,
    ensures
        candidate_at(s, i) is None,
{
    lemma_successor_unique(s, i, j, choose|j: int| is_successor(s, i, j));
}

/// Every candidate's speed is the distance between its miles over the time
/// between its timestamps, in hundredths of a mile per hour, truncated toward
/// zero and capped at the largest 16-bit value; and it is over the limit.
pub proof fn lemma_candidate_speed(s: StateView, n: int, k: int)
    requires
        0 <= k < candidates(s, n).len(),
    ensures
        ({
            let t = candidates(s, n)[k];
            &&& t.timestamp1 < t.timestamp2
            &&& t.speed == ticket_speed(
                mile_gap(t.mile1, t.mile2),
                (t.timestamp2 - t.timestamp1) as nat,
            )
        }),
    decreases n,
{
    if n > 0 {
        if k < candidates(s, n - 1).len() {
            lemma_candidate_speed(s, n - 1, k);
        }
    }
}

} // verus!
