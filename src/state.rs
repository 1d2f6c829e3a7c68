//! The shared state: the registry of connected clients and their roles, and
//! the log of plate sightings reported by cameras.
use vstd::prelude::*;

verus! {

/// What a connection has said it is.
pub enum ClientRole {
    Unidentified,
    Camera { road: u16, mile: u16, limit: u16 },
    Dispatcher { roads: Vec<u16> },
}

/// Mathematical form of a [`ClientRole`].
pub ghost enum RoleView {
    Unidentified,
    Camera { road: u16, mile: u16, limit: u16 },
    Dispatcher { roads: Seq<u16> },
}

impl View for ClientRole {
    type V = RoleView;

    open spec fn view(&self) -> RoleView {
        match self {
            ClientRole::Unidentified => RoleView::Unidentified,
            ClientRole::Camera { road, mile, limit } => RoleView::Camera {
                road: *road,
                mile: *mile,
                limit: *limit,
            },
            ClientRole::Dispatcher { roads } => RoleView::Dispatcher { roads: roads@ },
        }
    }
}

/// Where a camera stands and the limit it enforces.
#[derive(Clone, Copy, Debug, PartialEq, Eq, Structural)]
pub struct CameraSite {
    pub road: u16,
    pub mile: u16,
    pub limit: u16,
}

/// One observation of a plate by the camera of connection `client_id`.
#[derive(Debug)]
pub struct Sighting {
    pub client_id: u128,
    pub plate: Vec<u8>,
    pub timestamp: u32,
}

/// Mathematical form of a [`Sighting`].
pub ghost struct SightingView {
    pub client_id: u128,
    pub plate: Seq<u8>,
    pub timestamp: u32,
}

impl View for Sighting {
    type V = SightingView;

    open spec fn view(&self) -> SightingView {
        SightingView { client_id: self.client_id, plate: self.plate@, timestamp: self.timestamp }
    }
}

impl ClientRole {
    fn duplicate(&self) -> (r: ClientRole)
        ensures
            r@ == self@,
    {
        match self {
            ClientRole::Unidentified => ClientRole::Unidentified,
            ClientRole::Camera { road, mile, limit } => ClientRole::Camera {
                road: *road,
                mile: *mile,
                limit: *limit,
            },
            ClientRole::Dispatcher { roads } => ClientRole::Dispatcher { roads: roads.clone() },
        }
    }
}

struct RegistryEntry {
    id: u128,
    role: ClientRole,
}

/// Mathematical form of the shared state: each client's role, and the
/// sightings in the order they were reported.
pub ghost struct StateView {
    pub roles: Map<u128, RoleView>,
    pub log: Seq<SightingView>,
}

/// The site of the camera behind a client identity, if it is a camera.
pub open spec fn camera_of(roles: Map<u128, RoleView>, id: u128) -> Option<CameraSite> {
    if roles.contains_key(id) {
        match roles[id] {
            RoleView::Camera { road, mile, limit } => Some(
                CameraSite { road: road, mile: mile, limit: limit },
            ),
            _ => None,
        }
    } else {
        None
    }
}

/// `id` is a dispatcher responsible for `road`.
pub open spec fn covers(roles: Map<u128, RoleView>, id: u128, road: u16) -> bool {
    roles.contains_key(id) && match roles[id] {
        RoleView::Dispatcher { roads } => roads.contains(road),
        _ => false,
    }
}

/// The registry and the sighting log, guarded together by one lock.
///
/// The registry is a vector of entries with distinct identities, described by
/// the ghost map `roles`. Finding a dispatcher for a road walks every entry;
/// a vector is walked in registration order, so the dispatcher chosen is the
/// same on every run, where a hash map would be walked in an order that
/// changes from process to process.
pub struct FlockState {
    entries: Vec<RegistryEntry>,
    traffic_log: Vec<Sighting>,
    roles: Ghost<Map<u128, RoleView>>,
}

impl View for FlockState {
    type V = StateView;

    closed spec fn view(&self) -> StateView {
        StateView { roles: self.roles@, log: self.traffic_log@.map_values(|s: Sighting| s@) }
    }
}

impl FlockState {
    /// The registry holds one entry per identity, and the ghost map describes it.
    pub closed spec fn wf(&self) -> bool {
        &&& self.roles@.dom().finite()
        &&& forall|i: int, j: int|
            0 <= i < j < self.entries@.len() ==> self.entries@[i].id != self.entries@[j].id
        &&& forall|i: int|
            0 <= i < self.entries@.len() ==> #[trigger] self.roles@.contains_key(
                self.entries@[i].id,
            ) && self.roles@[self.entries@[i].id] == self.entries@[i].role@
        &&& forall|id: u128|
            #[trigger] self.roles@.contains_key(id) ==> exists|i: int|
                0 <= i < self.entries@.len() && self.entries@[i].id == id
    }

    /// An empty registry and an empty log.
    pub fn new() -> (r: FlockState)
        ensures
            r.wf(),
            r@.roles == Map::<u128, RoleView>::empty(),
            r@.log == Seq::<SightingView>::empty(),
    {
        let r = FlockState { entries: Vec::new(), traffic_log: Vec::new(), roles: Ghost(Map::empty()) };
        assert(r@.log =~= Seq::<SightingView>::empty());
        r
    }

    fn position(&self, id: u128) -> (r: Option<usize>)
        requires
            self.wf(),
        ensures
            r is None <==> !self@.roles.contains_key(id),
            r matches Some(i) ==> i < self.entries@.len() && self.entries@[i as int].id == id
                && self@.roles[id] == self.entries@[i as int].role@,
    {
        let mut i: usize = 0;
        while i < self.entries.len()
            invariant
                self.wf(),
                i <= self.entries@.len(),
                forall|k: int| 0 <= k < i ==> self.entries@[k].id != id,
            decreases self.entries@.len() - i,
        {
            if self.entries[i].id == id {
                return Some(i);
            }
            i = i + 1;
        }
        None
    }

    /// A copy of the registry and the log, so that they can be read while the
    /// live state goes on changing.
    pub fn snapshot(&self) -> (r: FlockState)
        requires
            self.wf(),
        ensures
            r.wf(),
            r@ == self@,
    {
        let mut entries: Vec<RegistryEntry> = Vec::new();
        let mut i: usize = 0;
        while i < self.entries.len()
            invariant
                i <= self.entries@.len(),
                entries@.len() == i,
                forall|k: int|
                    0 <= k < i ==> #[trigger] entries@[k].id == self.entries@[k].id
                        && entries@[k].role@ == self.entries@[k].role@,
            decreases self.entries@.len() - i,
        {
            let e = &self.entries[i];
            entries.push(RegistryEntry { id: e.id, role: e.role.duplicate() });
            i = i + 1;
        }
        let mut log: Vec<Sighting> = Vec::new();
        let mut j: usize = 0;
        while j < self.traffic_log.len()
            invariant
                j <= self.traffic_log@.len(),
                log@.len() == j,
                forall|k: int| 0 <= k < j ==> #[trigger] log@[k]@ == self.traffic_log@[k]@,
            decreases self.traffic_log@.len() - j,
        {
            let e = &self.traffic_log[j];
            log.push(Sighting { client_id: e.client_id, plate: e.plate.clone(), timestamp: e.timestamp });
            j = j + 1;
        }
        let r = FlockState { entries, traffic_log: log, roles: Ghost(self.roles@) };
        assert(r@.log =~= self@.log);
        assert forall|id: u128| #[trigger] r.roles@.contains_key(id) implies exists|k: int|
            0 <= k < r.entries@.len() && r.entries@[k].id == id by {
            let k = choose|k: int| 0 <= k < self.entries@.len() && self.entries@[k].id == id;
            assert(r.entries@[k].id == id);
        }
        r
    }

    /// Whether `id` is registered.
    pub fn is_registered(&self, id: u128) -> (r: bool)
        requires
            self.wf(),
        ensures
            r == self@.roles.contains_key(id),
    {
        self.position(id).is_some()
    }

    /// Where the camera behind `id` stands, if `id` is a camera.
    pub fn camera_site(&self, id: u128) -> (r: Option<CameraSite>)
        requires
            self.wf(),
        ensures
            r == camera_of(self@.roles, id),
    {
        match self.position(id) {
            None => None,
            Some(i) => match &self.entries[i].role {
                ClientRole::Camera { road, mile, limit } => Some(
                    CameraSite { road: *road, mile: *mile, limit: *limit },
                ),
                _ => None,
            },
        }
    }

    /// Registers a new connection as unidentified, unless its identity is taken.
    pub fn connect(&mut self, id: u128) -> (r: bool)
        requires
            old(self).wf(),
        ensures
            final(self).wf(),
            r == !old(self)@.roles.contains_key(id),
            final(self)@.roles == (if r {
                old(self)@.roles.insert(id, RoleView::Unidentified)
            } else {
                old(self)@.roles
            }),
            final(self)@.log == old(self)@.log,
    {
        if self.position(id).is_some() {
            return false;
        }
        let ghost old_entries = self.entries@;
        self.entries.push(RegistryEntry { id, role: ClientRole::Unidentified });
        self.roles = Ghost(self.roles@.insert(id, RoleView::Unidentified));
        assert forall|k: u128| #[trigger] self.roles@.contains_key(k) implies exists|i: int|
            0 <= i < self.entries@.len() && self.entries@[i].id == k by {
            if k == id {
                assert(self.entries@[old_entries.len() as int].id == k);
            } else {
                let i = choose|i: int| 0 <= i < old_entries.len() && old_entries[i].id == k;
                assert(self.entries@[i].id == k);
            }
        }
        true
    }

    /// Mints a fresh identity for a new connection and registers it as
    /// unidentified. Gives `None`, and changes nothing, when the identity drawn
    /// is already in use.
    pub fn accept(&mut self) -> (r: Option<u128>)
        requires
            old(self).wf(),
        ensures
            final(self).wf(),
            final(self)@.log == old(self)@.log,
            match r {
                Some(id) => !old(self)@.roles.contains_key(id) && final(self)@.roles == old(
                    self,
                )@.roles.insert(id, RoleView::Unidentified),
                None => final(self)@.roles == old(self)@.roles && old(self)@.roles.dom().len() > 0,
            },
    {
        let id = new_client_id();
        if self.connect(id) {
            Some(id)
        } else {
            proof {
                assert(self.roles@.dom().contains(id));
                assert(self.roles@.dom().remove(id).len() + 1 == self.roles@.dom().len());
            }
            None
        }
    }

    /// Gives the still unidentified connection `id` its role. Changes nothing,
    /// and gives `false`, when `id` is not registered or already identified.
    pub fn identify(&mut self, id: u128, role: ClientRole) -> (r: bool)
        requires
            old(self).wf(),
            !(role@ is Unidentified),
        ensures
            final(self).wf(),
            r == (old(self)@.roles.contains_key(id) && old(self)@.roles[id] is Unidentified),
            final(self)@.roles == (if r {
                old(self)@.roles.insert(id, role@)
            } else {
                old(self)@.roles
            }),
            final(self)@.log == old(self)@.log,
    {
        match self.position(id) {
            None => false,
            Some(i) => {
                if let ClientRole::Unidentified = &self.entries[i].role {
                    let ghost old_entries = self.entries@;
                    let ghost rv = role@;
                    self.entries.set(i, RegistryEntry { id, role });
                    self.roles = Ghost(self.roles@.insert(id, rv));
                    assert forall|k: u128| #[trigger] self.roles@.contains_key(k) implies exists|
                        j: int,
                    | 0 <= j < self.entries@.len() && self.entries@[j].id == k by {
                        let j = choose|j: int| 0 <= j < old_entries.len() && old_entries[j].id == k;
                        assert(self.entries@[j].id == k);
                    }
                    true
                } else {
                    false
                }
            },
        }
    }

    /// Appends a sighting of `plate` at `timestamp` by the camera `id`. Changes
    /// nothing, and gives `false`, when `id` is not a camera.
    pub fn record_sighting(&mut self, id: u128, plate: Vec<u8>, timestamp: u32) -> (r: bool)
        requires
            old(self).wf(),
        ensures
            final(self).wf(),
            r == camera_of(old(self)@.roles, id) is Some,
            final(self)@.roles == old(self)@.roles,
            final(self)@.log == (if r {
                old(self)@.log.push(SightingView { client_id: id, plate: plate@, timestamp })
            } else {
                old(self)@.log
            }),
    {
        if self.camera_site(id).is_none() {
            return false;
        }
        let ghost old_log = self.traffic_log@;
        self.traffic_log.push(Sighting { client_id: id, plate, timestamp });
        assert(self@.log =~= old(self)@.log.push(
            SightingView { client_id: id, plate: plate@, timestamp },
        ));
        true
    }

    /// Number of sightings in the log.
    pub fn log_len(&self) -> (r: usize)
        ensures
            r == self@.log.len(),
    {
        self.traffic_log.len()
    }

    /// The `i`-th sighting of the log.
    pub fn sighting(&self, i: usize) -> (r: &Sighting)
        requires
            i < self@.log.len(),
        ensures
            r@ == self@.log[i as int],
    {
        &self.traffic_log[i]
    }

    /// A dispatcher currently responsible for `road`, if any.
    pub fn find_dispatcher(&self, road: u16) -> (r: Option<u128>)
        requires
            self.wf(),
        ensures
            r matches Some(id) ==> covers(self@.roles, id, road),
            r is None ==> forall|id: u128| !#[trigger] covers(self@.roles, id, road),
    {
        let mut i: usize = 0;
        while i < self.entries.len()
            invariant
                self.wf(),
                i <= self.entries@.len(),
                forall|k: int|
                    0 <= k < i ==> !covers(self.roles@, #[trigger] self.entries@[k].id, road),
            decreases self.entries@.len() - i,
        {
            if let ClientRole::Dispatcher { roads } = &self.entries[i].role {
                let mut j: usize = 0;
                while j < roads.len()
                    invariant
                        self.wf(),
                        i < self.entries@.len(),
                        self.entries@[i as int].role@ == (RoleView::Dispatcher { roads: roads@ }),
                        j <= roads@.len(),
                        forall|k: int| 0 <= k < j ==> roads@[k] != road,
                    decreases roads@.len() - j,
                {
                    if roads[j] == road {
                        assert(roads@[j as int] == road);
                        assert(self.roles@.contains_key(self.entries@[i as int].id));
                        return Some(self.entries[i].id);
                    }
                    j = j + 1;
                }
                assert(!roads@.contains(road));
                assert(self.roles@.contains_key(self.entries@[i as int].id));
            }
            i = i + 1;
        }
        assert forall|id: u128| !#[trigger] covers(self@.roles, id, road) by {
            if self.roles@.contains_key(id) {
                let k = choose|k: int| 0 <= k < self.entries@.len() && self.entries@[k].id == id;
                assert(!covers(self.roles@, self.entries@[k].id, road));
            }
        }
        None
    }

    /// Forgets a connection that closed, unless it was a camera: a camera's
    /// site stays known so that its sightings can still be placed.
    pub fn disconnect(&mut self, id: u128)
        requires
            old(self).wf(),
        ensures
            final(self).wf(),
            final(self)@.roles == (if camera_of(old(self)@.roles, id) is Some {
                old(self)@.roles
            } else {
                old(self)@.roles.remove(id)
            }),
            final(self)@.log == old(self)@.log,
    {
        match self.position(id) {
            None => {
                assert(self.roles@ =~= self.roles@.remove(id));
            },
            Some(i) => {
                if let ClientRole::Camera { .. } = &self.entries[i].role {
                    return;
                }
                let ghost old_entries = self.entries@;
                self.entries.remove(i);
                self.roles = Ghost(self.roles@.remove(id));
                assert forall|k: u128| #[trigger] self.roles@.contains_key(k) implies exists|j: int|
                    0 <= j < self.entries@.len() && self.entries@[j].id == k by {
                    let j = choose|j: int| 0 <= j < old_entries.len() && old_entries[j].id == k;
                    if j < i {
                        assert(self.entries@[j].id == k);
                    } else {
                        assert(self.entries@[j - 1].id == k);
                    }
                }
            },
        }
    }
}

/// Relies on uuid's `Uuid::new_v4` and `Uuid::as_u128`: a random version-4
/// identity, read as one 128-bit integer. Nothing is promised of its value.
#[verifier::external_body]
fn new_client_id() -> (r: u128) {
    uuid::Uuid::new_v4().as_u128()
}

} // verus!
