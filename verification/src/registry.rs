//! What the server can grant: descriptors that it holds open, and display
//! cards on which it creates a lease for each grant.

use crate::message::{InputResource, Resource};
use dashmap::DashMap;
use vstd::prelude::*;

verus! {

/// The number under which a resource is filed: its class in the upper byte,
/// its index in the lower one.
pub open spec fn resource_key(resource: Resource) -> u32 {
    match resource {
        Resource::Fbdev => 0,
        Resource::Drm { card } => (0x100 + card) as u32,
        Resource::Input(InputResource::Mouse(i)) => (0x200 + i) as u32,
        Resource::Input(InputResource::Keyboard(i)) => (0x300 + i) as u32,
        Resource::Input(InputResource::Touch(i)) => (0x400 + i) as u32,
    }
}

/// No two resources are filed under the same number.
pub proof fn keys_are_distinct(a: Resource, b: Resource)
    requires
        resource_key(a) == resource_key(b),
    ensures
        a == b,
{
}

/// The number under which a resource is filed.
pub fn key_of(resource: &Resource) -> (key: u32)
    ensures
        key == resource_key(*resource),
{
    match resource {
        Resource::Fbdev => 0,
        Resource::Drm { card } => 0x100 + *card as u32,
        Resource::Input(InputResource::Mouse(i)) => 0x200 + *i as u32,
        Resource::Input(InputResource::Keyboard(i)) => 0x300 + *i as u32,
        Resource::Input(InputResource::Touch(i)) => 0x400 + *i as u32,
    }
}

/// A hash map of the dashmap crate. Each map here belongs to one registry
/// alone and is changed only through an exclusive reference, so nothing
/// changes what it holds behind the registry's back.
#[verifier::external_type_specification]
#[verifier::external_body]
#[verifier::reject_recursive_types(K)]
#[verifier::reject_recursive_types(V)]
#[verifier::reject_recursive_types(S)]
pub struct ExDashMap<K, V, S>(dashmap::DashMap<K, V, S>);

/// The descriptors that a map holds, by resource number.
pub uninterp spec fn fds_in(table: DashMap<u32, i32>) -> Map<u32, i32>;

/// `DashMap::new` gives a map without entries.
#[verifier::external_body]
fn empty_fds() -> (fresh: DashMap<u32, i32>)
    ensures
        fds_in(fresh).dom() == Set::<u32>::empty(),
{
    DashMap::new()
}

/// `DashMap::insert` files a value under a key, in place of an earlier one.
#[verifier::external_body]
fn file_fd(table: &mut DashMap<u32, i32>, key: u32, fd: i32)
    ensures
        fds_in(*final(table)) == fds_in(*old(table)).insert(key, fd),
{
    table.insert(key, fd);
}

/// `DashMap::get` finds the value under a key.
#[verifier::external_body]
fn find_fd(table: &DashMap<u32, i32>, key: u32) -> (fd: Option<i32>)
    ensures
        fd == (if fds_in(*table).contains_key(key) {
            Some(fds_in(*table)[key])
        } else {
            None
        }),
{
    table.get(&key).map(|found| *found)
}

/// The server's own descriptors for the framebuffer and the input devices.
/// Grants are duplicates of these; the server never closes them. Display
/// cards are not here: each of their grants is a fresh lease.
pub struct ResourceRegistry {
    fds: DashMap<u32, i32>,
}

impl View for ResourceRegistry {
    type V = Map<Resource, i32>;

    closed spec fn view(&self) -> Map<Resource, i32> {
        Map::new(
            |resource: Resource| fds_in(self.fds).contains_key(resource_key(resource)),
            |resource: Resource| fds_in(self.fds)[resource_key(resource)],
        )
    }
}

impl ResourceRegistry {
    pub fn new() -> (registry: Self)
        ensures
            registry@ == Map::<Resource, i32>::empty(),
    {
        let registry = ResourceRegistry { fds: empty_fds() };
        assert(registry@ =~= Map::<Resource, i32>::empty());
        registry
    }

    /// Registers a resource's descriptor.
    pub fn insert(&mut self, resource: Resource, fd: i32)
        ensures
            final(self)@ == old(self)@.insert(resource, fd),
    {
        file_fd(&mut self.fds, key_of(&resource), fd);
        assert(self@ =~= old(self)@.insert(resource, fd));
    }

    /// The descriptor of a resource, if it is registered.
    pub fn get(&self, resource: &Resource) -> (fd: Option<i32>)
        ensures
            fd == (if self@.contains_key(*resource) {
                Some(self@[*resource])
            } else {
                None
            }),
    {
        find_fd(&self.fds, key_of(resource))
    }
}

/// A display card that the server owns. Clients never get the card's own
/// descriptor: each grant creates a fresh lease over the card's objects.
pub struct DrmDevice {
    pub index: u8,
    pub crtcs: Vec<u32>,
    pub connectors: Vec<u32>,
    pub planes: Vec<u32>,
    /// The lease that is granted on this card, if any. At most one client
    /// owns the card at a time, so one place is enough.
    pub active_lease: Option<u32>,
}

/// A card with its objects as sequences.
#[verifier::ext_equal]
pub struct DrmDeviceView {
    pub index: u8,
    pub crtcs: Seq<u32>,
    pub connectors: Seq<u32>,
    pub planes: Seq<u32>,
    pub active_lease: Option<u32>,
}

impl View for DrmDevice {
    type V = DrmDeviceView;

    open spec fn view(&self) -> DrmDeviceView {
        DrmDeviceView {
            index: self.index,
            crtcs: self.crtcs@,
            connectors: self.connectors@,
            planes: self.planes@,
            active_lease: self.active_lease,
        }
    }
}

impl DrmDeviceView {
    /// What a lease on the card covers.
    pub open spec fn objects(self) -> Seq<u32> {
        self.crtcs + self.connectors + self.planes
    }
}

/// What a grant of a card asks of the kernel: first to revoke a lease that
/// is still there, then to create one over the objects.
pub struct LeasePlan {
    pub stale: Option<u32>,
    pub objects: Vec<u32>,
}

fn copy_into(objects: &mut Vec<u32>, more: &Vec<u32>)
    ensures
        final(objects)@ == old(objects)@ + more@,
{
    let ghost before = objects@;
    let n: usize = more.len();
    let mut i: usize = 0;
    while i < n
        invariant
            i <= n,
            n == more@.len(),
            objects@ == before + more@.take(i as int),
        decreases n - i,
    {
        objects.push(more[i]);
        assert(more@.take(i + 1) =~= more@.take(i as int).push(more@[i as int]));
        i = i + 1;
    }
    assert(more@.take(n as int) =~= more@);
}

impl DrmDevice {
    /// Begins a grant: what the kernel is to be asked for. A lease that is
    /// still active is revoked first (its owner may have died without
    /// releasing): the kernel cannot lease the same objects twice.
    pub fn grant_lease(&mut self) -> (plan: LeasePlan)
        ensures
            plan.stale == old(self).active_lease,
            plan.objects@ == old(self)@.objects(),
            final(self)@ == (DrmDeviceView { active_lease: None, ..old(self)@ }),
    {
        let stale = self.active_lease;
        self.active_lease = None;
        let mut objects: Vec<u32> = Vec::new();
        copy_into(&mut objects, &self.crtcs);
        copy_into(&mut objects, &self.connectors);
        copy_into(&mut objects, &self.planes);
        assert(objects@ =~= self@.objects());
        LeasePlan { stale, objects }
    }

    /// Ends a grant: the lease that the kernel created, if it did.
    pub fn lease_created(&mut self, lease: Option<u32>)
        requires
            old(self).active_lease is None,
        ensures
            final(self)@ == (DrmDeviceView { active_lease: lease, ..old(self)@ }),
    {
        self.active_lease = lease;
    }

    /// Takes the granted lease back: the lease that the kernel is to revoke
    /// right now, without waiting for the client to close its descriptor.
    /// `None` where no lease is active.
    pub fn revoke_lease(&mut self) -> (lease: Option<u32>)
        ensures
            lease == old(self).active_lease,
            final(self)@ == (DrmDeviceView { active_lease: None, ..old(self)@ }),
    {
        let lease = self.active_lease;
        self.active_lease = None;
        lease
    }
}

/// The cards that a map holds, by resource number.
pub uninterp spec fn devices_in(table: DashMap<u32, DrmDevice>) -> Map<u32, DrmDeviceView>;

/// `DashMap::new` gives a map without entries.
#[verifier::external_body]
fn no_devices() -> (fresh: DashMap<u32, DrmDevice>)
    ensures
        devices_in(fresh).dom() == Set::<u32>::empty(),
{
    DashMap::new()
}

/// `DashMap::insert` files a value under a key, in place of an earlier one.
#[verifier::external_body]
fn file_device(table: &mut DashMap<u32, DrmDevice>, key: u32, device: DrmDevice)
    ensures
        devices_in(*final(table)) == devices_in(*old(table)).insert(key, device@),
{
    table.insert(key, device);
}

/// `DashMap::remove` takes the value under a key out, if there is one.
#[verifier::external_body]
fn take_device(table: &mut DashMap<u32, DrmDevice>, key: u32) -> (device: Option<DrmDevice>)
    ensures
        device is Some <==> devices_in(*old(table)).contains_key(key),
        device matches Some(found) ==> found@ == devices_in(*old(table))[key],
        devices_in(*final(table)) == devices_in(*old(table)).remove(key),
{
    table.remove(&key).map(|(_, device)| device)
}

/// The server's cards, by resource.
pub struct DrmRegistry {
    devices: DashMap<u32, DrmDevice>,
}

impl View for DrmRegistry {
    type V = Map<Resource, DrmDeviceView>;

    closed spec fn view(&self) -> Map<Resource, DrmDeviceView> {
        Map::new(
            |resource: Resource| devices_in(self.devices).contains_key(resource_key(resource)),
            |resource: Resource| devices_in(self.devices)[resource_key(resource)],
        )
    }
}

/// The cards once the lease of one of them has changed.
pub open spec fn leased(
    devices: Map<Resource, DrmDeviceView>,
    resource: Resource,
    lease: Option<u32>,
) -> Map<Resource, DrmDeviceView> {
    if devices.contains_key(resource) {
        devices.insert(resource, DrmDeviceView { active_lease: lease, ..devices[resource] })
    } else {
        devices
    }
}

impl DrmRegistry {
    pub fn new() -> (registry: Self)
        ensures
            registry@ == Map::<Resource, DrmDeviceView>::empty(),
    {
        let registry = DrmRegistry { devices: no_devices() };
        assert(registry@ =~= Map::<Resource, DrmDeviceView>::empty());
        registry
    }

    /// Registers a card.
    pub fn insert(&mut self, resource: Resource, device: DrmDevice)
        ensures
            final(self)@ == old(self)@.insert(resource, device@),
    {
        file_device(&mut self.devices, key_of(&resource), device);
        assert(self@ =~= old(self)@.insert(resource, device@));
    }

    /// Begins a grant of a card, if it is registered.
    pub fn begin_lease(&mut self, resource: &Resource) -> (plan: Option<LeasePlan>)
        ensures
            plan is Some <==> old(self)@.contains_key(*resource),
            plan matches Some(plan) ==> {
                &&& plan.stale == old(self)@[*resource].active_lease
                &&& plan.objects@ == old(self)@[*resource].objects()
            },
            final(self)@ == leased(old(self)@, *resource, None),
            // No lease is forgotten: it stays, or it is the one to revoke first.
            forall|other: Resource| #[trigger]
                old(self)@.contains_key(other) ==> final(self)@.contains_key(other) && {
                    ||| final(self)@[other].active_lease == old(self)@[other].active_lease
                    ||| plan matches Some(plan) && plan.stale == old(self)@[other].active_lease
                },
    {
        let key: u32 = key_of(resource);
        match take_device(&mut self.devices, key) {
            Some(mut device) => {
                let plan = device.grant_lease();
                file_device(&mut self.devices, key, device);
                assert(self@ =~= leased(old(self)@, *resource, None));
                Some(plan)
            },
            None => {
                assert(self@ =~= old(self)@);
                None
            },
        }
    }

    /// Ends a grant of a card: the lease that the kernel created, if it did.
    pub fn end_lease(&mut self, resource: &Resource, lease: Option<u32>)
        requires
            old(self)@.contains_key(*resource) ==> old(self)@[*resource].active_lease is None,
        ensures
            final(self)@ == leased(old(self)@, *resource, lease),
    {
        let key: u32 = key_of(resource);
        match take_device(&mut self.devices, key) {
            Some(mut device) => {
                device.lease_created(lease);
                file_device(&mut self.devices, key, device);
                assert(self@ =~= leased(old(self)@, *resource, lease));
            },
            None => {
                assert(self@ =~= old(self)@);
            },
        }
    }

    /// Takes the lease on a card back: the lease to revoke, if any.
    pub fn revoke_lease(&mut self, resource: &Resource) -> (lease: Option<u32>)
        ensures
            lease == (if old(self)@.contains_key(*resource) {
                old(self)@[*resource].active_lease
            } else {
                None
            }),
            final(self)@ == leased(old(self)@, *resource, None),
            // No lease is forgotten: it stays, or it is the one to revoke.
            forall|other: Resource| #[trigger]
                old(self)@.contains_key(other) ==> final(self)@.contains_key(other) && {
                    ||| final(self)@[other].active_lease == old(self)@[other].active_lease
                    ||| lease == old(self)@[other].active_lease
                },
    {
        let key: u32 = key_of(resource);
        match take_device(&mut self.devices, key) {
            Some(mut device) => {
                let lease = device.revoke_lease();
                file_device(&mut self.devices, key, device);
                assert(self@ =~= leased(old(self)@, *resource, None));
                lease
            },
            None => {
                assert(self@ =~= old(self)@);
                None
            },
        }
    }
}

/// The server's grant sources.
pub struct ResourceRegistries {
    /// Descriptors of the framebuffer and the input devices.
    pub fds: ResourceRegistry,
    /// Cards, on which each grant creates a lease.
    pub drm: DrmRegistry,
}

/// Everything that the server opened at startup.
pub struct OpenedResources {
    pub registries: ResourceRegistries,
    /// The resources in the order in which they are advertised: best first.
    pub advertised: Vec<Resource>,
}

/// A grant never forgets a lease: the lease that it records is the one that
/// the next grant, or a release, hands out to be revoked. Until it records
/// one, none is recorded; and neither the card's objects nor the other cards
/// change.
pub proof fn granted_lease_is_remembered(
    devices: Map<Resource, DrmDeviceView>,
    resource: Resource,
    lease: u32,
    other: Resource,
)
    requires
        devices.contains_key(resource),
        other != resource,
    ensures
        ({
            let begun = leased(devices, resource, None);
            let ended = leased(begun, resource, Some(lease));
            &&& begun[resource].active_lease is None
            &&& ended[resource].active_lease == Some(lease)
            &&& ended[resource].objects() == devices[resource].objects()
            &&& ended.contains_key(other) == devices.contains_key(other)
            &&& devices.contains_key(other) ==> ended[other] == devices[other]
        }),
{
}

/// A release undoes a grant: once the lease of a card that had none is taken
/// back, the cards are as they were.
pub proof fn revoke_undoes_lease(
    devices: Map<Resource, DrmDeviceView>,
    resource: Resource,
    lease: u32,
)
    requires
        devices.contains_key(resource),
        devices[resource].active_lease is None,
    ensures
        leased(leased(devices, resource, Some(lease)), resource, None) == devices,
{
    assert(leased(leased(devices, resource, Some(lease)), resource, None) =~= devices);
}

/// A lease covers every controller, every connector and every plane of the
/// card, each as often as the card lists it, and nothing else.
pub proof fn lease_covers_the_card(device: DrmDeviceView, object: u32)
    ensures
        device.objects().contains(object) <==> device.crtcs.contains(object)
            || device.connectors.contains(object) || device.planes.contains(object),
        device.objects().len() == device.crtcs.len() + device.connectors.len()
            + device.planes.len(),
        device.objects().to_multiset() == device.crtcs.to_multiset().add(
            device.connectors.to_multiset(),
        ).add(device.planes.to_multiset()),
{
    let crtcs = device.crtcs;
    let connectors = device.connectors;
    let planes = device.planes;
    let objects = device.objects();
    if crtcs.contains(object) {
        let i = choose|i: int| 0 <= i < crtcs.len() && crtcs[i] == object;
        assert(objects[i] == object);
    }
    if connectors.contains(object) {
        let i = choose|i: int| 0 <= i < connectors.len() && connectors[i] == object;
        assert(objects[crtcs.len() + i] == object);
    }
    if planes.contains(object) {
        let i = choose|i: int| 0 <= i < planes.len() && planes[i] == object;
        assert(objects[crtcs.len() + connectors.len() + i] == object);
    }
    if objects.contains(object) {
        let i = choose|i: int| 0 <= i < objects.len() && objects[i] == object;
        if i < crtcs.len() {
            assert(crtcs[i] == object);
        } else if i < crtcs.len() + connectors.len() {
            assert(connectors[i - crtcs.len()] == object);
        } else {
            assert(planes[i - crtcs.len() - connectors.len()] == object);
        }
    }
    vstd::seq_lib::lemma_multiset_commutative(crtcs, connectors);
    vstd::seq_lib::lemma_multiset_commutative(crtcs + connectors, planes);
}

/// Filing a lease on a card changes nothing of it but the lease.
pub proof fn lease_changes_nothing_else(
    devices: Map<Resource, DrmDeviceView>,
    resource: Resource,
    lease: Option<u32>,
)
    requires
        devices.contains_key(resource),
    ensures
        ({
            let device = leased(devices, resource, lease)[resource];
            &&& leased(devices, resource, lease).dom() == devices.dom()
            &&& device.active_lease == lease
            &&& device.index == devices[resource].index
            &&& device.crtcs == devices[resource].crtcs
            &&& device.connectors == devices[resource].connectors
            &&& device.planes == devices[resource].planes
        }),
{
    assert(leased(devices, resource, lease).dom() =~= devices.dom());
}

} // verus!
