//! What the server has to offer once everything was opened, and the policy
//! that each of it is arbitrated by.

use crate::cards::OpenedCard;
use crate::message::{InputResource, Resource};
use crate::policy::Policy;
use crate::registry::{
    DrmDeviceView, DrmRegistry, OpenedResources, ResourceRegistries, ResourceRegistry,
};
use crate::cards;
use vstd::prelude::*;

verus! {

/// An input device that was to be opened, and its descriptor if that went
/// well.
#[derive(Debug, Clone, Copy, PartialEq, Eq, Structural)]
pub struct OpenedInput {
    pub resource: InputResource,
    pub fd: Option<i32>,
}

/// The framebuffer, where it could be opened, as it is advertised.
pub open spec fn offered_fbdev(fd: Option<i32>) -> Seq<Resource> {
    if fd is Some {
        seq![Resource::Fbdev]
    } else {
        Seq::empty()
    }
}

/// The input devices that could be opened, as they are advertised.
pub open spec fn offered_inputs(inputs: Seq<OpenedInput>) -> Seq<Resource>
    decreases inputs.len(),
{
    if inputs.len() == 0 {
        Seq::empty()
    } else {
        let earlier = offered_inputs(inputs.drop_last());
        if inputs.last().fd is Some {
            earlier.push(Resource::Input(inputs.last().resource))
        } else {
            earlier
        }
    }
}

/// The descriptors once the input devices that could be opened have been
/// registered.
pub open spec fn with_inputs(fds: Map<Resource, i32>, inputs: Seq<OpenedInput>) -> Map<
    Resource,
    i32,
>
    decreases inputs.len(),
{
    if inputs.len() == 0 {
        fds
    } else {
        let earlier = with_inputs(fds, inputs.drop_last());
        match inputs.last().fd {
            Some(fd) => earlier.insert(Resource::Input(inputs.last().resource), fd),
            None => earlier,
        }
    }
}

/// Registers the framebuffer and advertises it, if it could be opened.
pub fn open_fbdev(
    fd: Option<i32>,
    registry: &mut ResourceRegistry,
    advertised: &mut Vec<Resource>,
)
    ensures
        final(registry)@ == (match fd {
            Some(fd) => old(registry)@.insert(Resource::Fbdev, fd),
            None => old(registry)@,
        }),
        final(advertised)@ == old(advertised)@ + offered_fbdev(fd),
{
    match fd {
        Some(fd) => {
            registry.insert(Resource::Fbdev, fd);
            advertised.push(Resource::Fbdev);
        },
        None => {},
    }
    assert(advertised@ =~= old(advertised)@ + offered_fbdev(fd));
}

/// Registers the input devices that could be opened and advertises them, in
/// their order.
pub fn open_inputs(
    inputs: &Vec<OpenedInput>,
    registry: &mut ResourceRegistry,
    advertised: &mut Vec<Resource>,
)
    ensures
        final(registry)@ == with_inputs(old(registry)@, inputs@),
        final(advertised)@ == old(advertised)@ + offered_inputs(inputs@),
{
    let ghost fds = registry@;
    let ghost offered = advertised@;
    let n: usize = inputs.len();
    let mut i: usize = 0;
    assert(inputs@.take(0) =~= Seq::<OpenedInput>::empty());
    assert(advertised@ =~= offered + offered_inputs(inputs@.take(0)));
    while i < n
        invariant
            i <= n,
            n == inputs@.len(),
            registry@ == with_inputs(fds, inputs@.take(i as int)),
            advertised@ == offered + offered_inputs(inputs@.take(i as int)),
        decreases n - i,
    {
        proof {
            assert(inputs@.take(i + 1).drop_last() =~= inputs@.take(i as int));
            assert(inputs@.take(i + 1).last() == inputs@[i as int]);
        }
        if let Some(fd) = inputs[i].fd {
            let resource = Resource::Input(inputs[i].resource);
            registry.insert(resource, fd);
            advertised.push(resource);
        }
        assert(advertised@ =~= offered + offered_inputs(inputs@.take(i + 1)));
        i = i + 1;
    }
    assert(inputs@.take(n as int) =~= inputs@);
}

/// Registers everything that could be opened. Clients read the advertised
/// list from the top, so it is in the order of priority: the framebuffer,
/// then the cards that can present a display, best first, then the input
/// devices.
pub fn query_resource(
    fbdev: Option<i32>,
    opened: &Vec<OpenedCard>,
    inputs: &Vec<OpenedInput>,
) -> (resources: OpenedResources)
    ensures
        resources.registries.fds@ == with_inputs(
            match fbdev {
                Some(fd) => map![Resource::Fbdev => fd],
                None => Map::<Resource, i32>::empty(),
            },
            inputs@,
        ),
        exists|order: Seq<usize>|
            {
                &&& #[trigger] cards::is_display_order(cards::opened_candidates(opened@), order)
                &&& resources.advertised@ == offered_fbdev(fbdev) + order.map_values(
                    |k: usize| Resource::Drm { card: opened@[k as int].index },
                ) + offered_inputs(inputs@)
                &&& resources.registries.drm@ == cards::registered(
                    Map::<Resource, DrmDeviceView>::empty(),
                    opened@,
                    order,
                )
            },
{
    let mut fds = ResourceRegistry::new();
    let mut drm = DrmRegistry::new();
    let mut advertised: Vec<Resource> = Vec::new();
    open_fbdev(fbdev, &mut fds, &mut advertised);
    let ghost first = advertised@;
    assert(first =~= offered_fbdev(fbdev));
    cards::register_cards(opened, &mut drm, &mut advertised);
    open_inputs(inputs, &mut fds, &mut advertised);
    proof {
        let base = match fbdev {
            Some(fd) => map![Resource::Fbdev => fd],
            None => Map::<Resource, i32>::empty(),
        };
        assert(match fbdev {
            Some(fd) => Map::<Resource, i32>::empty().insert(Resource::Fbdev, fd),
            None => Map::<Resource, i32>::empty(),
        } =~= base);
    }
    OpenedResources { registries: ResourceRegistries { fds, drm }, advertised }
}

/// One policy for every advertised resource.
pub fn policies_for(advertised: &Vec<Resource>, policy: Policy) -> (policies: Vec<
    (Resource, Policy),
>)
    ensures
        policies@ == advertised@.map_values(|resource: Resource| (resource, policy)),
{
    let ghost expected = advertised@.map_values(|resource: Resource| (resource, policy));
    let mut policies: Vec<(Resource, Policy)> = Vec::new();
    let n: usize = advertised.len();
    let mut i: usize = 0;
    while i < n
        invariant
            i <= n,
            n == advertised@.len(),
            expected == advertised@.map_values(|resource: Resource| (resource, policy)),
            policies@ == expected.take(i as int),
        decreases n - i,
    {
        policies.push((advertised[i], policy));
        assert(policies@ =~= expected.take(i + 1));
        i = i + 1;
    }
    assert(expected.take(n as int) =~= expected);
    policies
}

proof fn every_input_is_registered(fds: Map<Resource, i32>, inputs: Seq<OpenedInput>, r: Resource)
    requires
        fds.contains_key(r) || offered_inputs(inputs).contains(r),
    ensures
        with_inputs(fds, inputs).contains_key(r),
    decreases inputs.len(),
{
    if inputs.len() > 0 {
        let shorter = inputs.drop_last();
        let earlier = offered_inputs(shorter);
        if fds.contains_key(r) || earlier.contains(r) {
            every_input_is_registered(fds, shorter, r);
        } else {
            let k = choose|k: int|
                0 <= k < offered_inputs(inputs).len() && offered_inputs(inputs)[k] == r;
            if k < earlier.len() {
                assert(earlier[k] == r);
            }
        }
    }
}

/// Every advertised resource other than a card has a registered descriptor,
/// so that it can be granted.
pub proof fn advertised_resources_can_be_granted(
    fbdev: Option<i32>,
    inputs: Seq<OpenedInput>,
    r: Resource,
)
    requires
        (offered_fbdev(fbdev) + offered_inputs(inputs)).contains(r),
    ensures
        with_inputs(
            match fbdev {
                Some(fd) => map![Resource::Fbdev => fd],
                None => Map::<Resource, i32>::empty(),
            },
            inputs,
        ).contains_key(r),
{
    let both = offered_fbdev(fbdev) + offered_inputs(inputs);
    let base = match fbdev {
        Some(fd) => map![Resource::Fbdev => fd],
        None => Map::<Resource, i32>::empty(),
    };
    let k = choose|k: int| 0 <= k < both.len() && both[k] == r;
    let first = offered_fbdev(fbdev).len();
    if k >= first {
        assert(offered_inputs(inputs)[k - first] == r);
    }
    every_input_is_registered(base, inputs, r);
}

/// Every advertised card is registered, so that it can be leased.
pub proof fn advertised_cards_can_be_leased(
    opened: Seq<OpenedCard>,
    order: Seq<usize>,
    devices: Map<Resource, DrmDeviceView>,
    k: int,
)
    requires
        0 <= k < order.len(),
    ensures
        cards::registered(devices, opened, order).contains_key(
            Resource::Drm { card: opened[order[k] as int].index },
        ),
    decreases order.len(),
{
    if k < order.len() - 1 {
        advertised_cards_can_be_leased(opened, order.drop_last(), devices, k);
    }
}

/// Each input device that could be opened is registered with its own
/// descriptor: the one that the last opening of it gave.
pub proof fn each_input_has_its_own_descriptor(
    fds: Map<Resource, i32>,
    inputs: Seq<OpenedInput>,
    i: int,
)
    requires
        0 <= i < inputs.len(),
        inputs[i].fd is Some,
        forall|j: int|
            i < j < inputs.len() && (#[trigger] inputs[j]).fd is Some ==> inputs[j].resource
                != inputs[i].resource,
    ensures
        with_inputs(fds, inputs).contains_key(Resource::Input(inputs[i].resource)),
        with_inputs(fds, inputs)[Resource::Input(inputs[i].resource)] == inputs[i].fd->0,
    decreases inputs.len(),
{
    let n = inputs.len() - 1;
    if i < n {
        let shorter = inputs.drop_last();
        assert forall|j: int|
            i < j < shorter.len() && (#[trigger] shorter[j]).fd is Some implies shorter[j].resource
            != shorter[i].resource by {
            assert(inputs[j].fd is Some);
        }
        each_input_has_its_own_descriptor(fds, shorter, i);
        assert(inputs[n] == inputs.last());
    }
}

/// Registering input devices leaves alone the descriptors of everything else
/// and of the devices that could not be opened.
pub proof fn other_descriptors_stay(
    fds: Map<Resource, i32>,
    inputs: Seq<OpenedInput>,
    other: Resource,
)
    requires
        forall|j: int|
            0 <= j < inputs.len() && (#[trigger] inputs[j]).fd is Some ==> Resource::Input(
                inputs[j].resource,
            ) != other,
    ensures
        with_inputs(fds, inputs).contains_key(other) == fds.contains_key(other),
        fds.contains_key(other) ==> with_inputs(fds, inputs)[other] == fds[other],
    decreases inputs.len(),
{
    if inputs.len() > 0 {
        let shorter = inputs.drop_last();
        assert forall|j: int|
            0 <= j < shorter.len() && (#[trigger] shorter[j]).fd is Some implies Resource::Input(
            shorter[j].resource,
        ) != other by {
            assert(inputs[j].fd is Some);
        }
        other_descriptors_stay(fds, shorter, other);
        assert(inputs[inputs.len() - 1] == inputs.last());
    }
}

/// The input devices are advertised in their order, each of those that could
/// be opened once, and no other.
pub proof fn opened_inputs_are_advertised_in_order(inputs: Seq<OpenedInput>)
    ensures
        offered_inputs(inputs) == inputs.filter(|input: OpenedInput| input.fd is Some).map_values(
            |input: OpenedInput| Resource::Input(input.resource),
        ),
    decreases inputs.len(),
{
    reveal(Seq::filter);
    let opened = inputs.filter(|input: OpenedInput| input.fd is Some);
    let shown = opened.map_values(|input: OpenedInput| Resource::Input(input.resource));
    if inputs.len() > 0 {
        let shorter = inputs.drop_last();
        opened_inputs_are_advertised_in_order(shorter);
        let before = shorter.filter(|input: OpenedInput| input.fd is Some);
        if inputs.last().fd is Some {
            assert(opened =~= before.push(inputs.last()));
            assert(shown =~= offered_inputs(shorter).push(
                Resource::Input(inputs.last().resource),
            ));
        } else {
            assert(opened =~= before);
        }
    } else {
        assert(offered_inputs(inputs) =~= shown);
    }
}

/// The framebuffer is advertised once where it could be opened, else not.
pub proof fn opened_framebuffer_is_advertised(fd: Option<i32>)
    ensures
        offered_fbdev(fd).len() == (if fd is Some {
            1nat
        } else {
            0
        }),
        forall|k: int|
            0 <= k < offered_fbdev(fd).len() ==> #[trigger] offered_fbdev(fd)[k]
                == Resource::Fbdev,
{
}

/// Each card is registered with its own objects, unleased: those that the
/// last opening of it gave.
pub proof fn each_card_has_its_own_objects(
    opened: Seq<OpenedCard>,
    order: Seq<usize>,
    devices: Map<Resource, DrmDeviceView>,
    k: int,
)
    requires
        0 <= k < order.len(),
        forall|m: int|
            k < m < order.len() ==> opened[#[trigger] order[m] as int].index
                != opened[order[k] as int].index,
    ensures
        ({
            let card = opened[order[k] as int];
            let resource = Resource::Drm { card: card.index };
            let device = cards::registered(devices, opened, order)[resource];
            &&& cards::registered(devices, opened, order).contains_key(resource)
            &&& device.index == card.index
            &&& device.crtcs == card.crtcs@
            &&& device.connectors == card.connectors@
            &&& device.planes == card.planes@
            &&& device.active_lease is None
        }),
    decreases order.len(),
{
    let n = order.len() - 1;
    if k < n {
        let shorter = order.drop_last();
        assert(opened[order[n] as int].index != opened[order[k] as int].index);
        assert forall|m: int| k < m < shorter.len() implies opened[
            #[trigger] shorter[m] as int
        ].index != opened[shorter[k] as int].index by {
            assert(opened[order[m] as int].index != opened[order[k] as int].index);
        }
        each_card_has_its_own_objects(opened, shorter, devices, k);
    }
}

/// Registering cards leaves everything else alone.
pub proof fn other_devices_stay(
    opened: Seq<OpenedCard>,
    order: Seq<usize>,
    devices: Map<Resource, DrmDeviceView>,
    other: Resource,
)
    requires
        forall|m: int|
            0 <= m < order.len() ==> (Resource::Drm {
                card: opened[#[trigger] order[m] as int].index,
            }) != other,
    ensures
        cards::registered(devices, opened, order).contains_key(other) == devices.contains_key(
            other,
        ),
        devices.contains_key(other) ==> cards::registered(devices, opened, order)[other]
            == devices[other],
    decreases order.len(),
{
    if order.len() > 0 {
        let shorter = order.drop_last();
        assert(order[order.len() - 1] == order.last());
        assert forall|m: int| 0 <= m < shorter.len() implies (Resource::Drm {
            card: opened[#[trigger] shorter[m] as int].index,
        }) != other by {
            assert(shorter[m] == order[m]);
        }
        other_devices_stay(opened, shorter, devices, other);
    }
}

} // verus!
