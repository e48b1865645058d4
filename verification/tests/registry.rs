use simple_graphics_controller::cards::{
    any_connected, card_index, card_indices, card_names, card_path, display_connectors,
    display_order, drm_connectors, drm_display_cards, is_any_connected, register_cards,
    usable_card, Candidate, CardProbe, ConnectorInterface, ConnectorProbe, ConnectorState,
    OpenedCard, SysfsEntry,
};
use simple_graphics_controller::message::{InputResource, Resource};
use simple_graphics_controller::policy::Policy;
use simple_graphics_controller::registry::{key_of, DrmDevice, DrmRegistry, ResourceRegistry};
use simple_graphics_controller::resources::{policies_for, query_resource, OpenedInput};

fn names(list: &[&str]) -> Vec<String> {
    list.iter().map(|name| name.to_string()).collect()
}

fn card(index: u8) -> Resource {
    Resource::Drm { card: index }
}

fn opened(index: u8, connectors: Vec<u32>, any_connected: bool) -> OpenedCard {
    OpenedCard { index, crtcs: vec![10], connectors, planes: vec![30, 31], any_connected }
}

#[test]
fn every_resource_has_its_own_key() {
    assert_eq!(key_of(&Resource::Fbdev), 0);
    assert_eq!(key_of(&card(0)), 0x100);
    assert_eq!(key_of(&card(255)), 0x1ff);
    assert_eq!(key_of(&Resource::Input(InputResource::Mouse(0))), 0x200);
    assert_eq!(key_of(&Resource::Input(InputResource::Keyboard(7))), 0x307);
    assert_eq!(key_of(&Resource::Input(InputResource::Touch(1))), 0x401);
}

#[test]
fn registry_finds_what_was_filed() {
    let mut registry = ResourceRegistry::new();
    assert_eq!(registry.get(&Resource::Fbdev), None);
    registry.insert(Resource::Fbdev, 7);
    registry.insert(Resource::Input(InputResource::Mouse(0)), 8);
    assert_eq!(registry.get(&Resource::Fbdev), Some(7));
    assert_eq!(registry.get(&Resource::Input(InputResource::Mouse(0))), Some(8));
    assert_eq!(registry.get(&Resource::Input(InputResource::Mouse(1))), None);
    registry.insert(Resource::Fbdev, 9);
    assert_eq!(registry.get(&Resource::Fbdev), Some(9));
}

#[test]
fn lease_covers_all_objects_and_replaces_a_stale_one() {
    let mut device = DrmDevice {
        index: 0,
        crtcs: vec![1, 2],
        connectors: vec![3],
        planes: vec![4, 5],
        active_lease: None,
    };
    let plan = device.grant_lease();
    assert_eq!(plan.stale, None);
    assert_eq!(plan.objects, vec![1, 2, 3, 4, 5]);
    device.lease_created(Some(77));
    let again = device.grant_lease();
    assert_eq!(again.stale, Some(77));
    device.lease_created(None);
    assert_eq!(device.revoke_lease(), None);
    device.lease_created(Some(78));
    assert_eq!(device.revoke_lease(), Some(78));
    assert_eq!(device.revoke_lease(), None);
}

#[test]
fn leases_are_kept_per_card() {
    let mut drm = DrmRegistry::new();
    let mut advertised = Vec::new();
    let cards = vec![opened(0, vec![20], false), opened(1, vec![21, 22], false)];
    register_cards(&cards, &mut drm, &mut advertised);
    assert_eq!(advertised, vec![card(0), card(1)]);
    let plan = drm.begin_lease(&card(1)).unwrap();
    assert_eq!(plan.objects, vec![10, 21, 22, 30, 31]);
    drm.end_lease(&card(1), Some(5));
    assert_eq!(drm.revoke_lease(&card(0)), None);
    assert_eq!(drm.begin_lease(&card(1)).unwrap().stale, Some(5));
    drm.end_lease(&card(1), Some(6));
    assert_eq!(drm.revoke_lease(&card(1)), Some(6));
    assert_eq!(drm.revoke_lease(&card(1)), None);
    assert!(drm.begin_lease(&card(2)).is_none());
    assert_eq!(drm.revoke_lease(&card(2)), None);
}

#[test]
fn card_index_is_the_number_behind_the_prefix() {
    assert_eq!(card_index("card0"), Some(0));
    assert_eq!(card_index("card12"), Some(12));
    assert_eq!(card_index("card255"), Some(255));
    assert_eq!(card_index("card007"), Some(7));
    assert_eq!(card_index("card+3"), Some(3));
    for name in ["card256", "card1000000000000000000000", "card", "card+", "card-0", "card0x",
        "renderD128", "Card0", "", "car", "card 1", "card0-HDMI-A-1", "card++1"]
    {
        assert_eq!(card_index(name), None, "{name}");
        // The same as what the standard library reads behind the prefix.
        assert_eq!(name.strip_prefix("card").and_then(|n| n.parse::<u8>().ok()), None);
    }
}

#[test]
fn card_indices_are_sorted() {
    let found = card_indices(&names(&["card2", "renderD128", "card10", "by-path", "card0", "card1"]));
    assert_eq!(found, vec![0, 1, 2, 10]);
    assert_eq!(card_path(10), "/dev/dri/card10");
    assert_eq!(
        card_names(&names(&["card2", "renderD128", "card10", "card0"])),
        names(&["card0", "card10", "card2"])
    );
}

#[test]
fn sysfs_connectors_belong_to_their_card() {
    let entries = vec![
        SysfsEntry { name: "card0".to_string(), status: None },
        SysfsEntry { name: "card0-HDMI-A-1".to_string(), status: Some("disconnected\n".to_string()) },
        SysfsEntry { name: "card1-DP-1".to_string(), status: Some("connected\n".to_string()) },
        SysfsEntry { name: "card0-Writeback-1".to_string(), status: Some("connected".to_string()) },
        SysfsEntry { name: "card10-DP-1".to_string(), status: Some(" connected ".to_string()) },
        SysfsEntry { name: "card2-Writeback-1".to_string(), status: Some("unknown".to_string()) },
        SysfsEntry { name: "card0-VGA-1".to_string(), status: None },
    ];
    assert_eq!(drm_connectors(0, &entries), vec![1, 6]);
    assert_eq!(drm_connectors(1, &entries), vec![2]);
    assert_eq!(drm_connectors(10, &entries), vec![4]);
    assert!(drm_connectors(2, &entries).is_empty());
    assert!(!is_any_connected(&entries, &vec![1, 6]));
    assert!(is_any_connected(&entries, &vec![1, 2]));
    // Connected first, then the lowest index; no connector, no display.
    assert_eq!(drm_display_cards(&vec![0, 1, 2, 10], &entries), vec![1, 10, 0]);
    assert!(drm_display_cards(&vec![2, 3], &entries).is_empty());
}

#[test]
fn writeback_connectors_are_dropped_and_failed_probes_kept() {
    let probes = vec![
        ConnectorProbe { handle: 1, interface: Some(ConnectorInterface::Display) },
        ConnectorProbe { handle: 2, interface: Some(ConnectorInterface::Writeback) },
        ConnectorProbe { handle: 3, interface: None },
    ];
    assert_eq!(display_connectors(&probes), vec![1, 3]);
    assert!(any_connected(&vec![None, Some(ConnectorState::Connected)]));
    assert!(!any_connected(&vec![
        None,
        Some(ConnectorState::Disconnected),
        Some(ConnectorState::Unknown)
    ]));
    let kept = usable_card(
        4,
        CardProbe::Probed {
            crtcs: vec![40],
            connectors: probes,
            states: vec![Some(ConnectorState::Connected), None],
            planes: vec![50],
        },
    )
    .unwrap();
    assert_eq!(kept.index, 4);
    assert_eq!(kept.crtcs, vec![40]);
    assert_eq!(kept.connectors, vec![1, 3]);
    assert_eq!(kept.planes, vec![50]);
    assert!(kept.any_connected);
    for failed in
        [CardProbe::Unopened, CardProbe::NotMaster, CardProbe::NoResources, CardProbe::NoPlanes]
    {
        assert!(usable_card(4, failed).is_none());
    }
}

#[test]
fn display_order_is_connected_then_index_then_position() {
    let candidates = vec![
        Candidate { index: 3, has_connector: true, connected: false },
        Candidate { index: 2, has_connector: false, connected: false },
        Candidate { index: 1, has_connector: true, connected: false },
        Candidate { index: 5, has_connector: true, connected: true },
        Candidate { index: 1, has_connector: true, connected: false },
        Candidate { index: 4, has_connector: true, connected: true },
    ];
    assert_eq!(display_order(&candidates), vec![5, 3, 2, 4, 0]);
}

#[test]
fn advertised_list_is_fbdev_then_cards_then_inputs() {
    let cards = vec![
        opened(0, vec![20], false),
        opened(1, vec![], false),
        opened(2, vec![22], true),
    ];
    let mouse = InputResource::Mouse(0);
    let inputs = vec![
        OpenedInput { resource: mouse, fd: Some(8) },
        OpenedInput { resource: InputResource::Keyboard(0), fd: None },
        OpenedInput { resource: InputResource::Touch(0), fd: Some(9) },
    ];
    let resources = query_resource(Some(3), &cards, &inputs);
    let expected = vec![
        Resource::Fbdev,
        card(2),
        card(0),
        Resource::Input(mouse),
        Resource::Input(InputResource::Touch(0)),
    ];
    assert_eq!(resources.advertised, expected);
    assert_eq!(resources.registries.fds.get(&Resource::Fbdev), Some(3));
    assert_eq!(resources.registries.fds.get(&Resource::Input(mouse)), Some(8));
    assert_eq!(
        resources.registries.fds.get(&Resource::Input(InputResource::Keyboard(0))),
        None
    );
    assert_eq!(resources.registries.fds.get(&card(2)), None);
    let mut drm = resources.registries.drm;
    assert_eq!(drm.begin_lease(&card(2)).unwrap().objects, vec![10, 22, 30, 31]);
    assert!(drm.begin_lease(&card(1)).is_none());
    let without = query_resource(None, &vec![], &vec![]);
    assert!(without.advertised.is_empty());
    assert_eq!(
        policies_for(&expected, Policy::LatestOwner)[1],
        (card(2), Policy::LatestOwner)
    );
}

#[test]
fn releasing_a_card_undoes_its_grant() {
    let mut registry = DrmRegistry::new();
    registry.insert(
        card(0),
        DrmDevice {
            index: 0,
            crtcs: vec![1],
            connectors: vec![2],
            planes: vec![3],
            active_lease: None,
        },
    );
    assert_eq!(registry.begin_lease(&card(0)).unwrap().stale, None);
    registry.end_lease(&card(0), Some(9));
    assert_eq!(registry.revoke_lease(&card(0)), Some(9));
    let plan = registry.begin_lease(&card(0)).unwrap();
    assert_eq!(plan.stale, None);
    assert_eq!(plan.objects, vec![1, 2, 3]);
}
