use evdev::{AbsoluteAxisType, AttributeSet, Key, RelativeAxisType};
use simple_graphics_controller::input::{
    classify, discover, input_event_names, DeviceProbe, InputClass,
};
use simple_graphics_controller::message::InputResource;

fn absolute(axes: &[AbsoluteAxisType]) -> AttributeSet<AbsoluteAxisType> {
    let mut set = AttributeSet::new();
    for axis in axes {
        set.insert(*axis);
    }
    set
}

fn relative(axes: &[RelativeAxisType]) -> AttributeSet<RelativeAxisType> {
    let mut set = AttributeSet::new();
    for axis in axes {
        set.insert(*axis);
    }
    set
}

fn keys(codes: &[u16]) -> AttributeSet<Key> {
    let mut set = AttributeSet::new();
    for code in codes {
        set.insert(Key(*code));
    }
    set
}

#[test]
fn touch_goes_before_mouse_and_mouse_before_keyboard() {
    let multi = absolute(&[AbsoluteAxisType::ABS_MT_POSITION_X]);
    let single = absolute(&[AbsoluteAxisType::ABS_X, AbsoluteAxisType::ABS_Y]);
    let half = absolute(&[AbsoluteAxisType::ABS_X]);
    let pointer = relative(&[RelativeAxisType::REL_X, RelativeAxisType::REL_Y]);
    let wheel = relative(&[RelativeAxisType::REL_X, RelativeAxisType::REL_WHEEL]);
    let buttons = keys(&[0x117]);
    let typing = keys(&[57]);
    let both = keys(&[30, 0x110]);
    assert_eq!(classify(Some(&multi), Some(&pointer), Some(&both)), Some(InputClass::Touch));
    assert_eq!(classify(Some(&single), None, None), Some(InputClass::Touch));
    assert_eq!(classify(Some(&half), Some(&pointer), Some(&buttons)), Some(InputClass::Mouse));
    assert_eq!(classify(None, Some(&pointer), Some(&both)), Some(InputClass::Mouse));
    assert_eq!(classify(None, Some(&wheel), Some(&both)), Some(InputClass::Keyboard));
    assert_eq!(classify(None, None, Some(&typing)), Some(InputClass::Keyboard));
}

#[test]
fn other_devices_are_of_no_kind() {
    let pointer = relative(&[RelativeAxisType::REL_X, RelativeAxisType::REL_Y]);
    assert_eq!(classify(None, None, None), None);
    // A pointer without buttons.
    assert_eq!(classify(None, Some(&pointer), None), None);
    assert_eq!(classify(None, Some(&pointer), Some(&keys(&[0x118]))), None);
    // A power button.
    assert_eq!(classify(None, None, Some(&keys(&[116]))), None);
    assert_eq!(classify(None, None, Some(&keys(&[58, 0x110]))), None);
    assert_eq!(classify(None, None, Some(&keys(&[1]))), Some(InputClass::Keyboard));
    assert_eq!(classify(None, Some(&pointer), Some(&keys(&[0x10f]))), None);
}

fn probe(path: &str, name: Option<&str>, class: Option<InputClass>) -> DeviceProbe {
    DeviceProbe {
        path: path.to_string(),
        name: name.map(|n| n.to_string()),
        class,
    }
}

#[test]
fn devices_of_a_kind_are_numbered() {
    let found = discover(&vec![
        probe("/dev/input/event0", Some("kbd"), Some(InputClass::Keyboard)),
        probe("/dev/input/event1", Some("power"), None),
        probe("/dev/input/event2", None, Some(InputClass::Mouse)),
        probe("/dev/input/event3", Some("mouse two"), Some(InputClass::Mouse)),
        probe("/dev/input/event4", Some("panel"), Some(InputClass::Touch)),
        probe("/dev/input/event5", Some("kbd two"), Some(InputClass::Keyboard)),
    ]);
    let resources: Vec<InputResource> = found.iter().map(|d| d.resource).collect();
    assert_eq!(
        resources,
        vec![
            InputResource::Keyboard(0),
            InputResource::Mouse(0),
            InputResource::Mouse(1),
            InputResource::Touch(0),
            InputResource::Keyboard(1),
        ]
    );
    assert_eq!(found[1].name, "unnamed");
    assert_eq!(found[1].path, "/dev/input/event2");
    assert_eq!(found[2].name, "mouse two");
}

#[test]
fn event_nodes_are_listed_in_a_stable_order() {
    let names: Vec<String> = ["mouse0", "event10", "event2", "by-id", "event1", "Event3", "event"]
        .iter()
        .map(|n| n.to_string())
        .collect();
    let mut reversed = names.clone();
    reversed.reverse();
    let found = input_event_names(&names);
    assert_eq!(found, vec!["event", "event1", "event10", "event2"]);
    assert_eq!(input_event_names(&reversed), found);
    assert!(input_event_names(&vec![]).is_empty());
}
