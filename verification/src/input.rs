//! Input devices: which device nodes are examined, what kind of device each
//! is, and how the devices of a kind are numbered.

use crate::message::InputResource;
use crate::listing;
use evdev::{AbsoluteAxisType, AttributeSetRef, Key, RelativeAxisType};
use vstd::prelude::*;

verus! {

/// The kind of an input device, before it is numbered.
#[derive(Debug, Clone, Copy, PartialEq, Eq, Structural)]
pub enum InputClass {
    Mouse,
    Keyboard,
    Touch,
}

/// A set of codes, of the evdev crate.
#[verifier::external_type_specification]
#[verifier::external_body]
#[verifier::reject_recursive_types(T)]
pub struct ExAttributeSetRef<T>(evdev::AttributeSetRef<T>);

/// The code of a key or button, of the evdev crate.
#[verifier::external_type_specification]
#[verifier::external_body]
pub struct ExKey(evdev::Key);

/// The code of an absolute axis, of the evdev crate.
#[verifier::external_type_specification]
#[verifier::external_body]
pub struct ExAbsoluteAxisType(evdev::AbsoluteAxisType);

/// The code of a relative axis, of the evdev crate.
#[verifier::external_type_specification]
#[verifier::external_body]
pub struct ExRelativeAxisType(evdev::RelativeAxisType);

/// The codes of the keys and buttons in a set.
pub uninterp spec fn key_codes(keys: &AttributeSetRef<Key>) -> Set<u16>;

/// The codes of the absolute axes in a set.
pub uninterp spec fn absolute_codes(axes: &AttributeSetRef<AbsoluteAxisType>) -> Set<u16>;

/// The codes of the relative axes in a set.
pub uninterp spec fn relative_codes(axes: &AttributeSetRef<RelativeAxisType>) -> Set<u16>;

/// `AttributeSetRef::contains` on keys: is the code in the set?
#[verifier::external_body]
fn has_key(keys: &AttributeSetRef<Key>, code: u16) -> (yes: bool)
    ensures
        yes == key_codes(keys).contains(code),
{
    keys.contains(Key(code))
}

/// `AttributeSetRef::contains` on absolute axes: is the code in the set?
#[verifier::external_body]
fn has_absolute(axes: &AttributeSetRef<AbsoluteAxisType>, code: u16) -> (yes: bool)
    ensures
        yes == absolute_codes(axes).contains(code),
{
    axes.contains(AbsoluteAxisType(code))
}

/// `AttributeSetRef::contains` on relative axes: is the code in the set?
#[verifier::external_body]
fn has_relative(axes: &AttributeSetRef<RelativeAxisType>, code: u16) -> (yes: bool)
    ensures
        yes == relative_codes(axes).contains(code),
{
    axes.contains(RelativeAxisType(code))
}

/// The two absolute axes of a single touch, and one of a multi-touch slot.
pub const ABS_X: u16 = 0x00;

pub const ABS_Y: u16 = 0x01;

pub const ABS_MT_POSITION_X: u16 = 0x35;

/// The two relative axes of a pointer.
pub const REL_X: u16 = 0x00;

pub const REL_Y: u16 = 0x01;

/// The range of a mouse's buttons.
pub const FIRST_MOUSE_BUTTON: u16 = 0x110;

pub const LAST_MOUSE_BUTTON: u16 = 0x117;

/// The range of the keys for typing: escape to space.
pub const FIRST_TYPING_KEY: u16 = 1;

pub const LAST_TYPING_KEY: u16 = 57;

/// Is any code from `first` to `last` in the set?
pub open spec fn any_between(codes: Set<u16>, first: u16, last: u16) -> bool {
    exists|code: u16| first <= code <= last && #[trigger] codes.contains(code)
}

/// The kind of a device with the given capabilities, where it has them. A
/// touch screen also reports keys, and a mouse has buttons, so touch goes
/// before mouse and mouse before keyboard. A pointer without buttons is no
/// mouse, and a device whose keys are not for typing is no keyboard.
pub open spec fn device_class(
    absolute: Option<Set<u16>>,
    relative: Option<Set<u16>>,
    keys: Option<Set<u16>>,
) -> Option<InputClass> {
    let touch = absolute matches Some(axes) && (axes.contains(ABS_MT_POSITION_X) || (axes.contains(
        ABS_X,
    ) && axes.contains(ABS_Y)));
    let pointer = relative matches Some(axes) && axes.contains(REL_X) && axes.contains(REL_Y);
    let buttons = keys matches Some(codes) && any_between(
        codes,
        FIRST_MOUSE_BUTTON,
        LAST_MOUSE_BUTTON,
    );
    let typing = keys matches Some(codes) && any_between(
        codes,
        FIRST_TYPING_KEY,
        LAST_TYPING_KEY,
    );
    if touch {
        Some(InputClass::Touch)
    } else if pointer && buttons {
        Some(InputClass::Mouse)
    } else if typing {
        Some(InputClass::Keyboard)
    } else {
        None
    }
}

fn any_key_between(keys: &AttributeSetRef<Key>, first: u16, last: u16) -> (yes: bool)
    requires
        first <= last < u16::MAX,
    ensures
        yes == any_between(key_codes(keys), first, last),
{
    let mut code: u16 = first;
    while code <= last
        invariant
            first <= code <= last + 1,
            last < u16::MAX,
            forall|c: u16| first <= c < code ==> !(#[trigger] key_codes(keys).contains(c)),
        decreases last + 1 - code,
    {
        if has_key(keys, code) {
            return true;
        }
        code = code + 1;
    }
    false
}

/// The codes of an optional set of absolute axes.
pub open spec fn absolute_set(
    axes: Option<&AttributeSetRef<AbsoluteAxisType>>,
) -> Option<Set<u16>> {
    match axes {
        Some(axes) => Some(absolute_codes(axes)),
        None => None,
    }
}

/// The codes of an optional set of relative axes.
pub open spec fn relative_set(
    axes: Option<&AttributeSetRef<RelativeAxisType>>,
) -> Option<Set<u16>> {
    match axes {
        Some(axes) => Some(relative_codes(axes)),
        None => None,
    }
}

/// The codes of an optional set of keys.
pub open spec fn key_set(keys: Option<&AttributeSetRef<Key>>) -> Option<Set<u16>> {
    match keys {
        Some(keys) => Some(key_codes(keys)),
        None => None,
    }
}

/// Classifies a device by its capabilities.
pub fn classify(
    absolute: Option<&AttributeSetRef<AbsoluteAxisType>>,
    relative: Option<&AttributeSetRef<RelativeAxisType>>,
    keys: Option<&AttributeSetRef<Key>>,
) -> (class: Option<InputClass>)
    ensures
        class == device_class(absolute_set(absolute), relative_set(relative), key_set(keys)),
{
    if let Some(axes) = absolute {
        // Several touches at once.
        if has_absolute(axes, ABS_MT_POSITION_X) {
            return Some(InputClass::Touch);
        }
        // A single touch.
        if has_absolute(axes, ABS_X) && has_absolute(axes, ABS_Y) {
            return Some(InputClass::Touch);
        }
    }
    if let (Some(axes), Some(codes)) = (relative, keys) {
        if has_relative(axes, REL_X) && has_relative(axes, REL_Y) && any_key_between(
            codes,
            FIRST_MOUSE_BUTTON,
            LAST_MOUSE_BUTTON,
        ) {
            return Some(InputClass::Mouse);
        }
    }
    if let Some(codes) = keys {
        if any_key_between(codes, FIRST_TYPING_KEY, LAST_TYPING_KEY) {
            return Some(InputClass::Keyboard);
        }
    }
    None
}

/// A device node that could be opened for probing: its path, the name that
/// the device gives itself, and its kind, if it is of a known one.
pub struct DeviceProbe {
    pub path: String,
    pub name: Option<String>,
    pub class: Option<InputClass>,
}

/// One discovered input device, ready to be opened and registered.
pub struct DiscoveredDevice {
    pub path: String,
    pub name: String,
    pub resource: InputResource,
}

/// A discovered device with its texts as sequences.
pub struct DiscoveredView {
    pub path: Seq<char>,
    pub name: Seq<char>,
    pub resource: InputResource,
}

impl View for DiscoveredDevice {
    type V = DiscoveredView;

    open spec fn view(&self) -> DiscoveredView {
        DiscoveredView { path: self.path@, name: self.name@, resource: self.resource }
    }
}

/// The device of a kind with a number.
pub open spec fn numbered(class: InputClass, index: u8) -> InputResource {
    match class {
        InputClass::Mouse => InputResource::Mouse(index),
        InputClass::Keyboard => InputResource::Keyboard(index),
        InputClass::Touch => InputResource::Touch(index),
    }
}

/// How many of the probed devices are of the kind.
pub open spec fn class_count(probes: Seq<DeviceProbe>, class: InputClass) -> nat
    decreases probes.len(),
{
    if probes.len() == 0 {
        0
    } else {
        class_count(probes.drop_last(), class) + (if probes.last().class == Some(class) {
            1nat
        } else {
            0nat
        })
    }
}

/// The devices of a known kind, each numbered by how many of its kind came
/// before it.
pub open spec fn discovered(probes: Seq<DeviceProbe>) -> Seq<DiscoveredView>
    decreases probes.len(),
{
    if probes.len() == 0 {
        Seq::empty()
    } else {
        let last = probes.last();
        let earlier = discovered(probes.drop_last());
        match last.class {
            Some(class) => earlier.push(
                DiscoveredView {
                    path: last.path@,
                    name: match last.name {
                        Some(name) => name@,
                        None => "unnamed"@,
                    },
                    resource: numbered(class, class_count(probes.drop_last(), class) as u8),
                },
            ),
            None => earlier,
        }
    }
}

proof fn counts_only_grow(probes: Seq<DeviceProbe>, class: InputClass, n: int)
    requires
        0 <= n <= probes.len(),
    ensures
        class_count(probes.take(n), class) <= class_count(probes, class),
    decreases probes.len(),
{
    if n < probes.len() {
        counts_only_grow(probes.drop_last(), class, n);
        assert(probes.drop_last().take(n) =~= probes.take(n));
    } else {
        assert(probes.take(n) =~= probes);
    }
}

/// Numbers the probed devices. Devices of one kind are numbered in their
/// order, so that several can be registered; those of no known kind are
/// left out.
pub fn discover(probes: &Vec<DeviceProbe>) -> (devices: Vec<DiscoveredDevice>)
    requires
        forall|class: InputClass| #[trigger] class_count(probes@, class) <= 255,
    ensures
        devices@.map_values(|device: DiscoveredDevice| device@) == discovered(probes@),
{
    let mut mouse: u8 = 0;
    let mut keyboard: u8 = 0;
    let mut touch: u8 = 0;
    let mut devices: Vec<DiscoveredDevice> = Vec::new();
    let n: usize = probes.len();
    let mut i: usize = 0;
    proof {
        assert(probes@.take(0) =~= Seq::<DeviceProbe>::empty());
        assert(devices@.map_values(|device: DiscoveredDevice| device@) =~= discovered(
            probes@.take(0),
        ));
    }
    while i < n
        invariant
            i <= n,
            n == probes@.len(),
            forall|class: InputClass| #[trigger] class_count(probes@, class) <= 255,
            mouse == class_count(probes@.take(i as int), InputClass::Mouse),
            keyboard == class_count(probes@.take(i as int), InputClass::Keyboard),
            touch == class_count(probes@.take(i as int), InputClass::Touch),
            devices@.map_values(|device: DiscoveredDevice| device@) == discovered(
                probes@.take(i as int),
            ),
        decreases n - i,
    {
        let ghost earlier = devices@;
        proof {
            assert(probes@.take(i + 1).drop_last() =~= probes@.take(i as int));
            assert(probes@.take(i + 1).last() == probes@[i as int]);
            counts_only_grow(probes@, InputClass::Mouse, i + 1);
            counts_only_grow(probes@, InputClass::Keyboard, i + 1);
            counts_only_grow(probes@, InputClass::Touch, i + 1);
            assert(class_count(probes@, InputClass::Mouse) <= 255);
            assert(class_count(probes@, InputClass::Keyboard) <= 255);
            assert(class_count(probes@, InputClass::Touch) <= 255);
        }
        if let Some(class) = probes[i].class {
            let resource = match class {
                InputClass::Mouse => {
                    let index: u8 = mouse;
                    mouse = mouse + 1;
                    InputResource::Mouse(index)
                },
                InputClass::Keyboard => {
                    let index: u8 = keyboard;
                    keyboard = keyboard + 1;
                    InputResource::Keyboard(index)
                },
                InputClass::Touch => {
                    let index: u8 = touch;
                    touch = touch + 1;
                    InputResource::Touch(index)
                },
            };
            let name = match &probes[i].name {
                Some(name) => name.as_str().to_string(),
                None => "unnamed".to_string(),
            };
            let path = probes[i].path.as_str().to_string();
            let device = DiscoveredDevice { path, name, resource };
            let ghost shown = device@;
            devices.push(device);
            proof {
                assert(devices@.map_values(|device: DiscoveredDevice| device@)
                    =~= earlier.map_values(|device: DiscoveredDevice| device@).push(shown));
            }
        }
        i = i + 1;
    }
    assert(probes@.take(n as int) =~= probes@);
    devices
}

proof fn numbers_are_below_counts(probes: Seq<DeviceProbe>, k: int)
    requires
        forall|class: InputClass| #[trigger] class_count(probes, class) <= 255,
        0 <= k < discovered(probes).len(),
    ensures
        exists|class: InputClass, index: u8|
            discovered(probes)[k].resource == #[trigger] numbered(class, index) && index
                < class_count(probes, class),
    decreases probes.len(),
{
    let shorter = probes.drop_last();
    let last = probes.last();
    assert forall|class: InputClass| #[trigger] class_count(shorter, class) <= 255 by {
        assert(class_count(probes, class) <= 255);
    }
    if k < discovered(shorter).len() {
        numbers_are_below_counts(shorter, k);
        let (class, index) = choose|class: InputClass, index: u8|
            discovered(shorter)[k].resource == #[trigger] numbered(class, index) && index
                < class_count(shorter, class);
        assert(discovered(probes)[k] == discovered(shorter)[k]);
        assert(discovered(probes)[k].resource == numbered(class, index));
        assert(index < class_count(probes, class));
    } else {
        let class = last.class->0;
        let index = class_count(shorter, class) as u8;
        assert(discovered(probes)[k].resource == numbered(class, index));
        assert(class_count(probes, class) <= 255);
        assert(class_count(shorter, class) <= 255);
        assert(index < class_count(probes, class));
    }
}

/// No two discovered devices are the same resource.
pub proof fn discovered_devices_are_distinct(probes: Seq<DeviceProbe>, j: int, k: int)
    requires
        forall|class: InputClass| #[trigger] class_count(probes, class) <= 255,
        0 <= j < k < discovered(probes).len(),
    ensures
        discovered(probes)[j].resource != discovered(probes)[k].resource,
    decreases probes.len(),
{
    let shorter = probes.drop_last();
    assert forall|class: InputClass| #[trigger] class_count(shorter, class) <= 255 by {
        assert(class_count(probes, class) <= 255);
    }
    assert(discovered(probes)[j] == discovered(shorter)[j]);
    if k < discovered(shorter).len() {
        discovered_devices_are_distinct(shorter, j, k);
        assert(discovered(probes)[k] == discovered(shorter)[k]);
    } else {
        numbers_are_below_counts(shorter, j);
        let (class, index) = choose|class: InputClass, index: u8|
            discovered(shorter)[j].resource == #[trigger] numbered(class, index) && index
                < class_count(shorter, class);
        let own = probes.last().class->0;
        assert(class_count(shorter, own) <= 255);
    }
}

/// The names of the nodes for input events among the names of device nodes,
/// in order.
pub fn input_event_names(names: &Vec<String>) -> (found: Vec<String>)
    ensures
        listing::is_listing(names@, "event"@, found@),
{
    listing::names_with_prefix(names, "event")
}

/// What tells the kinds apart. A device with a multi-touch axis or with both
/// axes of a single touch is a touch screen, whatever else it has. Another
/// one that moves in both directions and has a button of a mouse is a mouse.
/// Another one with a key for typing is a keyboard. The rest is of no kind.
pub proof fn kinds_are_told_apart(
    absolute: Option<Set<u16>>,
    relative: Option<Set<u16>>,
    keys: Option<Set<u16>>,
)
    ensures
        ({
            let class = device_class(absolute, relative, keys);
            let touch = absolute is Some && (absolute->0.contains(0x35) || (absolute->0.contains(0)
                && absolute->0.contains(1)));
            let mouse = relative is Some && relative->0.contains(0) && relative->0.contains(1)
                && keys is Some && exists|code: u16|
                0x110 <= code <= 0x117 && #[trigger] keys->0.contains(code);
            let keyboard = keys is Some && exists|code: u16|
                1 <= code <= 57 && #[trigger] keys->0.contains(code);
            &&& class == Some(InputClass::Touch) <==> touch
            &&& class == Some(InputClass::Mouse) <==> mouse && !touch
            &&& class == Some(InputClass::Keyboard) <==> keyboard && !mouse && !touch
            &&& class is None <==> !touch && !mouse && !keyboard
        }),
{
}

/// Each probed device of a known kind is discovered in its place, with its
/// own path and name, and its number is that of the devices of its kind
/// before it.
pub proof fn each_device_is_numbered_within_its_kind(probes: Seq<DeviceProbe>, i: int)
    requires
        0 <= i < probes.len(),
        probes[i].class is Some,
        probes.take(i).filter(|probe: DeviceProbe| probe.class == probes[i].class).len() <= 255,
    ensures
        ({
            let before = probes.take(i);
            let place = before.filter(|probe: DeviceProbe| probe.class is Some).len();
            let number = before.filter(
                |probe: DeviceProbe| probe.class == probes[i].class,
            ).len();
            let device = discovered(probes)[place as int];
            &&& place < discovered(probes).len()
            &&& device.path == probes[i].path@
            &&& probes[i].name matches Some(name) ==> device.name == name@
            &&& probes[i].name is None ==> device.name == "unnamed"@
            &&& match probes[i].class->0 {
                InputClass::Mouse => device.resource matches InputResource::Mouse(n) && n == number,
                InputClass::Keyboard => device.resource matches InputResource::Keyboard(n) && n
                    == number,
                InputClass::Touch => device.resource matches InputResource::Touch(n) && n == number,
            }
        }),
    decreases probes.len(),
{
    let n = probes.len() - 1;
    let shorter = probes.drop_last();
    if i < n {
        assert(shorter.take(i) =~= probes.take(i));
        assert(shorter[i] == probes[i]);
        each_device_is_numbered_within_its_kind(shorter, i);
        let place = probes.take(i).filter(|probe: DeviceProbe| probe.class is Some).len() as int;
        assert(discovered(probes)[place] == discovered(shorter)[place]);
    } else {
        assert(probes.take(i) =~= shorter);
        discovered_are_those_of_a_kind(shorter);
        count_is_that_of_the_kind(shorter, probes[i].class->0);
        let class = probes[i].class->0;
        let same = |probe: DeviceProbe| probe.class == probes[i].class;
        let kind = |probe: DeviceProbe| probe.class == Some(class);
        assert(same =~= kind);
    }
}

proof fn discovered_are_those_of_a_kind(probes: Seq<DeviceProbe>)
    ensures
        discovered(probes).len() == probes.filter(
            |probe: DeviceProbe| probe.class is Some,
        ).len(),
    decreases probes.len(),
{
    reveal(Seq::filter);
    if probes.len() > 0 {
        discovered_are_those_of_a_kind(probes.drop_last());
    }
}

proof fn count_is_that_of_the_kind(probes: Seq<DeviceProbe>, class: InputClass)
    ensures
        class_count(probes, class) == probes.filter(
            |probe: DeviceProbe| probe.class == Some(class),
        ).len(),
    decreases probes.len(),
{
    reveal(Seq::filter);
    if probes.len() > 0 {
        count_is_that_of_the_kind(probes.drop_last(), class);
    }
}

/// As many devices are discovered as are of a known kind.
pub proof fn devices_of_no_kind_are_left_out(probes: Seq<DeviceProbe>)
    ensures
        discovered(probes).len() == probes.filter(
            |probe: DeviceProbe| probe.class is Some,
        ).len(),
{
    discovered_are_those_of_a_kind(probes);
}

} // verus!
