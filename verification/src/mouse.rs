//! Mouse events, as the kernel writes them: the motion between two reports
//! is gathered, buttons are told at once.

use vstd::prelude::*;

verus! {

/// The size of an event: a time stamp of 16 bytes, then type, code and
/// value.
pub const EVENT_SIZE: usize = 24;

/// Event types.
pub const EV_SYN: u16 = 0;

pub const EV_KEY: u16 = 1;

pub const EV_REL: u16 = 2;

/// Codes.
pub const SYN_REPORT: u16 = 0;

pub const REL_X: u16 = 0;

pub const REL_Y: u16 = 1;

pub const REL_WHEEL: u16 = 8;

pub const BTN_LEFT: u16 = 0x110;

pub const BTN_RIGHT: u16 = 0x111;

pub const BTN_MIDDLE: u16 = 0x112;

/// In which order the bytes of a number stand. Events are in the order of
/// the machine.
#[derive(Debug, Clone, Copy, PartialEq, Eq, Structural)]
pub enum ByteOrder {
    Little,
    Big,
}

/// Reads a number of two bytes in the order of the running machine, with
/// `u16::from_ne_bytes`.
#[verifier::external_body]
fn native_number(first: u8, second: u8) -> (n: u16)
    ensures
        n == (match vstd::endian::endianness() {
            vstd::endian::Endian::Little => first + 0x100 * second,
            vstd::endian::Endian::Big => 0x100 * first + second,
        }),
{
    u16::from_ne_bytes([first, second])
}

/// The order of this machine: the one that its reading of the bytes 1 and 0
/// shows.
pub fn native_order() -> (order: ByteOrder)
    ensures
        order == (match vstd::endian::endianness() {
            vstd::endian::Endian::Little => ByteOrder::Little,
            vstd::endian::Endian::Big => ByteOrder::Big,
        }),
{
    order_shown(native_number(1, 0))
}

/// The order of a machine that reads the bytes 1 and 0 as `n`: the first
/// byte is the least significant one where that is 1.
pub fn order_shown(n: u16) -> (order: ByteOrder)
    ensures
        order == (if n == 1 {
            ByteOrder::Little
        } else {
            ByteOrder::Big
        }),
        n == 1 || n == 0x100 ==> u16_spelled(order, 1, 0) == n,
{
    if n == 1 {
        ByteOrder::Little
    } else {
        ByteOrder::Big
    }
}

/// One event.
#[derive(Debug, Clone, Copy, PartialEq, Eq, Structural)]
pub struct InputEvent {
    pub ty: u16,
    pub code: u16,
    pub value: i32,
}

/// The number that two bytes spell.
pub open spec fn u16_spelled(order: ByteOrder, a: u8, b: u8) -> u16 {
    match order {
        ByteOrder::Little => (a + 0x100 * b) as u16,
        ByteOrder::Big => (0x100 * a + b) as u16,
    }
}

/// The signed number that four bytes spell, in two's complement.
pub open spec fn i32_spelled(order: ByteOrder, a: u8, b: u8, c: u8, d: u8) -> i32 {
    let n = match order {
        ByteOrder::Little => a + 0x100 * b + 0x1_0000 * c + 0x100_0000 * d,
        ByteOrder::Big => 0x100_0000 * a + 0x1_0000 * b + 0x100 * c + d,
    };
    if n < 0x8000_0000 {
        n as i32
    } else {
        (n - 0x1_0000_0000) as i32
    }
}

/// The event whose bytes begin at `at`.
pub open spec fn event_at(order: ByteOrder, bytes: Seq<u8>, at: int) -> InputEvent {
    InputEvent {
        ty: u16_spelled(order, bytes[at + 16], bytes[at + 17]),
        code: u16_spelled(order, bytes[at + 18], bytes[at + 19]),
        value: i32_spelled(
            order,
            bytes[at + 20],
            bytes[at + 21],
            bytes[at + 22],
            bytes[at + 23],
        ),
    }
}

/// How many of the bytes belong to complete events.
pub open spec fn complete(bytes: Seq<u8>) -> nat {
    (bytes.len() / 24) * 24
}

/// The complete events among the bytes.
pub open spec fn events_in(order: ByteOrder, bytes: Seq<u8>) -> Seq<InputEvent> {
    Seq::new(bytes.len() / 24, |i: int| event_at(order, bytes, 24 * i))
}

/// The motion gathered since the last report.
#[derive(Debug, Clone, Copy, PartialEq, Eq, Structural)]
pub struct MouseState {
    pub dx: i32,
    pub dy: i32,
    pub wheel: i32,
}

/// A mouse button.
#[derive(Debug, Clone, Copy, PartialEq, Eq, Structural)]
pub enum Button {
    Left,
    Right,
    Middle,
}

/// What is told of the mouse.
#[derive(Debug, Clone, Copy, PartialEq, Eq, Structural)]
pub enum MouseReport {
    Button { button: Button, down: bool },
    Move { dx: i32, dy: i32 },
    Scroll { wheel: i32 },
}

/// The button with a code.
pub open spec fn button_of(code: u16) -> Option<Button> {
    if code == BTN_LEFT {
        Some(Button::Left)
    } else if code == BTN_RIGHT {
        Some(Button::Right)
    } else if code == BTN_MIDDLE {
        Some(Button::Middle)
    } else {
        None
    }
}

/// The state after an event.
pub open spec fn state_after(state: MouseState, event: InputEvent) -> MouseState {
    if event.ty == EV_REL && event.code == REL_X {
        MouseState { dx: (state.dx + event.value) as i32, ..state }
    } else if event.ty == EV_REL && event.code == REL_Y {
        MouseState { dy: (state.dy + event.value) as i32, ..state }
    } else if event.ty == EV_REL && event.code == REL_WHEEL {
        MouseState { wheel: (state.wheel + event.value) as i32, ..state }
    } else if event.ty == EV_SYN && event.code == SYN_REPORT {
        MouseState { dx: 0, dy: 0, wheel: 0 }
    } else {
        state
    }
}

/// What is told after an event: a press or release of a button at once
/// (repeats are not told), and the gathered motion at a report.
pub open spec fn reports_after(state: MouseState, event: InputEvent) -> Seq<MouseReport> {
    if event.ty == EV_KEY && event.value != 2 && button_of(event.code) is Some {
        seq![MouseReport::Button { button: button_of(event.code)->0, down: event.value != 0 }]
    } else if event.ty == EV_SYN && event.code == SYN_REPORT {
        let motion = if state.dx != 0 || state.dy != 0 {
            seq![MouseReport::Move { dx: state.dx, dy: state.dy }]
        } else {
            Seq::empty()
        };
        if state.wheel != 0 {
            motion.push(MouseReport::Scroll { wheel: state.wheel })
        } else {
            motion
        }
    } else {
        Seq::empty()
    }
}

/// Does the gathered motion stay within its range?
pub open spec fn can_handle(state: MouseState, event: InputEvent) -> bool {
    event.ty == EV_REL ==> {
        &&& event.code == REL_X ==> i32::MIN <= state.dx + event.value <= i32::MAX
        &&& event.code == REL_Y ==> i32::MIN <= state.dy + event.value <= i32::MAX
        &&& event.code == REL_WHEEL ==> i32::MIN <= state.wheel + event.value <= i32::MAX
    }
}

/// The state after several events.
pub open spec fn state_after_all(state: MouseState, events: Seq<InputEvent>) -> MouseState
    decreases events.len(),
{
    if events.len() == 0 {
        state
    } else {
        state_after(state_after_all(state, events.drop_last()), events.last())
    }
}

/// What is told after several events.
pub open spec fn reports_after_all(state: MouseState, events: Seq<InputEvent>) -> Seq<MouseReport>
    decreases events.len(),
{
    if events.len() == 0 {
        Seq::empty()
    } else {
        let earlier = events.drop_last();
        reports_after_all(state, earlier) + reports_after(
            state_after_all(state, earlier),
            events.last(),
        )
    }
}

/// Does the gathered motion stay within its range at the event at `i`,
/// after those before it?
pub open spec fn can_handle_at(state: MouseState, events: Seq<InputEvent>, i: int) -> bool {
    can_handle(state_after_all(state, events.take(i)), events[i])
}

/// Does the gathered motion stay within its range over several events?
pub open spec fn can_handle_all(state: MouseState, events: Seq<InputEvent>) -> bool {
    forall|i: int| 0 <= i < events.len() ==> #[trigger] can_handle_at(state, events, i)
}

fn spell_u16(order: ByteOrder, a: u8, b: u8) -> (n: u16)
    ensures
        n == u16_spelled(order, a, b),
{
    match order {
        ByteOrder::Little => a as u16 + 0x100 * b as u16,
        ByteOrder::Big => 0x100 * a as u16 + b as u16,
    }
}

fn spell_i32(order: ByteOrder, a: u8, b: u8, c: u8, d: u8) -> (n: i32)
    ensures
        n == i32_spelled(order, a, b, c, d),
{
    let n: i64 = match order {
        ByteOrder::Little => a as i64 + 0x100 * b as i64 + 0x1_0000 * c as i64 + 0x100_0000
            * d as i64,
        ByteOrder::Big => 0x100_0000 * a as i64 + 0x1_0000 * b as i64 + 0x100 * c as i64
            + d as i64,
    };
    if n < 0x8000_0000 {
        n as i32
    } else {
        (n - 0x1_0000_0000) as i32
    }
}

fn read_event(order: ByteOrder, bytes: &Vec<u8>, at: usize) -> (event: InputEvent)
    requires
        at + EVENT_SIZE <= bytes@.len(),
    ensures
        event == event_at(order, bytes@, at as int),
{
    assert(bytes@.len() == bytes.len());
    InputEvent {
        ty: spell_u16(order, bytes[at + 16], bytes[at + 17]),
        code: spell_u16(order, bytes[at + 18], bytes[at + 19]),
        value: spell_i32(
            order,
            bytes[at + 20],
            bytes[at + 21],
            bytes[at + 22],
            bytes[at + 23],
        ),
    }
}

impl MouseState {
    /// No motion.
    pub fn new() -> (state: Self)
        ensures
            state == (MouseState { dx: 0, dy: 0, wheel: 0 }),
    {
        MouseState { dx: 0, dy: 0, wheel: 0 }
    }
}

/// Takes in one event, and adds what is to be told to `reports`.
pub fn handle_event(event: InputEvent, state: &mut MouseState, reports: &mut Vec<MouseReport>)
    requires
        can_handle(*old(state), event),
    ensures
        *final(state) == state_after(*old(state), event),
        final(reports)@ == old(reports)@ + reports_after(*old(state), event),
{
    if event.ty == EV_REL {
        if event.code == REL_X {
            state.dx = state.dx + event.value;
        } else if event.code == REL_Y {
            state.dy = state.dy + event.value;
        } else if event.code == REL_WHEEL {
            state.wheel = state.wheel + event.value;
        }
    } else if event.ty == EV_KEY {
        // 0 is a release, 1 a press, 2 a repeat.
        if event.value != 2 {
            let button = if event.code == BTN_LEFT {
                Some(Button::Left)
            } else if event.code == BTN_RIGHT {
                Some(Button::Right)
            } else if event.code == BTN_MIDDLE {
                Some(Button::Middle)
            } else {
                None
            };
            if let Some(button) = button {
                reports.push(MouseReport::Button { button, down: event.value != 0 });
            }
        }
    } else if event.ty == EV_SYN && event.code == SYN_REPORT {
        // The end of a packet: the gathered motion is told.
        if state.dx != 0 || state.dy != 0 {
            reports.push(MouseReport::Move { dx: state.dx, dy: state.dy });
            state.dx = 0;
            state.dy = 0;
        }
        if state.wheel != 0 {
            reports.push(MouseReport::Scroll { wheel: state.wheel });
            state.wheel = 0;
        }
    }
    assert(reports@ =~= old(reports)@ + reports_after(*old(state), event));
}

/// Is an event one that keeps the gathered motion within its range?
pub fn within_range(state: &MouseState, event: &InputEvent) -> (yes: bool)
    ensures
        yes == can_handle(*state, *event),
{
    if event.ty != EV_REL {
        return true;
    }
    let gathered: i64 = if event.code == REL_X {
        state.dx as i64
    } else if event.code == REL_Y {
        state.dy as i64
    } else if event.code == REL_WHEEL {
        state.wheel as i64
    } else {
        return true;
    };
    let sum: i64 = gathered + event.value as i64;
    -0x8000_0000 <= sum && sum <= 0x7fff_ffff
}

/// Takes every complete event out of the buffer and into the state. Returns
/// what is to be told.
pub fn parse_events(order: ByteOrder, bytes: &mut Vec<u8>, state: &mut MouseState) -> (reports: Vec<
    MouseReport,
>)
    requires
        can_handle_all(*old(state), events_in(order, old(bytes)@)),
    ensures
        *final(state) == state_after_all(*old(state), events_in(order, old(bytes)@)),
        reports@ == reports_after_all(*old(state), events_in(order, old(bytes)@)),
        final(bytes)@ == old(bytes)@.skip(complete(old(bytes)@) as int),
{
    let ghost all = bytes@;
    let ghost before = *state;
    let ghost events = events_in(order, all);
    let mut reports: Vec<MouseReport> = Vec::new();
    let len: usize = bytes.len();
    let mut consumed: usize = 0;
    let ghost mut k: int = 0;
    assert(events.take(0) =~= Seq::<InputEvent>::empty());
    while len - consumed >= EVENT_SIZE
        invariant
            bytes@ == all,
            len == all.len(),
            events == events_in(order, all),
            consumed == 24 * k,
            0 <= k <= events.len(),
            consumed <= len,
            can_handle_all(before, events),
            *state == state_after_all(before, events.take(k)),
            reports@ == reports_after_all(before, events.take(k)),
        decreases len - consumed,
    {
        let event = read_event(order, bytes, consumed);
        proof {
            assert(k < events.len());
            assert(event == events[k]);
            assert(events.take(k + 1).drop_last() =~= events.take(k));
            assert(events.take(k + 1).last() == event);
        }
        assert(can_handle_at(before, events, k));
        handle_event(event, state, &mut reports);
        consumed = consumed + EVENT_SIZE;
        proof {
            k = k + 1;
        }
    }
    assert(events.take(k) =~= events);
    let mut rest: Vec<u8> = Vec::new();
    let mut i: usize = consumed;
    while i < len
        invariant
            consumed <= i <= len,
            bytes@ == all,
            len == all.len(),
            rest@ == all.subrange(consumed as int, i as int),
        decreases len - i,
    {
        rest.push(bytes[i]);
        assert(rest@ =~= all.subrange(consumed as int, i + 1));
        i = i + 1;
    }
    assert(rest@ =~= all.skip(consumed as int));
    *bytes = rest;
    reports
}

/// Would every complete event in the buffer keep the gathered motion within
/// its range?
pub fn parses_within_range(order: ByteOrder, bytes: &Vec<u8>, state: &MouseState) -> (yes: bool)
    ensures
        yes == can_handle_all(*state, events_in(order, bytes@)),
{
    let ghost events = events_in(order, bytes@);
    let mut now = *state;
    let mut ignored: Vec<MouseReport> = Vec::new();
    let len: usize = bytes.len();
    let mut consumed: usize = 0;
    let ghost mut k: int = 0;
    assert(events.take(0) =~= Seq::<InputEvent>::empty());
    while len - consumed >= EVENT_SIZE
        invariant
            len == bytes@.len(),
            events == events_in(order, bytes@),
            consumed == 24 * k,
            0 <= k <= events.len(),
            consumed <= len,
            now == state_after_all(*state, events.take(k)),
            forall|i: int| 0 <= i < k ==> #[trigger] can_handle_at(*state, events, i),
        decreases len - consumed,
    {
        let event = read_event(order, bytes, consumed);
        proof {
            assert(k < events.len());
            assert(event == events[k]);
            assert(events.take(k + 1).drop_last() =~= events.take(k));
            assert(events.take(k + 1).last() == event);
        }
        if !within_range(&now, &event) {
            assert(!can_handle_at(*state, events, k));
            return false;
        }
        handle_event(event, &mut now, &mut ignored);
        consumed = consumed + EVENT_SIZE;
        proof {
            k = k + 1;
        }
    }
    true
}

/// It does not matter in what pieces the bytes were read: what is parsed of
/// a first piece, and then of its rest with a second piece behind it, are
/// together the events of both.
pub proof fn pieces_do_not_matter(order: ByteOrder, first: Seq<u8>, second: Seq<u8>)
    ensures
        ({
            let rest = first.skip(complete(first) as int);
            &&& events_in(order, first) + events_in(order, rest + second) == events_in(
                order,
                first + second,
            )
            &&& (rest + second).skip(complete(rest + second) as int) == (first + second).skip(
                complete(first + second) as int,
            )
        }),
{
    let rest = first.skip(complete(first) as int);
    let both = first + second;
    let n = first.len() / 24;
    assert(rest.len() == first.len() - 24 * n);
    assert(both.len() == 24 * n + (rest + second).len());
    assert(both.len() / 24 == n + (rest + second).len() / 24);
    assert(rest + second =~= both.skip(24 * n as int));
    let a = events_in(order, first);
    let b = events_in(order, rest + second);
    let c = events_in(order, both);
    assert forall|i: int| 0 <= i < c.len() implies (a + b)[i] == c[i] by {
        if i < n {
            assert(event_at(order, first, 24 * i) == event_at(order, both, 24 * i));
        } else {
            assert(event_at(order, rest + second, 24 * (i - n)) == event_at(
                order,
                both,
                24 * i,
            ));
        }
    }
    assert(a + b =~= c);
    assert((rest + second).skip(complete(rest + second) as int) =~= both.skip(
        complete(both) as int,
    ));
}

/// After a report nothing is gathered any more.
pub proof fn report_clears_the_motion(state: MouseState, value: i32)
    ensures
        state_after(state, InputEvent { ty: EV_SYN, code: SYN_REPORT, value }) == (MouseState {
            dx: 0,
            dy: 0,
            wheel: 0,
        }),
{
}

/// The sum of the values of the motion events with a code.
pub open spec fn motion_in(events: Seq<InputEvent>, code: u16) -> int
    decreases events.len(),
{
    if events.len() == 0 {
        0
    } else {
        let last = events.last();
        motion_in(events.drop_last(), code) + if last.ty == 2 && last.code == code {
            last.value as int
        } else {
            0
        }
    }
}

/// How far the told moves go to the right, all together.
pub open spec fn told_right(reports: Seq<MouseReport>) -> int
    decreases reports.len(),
{
    if reports.len() == 0 {
        0
    } else {
        told_right(reports.drop_last()) + match reports.last() {
            MouseReport::Move { dx, .. } => dx as int,
            _ => 0,
        }
    }
}

/// How far the told moves go down, all together.
pub open spec fn told_down(reports: Seq<MouseReport>) -> int
    decreases reports.len(),
{
    if reports.len() == 0 {
        0
    } else {
        told_down(reports.drop_last()) + match reports.last() {
            MouseReport::Move { dy, .. } => dy as int,
            _ => 0,
        }
    }
}

/// How far the wheel was told to turn, all together.
pub open spec fn told_wheel(reports: Seq<MouseReport>) -> int
    decreases reports.len(),
{
    if reports.len() == 0 {
        0
    } else {
        told_wheel(reports.drop_last()) + match reports.last() {
            MouseReport::Scroll { wheel } => wheel as int,
            _ => 0,
        }
    }
}

proof fn telling_adds_up(a: Seq<MouseReport>, b: Seq<MouseReport>)
    ensures
        told_right(a + b) == told_right(a) + told_right(b),
        told_down(a + b) == told_down(a) + told_down(b),
        told_wheel(a + b) == told_wheel(a) + told_wheel(b),
    decreases b.len(),
{
    if b.len() == 0 {
        assert(a + b =~= a);
    } else {
        telling_adds_up(a, b.drop_last());
        assert((a + b).drop_last() =~= a + b.drop_last());
        assert((a + b).last() == b.last());
    }
}

/// No motion is lost and none is made up: over any events, what was gathered
/// before and what the events say is what is told and what is left gathered,
/// to the right, down, and of the wheel. Once the last event is a report,
/// nothing is left gathered.
pub proof fn no_motion_is_lost(state: MouseState, events: Seq<InputEvent>)
    requires
        can_handle_all(state, events),
    ensures
        ({
            let told = reports_after_all(state, events);
            let left = state_after_all(state, events);
            &&& told_right(told) + left.dx == state.dx + motion_in(events, 0)
            &&& told_down(told) + left.dy == state.dy + motion_in(events, 1)
            &&& told_wheel(told) + left.wheel == state.wheel + motion_in(events, 8)
            &&& events.len() > 0 && events.last().ty == 0 && events.last().code == 0 ==> {
                &&& left.dx == 0
                &&& left.dy == 0
                &&& left.wheel == 0
            }
        }),
    decreases events.len(),
{
    if events.len() > 0 {
        let earlier = events.drop_last();
        let n = earlier.len() as int;
        assert forall|i: int| 0 <= i < earlier.len() implies #[trigger] can_handle_at(
            state,
            earlier,
            i,
        ) by {
            assert(can_handle_at(state, events, i));
            assert(earlier.take(i) =~= events.take(i));
        }
        no_motion_is_lost(state, earlier);
        assert(can_handle_at(state, events, n));
        assert(events.take(n) =~= earlier);
        let now = state_after_all(state, earlier);
        let told = reports_after(now, events.last());
        telling_adds_up(reports_after_all(state, earlier), told);
        reveal_with_fuel(told_right, 3);
        reveal_with_fuel(told_down, 3);
        reveal_with_fuel(told_wheel, 3);
        if told.len() == 2 {
            assert(told.drop_last() =~= seq![told[0]]);
            assert(seq![told[0]].drop_last().len() == 0);
        } else if told.len() == 1 {
            assert(told.drop_last().len() == 0);
        }
    }
}

/// Motion is told at reports only, at most one move and one turn of the
/// wheel each, and never one that goes nowhere.
pub proof fn motion_is_told_at_reports(state: MouseState, event: InputEvent, k: int)
    requires
        0 <= k < reports_after(state, event).len(),
    ensures
        ({
            let told = reports_after(state, event);
            match told[k] {
                MouseReport::Move { dx, dy } => {
                    &&& event.ty == 0 && event.code == 0
                    &&& dx == state.dx && dy == state.dy
                    &&& dx != 0 || dy != 0
                    &&& k == 0
                },
                MouseReport::Scroll { wheel } => {
                    &&& event.ty == 0 && event.code == 0
                    &&& wheel == state.wheel
                    &&& wheel != 0
                    &&& k == told.len() - 1
                },
                MouseReport::Button { .. } => event.ty == 1 && told.len() == 1,
            }
        }),
{
}

/// Every press and every release of the three buttons is told, once and in
/// order; repeats and other keys are not.
pub proof fn buttons_are_told_as_pressed(state: MouseState, events: Seq<InputEvent>)
    ensures
        reports_after_all(state, events).filter(|report: MouseReport| report is Button)
            == events.filter(
            |event: InputEvent| event.ty == 1 && event.value != 2 && 0x110 <= event.code <= 0x112,
        ).map_values(
            |event: InputEvent|
                MouseReport::Button {
                    button: if event.code == 0x110 {
                        Button::Left
                    } else if event.code == 0x111 {
                        Button::Right
                    } else {
                        Button::Middle
                    },
                    down: event.value != 0,
                },
        ),
    decreases events.len(),
{
    reveal(Seq::filter);
    let is_button = |report: MouseReport| report is Button;
    let is_pressed = |event: InputEvent|
        event.ty == 1 && event.value != 2 && 0x110 <= event.code <= 0x112;
    let told_of = |event: InputEvent|
        MouseReport::Button {
            button: if event.code == 0x110 {
                Button::Left
            } else if event.code == 0x111 {
                Button::Right
            } else {
                Button::Middle
            },
            down: event.value != 0,
        };
    if events.len() > 0 {
        let earlier = events.drop_last();
        let last = events.last();
        buttons_are_told_as_pressed(state, earlier);
        let before = reports_after_all(state, earlier);
        let told = reports_after(state_after_all(state, earlier), last);
        Seq::filter_distributes_over_add(before, told, is_button);
        let pressed = earlier.filter(is_pressed);
        if is_pressed(last) {
            assert(told =~= seq![told_of(last)]);
            assert(told.drop_last() =~= Seq::empty());
            assert(told.filter(is_button) =~= seq![told_of(last)]);
            assert(events.filter(is_pressed) =~= pressed.push(last));
            assert(pressed.push(last).map_values(told_of) =~= pressed.map_values(told_of).push(
                told_of(last),
            ));
        } else {
            reveal_with_fuel(Seq::filter, 3);
            assert(told.filter(is_button) =~= Seq::empty());
            assert(events.filter(is_pressed) =~= pressed);
        }
    } else {
        assert(events.filter(is_pressed).map_values(told_of) =~= Seq::empty());
    }
}

/// Events are taken in one after another: those of two batches as those of
/// the second after those of the first.
pub proof fn batches_do_not_matter(
    state: MouseState,
    first: Seq<InputEvent>,
    second: Seq<InputEvent>,
)
    ensures
        ({
            let between = state_after_all(state, first);
            &&& state_after_all(state, first + second) == state_after_all(between, second)
            &&& reports_after_all(state, first + second) == reports_after_all(state, first)
                + reports_after_all(between, second)
        }),
    decreases second.len(),
{
    let between = state_after_all(state, first);
    let both = first + second;
    if second.len() == 0 {
        assert(both =~= first);
        assert(reports_after_all(state, first) + reports_after_all(between, second)
            =~= reports_after_all(state, first));
    } else {
        batches_do_not_matter(state, first, second.drop_last());
        assert(both.drop_last() =~= first + second.drop_last());
        assert(both.last() == second.last());
        assert(reports_after_all(state, both) =~= reports_after_all(state, first)
            + reports_after_all(between, second));
    }
}

/// Each event is read back as it was written: after its time stamp its type,
/// its code and its value in two's complement, in the order of the machine.
pub proof fn event_is_read_back(order: ByteOrder, bytes: Seq<u8>, k: int, event: InputEvent)
    requires
        0 <= k,
        24 * k + 24 <= bytes.len(),
        ({
            let at = 24 * k;
            let value = if event.value < 0 {
                event.value + 0x1_0000_0000
            } else {
                event.value as int
            };
            match order {
                ByteOrder::Little => {
                    &&& bytes[at + 16] == event.ty % 0x100
                    &&& bytes[at + 17] == event.ty / 0x100
                    &&& bytes[at + 18] == event.code % 0x100
                    &&& bytes[at + 19] == event.code / 0x100
                    &&& bytes[at + 20] == value % 0x100
                    &&& bytes[at + 21] == value / 0x100 % 0x100
                    &&& bytes[at + 22] == value / 0x1_0000 % 0x100
                    &&& bytes[at + 23] == value / 0x100_0000
                },
                ByteOrder::Big => {
                    &&& bytes[at + 16] == event.ty / 0x100
                    &&& bytes[at + 17] == event.ty % 0x100
                    &&& bytes[at + 18] == event.code / 0x100
                    &&& bytes[at + 19] == event.code % 0x100
                    &&& bytes[at + 20] == value / 0x100_0000
                    &&& bytes[at + 21] == value / 0x1_0000 % 0x100
                    &&& bytes[at + 22] == value / 0x100 % 0x100
                    &&& bytes[at + 23] == value % 0x100
                },
            }
        }),
    ensures
        k < events_in(order, bytes).len(),
        events_in(order, bytes)[k] == event,
{
    let value = if event.value < 0 {
        event.value + 0x1_0000_0000
    } else {
        event.value as int
    };
    four_digits_make_the_number(value);
    let read = event_at(order, bytes, 24 * k);
    assert(read.ty == event.ty);
    assert(read.code == event.code);
    assert(read.value == event.value);
}

proof fn four_digits_make_the_number(n: int)
    requires
        0 <= n < 0x1_0000_0000,
    ensures
        n == n % 0x100 + 0x100 * (n / 0x100 % 0x100) + 0x1_0000 * (n / 0x1_0000 % 0x100)
            + 0x100_0000 * (n / 0x100_0000),
{
    let a = n / 0x100;
    let b = n / 0x1_0000;
    assert(a / 0x100 == b);
    assert(b / 0x100 == n / 0x100_0000);
}

/// Of the bytes all but the beginning of the next event is taken.
pub proof fn less_than_an_event_is_left(order: ByteOrder, bytes: Seq<u8>)
    ensures
        complete(bytes) <= bytes.len() < complete(bytes) + 24,
        complete(bytes) == 24 * events_in(order, bytes).len(),
{
}

/// An event can be taken in where the motion that it adds to stays within 32
/// bits; every other event can be taken in always.
pub proof fn motion_within_32_bits_is_taken_in(state: MouseState, event: InputEvent)
    ensures
        can_handle(state, event) <==> ({
            let gathered = if event.ty != 2 {
                0
            } else if event.code == 0 {
                state.dx + event.value
            } else if event.code == 1 {
                state.dy + event.value
            } else if event.code == 8 {
                state.wheel + event.value
            } else {
                0
            };
            -0x8000_0000 <= gathered < 0x8000_0000
        }),
{
}

} // verus!
