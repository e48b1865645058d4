use simple_graphics_controller::message::Resource;
use simple_graphics_controller::modeset::{
    buffer_request, drm_ioctl, framebuffer_request, pick_crtc, pick_mode, Buffer, Canvas,
    ConnectorInfo, ModeInfo, OutputError, OutputSearch,
};
use simple_graphics_controller::mouse::{
    handle_event, native_order, order_shown, parse_events, parses_within_range, within_range, Button,
    ByteOrder, InputEvent, MouseReport, MouseState,
};
use simple_graphics_controller::render::{
    input_command, render_timers, CardStep, CardTask, FramebufferTask, InputCmd, RenderCmd,
    RenderStep, RenderTimer,
};
use simple_graphics_controller::scene::{caption_place, checkerboard};

fn mode(hdisplay: u16, vdisplay: u16, type_: u32) -> ModeInfo {
    ModeInfo {
        clock: 0,
        hdisplay,
        hsync_start: 0,
        hsync_end: 0,
        htotal: 0,
        hskew: 0,
        vdisplay,
        vsync_start: 0,
        vsync_end: 0,
        vtotal: 0,
        vscan: 0,
        vrefresh: 60,
        flags: 0,
        type_,
        name: [0; 32],
    }
}

fn connector(connector_id: u32, connection: u32, modes: Vec<ModeInfo>) -> ConnectorInfo {
    ConnectorInfo { connector_id, encoder_id: connector_id + 100, connection, modes }
}

#[test]
fn ioctl_numbers_are_the_kernels() {
    // The numbers of GETRESOURCES, SETCRTC and RMFB.
    assert_eq!(drm_ioctl(3, 0xA0, 64), 0xC040_64A0);
    assert_eq!(drm_ioctl(3, 0xA2, 104), 0xC068_64A2);
    assert_eq!(drm_ioctl(1, 0xAF, 28), 0x401C_64AF);
}

#[test]
fn preferred_mode_is_picked_else_the_first() {
    let modes = vec![mode(640, 480, 0x40), mode(1920, 1080, 0xC0), mode(800, 600, 0x80)];
    assert_eq!(pick_mode(&modes).hdisplay, 1920);
    let plain = vec![mode(640, 480, 0x40), mode(800, 600, 0)];
    assert_eq!(pick_mode(&plain).hdisplay, 640);
}

#[test]
fn search_takes_the_first_connected_output() {
    let mut search = OutputSearch::begin(1, 4).unwrap();
    assert!(!search.consider(&connector(1, 1, vec![])));
    assert!(!search.consider(&connector(2, 2, vec![mode(640, 480, 0)])));
    assert!(!search.consider(&connector(3, 3, vec![mode(800, 600, 0)])));
    assert!(search.consider(&connector(4, 1, vec![mode(1024, 768, 0)])));
    let output = search.finish().unwrap();
    assert_eq!((output.connector_id, output.encoder_id), (4, 104));
    assert_eq!(output.mode.hdisplay, 1024);
}

#[test]
fn search_falls_back_to_a_connector_with_modes() {
    let mut search = OutputSearch::begin(2, 3).unwrap();
    search.consider(&connector(1, 1, vec![]));
    search.consider(&connector(2, 2, vec![mode(640, 480, 0)]));
    search.consider(&connector(3, 2, vec![mode(800, 600, 0)]));
    assert_eq!(search.finish().unwrap().connector_id, 2);
}

#[test]
fn search_without_outputs_is_an_error() {
    assert!(matches!(OutputSearch::begin(0, 1), Err(OutputError::NoResources)));
    assert!(matches!(OutputSearch::begin(1, 0), Err(OutputError::NoResources)));
    let mut search = OutputSearch::begin(1, 1).unwrap();
    search.consider(&connector(1, 1, vec![]));
    assert!(matches!(search.finish(), Err(OutputError::NoModes)));
    assert_eq!(OutputError::NoResources.to_text(), "card has no CRTCs or connectors");
    assert_eq!(OutputError::NoModes.to_text(), "no connector with modes");
}

#[test]
fn controller_and_buffers_follow_the_output() {
    assert_eq!(pick_crtc(7, &vec![1, 2]), 7);
    assert_eq!(pick_crtc(0, &vec![1, 2]), 1);
    let request = buffer_request(&mode(1920, 1080, 0));
    assert_eq!((request.width, request.height, request.bpp), (1920, 1080, 32));
    let shown = framebuffer_request(&Buffer { width: 4, height: 3, handle: 9, pitch: 64 });
    assert_eq!((shown.width, shown.height, shown.pitch), (4, 3, 64));
    assert_eq!((shown.bpp, shown.depth, shown.handle), (32, 24, 9));
}

#[test]
fn canvas_paints_bars_and_a_square() {
    let (width, height, row) = (160usize, 100usize, 168usize);
    let mut canvas = Canvas { width: 160, height: 100, pitch: 672, frame: 1 };
    let mut words = vec![0xDEAD_BEEFu32; row * height + 5];
    assert!(canvas.can_draw(words.len()));
    canvas.draw(&mut words);
    assert_eq!(canvas.frame, 2);
    let at = |x: usize, y: usize| words[y * row + x];
    // One bar is 20 pixels wide; the square is at (16, 18).
    assert_eq!(at(0, 0), 0x00FF_0000);
    assert_eq!(at(19, 0), 0x00FF_0000);
    assert_eq!(at(20, 0), 0x0000_FF00);
    assert_eq!(at(40, 0), 0x0000_00FF);
    assert_eq!(at(60, 0), 0x00FF_FFFF);
    assert_eq!(at(80, 0), 0x0000_0000);
    assert_eq!(at(100, 0), 0x00FF_FF00);
    assert_eq!(at(120, 0), 0x0000_FFFF);
    assert_eq!(at(159, 99), 0x00FF_00FF);
    assert_eq!(at(16, 18), 0x00FF_FFFF);
    assert_eq!(at(79, 81), 0x00FF_FFFF);
    assert_eq!(at(15, 18), 0x00FF_0000);
    assert_eq!(at(16, 17), 0x00FF_0000);
    assert_eq!(at(16, 82), 0x00FF_0000);
    assert_eq!(at(80, 50), 0x0000_0000);
    // The space behind each row stays as it was.
    for y in 0..height {
        for x in width..row {
            assert_eq!(at(x, y), 0xDEAD_BEEF);
        }
    }
    assert_eq!(words[row * height], 0xDEAD_BEEF);
}

#[test]
fn square_wraps_round_and_small_pictures_are_painted() {
    let mut canvas = Canvas { width: 80, height: 64, pitch: 320, frame: 3 };
    let mut words = vec![0u32; 80 * 64];
    canvas.draw(&mut words);
    // There is room for 16 pixels, and 48 is three times that.
    assert_eq!(words[0], 0x00FF_FFFF);
    assert_eq!(words[79], 0x00FF_00FF);
    let mut tiny = Canvas { width: 2, height: 2, pitch: 8, frame: 9 };
    let mut four = vec![1u32; 4];
    tiny.draw(&mut four);
    assert_eq!(four, vec![0x00FF_FFFF; 4]);
    assert!(!Canvas { width: 2, height: 2, pitch: 6, frame: 0 }.can_draw(100));
    assert!(!Canvas { width: 2, height: 2, pitch: 4, frame: 0 }.can_draw(100));
    assert!(!Canvas { width: 2, height: 2, pitch: 8, frame: 0 }.can_draw(3));
    assert!(!Canvas { width: 2, height: 2, pitch: 8, frame: u64::MAX }.can_draw(4));
}

fn event(ty: u16, code: u16, value: i32) -> InputEvent {
    InputEvent { ty, code, value }
}

fn little(e: InputEvent) -> Vec<u8> {
    let mut bytes = vec![0xEE; 16];
    bytes.extend(e.ty.to_le_bytes());
    bytes.extend(e.code.to_le_bytes());
    bytes.extend(e.value.to_le_bytes());
    bytes
}

#[test]
fn motion_is_gathered_until_a_report() {
    let mut bytes = Vec::new();
    for e in [
        event(2, 0, 5),
        event(2, 0, -7),
        event(2, 1, 3),
        event(2, 8, -1),
        event(2, 9, 44),
        event(0, 1, 0),
        event(0, 0, 0),
        event(0, 0, 0),
        event(2, 1, 1),
    ] {
        bytes.extend(little(e));
    }
    bytes.extend([1, 2, 3]);
    let mut state = MouseState::new();
    assert!(parses_within_range(ByteOrder::Little, &bytes, &state));
    let reports = parse_events(ByteOrder::Little, &mut bytes, &mut state);
    assert_eq!(
        reports,
        vec![MouseReport::Move { dx: -2, dy: 3 }, MouseReport::Scroll { wheel: -1 }]
    );
    assert_eq!(state, MouseState { dx: 0, dy: 1, wheel: 0 });
    assert_eq!(bytes, vec![1, 2, 3]);
}

#[test]
fn buttons_are_told_at_once_and_repeats_are_not() {
    let mut state = MouseState::new();
    let mut reports = Vec::new();
    for e in [
        event(1, 0x110, 1),
        event(1, 0x110, 2),
        event(1, 0x110, 0),
        event(1, 0x111, 1),
        event(1, 0x112, 0),
        event(1, 0x113, 1),
        event(1, 30, 1),
        event(3, 0, 9),
    ] {
        handle_event(e, &mut state, &mut reports);
    }
    assert_eq!(
        reports,
        vec![
            MouseReport::Button { button: Button::Left, down: true },
            MouseReport::Button { button: Button::Left, down: false },
            MouseReport::Button { button: Button::Right, down: true },
            MouseReport::Button { button: Button::Middle, down: false },
        ]
    );
    assert_eq!(state, MouseState::new());
}

#[test]
fn events_are_read_in_the_machines_order() {
    let e = event(2, 1, -300);
    let mut native = vec![0; 16];
    native.extend(e.ty.to_ne_bytes());
    native.extend(e.code.to_ne_bytes());
    native.extend(e.value.to_ne_bytes());
    let mut state = MouseState::new();
    parse_events(native_order(), &mut native, &mut state);
    assert_eq!(state.dy, -300);
    let mut big = vec![0; 16];
    big.extend(e.ty.to_be_bytes());
    big.extend(e.code.to_be_bytes());
    big.extend(e.value.to_be_bytes());
    let mut state = MouseState::new();
    parse_events(ByteOrder::Big, &mut big, &mut state);
    assert_eq!(state.dy, -300);
}

#[test]
fn pieces_give_the_same_reports() {
    let mut wire = Vec::new();
    for e in [event(2, 0, 1), event(1, 0x110, 1), event(0, 0, 0), event(2, 1, i32::MIN)] {
        wire.extend(little(e));
    }
    for size in [1, 7, 24, 25, 90] {
        let mut state = MouseState::new();
        let mut bytes = Vec::new();
        let mut reports = Vec::new();
        for chunk in wire.chunks(size) {
            bytes.extend_from_slice(chunk);
            reports.extend(parse_events(ByteOrder::Little, &mut bytes, &mut state));
        }
        assert_eq!(
            reports,
            vec![
                MouseReport::Button { button: Button::Left, down: true },
                MouseReport::Move { dx: 1, dy: 0 },
            ]
        );
        assert_eq!(state.dy, i32::MIN);
        assert!(bytes.is_empty());
    }
}

#[test]
fn motion_out_of_range_is_noticed() {
    let state = MouseState { dx: i32::MAX, dy: 0, wheel: i32::MIN };
    assert!(!within_range(&state, &event(2, 0, 1)));
    assert!(within_range(&state, &event(2, 0, -1)));
    assert!(within_range(&state, &event(2, 1, i32::MAX)));
    assert!(!within_range(&state, &event(2, 8, -1)));
    assert!(within_range(&state, &event(1, 0, i32::MAX)));
    let mut bytes = little(event(0, 0, 0));
    bytes.extend(little(event(2, 0, 1)));
    assert!(parses_within_range(ByteOrder::Little, &bytes, &state));
    let mut two = little(event(2, 0, 1));
    two.extend(little(event(0, 0, 0)));
    assert!(!parses_within_range(ByteOrder::Little, &two, &state));
}

#[test]
fn framebuffer_is_opened_once_and_kept() {
    let draw = |fd: i32| RenderCmd::Draw { resource: Resource::Fbdev, fd };
    let stop = RenderCmd::Stop { resource: Resource::Fbdev };
    let mut task = FramebufferTask::new();
    assert!(task.needs_opening(&draw(5)));
    assert_eq!(task.command(draw(5), false), RenderStep::Wait { close: Some(5) });
    assert!(task.needs_opening(&draw(6)));
    assert_eq!(task.command(draw(6), true), RenderStep::Paint { close: None });
    assert!(!task.needs_opening(&draw(7)));
    assert_eq!(task.command(draw(7), false), RenderStep::Paint { close: Some(6) });
    assert_eq!(task.command(stop, false), RenderStep::Wait { close: Some(7) });
    assert_eq!(task.command(stop, false), RenderStep::Wait { close: None });
    assert_eq!(task.command(draw(8), false), RenderStep::Paint { close: None });
    assert_eq!(task.command(RenderCmd::Exit, false), RenderStep::Quit { close: Some(8) });
}

#[test]
fn timers_advance_while_revoked_but_paint_only_with_a_grant() {
    let mut timers = render_timers(1000);
    assert_eq!(timers.next_deadline(), Some(1016));
    let closed = FramebufferTask { open: false, current_fd: None };
    assert!(closed.elapsed(&mut timers, 1016).is_empty());
    assert_eq!(timers.next_deadline(), Some(1032));
    let drawing = FramebufferTask { open: true, current_fd: Some(4) };
    assert_eq!(
        drawing.elapsed(&mut timers, 1033),
        vec![RenderTimer::Logic, RenderTimer::Draw]
    );
    let revoked = FramebufferTask { open: true, current_fd: None };
    assert_eq!(revoked.elapsed(&mut timers, 1100), vec![RenderTimer::Logic]);
    assert!(revoked.elapsed(&mut timers, 1100).is_empty());
}

#[test]
fn card_is_set_up_anew_for_every_grant() {
    let resource = Resource::Drm { card: 0 };
    let draw = |fd: i32| RenderCmd::Draw { resource, fd };
    let mut task = CardTask::new();
    assert_eq!(task.elapsed(), CardStep::Wait);
    assert!(task.needs_setup(&draw(5)));
    assert_eq!(task.command(draw(5), false), CardStep::Wait);
    assert_eq!(task.elapsed(), CardStep::Wait);
    assert_eq!(task.command(draw(6), true), CardStep::Wait);
    assert_eq!(task.elapsed(), CardStep::Paint);
    assert!(!task.needs_setup(&draw(7)));
    assert_eq!(task.command(draw(7), false), CardStep::Refuse { close: 7 });
    assert_eq!(task.command(RenderCmd::Stop { resource }, false), CardStep::TakeDown);
    assert_eq!(task.elapsed(), CardStep::Wait);
    assert!(task.needs_setup(&draw(8)));
    assert_eq!(task.command(RenderCmd::Exit, false), CardStep::Quit);
}

#[test]
fn input_task_watches_the_latest_descriptor() {
    assert_eq!(input_command(None, InputCmd::Start { fd: 3 }), (Some(3), None));
    assert_eq!(input_command(Some(3), InputCmd::Start { fd: 4 }), (Some(4), Some(3)));
    assert_eq!(input_command(Some(4), InputCmd::Stop), (None, Some(4)));
}

#[test]
fn checkerboard_alternates() {
    let tiles = checkerboard();
    assert_eq!(tiles.len(), 25);
    assert_eq!((tiles[0].x, tiles[0].y, tiles[0].light), (150, 100, true));
    assert_eq!((tiles[1].x, tiles[1].y, tiles[1].light), (250, 100, false));
    assert_eq!((tiles[7].row, tiles[7].col), (1, 2));
    assert_eq!((tiles[7].x, tiles[7].y, tiles[7].light), (350, 200, false));
    assert_eq!((tiles[24].x, tiles[24].y, tiles[24].light), (550, 500, true));
    assert_eq!(caption_place(), (150, 640));
}

#[test]
fn reading_of_two_bytes_shows_the_order() {
    assert_eq!(order_shown(1), ByteOrder::Little);
    assert_eq!(order_shown(0x100), ByteOrder::Big);
    assert_eq!(native_order(), order_shown(u16::from_ne_bytes([1, 0])));
}
