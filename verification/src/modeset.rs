//! Showing a picture on a card: which output is used, in what mode, with
//! what buffer, and what is painted.

use vstd::prelude::*;

verus! {

/// A display mode, as the kernel describes it.
#[derive(Debug, Clone, Copy)]
pub struct ModeInfo {
    pub clock: u32,
    pub hdisplay: u16,
    pub hsync_start: u16,
    pub hsync_end: u16,
    pub htotal: u16,
    pub hskew: u16,
    pub vdisplay: u16,
    pub vsync_start: u16,
    pub vsync_end: u16,
    pub vtotal: u16,
    pub vscan: u16,
    pub vrefresh: u32,
    pub flags: u32,
    pub type_: u32,
    pub name: [u8; 32],
}

/// The bit by which a display marks its preferred mode.
pub const MODE_TYPE_PREFERRED: u32 = 0x80;

/// The state of a connector with a display.
pub const CONNECTED: u32 = 1;

/// The number of an ioctl on a card: direction, size of the argument, the
/// letter of the subsystem and the number of the call.
pub open spec fn ioctl_number(dir: u32, nr: u32, size: usize) -> u64 {
    ((dir as u64) << 30u64) | (0x64u64 << 8u64) | (nr as u64) | ((size as u64) << 16u64)
}

/// The number of an ioctl on a card, built as the kernel builds it.
pub fn drm_ioctl(dir: u32, nr: u32, size: usize) -> (number: u64)
    ensures
        number == ioctl_number(dir, nr, size),
{
    ((dir as u64) << 30u64) | (0x64u64 << 8u64) | (nr as u64) | ((size as u64) << 16u64)
}

/// The parts of an ioctl's number do not overlap: each can be read back.
pub proof fn ioctl_number_keeps_its_parts(dir: u32, nr: u32, size: usize)
    requires
        dir < 4,
        nr < 0x100,
        size < 0x4000,
    ensures
        ioctl_number(dir, nr, size) == dir * 0x4000_0000 + size * 0x1_0000 + 0x64 * 0x100 + nr,
{
    let d = dir as u64;
    let n = nr as u64;
    let s = size as u64;
    assert((d << 30u64) | (0x64u64 << 8u64) | n | (s << 16u64) == d * 0x4000_0000 + s * 0x1_0000
        + 0x64 * 0x100 + n) by (bit_vector)
        requires
            d < 4,
            n < 0x100,
            s < 0x4000,
    ;
}

/// Does the display prefer the mode?
pub open spec fn is_preferred(mode: ModeInfo) -> bool {
    mode.type_ & MODE_TYPE_PREFERRED != 0
}

/// Where the first preferred mode from `i` on stands; 0 where there is none.
pub open spec fn preferred_from(modes: Seq<ModeInfo>, i: int) -> int
    decreases modes.len() - i,
{
    if i >= modes.len() {
        0
    } else if is_preferred(modes[i]) {
        i
    } else {
        preferred_from(modes, i + 1)
    }
}

/// The mode to use: the first preferred one, else the first.
pub open spec fn picked(modes: Seq<ModeInfo>) -> ModeInfo {
    modes[preferred_from(modes, 0)]
}

/// Picks the preferred mode if the display marks one, else the first.
pub fn pick_mode(modes: &Vec<ModeInfo>) -> (mode: ModeInfo)
    requires
        modes@.len() > 0,
    ensures
        mode == picked(modes@),
{
    let n: usize = modes.len();
    let mut i: usize = 0;
    while i < n
        invariant
            i <= n,
            n == modes@.len(),
            preferred_from(modes@, 0) == preferred_from(modes@, i as int),
        decreases n - i,
    {
        if modes[i].type_ & MODE_TYPE_PREFERRED != 0 {
            return modes[i];
        }
        i = i + 1;
    }
    modes[0]
}

/// A preferred mode is picked where there is one.
pub proof fn preferred_mode_is_picked(modes: Seq<ModeInfo>, k: int)
    requires
        0 <= k < modes.len(),
        is_preferred(modes[k]),
    ensures
        is_preferred(picked(modes)),
{
    preferred_is_reached(modes, 0, k);
}

proof fn preferred_is_reached(modes: Seq<ModeInfo>, i: int, k: int)
    requires
        0 <= i <= k < modes.len(),
        is_preferred(modes[k]),
    ensures
        i <= preferred_from(modes, i) < modes.len(),
        is_preferred(modes[preferred_from(modes, i)]),
    decreases k - i,
{
    if !is_preferred(modes[i]) {
        preferred_is_reached(modes, i + 1, k);
    }
}

/// A connector, as it was queried.
pub struct ConnectorInfo {
    pub connector_id: u32,
    pub encoder_id: u32,
    pub connection: u32,
    pub modes: Vec<ModeInfo>,
}

/// A way to show a picture: a connector, its encoder, and a mode.
#[derive(Debug, Clone, Copy)]
pub struct OutputCandidate {
    pub connector_id: u32,
    pub encoder_id: u32,
    pub mode: ModeInfo,
}

/// Why no output was found.
#[derive(Debug, Clone, Copy, PartialEq, Eq, Structural)]
pub enum OutputError {
    /// The card has no controllers or no connectors.
    NoResources,
    /// No connector has a mode.
    NoModes,
}

impl OutputError {
    /// The error in words.
    pub fn to_text(&self) -> (text: String)
        ensures
            text@ == (match *self {
                OutputError::NoResources => "card has no CRTCs or connectors"@,
                OutputError::NoModes => "no connector with modes"@,
            }),
    {
        match self {
            OutputError::NoResources => "card has no CRTCs or connectors".to_string(),
            OutputError::NoModes => "no connector with modes".to_string(),
        }
    }
}

/// Does the connector have a mode? Writeback connectors have none.
pub open spec fn usable(info: ConnectorInfo) -> bool {
    info.modes@.len() > 0
}

/// Does the connector have a mode and a display?
pub open spec fn shows(info: ConnectorInfo) -> bool {
    usable(info) && info.connection == CONNECTED
}

/// The way to show a picture through a connector.
pub open spec fn candidate_of(info: ConnectorInfo) -> OutputCandidate {
    OutputCandidate {
        connector_id: info.connector_id,
        encoder_id: info.encoder_id,
        mode: picked(info.modes@),
    }
}

/// The search for an output, one connector after the other: the connector
/// with a display that was found, and the first other one with a mode.
pub struct OutputSearch {
    pub connected: Option<OutputCandidate>,
    pub fallback: Option<OutputCandidate>,
}

/// The search once another connector has been considered.
pub open spec fn considered(search: OutputSearch, info: ConnectorInfo) -> OutputSearch {
    if !usable(info) {
        search
    } else if shows(info) {
        OutputSearch { connected: Some(candidate_of(info)), ..search }
    } else if search.fallback is None {
        OutputSearch { fallback: Some(candidate_of(info)), ..search }
    } else {
        search
    }
}

/// The search over some connectors, which ends at the first with a display.
pub open spec fn searched(connectors: Seq<ConnectorInfo>) -> OutputSearch
    decreases connectors.len(),
{
    if connectors.len() == 0 {
        OutputSearch { connected: None, fallback: None }
    } else {
        let earlier = searched(connectors.drop_last());
        if earlier.connected is Some {
            earlier
        } else {
            considered(earlier, connectors.last())
        }
    }
}

impl OutputSearch {
    /// What the search has found: a display, else a connector with a mode.
    pub open spec fn found(self) -> Option<OutputCandidate> {
        if self.connected is Some {
            self.connected
        } else {
            self.fallback
        }
    }

    /// Begins a search on a card with so many controllers and connectors.
    pub fn begin(crtc_count: usize, connector_count: usize) -> (search: Result<Self, OutputError>)
        ensures
            search == (if crtc_count == 0 || connector_count == 0 {
                Err::<Self, OutputError>(OutputError::NoResources)
            } else {
                Ok::<Self, OutputError>(OutputSearch { connected: None, fallback: None })
            }),
    {
        if crtc_count == 0 || connector_count == 0 {
            return Err(OutputError::NoResources);
        }
        Ok(OutputSearch { connected: None, fallback: None })
    }

    /// Considers a connector. Returns whether the search is over: a
    /// connector with a display ends it.
    pub fn consider(&mut self, info: &ConnectorInfo) -> (over: bool)
        ensures
            *final(self) == considered(*old(self), *info),
            over == shows(*info),
    {
        if info.modes.len() == 0 {
            return false;
        }
        let candidate = OutputCandidate {
            connector_id: info.connector_id,
            encoder_id: info.encoder_id,
            mode: pick_mode(&info.modes),
        };
        if info.connection == CONNECTED {
            self.connected = Some(candidate);
            return true;
        }
        if self.fallback.is_none() {
            self.fallback = Some(candidate);
        }
        false
    }

    /// Ends the search.
    pub fn finish(self) -> (output: Result<OutputCandidate, OutputError>)
        ensures
            output == (match self.found() {
                Some(candidate) => Ok::<OutputCandidate, OutputError>(candidate),
                None => Err::<OutputCandidate, OutputError>(OutputError::NoModes),
            }),
    {
        match (self.connected, self.fallback) {
            (Some(candidate), _) => Ok(candidate),
            (None, Some(candidate)) => Ok(candidate),
            (None, None) => Err(OutputError::NoModes),
        }
    }
}

/// The search finds the first connector with a display and a mode.
pub proof fn search_prefers_displays(connectors: Seq<ConnectorInfo>, i: int)
    requires
        0 <= i < connectors.len(),
        shows(connectors[i]),
        forall|j: int| 0 <= j < i ==> !shows(#[trigger] connectors[j]),
    ensures
        searched(connectors).found() == Some(candidate_of(connectors[i])),
    decreases connectors.len(),
{
    let shorter = connectors.drop_last();
    if i < shorter.len() {
        assert forall|j: int| 0 <= j < i implies !shows(#[trigger] shorter[j]) by {
            assert(shorter[j] == connectors[j]);
        }
        search_prefers_displays(shorter, i);
        if searched(shorter).connected is None {
            no_display_was_found(shorter, i);
        }
    } else {
        assert forall|j: int| 0 <= j < shorter.len() implies !shows(#[trigger] shorter[j]) by {
            assert(shorter[j] == connectors[j]);
        }
        nothing_shows(shorter);
    }
}

proof fn no_display_was_found(connectors: Seq<ConnectorInfo>, i: int)
    requires
        searched(connectors).connected is None,
        0 <= i < connectors.len(),
    ensures
        !shows(connectors[i]),
    decreases connectors.len(),
{
    let shorter = connectors.drop_last();
    if i < shorter.len() {
        no_display_was_found(shorter, i);
        assert(shorter[i] == connectors[i]);
    }
}

proof fn nothing_shows(connectors: Seq<ConnectorInfo>)
    requires
        forall|j: int| 0 <= j < connectors.len() ==> !shows(#[trigger] connectors[j]),
    ensures
        searched(connectors).connected is None,
    decreases connectors.len(),
{
    if connectors.len() > 0 {
        let shorter = connectors.drop_last();
        assert forall|j: int| 0 <= j < shorter.len() implies !shows(#[trigger] shorter[j]) by {
            assert(shorter[j] == connectors[j]);
        }
        nothing_shows(shorter);
        assert(!shows(connectors[connectors.len() - 1]));
    }
}

/// Where no display is connected, the search finds the first connector with
/// a mode.
pub proof fn search_falls_back(connectors: Seq<ConnectorInfo>, i: int)
    requires
        0 <= i < connectors.len(),
        forall|j: int| 0 <= j < connectors.len() ==> !shows(#[trigger] connectors[j]),
        usable(connectors[i]),
        forall|j: int| 0 <= j < i ==> !usable(#[trigger] connectors[j]),
    ensures
        searched(connectors).found() == Some(candidate_of(connectors[i])),
    decreases connectors.len(),
{
    let shorter = connectors.drop_last();
    assert forall|j: int| 0 <= j < shorter.len() implies !shows(#[trigger] shorter[j]) by {
        assert(shorter[j] == connectors[j]);
    }
    nothing_shows(connectors);
    nothing_shows(shorter);
    if i < shorter.len() {
        assert forall|j: int| 0 <= j < i implies !usable(#[trigger] shorter[j]) by {
            assert(shorter[j] == connectors[j]);
        }
        search_falls_back(shorter, i);
    } else {
        assert forall|j: int| 0 <= j < shorter.len() implies !usable(#[trigger] shorter[j]) by {
            assert(shorter[j] == connectors[j]);
        }
        nothing_usable(shorter);
    }
}

/// Where no connector has a mode, the search finds nothing.
pub proof fn nothing_usable(connectors: Seq<ConnectorInfo>)
    requires
        forall|j: int| 0 <= j < connectors.len() ==> !usable(#[trigger] connectors[j]),
    ensures
        searched(connectors).found() is None,
    decreases connectors.len(),
{
    if connectors.len() > 0 {
        let shorter = connectors.drop_last();
        assert forall|j: int| 0 <= j < shorter.len() implies !usable(#[trigger] shorter[j]) by {
            assert(shorter[j] == connectors[j]);
        }
        nothing_usable(shorter);
        assert(!usable(connectors[connectors.len() - 1]));
    }
}

/// The controller to use: the one that the encoder uses already, if any,
/// else the card's first.
pub fn pick_crtc(encoder_crtc: u32, crtcs: &Vec<u32>) -> (crtc: u32)
    requires
        crtcs@.len() > 0,
    ensures
        crtc == (if encoder_crtc != 0 {
            encoder_crtc
        } else {
            crtcs@[0]
        }),
{
    if encoder_crtc != 0 {
        encoder_crtc
    } else {
        crtcs[0]
    }
}

/// What is asked of the kernel for a buffer.
#[derive(Debug, Clone, Copy, PartialEq, Eq, Structural)]
pub struct BufferRequest {
    pub width: u32,
    pub height: u32,
    pub bpp: u32,
}

/// A buffer that the kernel created.
#[derive(Debug, Clone, Copy, PartialEq, Eq, Structural)]
pub struct Buffer {
    pub width: u32,
    pub height: u32,
    pub handle: u32,
    pub pitch: u32,
}

/// What is asked of the kernel to show a buffer.
#[derive(Debug, Clone, Copy, PartialEq, Eq, Structural)]
pub struct FramebufferRequest {
    pub width: u32,
    pub height: u32,
    pub pitch: u32,
    pub bpp: u32,
    pub depth: u32,
    pub handle: u32,
}

/// The buffer for a mode: one word per pixel.
pub fn buffer_request(mode: &ModeInfo) -> (request: BufferRequest)
    ensures
        request == (BufferRequest {
            width: mode.hdisplay as u32,
            height: mode.vdisplay as u32,
            bpp: 32,
        }),
{
    BufferRequest { width: mode.hdisplay as u32, height: mode.vdisplay as u32, bpp: 32 }
}

/// How a buffer is shown: 24 bits of color in each word.
pub fn framebuffer_request(buffer: &Buffer) -> (request: FramebufferRequest)
    ensures
        request == (FramebufferRequest {
            width: buffer.width,
            height: buffer.height,
            pitch: buffer.pitch,
            bpp: 32,
            depth: 24,
            handle: buffer.handle,
        }),
{
    FramebufferRequest {
        width: buffer.width,
        height: buffer.height,
        pitch: buffer.pitch,
        bpp: 32,
        depth: 24,
        handle: buffer.handle,
    }
}

/// The side of the moving square.
pub const SQUARE: usize = 64;

/// How far the square moves from one frame to the next.
pub const STRIDE: usize = 16;

/// White.
pub const WHITE: u32 = 0x00FF_FFFF;

/// The color of one of the eight bars.
pub open spec fn bar_color(bar: int) -> u32 {
    if bar == 0 {
        0x00FF_0000
    } else if bar == 1 {
        0x0000_FF00
    } else if bar == 2 {
        0x0000_00FF
    } else if bar == 3 {
        0x00FF_FFFF
    } else if bar == 4 {
        0x0000_0000
    } else if bar == 5 {
        0x00FF_FF00
    } else if bar == 6 {
        0x0000_FFFF
    } else {
        0x00FF_00FF
    }
}

/// A number, or 0 where it is negative.
pub open spec fn at_least_zero(n: int) -> int {
    if n < 0 {
        0
    } else {
        n
    }
}

/// Where the square begins, from the left: it sweeps over the picture.
pub open spec fn square_x(width: int, frame: int) -> int {
    let room = at_least_zero(width - 64);
    (frame * 16) % (if room > 1 {
        room
    } else {
        1
    })
}

/// Where the square begins, from the top: halfway down.
pub open spec fn square_y(height: int) -> int {
    at_least_zero(height - 64) / 2
}

/// The color of a pixel: of the square where it is, else of its bar.
pub open spec fn pixel(x: int, y: int, width: int, height: int, frame: int) -> u32 {
    let left = square_x(width, frame);
    let top = square_y(height);
    if left <= x < left + 64 && top <= y < top + 64 {
        WHITE
    } else {
        bar_color(x * 8 / width)
    }
}

/// A picture on a card: its size, how many bytes lie between the starts of
/// two rows, and how often it was painted.
#[derive(Debug, Clone, Copy, PartialEq, Eq, Structural)]
pub struct Canvas {
    pub width: u16,
    pub height: u16,
    pub pitch: u32,
    pub frame: u64,
}

impl Canvas {
    /// The rows are made of whole words, do not overlap, and lie within
    /// `len` words.
    pub open spec fn fits(self, len: nat) -> bool {
        &&& self.pitch % 4 == 0
        &&& 4 * self.width <= self.pitch
        &&& self.height * (self.pitch / 4) <= len
    }

    /// The word of a pixel.
    pub open spec fn word(self, x: int, y: int) -> int {
        y * (self.pitch / 4) + x
    }

    /// The picture is painted: every pixel has its color.
    pub open spec fn painted(self, words: Seq<u32>) -> bool {
        forall|x: int, y: int|
            0 <= x < self.width && 0 <= y < self.height ==> words[#[trigger] self.word(x, y)]
                == pixel(x, y, self.width as int, self.height as int, self.frame as int)
    }

    /// Does a word belong to the picture, and not to the space behind a row
    /// or behind the last one?
    pub open spec fn covers(self, i: int) -> bool {
        exists|x: int, y: int|
            0 <= x < self.width && 0 <= y < self.height && i == #[trigger] self.word(x, y)
    }

    /// Can the picture be painted into so many words?
    pub open spec fn drawable(self, len: nat) -> bool {
        &&& self.fits(len)
        &&& self.frame * STRIDE <= usize::MAX
        &&& self.frame < u64::MAX
    }

    /// Can the picture be painted into so many words?
    pub fn can_draw(&self, len: usize) -> (yes: bool)
        ensures
            yes == self.drawable(len as nat),
    {
        let rows: u64 = (self.pitch / 4) as u64;
        let height: u64 = self.height as u64;
        proof {
            let p = (self.pitch / 4) as int;
            let h = self.height as int;
            assert(0 <= h * p <= 0x1_0000 * 0x1_0000_0000) by (nonlinear_arith)
                requires
                    0 <= h < 0x1_0000,
                    0 <= p < 0x1_0000_0000,
            ;
        }
        let needed: u64 = height * rows;
        self.pitch % 4 == 0 && 4 * self.width as u64 <= self.pitch as u64 && needed <= len as u64
            && self.frame <= (usize::MAX / STRIDE) as u64 && self.frame < u64::MAX
    }

    fn color_at(&self, x: usize, y: usize, left: usize, top: usize) -> (color: u32)
        requires
            x < self.width,
            y < self.height,
            left == square_x(self.width as int, self.frame as int),
            top == square_y(self.height as int),
        ensures
            color == pixel(
                x as int,
                y as int,
                self.width as int,
                self.height as int,
                self.frame as int,
            ),
    {
        if left <= x && x - left < SQUARE && top <= y && y - top < SQUARE {
            return WHITE;
        }
        let width: usize = self.width as usize;
        let bar: usize = x * 8 / width;
        if bar == 0 {
            0x00FF_0000
        } else if bar == 1 {
            0x0000_FF00
        } else if bar == 2 {
            0x0000_00FF
        } else if bar == 3 {
            0x00FF_FFFF
        } else if bar == 4 {
            0x0000_0000
        } else if bar == 5 {
            0x00FF_FF00
        } else if bar == 6 {
            0x0000_FFFF
        } else {
            0x00FF_00FF
        }
    }

    /// Paints one frame: eight color bars, and a white square that moves
    /// from frame to frame. Nothing but the pixels is written.
    pub fn draw(&mut self, words: &mut [u32])
        requires
            old(self).drawable(old(words)@.len()),
        ensures
            *final(self) == (Canvas { frame: (old(self).frame + 1) as u64, ..*old(self) }),
            final(words)@.len() == old(words)@.len(),
            old(self).painted(final(words)@),
            forall|i: int|
                0 <= i < old(words)@.len() && !old(self).covers(i) ==> #[trigger] final(words)@[i]
                    == old(words)@[i],
    {
        let ghost before = words@;
        let ghost canvas = *self;
        assert(before.len() == words.len());
        let width: usize = self.width as usize;
        let height: usize = self.height as usize;
        let row: usize = (self.pitch / 4) as usize;
        let room: usize = if width > SQUARE {
            width - SQUARE
        } else {
            0
        };
        let span: usize = if room > 1 {
            room
        } else {
            1
        };
        let left: usize = (self.frame as usize * STRIDE) % span;
        let top: usize = if height > SQUARE {
            (height - SQUARE) / 2
        } else {
            0
        };
        let mut y: usize = 0;
        while y < height
            invariant
                *self == canvas,
                width == canvas.width,
                height == canvas.height,
                row == canvas.pitch / 4,
                y <= height,
                left == square_x(width as int, canvas.frame as int),
                top == square_y(height as int),
                canvas.fits(before.len()),
                words@.len() == before.len() <= usize::MAX,
                painted_before(canvas, words@, 0, y as int),
                forall|i: int|
                    0 <= i < before.len() && !canvas.covers(i) ==> #[trigger] words@[i]
                        == before[i],
            decreases height - y,
        {
            let mut x: usize = 0;
            while x < width
                invariant
                    *self == canvas,
                    width == canvas.width,
                    height == canvas.height,
                    row == canvas.pitch / 4,
                    x <= width,
                    y < height,
                    left == square_x(width as int, canvas.frame as int),
                    top == square_y(height as int),
                    canvas.fits(before.len()),
                    words@.len() == before.len() <= usize::MAX,
                    painted_before(canvas, words@, x as int, y as int),
                    forall|i: int|
                        0 <= i < before.len() && !canvas.covers(i) ==> #[trigger] words@[i]
                            == before[i],
                decreases width - x,
            {
                proof {
                    word_is_within(canvas, x as int, y as int, before.len());
                }
                let color: u32 = self.color_at(x, y, left, top);
                let at: usize = y * row + x;
                let ghost earlier = words@;
                words[at] = color;
                proof {
                    assert(at == canvas.word(x as int, y as int));
                    painting_goes_on(canvas, earlier, words@, x as int, y as int);
                }
                x = x + 1;
            }
            proof {
                row_is_done(canvas, words@, y as int);
            }
            y = y + 1;
        }
        self.frame = self.frame + 1;
    }
}

/// The pixels of the rows above `y`, and those of row `y` left of `x`, have
/// their colors.
spec fn painted_before(canvas: Canvas, words: Seq<u32>, x: int, y: int) -> bool {
    forall|a: int, b: int|
        0 <= a < canvas.width && 0 <= b < canvas.height && (b < y || (b == y && a < x))
            ==> words[#[trigger] canvas.word(a, b)] == pixel(
            a,
            b,
            canvas.width as int,
            canvas.height as int,
            canvas.frame as int,
        )
}

proof fn word_is_within(canvas: Canvas, x: int, y: int, len: nat)
    requires
        canvas.fits(len),
        0 <= x < canvas.width,
        0 <= y < canvas.height,
    ensures
        0 <= y * (canvas.pitch / 4) <= canvas.word(x, y),
        0 <= canvas.word(x, y) < len,
{
    let row = (canvas.pitch / 4) as int;
    let height = canvas.height as int;
    assert(y * row + row <= height * row) by (nonlinear_arith)
        requires
            0 <= y < height,
            0 <= row,
    ;
    assert(0 <= y * row) by (nonlinear_arith)
        requires
            0 <= y,
            0 <= row,
    ;
}

proof fn words_differ(canvas: Canvas, a: int, b: int, x: int, y: int)
    requires
        canvas.pitch % 4 == 0,
        4 * canvas.width <= canvas.pitch,
        0 <= a < canvas.width,
        0 <= b,
        0 <= x < canvas.width,
        0 <= y,
        a != x || b != y,
    ensures
        canvas.word(a, b) != canvas.word(x, y),
{
    let row = (canvas.pitch / 4) as int;
    if b < y {
        assert(b * row + row <= y * row) by (nonlinear_arith)
            requires
                0 <= b < y,
                0 <= row,
        ;
    } else if y < b {
        assert(y * row + row <= b * row) by (nonlinear_arith)
            requires
                0 <= y < b,
                0 <= row,
        ;
    }
}

proof fn painting_goes_on(
    canvas: Canvas,
    earlier: Seq<u32>,
    words: Seq<u32>,
    x: int,
    y: int,
)
    requires
        canvas.fits(words.len()),
        0 <= x < canvas.width,
        0 <= y < canvas.height,
        painted_before(canvas, earlier, x, y),
        earlier.len() == words.len(),
        words == earlier.update(
            canvas.word(x, y),
            pixel(x, y, canvas.width as int, canvas.height as int, canvas.frame as int),
        ),
    ensures
        painted_before(canvas, words, x + 1, y),
{
    word_is_within(canvas, x, y, words.len());
    assert forall|a: int, b: int|
        0 <= a < canvas.width && 0 <= b < canvas.height && (b < y || (b == y && a < x
            + 1)) implies words[#[trigger] canvas.word(a, b)] == pixel(
        a,
        b,
        canvas.width as int,
        canvas.height as int,
        canvas.frame as int,
    ) by {
        word_is_within(canvas, a, b, words.len());
        if a != x || b != y {
            words_differ(canvas, a, b, x, y);
            assert(words[canvas.word(a, b)] == earlier[canvas.word(a, b)]);
        }
    }
}

proof fn row_is_done(canvas: Canvas, words: Seq<u32>, y: int)
    requires
        painted_before(canvas, words, canvas.width as int, y),
    ensures
        painted_before(canvas, words, 0, y + 1),
{
    assert forall|a: int, b: int|
        0 <= a < canvas.width && 0 <= b < canvas.height && (b < y + 1 || (b == y + 1 && a
            < 0)) implies words[#[trigger] canvas.word(a, b)] == pixel(
        a,
        b,
        canvas.width as int,
        canvas.height as int,
        canvas.frame as int,
    ) by {
        assert(b < y || (b == y && a < canvas.width));
    }
}

/// The square never leaves the picture on its way, where it fits on it.
pub proof fn square_stays_on_the_picture(width: int, height: int, frame: int)
    requires
        64 <= width,
        64 <= height,
        0 <= frame,
    ensures
        0 <= square_x(width, frame),
        square_x(width, frame) + 64 <= width,
        0 <= square_y(height),
        square_y(height) + 64 <= height,
{
}

/// Of the modes that the display prefers, the first is picked; where it
/// prefers none, the first of all.
pub proof fn first_preferred_mode_is_picked(modes: Seq<ModeInfo>, k: int)
    requires
        0 <= k < modes.len(),
        forall|j: int| 0 <= j < k ==> (#[trigger] modes[j]).type_ & 0x80 == 0,
        modes[k].type_ & 0x80 != 0,
    ensures
        picked(modes) == modes[k],
{
    unpreferred_modes_are_passed(modes, 0, k);
}

proof fn unpreferred_modes_are_passed(modes: Seq<ModeInfo>, i: int, k: int)
    requires
        0 <= i <= k <= modes.len(),
        forall|j: int| i <= j < k ==> (#[trigger] modes[j]).type_ & 0x80 == 0,
    ensures
        preferred_from(modes, i) == preferred_from(modes, k),
    decreases k - i,
{
    if i < k {
        assert(modes[i].type_ & 0x80 == 0);
        unpreferred_modes_are_passed(modes, i + 1, k);
    }
}

/// Where the display prefers no mode, the first is picked.
pub proof fn first_mode_is_picked_without_preference(modes: Seq<ModeInfo>)
    requires
        modes.len() > 0,
        forall|j: int| 0 <= j < modes.len() ==> (#[trigger] modes[j]).type_ & 0x80 == 0,
    ensures
        picked(modes) == modes[0],
{
    unpreferred_modes_are_passed(modes, 0, modes.len() as int);
}

/// The output that is found is that of one connector: its own number, its own
/// encoder, and one of its own modes. It is the first connector with modes on
/// which a display is attached, else the first with modes.
pub proof fn found_output_is_of_one_connector(connectors: Seq<ConnectorInfo>, i: int)
    requires
        0 <= i < connectors.len(),
        connectors[i].modes@.len() > 0,
        ({
            ||| connectors[i].connection == 1 && forall|j: int|
                0 <= j < i && (#[trigger] connectors[j]).connection == 1
                    ==> connectors[j].modes@.len() == 0
            ||| (forall|j: int|
                0 <= j < connectors.len() && (#[trigger] connectors[j]).connection == 1
                    ==> connectors[j].modes@.len() == 0) && forall|j: int|
                0 <= j < i ==> (#[trigger] connectors[j]).modes@.len() == 0
        }),
    ensures
        ({
            let found = searched(connectors).found();
            &&& found is Some
            &&& found->0.connector_id == connectors[i].connector_id
            &&& found->0.encoder_id == connectors[i].encoder_id
            &&& found->0.mode == picked(connectors[i].modes@)
        }),
{
    if shows(connectors[i]) {
        assert forall|j: int| 0 <= j < i implies !shows(#[trigger] connectors[j]) by {}
        search_prefers_displays(connectors, i);
    } else {
        assert forall|j: int| 0 <= j < connectors.len() implies !shows(
            #[trigger] connectors[j],
        ) by {}
        search_falls_back(connectors, i);
    }
}

/// The square is white; outside of it a pixel has the color of its bar, which
/// depends only on how far to the right it is: eight bars of the same width,
/// red, green, blue, white, black, yellow, cyan and magenta.
pub proof fn picture_is_bars_under_a_square(
    x: int,
    y: int,
    width: int,
    height: int,
    frame: int,
    bar: int,
)
    requires
        0 <= x < width,
        0 <= y < height,
        0 <= frame,
        0 <= bar < 8,
        bar * width <= 8 * x < (bar + 1) * width,
    ensures
        ({
            let left = square_x(width, frame);
            let top = square_y(height);
            let colors = seq![
                0x00FF_0000u32,
                0x0000_FF00,
                0x0000_00FF,
                0x00FF_FFFF,
                0x0000_0000,
                0x00FF_FF00,
                0x0000_FFFF,
                0x00FF_00FF,
            ];
            pixel(x, y, width, height, frame) == if 0 <= x - left < 64 && 0 <= y - top < 64 {
                0x00FF_FFFFu32
            } else {
                colors[bar]
            }
        }),
{
    assert(x * 8 / width == bar) by (nonlinear_arith)
        requires
            0 < width,
            bar * width <= 8 * x < (bar + 1) * width,
    ;
}

/// The square starts at the left and moves sixteen pixels to the right with
/// each picture, over the room that it has, and then from the left again.
pub proof fn square_sweeps(width: int, frame: int)
    requires
        0 <= frame,
    ensures
        square_x(width, 0) == 0,
        ({
            let room = if width - 64 > 1 {
                width - 64
            } else {
                1
            };
            &&& 0 <= square_x(width, frame) < room
            &&& square_x(width, frame + 1) == (square_x(width, frame) + 16) % room
            &&& square_x(width, frame) + 16 < room ==> square_x(width, frame + 1) == square_x(
                width,
                frame,
            ) + 16
        }),
{
    let room = if width - 64 > 1 {
        width - 64
    } else {
        1
    };
    let at = frame * 16;
    vstd::arithmetic::div_mod::lemma_add_mod_noop(at, 16, room);
    vstd::arithmetic::div_mod::lemma_mod_bound(at, room);
    vstd::arithmetic::div_mod::lemma_add_mod_noop(at % room, 16, room);
    vstd::arithmetic::div_mod::lemma_mod_twice(at, room);
    vstd::arithmetic::div_mod::lemma_small_mod(0, room as nat);
    assert((frame + 1) * 16 == at + 16);
    if at % room + 16 < room {
        vstd::arithmetic::div_mod::lemma_small_mod((at % room + 16) as nat, room as nat);
    }
}

/// The square stands halfway down: as far from the top as from the bottom,
/// up to a pixel; at the top where the picture is not higher than it.
pub proof fn square_is_centered(height: int)
    ensures
        height >= 64 ==> {
            let above = square_y(height);
            let below = height - 64 - above;
            0 <= below - above <= 1
        },
        height < 64 ==> square_y(height) == 0,
{
}

/// The pixels of a row follow one another, and a row starts one pitch, which
/// is counted in bytes, behind the row before it.
pub proof fn rows_are_a_pitch_apart(canvas: Canvas, x: int, y: int)
    requires
        canvas.pitch % 4 == 0,
    ensures
        canvas.word(0, 0) == 0,
        canvas.word(x + 1, y) == canvas.word(x, y) + 1,
        4 * (canvas.word(x, y + 1) - canvas.word(x, y)) == canvas.pitch,
{
    let row = (canvas.pitch / 4) as int;
    assert((y + 1) * row == y * row + row) by (nonlinear_arith);
}

/// A picture can be painted where its rows are made of whole words, are wide
/// enough for its pixels, and all lie within the words that there are.
pub proof fn picture_with_room_can_be_painted(canvas: Canvas, len: nat)
    requires
        canvas.pitch % 4 == 0,
        canvas.width * 4 <= canvas.pitch,
        canvas.height * (canvas.pitch / 4) <= len,
        16 * canvas.frame <= usize::MAX,
        canvas.frame < u64::MAX,
    ensures
        canvas.drawable(len),
{
}

/// What is painted belongs to the picture: a word behind the last pixel of a
/// row, or behind the last row, does not.
pub proof fn space_behind_a_row_is_not_covered(canvas: Canvas, x: int, y: int)
    requires
        canvas.pitch % 4 == 0,
        4 * canvas.width <= canvas.pitch,
        0 <= x < canvas.pitch / 4,
        0 <= y,
    ensures
        canvas.covers(canvas.word(x, y)) <==> x < canvas.width && y < canvas.height,
{
    if canvas.covers(canvas.word(x, y)) {
        let (a, b) = choose|a: int, b: int|
            0 <= a < canvas.width && 0 <= b < canvas.height && canvas.word(x, y)
                == #[trigger] canvas.word(a, b);
        let row = (canvas.pitch / 4) as int;
        if b < y {
            assert(b * row + row <= y * row) by (nonlinear_arith)
                requires
                    0 <= b < y,
                    0 <= row,
            ;
        } else if y < b {
            assert(y * row + row <= b * row) by (nonlinear_arith)
                requires
                    0 <= y < b,
                    0 <= row,
            ;
        }
    }
}

} // verus!
