//! A rectangle that bounces off the screen edges at a constant speed and
//! takes a new random color on every bounce.

use std::time::{Duration, SystemTime};
use vstd::prelude::*;

verus! {

/// How often the animation advances, in milliseconds.
pub const LOGIC_INTERVAL: u64 = 16;

/// The alpha of every color: translucent.
pub const ALPHA: u8 = 0x99;

/// The seed where the clock gives none, or 0, from which the generator would
/// never move.
pub const FALLBACK_SEED: u64 = 0x9e37_79b9_7f4a_7c15;

/// What a state of the generator is multiplied by to give a random number.
pub const MULTIPLIER: u64 = 0x2545_f491_4f6c_dd1d;

/// A point in time as the system's clock gives it.
#[verifier::external_type_specification]
#[verifier::external_body]
pub struct ExSystemTime(std::time::SystemTime);

/// Reads the system's clock, with `SystemTime::now`. Nothing is claimed of
/// the result: it is the time.
#[verifier::external_body]
fn current_time() -> SystemTime {
    SystemTime::now()
}

/// How long after 1970 a point in time is, with `SystemTime::duration_since`;
/// `None` where it is before. Nothing is claimed of the result: a point in
/// time holds no plain value that a claim could speak of.
#[verifier::external_body]
fn since_epoch(time: &SystemTime) -> Option<Duration> {
    time.duration_since(std::time::UNIX_EPOCH).ok()
}

/// A length of time in nanoseconds, with `Duration::as_nanos`. Nothing is
/// claimed of the result, which comes from the clock.
#[verifier::external_body]
fn nanoseconds(length: &Duration) -> u128 {
    length.as_nanos()
}

/// The seed that a reading of the clock gives: the low 64 bits of its
/// nanoseconds, unless they are 0.
pub open spec fn seed_from(nanos: Option<u128>) -> u64 {
    match nanos {
        Some(n) => if n % 0x1_0000_0000_0000_0000 != 0 {
            (n % 0x1_0000_0000_0000_0000) as u64
        } else {
            FALLBACK_SEED
        },
        None => FALLBACK_SEED,
    }
}

/// The state of the random generator (xorshift64*) after one step.
pub open spec fn next_state(x: u64) -> u64 {
    let a = x ^ (x >> 12u64);
    let b = a ^ (a << 25u64);
    b ^ (b >> 27u64)
}

/// The random number that a state of the generator gives: the low 64 bits of
/// its product with the multiplier.
pub open spec fn drawn(x: u64) -> u64 {
    ((x * MULTIPLIER) % 0x1_0000_0000_0000_0000) as u64
}

/// The color channel that a random number gives: its bits 24 to 31.
pub open spec fn channel(x: u64) -> u8 {
    ((x >> 24u64) % 256) as u8
}

/// The color of an animation at its start: green.
pub open spec fn first_color() -> (u8, u8, u8, u8) {
    (0x00, 0xff, 0x00, ALPHA)
}

/// Would the color be seen as a new one: is it neither the current one nor
/// the first one?
pub open spec fn is_new(color: (u8, u8, u8, u8), current: (u8, u8, u8, u8)) -> bool {
    color != current && color != first_color()
}

/// The color with one more red, and none after the most.
pub open spec fn redder(color: (u8, u8, u8, u8)) -> (u8, u8, u8, u8) {
    (((color.0 + 1) % 256) as u8, color.1, color.2, color.3)
}

/// The color, or the next redder one that is new.
pub open spec fn moved_on(color: (u8, u8, u8, u8), current: (u8, u8, u8, u8)) -> (u8, u8, u8, u8) {
    if is_new(color, current) {
        color
    } else if is_new(redder(color), current) {
        redder(color)
    } else {
        redder(redder(color))
    }
}

/// One coordinate of the rectangle and its velocity along that axis.
pub struct Axis {
    pub pos: int,
    pub step: int,
}

/// The size of a number.
pub open spec fn magnitude(n: int) -> int {
    if n < 0 {
        -n
    } else {
        n
    }
}

/// Where a coordinate is after one tick on a screen of `limit` pixels, for
/// a rectangle of `size` pixels, and whether it hit an edge.
pub open spec fn advanced(axis: Axis, size: int, limit: int) -> (Axis, bool) {
    let pos = axis.pos + axis.step;
    if pos <= 0 {
        (Axis { pos: 0, step: magnitude(axis.step) }, true)
    } else if pos + size >= limit {
        (Axis { pos: limit - size, step: -magnitude(axis.step) }, true)
    } else {
        (Axis { pos, step: axis.step }, false)
    }
}

/// Is the number one of `i32`?
pub open spec fn fits(n: int) -> bool {
    i32::MIN <= n <= i32::MAX
}

/// Can a coordinate advance in `i32` arithmetic?
pub open spec fn can_advance(axis: Axis, size: int, limit: int) -> bool {
    let pos = axis.pos + axis.step;
    &&& fits(pos)
    &&& fits(magnitude(axis.step))
    &&& pos > 0 ==> fits(pos + size)
    &&& pos > 0 && pos + size >= limit ==> fits(limit - size)
}

/// Everything there is to know of the animation.
pub struct MotionView {
    pub screen_w: int,
    pub screen_h: int,
    pub rect_w: int,
    pub rect_h: int,
    pub x: Axis,
    pub y: Axis,
    pub color: (u8, u8, u8, u8),
    pub rng: u64,
}

impl MotionView {
    /// The animation at its start: in the corner, moving right and down,
    /// green.
    pub open spec fn start(
        screen_w: int,
        screen_h: int,
        rect_w: int,
        rect_h: int,
        seed: u64,
    ) -> MotionView {
        MotionView {
            screen_w,
            screen_h,
            rect_w,
            rect_h,
            x: Axis { pos: 0, step: 4 },
            y: Axis { pos: 0, step: 3 },
            color: first_color(),
            rng: seed,
        }
    }

    /// With the color of the next three random numbers.
    pub open spec fn redrawn(self) -> MotionView {
        let r = next_state(self.rng);
        let g = next_state(r);
        let b = next_state(g);
        MotionView {
            color: (channel(drawn(r)), channel(drawn(g)), channel(drawn(b)), ALPHA),
            rng: b,
            ..self
        }
    }

    /// With a new random color. One that is not new is drawn once more, and
    /// then moved on until it is.
    pub open spec fn recolored(self) -> MotionView {
        let once = self.redrawn();
        if is_new(once.color, self.color) {
            once
        } else {
            let twice = once.redrawn();
            MotionView { color: moved_on(twice.color, self.color), ..twice }
        }
    }

    /// After one tick: both coordinates advance, and if either hit an edge
    /// the color is a new one.
    pub open spec fn ticked(self) -> MotionView {
        let (x, hit_x) = advanced(self.x, self.rect_w, self.screen_w);
        let (y, hit_y) = advanced(self.y, self.rect_h, self.screen_h);
        let moved = MotionView { x, y, ..self };
        if hit_x || hit_y {
            moved.recolored()
        } else {
            moved
        }
    }

    /// Does the next tick hit an edge?
    pub open spec fn hits(self) -> bool {
        ||| advanced(self.x, self.rect_w, self.screen_w).1
        ||| advanced(self.y, self.rect_h, self.screen_h).1
    }

    /// Can the animation advance in `i32` arithmetic?
    pub open spec fn can_tick(self) -> bool {
        &&& can_advance(self.x, self.rect_w, self.screen_w)
        &&& can_advance(self.y, self.rect_h, self.screen_h)
    }

    /// The sizes are those of a screen and a rectangle that leave room for
    /// a step.
    pub open spec fn sane_sizes(self) -> bool {
        &&& 0 <= self.screen_w <= i32::MAX - 4
        &&& 0 <= self.screen_h <= i32::MAX - 3
        &&& 0 <= self.rect_w <= i32::MAX - 4
        &&& 0 <= self.rect_h <= i32::MAX - 3
    }

    /// What every tick keeps: the speeds, and each coordinate between the
    /// two positions at which the rectangle touches an edge.
    pub open spec fn orderly(self) -> bool {
        &&& self.sane_sizes()
        &&& magnitude(self.x.step) == 4
        &&& magnitude(self.y.step) == 3
        &&& between_edges(self.x.pos, self.rect_w, self.screen_w)
        &&& between_edges(self.y.pos, self.rect_h, self.screen_h)
    }
}

/// Is the coordinate between the two at which the rectangle touches an edge
/// of the screen?
pub open spec fn between_edges(pos: int, size: int, limit: int) -> bool {
    if size <= limit {
        0 <= pos <= limit - size
    } else {
        limit - size <= pos <= 0
    }
}

/// A rectangle bouncing off the screen edges.
pub struct Motion {
    screen_w: i32,
    screen_h: i32,
    pos_x: i32,
    pos_y: i32,
    dx: i32,
    dy: i32,
    rect_w: i32,
    rect_h: i32,
    color: (u8, u8, u8, u8),
    rng: u64,
}

impl View for Motion {
    type V = MotionView;

    closed spec fn view(&self) -> MotionView {
        MotionView {
            screen_w: self.screen_w as int,
            screen_h: self.screen_h as int,
            rect_w: self.rect_w as int,
            rect_h: self.rect_h as int,
            x: Axis { pos: self.pos_x as int, step: self.dx as int },
            y: Axis { pos: self.pos_y as int, step: self.dy as int },
            color: self.color,
            rng: self.rng,
        }
    }
}

fn same_color(a: (u8, u8, u8, u8), b: (u8, u8, u8, u8)) -> (same: bool)
    ensures
        same == (a == b),
{
    a.0 == b.0 && a.1 == b.1 && a.2 == b.2 && a.3 == b.3
}

fn new_color(color: (u8, u8, u8, u8), current: (u8, u8, u8, u8)) -> (yes: bool)
    ensures
        yes == is_new(color, current),
{
    !same_color(color, current) && !same_color(color, (0x00, 0xff, 0x00, ALPHA))
}

fn more_red(color: (u8, u8, u8, u8)) -> (next: (u8, u8, u8, u8))
    ensures
        next == redder(color),
{
    let red: u8 = if color.0 == 255 {
        0
    } else {
        color.0 + 1
    };
    (red, color.1, color.2, color.3)
}

fn absolute(n: i32) -> (size: i32)
    requires
        fits(magnitude(n as int)),
    ensures
        size == magnitude(n as int),
{
    if n < 0 {
        -n
    } else {
        n
    }
}

/// Advances one coordinate: its position, its velocity, and whether it hit
/// an edge.
fn advance(pos: i32, step: i32, size: i32, limit: i32) -> (next: (i32, i32, bool))
    requires
        can_advance(Axis { pos: pos as int, step: step as int }, size as int, limit as int),
    ensures
        (Axis { pos: next.0 as int, step: next.1 as int }, next.2) == advanced(
            Axis { pos: pos as int, step: step as int },
            size as int,
            limit as int,
        ),
{
    let moved: i32 = pos + step;
    if moved <= 0 {
        (0, absolute(step), true)
    } else if moved + size >= limit {
        (limit - size, -absolute(step), true)
    } else {
        (moved, step, false)
    }
}

impl Motion {
    /// An animation on a screen of the given size, for a rectangle of the
    /// given size. Its colors depend on the system's clock.
    pub fn new(screen_w: i32, screen_h: i32, rect_w: i32, rect_h: i32) -> (motion: Self)
        ensures
            motion@ == MotionView::start(
                screen_w as int,
                screen_h as int,
                rect_w as int,
                rect_h as int,
                motion@.rng,
            ),
            motion@.rng != 0,
    {
        let reading = match since_epoch(&current_time()) {
            Some(length) => Some(nanoseconds(&length)),
            None => None,
        };
        Motion::seeded(screen_w, screen_h, rect_w, rect_h, reading)
    }

    /// The same, with the colors that a given reading of the clock leads to.
    pub fn seeded(
        screen_w: i32,
        screen_h: i32,
        rect_w: i32,
        rect_h: i32,
        nanos: Option<u128>,
    ) -> (motion: Self)
        ensures
            motion@ == MotionView::start(
                screen_w as int,
                screen_h as int,
                rect_w as int,
                rect_h as int,
                seed_from(nanos),
            ),
            motion@.rng != 0,
    {
        let seed: u64 = match nanos {
            Some(n) => {
                assert(n as u64 == n % 0x1_0000_0000_0000_0000) by (bit_vector);
                let low: u64 = #[verifier::truncate] (n as u64);
                if low != 0 {
                    low
                } else {
                    FALLBACK_SEED
                }
            },
            None => FALLBACK_SEED,
        };
        Motion {
            screen_w,
            screen_h,
            pos_x: 0,
            pos_y: 0,
            dx: 4,
            dy: 3,
            rect_w,
            rect_h,
            color: (0x00, 0xff, 0x00, ALPHA),
            rng: seed,
        }
    }

    /// One step of the generator.
    fn next_random(&mut self) -> (x: u64)
        ensures
            x == drawn(next_state(old(self)@.rng)),
            final(self)@ == (MotionView { rng: next_state(old(self)@.rng), ..old(self)@ }),
    {
        let mut x: u64 = self.rng;
        x = x ^ (x >> 12u64);
        x = x ^ (x << 25u64);
        x = x ^ (x >> 27u64);
        self.rng = x;
        x.wrapping_mul(MULTIPLIER)
    }

    fn next_channel(&mut self) -> (value: u8)
        ensures
            value == channel(drawn(next_state(old(self)@.rng))),
            final(self)@ == (MotionView { rng: next_state(old(self)@.rng), ..old(self)@ }),
    {
        let x: u64 = self.next_random();
        assert((x >> 24u64) as u8 == (x >> 24u64) % 256) by (bit_vector);
        #[verifier::truncate] ((x >> 24u64) as u8)
    }

    fn redraw(&mut self)
        ensures
            final(self)@ == old(self)@.redrawn(),
    {
        let r: u8 = self.next_channel();
        let g: u8 = self.next_channel();
        let b: u8 = self.next_channel();
        self.color = (r, g, b, ALPHA);
    }

    /// Picks a new random color: random red, green and blue, the same alpha.
    /// It is neither the current one nor the first one. Stores and returns it.
    pub fn random_color(&mut self) -> (color: (u8, u8, u8, u8))
        ensures
            final(self)@ == old(self)@.recolored(),
            color == final(self)@.color,
            color != old(self)@.color,
            old(self)@.rng != 0 ==> final(self)@.rng != 0,
    {
        proof {
            recoloring_changes_the_color(self@);
            if self@.rng != 0 {
                recoloring_keeps_the_generator_alive(self@);
            }
        }
        let current = self.color;
        self.redraw();
        if !new_color(self.color, current) {
            self.redraw();
            let mut color = self.color;
            if !new_color(color, current) {
                color = more_red(color);
                if !new_color(color, current) {
                    color = more_red(color);
                }
            }
            self.color = color;
        }
        self.color
    }

    /// The current color: red, green, blue, alpha.
    pub fn color(&self) -> (color: (u8, u8, u8, u8))
        ensures
            color == self@.color,
    {
        self.color
    }

    /// Advances one tick and bounces off the edges. On a hit the rectangle
    /// picks a new random color. Returns the new position.
    pub fn tick(&mut self) -> (position: (i32, i32))
        requires
            old(self)@.can_tick(),
        ensures
            final(self)@ == old(self)@.ticked(),
            position.0 == final(self)@.x.pos,
            position.1 == final(self)@.y.pos,
            old(self)@.hits() ==> final(self)@.color != old(self)@.color,
            old(self)@.orderly() ==> final(self)@.orderly() && final(self)@.can_tick(),
            old(self)@.rng != 0 ==> final(self)@.rng != 0,
    {
        proof {
            if self@.orderly() {
                ticking_stays_orderly(self@);
            }
            if self@.hits() {
                bounce_changes_the_color(self@);
            }
            if self@.rng != 0 {
                recoloring_keeps_the_generator_alive(self@);
            }
        }
        let (x, dx, hit_x) = advance(self.pos_x, self.dx, self.rect_w, self.screen_w);
        let (y, dy, hit_y) = advance(self.pos_y, self.dy, self.rect_h, self.screen_h);
        self.pos_x = x;
        self.dx = dx;
        self.pos_y = y;
        self.dy = dy;
        if hit_x || hit_y {
            self.random_color();
        }
        (self.pos_x, self.pos_y)
    }

    /// The current position of the rectangle's corner.
    pub fn position(&self) -> (position: (i32, i32))
        ensures
            position.0 == self@.x.pos,
            position.1 == self@.y.pos,
    {
        (self.pos_x, self.pos_y)
    }
}

/// An animation with sane sizes starts orderly.
pub proof fn start_is_orderly(screen_w: int, screen_h: int, rect_w: int, rect_h: int, seed: u64)
    requires
        MotionView::start(screen_w, screen_h, rect_w, rect_h, seed).sane_sizes(),
    ensures
        MotionView::start(screen_w, screen_h, rect_w, rect_h, seed).orderly(),
{
}

/// An orderly animation can always tick, and is orderly again afterwards.
pub proof fn ticking_stays_orderly(motion: MotionView)
    requires
        motion.orderly(),
    ensures
        motion.can_tick(),
        motion.ticked().orderly(),
        motion.ticked().can_tick(),
{
}

/// The state after `n` ticks.
pub open spec fn ticked_times(motion: MotionView, n: nat) -> MotionView
    decreases n,
{
    if n == 0 {
        motion
    } else {
        ticked_times(motion, (n - 1) as nat).ticked()
    }
}

/// A rectangle that fits on the screen never leaves it, however long the
/// animation runs.
pub proof fn rectangle_stays_on_screen(
    screen_w: int,
    screen_h: int,
    rect_w: int,
    rect_h: int,
    seed: u64,
    n: nat,
)
    requires
        0 <= rect_w <= screen_w <= i32::MAX - 4,
        0 <= rect_h <= screen_h <= i32::MAX - 3,
    ensures
        ({
            let motion = ticked_times(
                MotionView::start(screen_w, screen_h, rect_w, rect_h, seed),
                n,
            );
            &&& motion.can_tick()
            &&& 0 <= motion.x.pos <= screen_w - rect_w
            &&& 0 <= motion.y.pos <= screen_h - rect_h
        }),
{
    let start = MotionView::start(screen_w, screen_h, rect_w, rect_h, seed);
    start_is_orderly(screen_w, screen_h, rect_w, rect_h, seed);
    ticks_keep_order(start, n);
    ticking_stays_orderly(ticked_times(start, n));
}

proof fn ticks_keep_order(motion: MotionView, n: nat)
    requires
        motion.orderly(),
    ensures
        ({
            let later = ticked_times(motion, n);
            &&& later.orderly()
            &&& later.screen_w == motion.screen_w
            &&& later.screen_h == motion.screen_h
            &&& later.rect_w == motion.rect_w
            &&& later.rect_h == motion.rect_h
        }),
    decreases n,
{
    if n > 0 {
        ticks_keep_order(motion, (n - 1) as nat);
        ticking_stays_orderly(ticked_times(motion, (n - 1) as nat));
    }
}

/// Every color that is picked has the same alpha as the first one.
pub proof fn alpha_stays(motion: MotionView)
    requires
        motion.color.3 == ALPHA,
    ensures
        motion.recolored().color.3 == ALPHA,
        motion.ticked().color.3 == ALPHA,
{
}

/// A tick away from the edges keeps the color.
pub proof fn only_bounces_change_the_color(motion: MotionView)
    requires
        !motion.hits(),
    ensures
        motion.ticked().color == motion.color,
        motion.ticked().rng == motion.rng,
{
}

/// A new color is neither the one before it nor the first one.
pub proof fn recoloring_changes_the_color(motion: MotionView)
    ensures
        motion.recolored().color != motion.color,
        motion.recolored().color != first_color(),
{
}

/// A bounce changes the color.
pub proof fn bounce_changes_the_color(motion: MotionView)
    requires
        motion.hits(),
    ensures
        motion.ticked().color != motion.color,
        motion.ticked().color != first_color(),
{
    recoloring_changes_the_color(motion);
    let (x, _) = advanced(motion.x, motion.rect_w, motion.screen_w);
    let (y, _) = advanced(motion.y, motion.rect_h, motion.screen_h);
    recoloring_changes_the_color(MotionView { x, y, ..motion });
}

/// The first color does not come back: once the animation has run long
/// enough to reach an edge, its color is another one, however long it runs
/// on. On a screen of 800 by 600, with a rectangle of 100 by 100, that is so
/// from tick 167 on.
pub proof fn first_color_does_not_come_back(
    screen_w: int,
    screen_h: int,
    rect_w: int,
    rect_h: int,
    seed: u64,
    n: nat,
)
    requires
        n > 0,
        4 * n + rect_w >= screen_w || 3 * n + rect_h >= screen_h,
    ensures
        ticked_times(MotionView::start(screen_w, screen_h, rect_w, rect_h, seed), n).color
            != first_color(),
{
    straight_until_a_bounce(screen_w, screen_h, rect_w, rect_h, seed, n);
}

proof fn straight_until_a_bounce(
    screen_w: int,
    screen_h: int,
    rect_w: int,
    rect_h: int,
    seed: u64,
    n: nat,
)
    ensures
        ({
            let start = MotionView::start(screen_w, screen_h, rect_w, rect_h, seed);
            let motion = ticked_times(start, n);
            motion.color == first_color() ==> {
                &&& motion == MotionView {
                    x: Axis { pos: 4 * n as int, step: 4 },
                    y: Axis { pos: 3 * n as int, step: 3 },
                    ..start
                }
                &&& n > 0 ==> 4 * n + rect_w < screen_w && 3 * n + rect_h < screen_h
            }
        }),
    decreases n,
{
    if n > 0 {
        let start = MotionView::start(screen_w, screen_h, rect_w, rect_h, seed);
        let before = ticked_times(start, (n - 1) as nat);
        straight_until_a_bounce(screen_w, screen_h, rect_w, rect_h, seed, (n - 1) as nat);
        if before.hits() {
            bounce_changes_the_color(before);
        }
    }
}

/// The state after `n` new colors.
pub open spec fn recolored_times(motion: MotionView, n: nat) -> MotionView
    decreases n,
{
    if n == 0 {
        motion
    } else {
        recolored_times(motion, (n - 1) as nat).recolored()
    }
}

/// Draws vary: of a color and those drawn after it, each differs from the
/// one before. So a color and the ten after it are never all the same.
pub proof fn draws_vary(motion: MotionView, n: nat)
    ensures
        recolored_times(motion, n + 1).color != recolored_times(motion, n).color,
        exists|k: nat|
            1 <= k <= 10 && (#[trigger] recolored_times(motion.recolored(), k)).color
                != motion.recolored().color,
{
    recoloring_changes_the_color(recolored_times(motion, n));
    let first = motion.recolored();
    recoloring_changes_the_color(first);
    assert(recolored_times(first, 0) == first);
    assert(recolored_times(first, 1) == first.recolored());
}

/// The random generator only stands still at 0: from any other number it
/// never gets there.
pub proof fn generator_never_dies(x: u64)
    requires
        x != 0,
    ensures
        next_state(x) != 0,
{
    let a = x ^ (x >> 12u64);
    let b = a ^ (a << 25u64);
    assert(a != 0) by (bit_vector)
        requires
            a == x ^ (x >> 12u64),
            x != 0,
    ;
    assert(b != 0) by (bit_vector)
        requires
            b == a ^ (a << 25u64),
            a != 0,
    ;
    assert(b ^ (b >> 27u64) != 0) by (bit_vector)
        requires
            b != 0,
    ;
}

/// A new color and a tick both keep the generator alive.
pub proof fn recoloring_keeps_the_generator_alive(motion: MotionView)
    requires
        motion.rng != 0,
    ensures
        motion.recolored().rng != 0,
        motion.ticked().rng != 0,
{
    redrawing_keeps_the_generator_alive(motion);
    redrawing_keeps_the_generator_alive(motion.redrawn());
    let (x, _) = advanced(motion.x, motion.rect_w, motion.screen_w);
    let (y, _) = advanced(motion.y, motion.rect_h, motion.screen_h);
    let moved = MotionView { x, y, ..motion };
    redrawing_keeps_the_generator_alive(moved);
    redrawing_keeps_the_generator_alive(moved.redrawn());
}

proof fn redrawing_keeps_the_generator_alive(motion: MotionView)
    requires
        motion.rng != 0,
    ensures
        motion.redrawn().rng != 0,
{
    generator_never_dies(motion.rng);
    generator_never_dies(next_state(motion.rng));
    generator_never_dies(next_state(next_state(motion.rng)));
}

/// A coordinate goes on by its step, as long as that keeps the rectangle off
/// the edges. Otherwise it stops at the edge and turns away from it. Its
/// speed never changes.
pub proof fn coordinate_turns_at_the_edges(axis: Axis, size: int, limit: int)
    ensures
        ({
            let (next, hit) = advanced(axis, size, limit);
            let reached = axis.pos + axis.step;
            &&& next.step == axis.step || next.step == -axis.step
            &&& hit <==> reached <= 0 || limit <= reached + size
            &&& !hit ==> next.pos == reached && next.step == axis.step
            &&& reached <= 0 ==> next.pos == 0 && next.step >= 0
            &&& reached > 0 && limit <= reached + size ==> next.pos + size == limit && next.step
                <= 0
        }),
{
}

/// A tick moves each coordinate on its own and leaves the screen and the
/// rectangle as they are; it changes the color exactly where an edge is hit.
pub proof fn coordinates_move_on_their_own(motion: MotionView)
    ensures
        motion.ticked().screen_w == motion.screen_w,
        motion.ticked().screen_h == motion.screen_h,
        motion.ticked().rect_w == motion.rect_w,
        motion.ticked().rect_h == motion.rect_h,
        motion.ticked().x == advanced(motion.x, motion.rect_w, motion.screen_w).0,
        motion.ticked().y == advanced(motion.y, motion.rect_h, motion.screen_h).0,
        motion.ticked().color != motion.color <==> ({
            ||| motion.x.pos + motion.x.step <= 0
            ||| motion.screen_w <= motion.x.pos + motion.x.step + motion.rect_w
            ||| motion.y.pos + motion.y.step <= 0
            ||| motion.screen_h <= motion.y.pos + motion.y.step + motion.rect_h
        }),
{
    if motion.hits() {
        bounce_changes_the_color(motion);
    }
}

/// The animation starts green in the corner, going right by four and down by
/// three with each tick until it first reaches an edge.
pub proof fn animation_starts_in_the_corner(
    screen_w: int,
    screen_h: int,
    rect_w: int,
    rect_h: int,
    seed: u64,
    n: nat,
)
    requires
        n > 0 ==> 4 * n + rect_w < screen_w && 3 * n + rect_h < screen_h,
    ensures
        ({
            let motion = ticked_times(
                MotionView::start(screen_w, screen_h, rect_w, rect_h, seed),
                n,
            );
            &&& motion.x.pos == 4 * n
            &&& motion.y.pos == 3 * n
            &&& motion.x.step == 4
            &&& motion.y.step == 3
            &&& motion.color == (0u8, 255u8, 0u8, 0x99u8)
            &&& motion.rng == seed
            &&& motion.screen_w == screen_w
            &&& motion.screen_h == screen_h
            &&& motion.rect_w == rect_w
            &&& motion.rect_h == rect_h
        }),
    decreases n,
{
    if n > 0 {
        animation_starts_in_the_corner(screen_w, screen_h, rect_w, rect_h, seed, (n - 1) as nat);
    }
}

/// A new color is made of the next three random numbers, red first: bits 24
/// to 31 of each. Only where that is the current color or the first one are
/// the three after them taken; nothing else moves the generator.
pub proof fn color_is_the_next_three_draws(motion: MotionView)
    ensures
        ({
            let first = next_state(motion.rng);
            let second = next_state(first);
            let third = next_state(second);
            let sixth = next_state(next_state(next_state(third)));
            let color = (
                (drawn(first) / 0x100_0000 % 256) as u8,
                (drawn(second) / 0x100_0000 % 256) as u8,
                (drawn(third) / 0x100_0000 % 256) as u8,
                0x99u8,
            );
            if color != motion.color && color != (0u8, 255u8, 0u8, 0x99u8) {
                &&& motion.recolored().color == color
                &&& motion.recolored().rng == third
            } else {
                motion.recolored().rng == sixth
            }
        }),
{
    let first = next_state(motion.rng);
    let second = next_state(first);
    let third = next_state(second);
    shift_is_a_division(drawn(first));
    shift_is_a_division(drawn(second));
    shift_is_a_division(drawn(third));
}

proof fn shift_is_a_division(x: u64)
    ensures
        x >> 24u64 == x / 0x100_0000,
{
    assert(x >> 24u64 == x / 0x100_0000) by (bit_vector);
}

/// The generator loses nothing: it comes to the same state from one state
/// alone.
pub proof fn generator_does_not_merge(x: u64, y: u64)
    requires
        next_state(x) == next_state(y),
    ensures
        x == y,
{
    let a = x ^ (x >> 12u64);
    let b = a ^ (a << 25u64);
    let c = y ^ (y >> 12u64);
    let d = c ^ (c << 25u64);
    assert(b == d) by (bit_vector)
        requires
            b ^ (b >> 27u64) == d ^ (d >> 27u64),
    ;
    assert(a == c) by (bit_vector)
        requires
            a ^ (a << 25u64) == c ^ (c << 25u64),
    ;
    assert(x == y) by (bit_vector)
        requires
            x ^ (x >> 12u64) == y ^ (y >> 12u64),
    ;
}

/// The seed is the reading of the clock, as far as it fits in 64 bits; only
/// where that is 0, or there is no reading, is it the fixed one.
pub proof fn seed_is_the_reading(n: u64, high: u64)
    ensures
        n != 0 ==> seed_from(Some((high * 0x1_0000_0000_0000_0000 + n) as u128)) == n,
        seed_from(Some((high * 0x1_0000_0000_0000_0000) as u128)) == 0x9e37_79b9_7f4a_7c15,
        seed_from(None) == 0x9e37_79b9_7f4a_7c15,
{
    let whole = 0x1_0000_0000_0000_0000int;
    vstd::arithmetic::div_mod::lemma_mod_multiples_vanish(high as int, n as int, whole);
    vstd::arithmetic::div_mod::lemma_small_mod(n as nat, whole as nat);
    vstd::arithmetic::div_mod::lemma_mod_multiples_basic(high as int, whole);
    assert(high * whole + n <= u128::MAX);
    assert(whole * high + n == high * whole + n);
}

} // verus!
