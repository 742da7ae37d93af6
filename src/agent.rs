use vstd::prelude::*;

use crate::angle::{
    ANGLE_TURN, cos_spec, cosine, rotate, rotated, sin_spec, sine, ANGLE_HALF, ANGLE_QUARTER, TRIG_ONE,
};
use crate::field::{clip_high, clip_low, lemma_rect_sum_no_columns, FieldModel, Rgba, TrailField, CHANNEL_ONE, INTENSITY};
use vstd::arithmetic::div_mod::{lemma_div_is_ordered, lemma_div_multiples_vanish, lemma_div_pos_is_pos};
use crate::random::{fraction, fraction_of, hash, hash_spec};

verus! {

/// Position units in one cell: positions are kept in thousandths of a cell.
pub const POSITION_ONE: u32 = 1000;

/// How far inside the field, in position units, an agent is put back after crossing an edge.
pub const EDGE_HOLDOUT: u32 = 10;

/// Distance, in position units, from an agent to the centre of each of its sensors.
pub const SENSOR_DISTANCE: u64 = 9000;

/// Milliseconds in a second.
pub const MILLIS_PER_SECOND: u64 = 1000;

/// One agent: its position in thousandths of a cell, and its heading in turn units.
#[derive(Clone, Copy, Debug, PartialEq, Eq, Structural)]
pub struct Agent {
    pub x: u32,
    pub y: u32,
    pub heading: u16,
}

/// The tunable parameters of one tick.
#[derive(Clone, Copy, Debug, PartialEq, Eq, Structural)]
pub struct Parameters {
    /// Agent speed, in position units per second.
    pub agent_speed: u32,
    /// Agent turn speed, in heading units per second.
    pub agent_turn_speed: u32,
    /// Half the side, in cells, of the square that each sensor sums over.
    pub sensor_radius: u32,
    /// Angle between the forward sensor and each side sensor, in heading units.
    pub sensor_angle_spacing: u16,
    /// Channel units that evaporate per second.
    pub evaporate_speed: u32,
    /// Duration of the tick, in milliseconds.
    pub delta_time_ms: u32,
}

/// The color an agent leaves in the cell it stands on.
pub open spec fn ink_spec() -> Rgba {
    Rgba { r: CHANNEL_ONE, g: 0, b: CHANNEL_ONE / 2, a: CHANNEL_ONE }
}

/// The color an agent leaves in the cell it stands on.
pub fn ink() -> (c: Rgba)
    ensures
        c == ink_spec(),
{
    Rgba { r: CHANNEL_ONE, g: 0, b: CHANNEL_ONE / 2, a: CHANNEL_ONE }
}

/// An agent lies inside a field of `width` by `height` cells.
pub open spec fn in_field(a: Agent, width: int, height: int) -> bool {
    a.x < width * POSITION_ONE && a.y < height * POSITION_ONE
}

/// The amount that a per-second `rate` gives over `dt_ms` milliseconds.
pub open spec fn per_tick(rate: int, dt_ms: int) -> int {
    rate * dt_ms / MILLIS_PER_SECOND as int
}

/// `dist` times the fixed-point factor `c`, rounded toward zero.
pub open spec fn scaled(dist: int, c: int) -> int {
    if c >= 0 {
        dist * c / TRIG_ONE as int
    } else {
        -(dist * (-c) / TRIG_ONE as int)
    }
}

/// The cell coordinate that holds position coordinate `v` (rounding down).
pub open spec fn cell_of(v: int) -> int {
    v / POSITION_ONE as int
}

/// The sum of r, g and b over the square of side `2 r + 1` cells around the sensor that
/// looks in direction `angle` from agent `a`; cells outside the field count for nothing.
pub open spec fn sense_spec(f: FieldModel, a: Agent, angle: int, r: int) -> int {
    let cx = cell_of(a.x + scaled(SENSOR_DISTANCE as int, cos_spec(angle)));
    let cy = cell_of(a.y + scaled(SENSOR_DISTANCE as int, sin_spec(angle)));
    f.window_sum(cx - r, cx + r + 1, cy - r, cy + r + 1, INTENSITY as int)
}


/// The amount that a per-second `rate` gives over `dt_ms` milliseconds.
pub fn amount_per_tick(rate: u32, dt_ms: u32) -> (r: u64)
    ensures
        r == per_tick(rate as int, dt_ms as int),
        r <= 0x80_0000_0000_0000,
{
    proof {
        let p = rate as int * dt_ms as int;
        assert(0 <= p <= 0xffff_ffff * 0xffff_ffff) by (nonlinear_arith)
            requires p == rate as int * dt_ms as int, 0 <= rate <= 0xffff_ffff, 0 <= dt_ms <= 0xffff_ffff;
        lemma_div_is_ordered(p, 0xffff_ffff * 0xffff_ffff as int, MILLIS_PER_SECOND as int);
    }
    (rate as u64 * dt_ms as u64) / MILLIS_PER_SECOND
}

/// `dist` times the fixed-point factor `c`, rounded toward zero.
fn scale(dist: u64, c: i64) -> (r: i64)
    requires
        dist <= 0x80_0000_0000_0000,
        -(TRIG_ONE as int) <= c <= TRIG_ONE,
    ensures
        r == scaled(dist as int, c as int),
        -(dist as int) <= r <= dist,
{
    let mag: u64 = if c >= 0 { c as u64 } else { (-c) as u64 };
    proof {
        let p = dist as int * mag as int;
        assert(0 <= p <= dist * (TRIG_ONE as int)) by (nonlinear_arith)
            requires p == dist as int * mag as int, 0 <= mag <= 65536, 0 <= dist;
        lemma_div_is_ordered(p, dist * (TRIG_ONE as int), TRIG_ONE as int);
        assert(dist * (TRIG_ONE as int) == (TRIG_ONE as int) * dist) by (nonlinear_arith);
        lemma_div_multiples_vanish(dist as int, TRIG_ONE as int);
        lemma_div_pos_is_pos(p, TRIG_ONE as int);
    }
    let q: i64 = ((dist as u128 * mag as u128) / (TRIG_ONE as u128)) as i64;
    if c >= 0 {
        q
    } else {
        -q
    }
}

/// The cell coordinate that holds position coordinate `v`, which lies at most a sensor
/// distance below zero.
fn cell_of_exec(v: i64) -> (r: i64)
    requires
        -(SENSOR_DISTANCE as int) <= v <= 0x2_0000_0000,
    ensures
        r == cell_of(v as int),
{
    ((v + 10000) / 1000) - 10
}

/// The sum of r, g and b over the square of side `2 radius + 1` cells around the sensor that
/// looks in direction `angle` from agent `a`, read from the field `f`.
pub fn sense(f: &TrailField, a: Agent, angle: u16, radius: u32) -> (s: u64)
    requires
        f.wf(),
    ensures
        s == sense_spec(f@, a, angle as int, radius as int),
{
    let cx: i64 = cell_of_exec(a.x as i64 + scale(SENSOR_DISTANCE, cosine(angle)));
    let cy: i64 = cell_of_exec(a.y as i64 + scale(SENSOR_DISTANCE, sine(angle)));
    let r: i64 = radius as i64;
    let w: i64 = f.width() as i64;
    let h: i64 = f.height() as i64;
    let x0: i64 = if cx - r < 0 { 0 } else { cx - r };
    let x1: i64 = if cx + r + 1 > w { w } else { cx + r + 1 };
    let y0: i64 = if cy - r < 0 { 0 } else { cy - r };
    let y1: i64 = if cy + r + 1 > h { h } else { cy + r + 1 };
    assert(x0 == clip_low(cx - r) && x1 == clip_high(cx + r + 1, f@.width));
    assert(y0 == clip_low(cy - r) && y1 == clip_high(cy + r + 1, f@.height));
    if x0 >= x1 {
        proof {
            lemma_rect_sum_no_columns(f@, x0 as int, x1 as int, y0 as int, y1 as int, INTENSITY as int);
        }
        0
    } else if y0 >= y1 {
        0
    } else {
        f.rect_sum(x0 as u32, x1 as u32, y0 as u32, y1 as u32, INTENSITY)
    }
}


/// The pseudo-random value that agent number `i`, standing at `a` in a field `width` cells
/// wide, draws for this tick: a hash of its cell and of its number.
pub open spec fn agent_seed(i: int, a: Agent, width: int) -> u32 {
    let cell = cell_of(a.y as int) * width + cell_of(a.x as int);
    hash_spec(((cell % 0x1_0000_0000) as u32).wrapping_add(hash_spec((i % 0x1_0000_0000) as u32)))
}

/// The heading after steering on the three sensed values: straight on where the forward
/// value is strictly largest; a random turn of up to `turn` either way where it is strictly
/// smallest; else a random turn of up to `turn` toward the stronger side; else no change.
pub open spec fn steer_spec(h: int, forward: int, left: int, right: int, rnd: u32, turn: int) -> int {
    if forward > left && forward > right {
        h
    } else if forward < left && forward < right {
        rotated(h, fraction_of(rnd, 2 * turn), turn)
    } else if left > right {
        rotated(h, fraction_of(rnd, turn), 0)
    } else if left < right {
        rotated(h, 0, fraction_of(rnd, turn))
    } else {
        h
    }
}

/// A coordinate `v` brought back inside `0 .. limit`: an edge holdout inside the edge it
/// crossed, or unchanged where it crossed none.
pub open spec fn clamp_coord(v: int, limit: int) -> int {
    if v < 0 {
        EDGE_HOLDOUT as int
    } else if v >= limit {
        limit - EDGE_HOLDOUT
    } else {
        v
    }
}

/// The heading after the edge check: where the agent crossed an edge, a random heading that
/// faces back into the field (a quarter turn wide after a corner, half a turn after a side);
/// else the steered heading.
pub open spec fn edge_heading(left: bool, right: bool, top: bool, bottom: bool, steered: int, rnd: u32) -> int {
    let q = ANGLE_QUARTER as int;
    let half = ANGLE_HALF as int;
    if top && left {
        rotated(0, fraction_of(rnd, q), 0)
    } else if top && right {
        rotated(q, fraction_of(rnd, q), 0)
    } else if bottom && left {
        rotated(3 * q, fraction_of(rnd, q), 0)
    } else if bottom && right {
        rotated(half, fraction_of(rnd, q), 0)
    } else if left {
        rotated(3 * q, fraction_of(rnd, half), 0)
    } else if right {
        rotated(q, fraction_of(rnd, half), 0)
    } else if top {
        rotated(0, fraction_of(rnd, half), 0)
    } else if bottom {
        rotated(half, fraction_of(rnd, half), 0)
    } else {
        steered
    }
}

/// Heading `h` lies on the arc of `width` turn units that starts at heading `start`.
pub open spec fn in_arc(h: int, start: int, width: int) -> bool {
    (h - start) % (ANGLE_TURN as int) < width
}

proof fn lemma_rotated_in_arc(start: int, f: int, width: int)
    requires
        0 <= start < ANGLE_TURN,
        0 <= f < width <= ANGLE_TURN,
    ensures
        in_arc(rotated(start, f, 0), start, width),
{
}

/// After crossing an edge an agent faces back into the field: a quarter-turn arc pointing
/// inward from a corner, a half-turn arc pointing inward from a side.
pub proof fn lemma_edge_heading_faces_inward(left: bool, right: bool, top: bool, bottom: bool, steered: int, rnd: u32)
    ensures
        ({
            let h = edge_heading(left, right, top, bottom, steered, rnd);
            let q = ANGLE_QUARTER as int;
            let half = ANGLE_HALF as int;
            &&& top && left ==> in_arc(h, 0, q)
            &&& top && right && !left ==> in_arc(h, q, q)
            &&& bottom && left && !top ==> in_arc(h, 3 * q, q)
            &&& bottom && right && !top && !left ==> in_arc(h, half, q)
            &&& left && !top && !bottom ==> in_arc(h, 3 * q, half)
            &&& right && !left && !top && !bottom ==> in_arc(h, q, half)
            &&& top && !left && !right ==> in_arc(h, 0, half)
            &&& bottom && !top && !left && !right ==> in_arc(h, half, half)
        }),
{
    let q = ANGLE_QUARTER as int;
    let half = ANGLE_HALF as int;
    crate::random::lemma_fraction_below(rnd, q);
    crate::random::lemma_fraction_below(rnd, half);
    lemma_rotated_in_arc(0, fraction_of(rnd, q), q);
    lemma_rotated_in_arc(q, fraction_of(rnd, q), q);
    lemma_rotated_in_arc(3 * q, fraction_of(rnd, q), q);
    lemma_rotated_in_arc(half, fraction_of(rnd, q), q);
    lemma_rotated_in_arc(3 * q, fraction_of(rnd, half), half);
    lemma_rotated_in_arc(q, fraction_of(rnd, half), half);
    lemma_rotated_in_arc(0, fraction_of(rnd, half), half);
    lemma_rotated_in_arc(half, fraction_of(rnd, half), half);
}

/// Agent number `i` after one tick, sensing the snapshot `f`: it steers on its three sensors,
/// moves along the heading it started the tick with, and is put back inside the field where it
/// crossed an edge.
#[verifier::opaque]
pub open spec fn agent_next(p: Parameters, f: FieldModel, i: int, a: Agent) -> Agent {
    let rnd = agent_seed(i, a, f.width);
    let r = p.sensor_radius as int;
    let spacing = p.sensor_angle_spacing as int;
    let forward = sense_spec(f, a, a.heading as int, r);
    let left = sense_spec(f, a, rotated(a.heading as int, spacing, 0), r);
    let right = sense_spec(f, a, rotated(a.heading as int, 0, spacing), r);
    let steered = steer_spec(
        a.heading as int,
        forward,
        left,
        right,
        rnd,
        per_tick(p.agent_turn_speed as int, p.delta_time_ms as int),
    );
    let dist = per_tick(p.agent_speed as int, p.delta_time_ms as int);
    let nx = a.x + scaled(dist, cos_spec(a.heading as int));
    let ny = a.y + scaled(dist, sin_spec(a.heading as int));
    let w = f.width * POSITION_ONE;
    let h = f.height * POSITION_ONE;
    Agent {
        x: clamp_coord(nx, w) as u32,
        y: clamp_coord(ny, h) as u32,
        heading: edge_heading(nx < 0, nx >= w, ny < 0, ny >= h, steered, rnd) as u16,
    }
}

/// The pseudo-random value of agent number `i` standing at `a` in a field `width` cells wide.
fn seed(i: usize, a: Agent, width: u32) -> (r: u32)
    requires
        width <= crate::field::MAX_DIMENSION,
    ensures
        r == agent_seed(i as int, a, width as int),
{
    let cy: u64 = (a.y / POSITION_ONE) as u64;
    let cx: u64 = (a.x / POSITION_ONE) as u64;
    proof {
        assert(cy * width <= 0x1_0000_0000 * 0x1_0000) by (nonlinear_arith)
            requires cy <= 0x1_0000_0000, width <= 0x1_0000;
    }
    let cell: u64 = cy * width as u64 + cx;
    let id: u32 = (i as u64 % 0x1_0000_0000) as u32;
    hash(((cell % 0x1_0000_0000) as u32).wrapping_add(hash(id)))
}

/// The heading after steering on the three sensed values (see `steer_spec`).
pub fn steer(h: u16, forward: u64, left: u64, right: u64, rnd: u32, turn: u64) -> (r: u16)
    requires
        turn <= 0x80_0000_0000_0000,
    ensures
        r == steer_spec(h as int, forward as int, left as int, right as int, rnd, turn as int),
{
    if forward > left && forward > right {
        h
    } else if forward < left && forward < right {
        rotate(h, fraction(rnd, 2 * turn), turn)
    } else if left > right {
        rotate(h, fraction(rnd, turn), 0)
    } else if left < right {
        rotate(h, 0, fraction(rnd, turn))
    } else {
        h
    }
}

/// A coordinate brought back inside `0 .. limit` (see `clamp_coord`).
fn clamp(v: i64, limit: i64) -> (r: u32)
    requires
        EDGE_HOLDOUT < limit <= 0xffff_ffff,
    ensures
        r == clamp_coord(v as int, limit as int),
        r < limit,
{
    if v < 0 {
        EDGE_HOLDOUT
    } else if v >= limit {
        (limit - EDGE_HOLDOUT as i64) as u32
    } else {
        v as u32
    }
}

/// The heading after the edge check (see `edge_heading`).
fn bounce_heading(left: bool, right: bool, top: bool, bottom: bool, steered: u16, rnd: u32) -> (r: u16)
    ensures
        r == edge_heading(left, right, top, bottom, steered as int, rnd),
{
    let q: u16 = ANGLE_QUARTER as u16;
    let half: u16 = ANGLE_HALF as u16;
    if top && left {
        rotate(0, fraction(rnd, q as u64), 0)
    } else if top && right {
        rotate(q, fraction(rnd, q as u64), 0)
    } else if bottom && left {
        rotate(3 * q, fraction(rnd, q as u64), 0)
    } else if bottom && right {
        rotate(half, fraction(rnd, q as u64), 0)
    } else if left {
        rotate(3 * q, fraction(rnd, half as u64), 0)
    } else if right {
        rotate(q, fraction(rnd, half as u64), 0)
    } else if top {
        rotate(0, fraction(rnd, half as u64), 0)
    } else if bottom {
        rotate(half, fraction(rnd, half as u64), 0)
    } else {
        steered
    }
}

/// Agent number `i` after one tick, sensing the snapshot `f` (see `agent_next`); it ends
/// inside the field.
pub fn update_agent(p: &Parameters, f: &TrailField, i: usize, a: Agent) -> (r: Agent)
    requires
        f.wf(),
    ensures
        r == agent_next(*p, f@, i as int, a),
        in_field(r, f@.width, f@.height),
{
    reveal(agent_next);
    let rnd = seed(i, a, f.width());
    let spacing = p.sensor_angle_spacing as u64;
    let forward = sense(f, a, a.heading, p.sensor_radius);
    let left = sense(f, a, rotate(a.heading, spacing, 0), p.sensor_radius);
    let right = sense(f, a, rotate(a.heading, 0, spacing), p.sensor_radius);
    let steered = steer(
        a.heading,
        forward,
        left,
        right,
        rnd,
        amount_per_tick(p.agent_turn_speed, p.delta_time_ms),
    );
    let dist = amount_per_tick(p.agent_speed, p.delta_time_ms);
    let nx: i64 = a.x as i64 + scale(dist, cosine(a.heading));
    let ny: i64 = a.y as i64 + scale(dist, sine(a.heading));
    let w: i64 = f.width() as i64 * POSITION_ONE as i64;
    let h: i64 = f.height() as i64 * POSITION_ONE as i64;
    Agent {
        x: clamp(nx, w),
        y: clamp(ny, h),
        heading: bounce_heading(nx < 0, nx >= w, ny < 0, ny >= h, steered, rnd),
    }
}

} // verus!
