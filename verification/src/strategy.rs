//! The search: a depth-bounded tree of steering choices for the controlled
//! player, scored by what it collects, how fast it moves and how far it
//! keeps from the walls.

use crate::consts::MAX_SPEED;
use crate::game_state::{lemma_advanced_at_home, GameState, Player};
use crate::numeric::{abs, nearest_root, nearest_root_below, scale_wide, scaled};
use crate::point::Point;
use crate::precompute::{blown, GamePrecompute, ITEM_SCORE, MAX_DEPTH};
use rayon::iter::{IntoParallelIterator, ParallelIterator};
use vstd::prelude::*;

verus! {

/// How far ahead of the player a steering target is thrown: far enough for
/// the rounding of the target to leave the direction as it is.
pub const THROW: i64 = 900;

/// By how much the player's radius is inflated once the search no longer
/// branches.
pub const TAIL_BLOW: i32 = 15;

/// The largest inflation of a radius that a schedule may ask for.
pub const MAX_BLOW: i32 = 0x3fff_ffff;

/// The most directions that a node can branch into.
pub const MAX_DIRECTIONS: usize = 16;

/// The score for one unit of speed: a tenth of an item at `MAX_SPEED`.
pub const SPEED_SCORE_FACTOR: u128 = 1000;

/// Within this distance of a wall the player earns less.
pub const BOUNDARY_SIZE: i32 = 500;

/// The score for one unit of distance from a wall: a tenth of an item at
/// `BOUNDARY_SIZE`.
pub const NON_BOUNDARY_BONUS_FACTOR: u128 = 200;

/// What a score of the next tick is worth now, in hundredths.
pub const SCORE_DECAY_PERCENT: u128 = 92;

/// The speed bonus: `SPEED_SCORE_FACTOR` times the speed, rounded to the
/// nearest integer.
pub open spec fn spec_speed_bonus(player: Player) -> int {
    nearest_root(player.speed.spec_len2() * (SPEED_SCORE_FACTOR * SPEED_SCORE_FACTOR), 1)
}

/// The speed bonus of the player.
pub fn speed_bonus(player: &Player) -> (bonus: u128)
    ensures
        bonus == spec_speed_bonus(*player),
        bonus <= SPEED_SCORE_FACTOR * (abs(player.speed.x as int) + abs(player.speed.y as int)),
{
    let vx: i64 = player.speed.x as i64;
    let vy: i64 = player.speed.y as i64;
    let ax: u128 = if vx < 0 { (-vx) as u128 } else { vx as u128 };
    let ay: u128 = if vy < 0 { (-vy) as u128 } else { vy as u128 };
    proof {
        lemma_speed_bonus_fits(vx as int, vy as int, ax as int, ay as int);
    }
    let len2: u128 = ax * ax + ay * ay;
    let m: u128 = len2 * (SPEED_SCORE_FACTOR * SPEED_SCORE_FACTOR);
    let bound: u128 = SPEED_SCORE_FACTOR * (ax + ay);
    nearest_root_below(m, 1, bound)
}

proof fn lemma_speed_bonus_fits(vx: int, vy: int, ax: int, ay: int)
    requires
        ax == abs(vx),
        ay == abs(vy),
        ax <= 0x8000_0000,
        ay <= 0x8000_0000,
    ensures
        ax * ax + ay * ay == vx * vx + vy * vy,
        0 <= ax * ax <= 0x4000_0000_0000_0000,
        0 <= ay * ay <= 0x4000_0000_0000_0000,
        (vx * vx + vy * vy) * (SPEED_SCORE_FACTOR * SPEED_SCORE_FACTOR)
            <= 0x8000_0000_0000_0000 * 1_000_000,
        (2 * (SPEED_SCORE_FACTOR * (ax + ay)) + 1) * (2 * (SPEED_SCORE_FACTOR * (ax + ay)) + 1) * 1
            <= u128::MAX,
        !crate::numeric::reaches(
            SPEED_SCORE_FACTOR * (ax + ay) + 1,
            (vx * vx + vy * vy) * (SPEED_SCORE_FACTOR * SPEED_SCORE_FACTOR),
            1,
        ),
{
    assert(ax * ax == vx * vx && ay * ay == vy * vy) by (nonlinear_arith)
        requires
            ax == vx || ax == -vx,
            ay == vy || ay == -vy,
    ;
    assert(0 <= ax * ax <= 0x4000_0000_0000_0000 && 0 <= ay * ay <= 0x4000_0000_0000_0000)
        by (nonlinear_arith)
        requires
            0 <= ax <= 0x8000_0000,
            0 <= ay <= 0x8000_0000,
    ;
    let s = ax + ay;
    let b = 1000 * s;
    assert((2 * b + 1) * (2 * b + 1) <= 0x400_0000_0000_0000_0000_0000) by (nonlinear_arith)
        requires
            0 <= b <= 1000 * 0x1_0000_0000,
    ;
    assert((2 * b + 1) * (2 * b + 1) * 1 > 4 * ((ax * ax + ay * ay) * 1_000_000))
        by (nonlinear_arith)
        requires
            b == 1000 * (ax + ay),
            0 <= ax,
            0 <= ay,
    {
        assert((ax + ay) * (ax + ay) >= ax * ax + ay * ay);
        assert((2 * b + 1) * (2 * b + 1) == 4 * (b * b) + 4 * b + 1);
        assert(b * b == 1_000_000 * ((ax + ay) * (ax + ay)));
    }
}

/// The distance to the nearer wall of an axis, capped at `BOUNDARY_SIZE`.
pub open spec fn spec_in_boundary(position: int, size: int) -> int {
    if position < BOUNDARY_SIZE {
        position
    } else if position > size - BOUNDARY_SIZE {
        size - position
    } else {
        BOUNDARY_SIZE as int
    }
}

/// The distance to the nearer wall of an axis, capped at `BOUNDARY_SIZE`.
pub fn in_boundary(position: i32, size: i32) -> (distance: i32)
    requires
        0 <= position <= size,
    ensures
        distance == spec_in_boundary(position as int, size as int),
        0 <= distance <= BOUNDARY_SIZE,
{
    if position < BOUNDARY_SIZE {
        position
    } else if position > size - BOUNDARY_SIZE {
        size - position
    } else {
        BOUNDARY_SIZE
    }
}

/// The bonus for keeping away from the walls of an arena of the given size.
pub open spec fn spec_non_boundary_bonus(player: Player, width: int, height: int) -> int {
    NON_BOUNDARY_BONUS_FACTOR * (spec_in_boundary(player.pos.x as int, width) + spec_in_boundary(
        player.pos.y as int,
        height,
    ))
}

/// A score of this tick and the decayed score of what follows, together.
pub open spec fn spec_decay(score_increment: int, next_steps_score: int) -> int {
    score_increment + next_steps_score * SCORE_DECAY_PERCENT / 100
}

/// A score of this tick and the decayed score of what follows, together.
pub fn decay(score_increment: u128, next_steps_score: u128) -> (score: u128)
    requires
        score_increment + next_steps_score <= u128::MAX,
        next_steps_score * SCORE_DECAY_PERCENT <= u128::MAX,
    ensures
        score == spec_decay(score_increment as int, next_steps_score as int),
        score <= score_increment + next_steps_score,
{
    score_increment + next_steps_score * SCORE_DECAY_PERCENT / 100
}

/// The cosine of `k` sixteenths of a full turn, in millionths.
pub open spec fn spec_unit_cos(k: int) -> int {
    if k == 0 {
        1_000_000
    } else if k == 1 || k == 15 {
        923_880
    } else if k == 2 || k == 14 {
        707_107
    } else if k == 3 || k == 13 {
        382_683
    } else if k == 4 || k == 12 {
        0
    } else if k == 5 || k == 11 {
        -382_683
    } else if k == 6 || k == 10 {
        -707_107
    } else if k == 7 || k == 9 {
        -923_880
    } else {
        -1_000_000
    }
}

/// The sine of `k` sixteenths of a full turn, in millionths: the cosine a
/// quarter turn earlier.
pub open spec fn spec_unit_sin(k: int) -> int {
    spec_unit_cos((k + 12) % 16)
}

/// The cosine of `k` sixteenths of a full turn, in millionths.
pub fn unit_cos(k: usize) -> (c: i64)
    requires
        k < 16,
    ensures
        c == spec_unit_cos(k as int),
        -1_000_000 <= c <= 1_000_000,
{
    if k == 0 {
        1_000_000
    } else if k == 1 || k == 15 {
        923_880
    } else if k == 2 || k == 14 {
        707_107
    } else if k == 3 || k == 13 {
        382_683
    } else if k == 4 || k == 12 {
        0
    } else if k == 5 || k == 11 {
        -382_683
    } else if k == 6 || k == 10 {
        -707_107
    } else if k == 7 || k == 9 {
        -923_880
    } else {
        -1_000_000
    }
}

/// The sine of `k` sixteenths of a full turn, in millionths.
pub fn unit_sin(k: usize) -> (s: i64)
    requires
        k < 16,
    ensures
        s == spec_unit_sin(k as int),
        -1_000_000 <= s <= 1_000_000,
{
    unit_cos((k + 12) % 16)
}

/// `x` brought into the range of `i32`.
pub open spec fn clipped(x: int) -> int {
    if x < i32::MIN {
        i32::MIN as int
    } else if x > i32::MAX {
        i32::MAX as int
    } else {
        x
    }
}

/// The direction the player moves in, or the direction of the first axis if
/// it stands still.
pub open spec fn heading(player: Player) -> (int, int) {
    if player.speed.x == 0 && player.speed.y == 0 {
        (1, 0)
    } else {
        (player.speed.x as int, player.speed.y as int)
    }
}

/// Steering target number `i` of `count`: the point `THROW` ahead of the
/// player in the direction that is `i / count` of a full turn to the left of
/// its heading, to the nearest sixteenth of a turn below. Number 0 is
/// straight ahead.
pub open spec fn spec_aim(player: Player, i: int, count: int) -> Point {
    let k = i * 16 / count;
    let h = heading(player);
    let turned = (
        spec_unit_cos(k) * h.0 - spec_unit_sin(k) * h.1,
        spec_unit_sin(k) * h.0 + spec_unit_cos(k) * h.1,
    );
    let ahead = scaled(turned.0, turned.1, THROW as int);
    Point {
        x: clipped(player.pos.x + ahead.0) as i32,
        y: clipped(player.pos.y + ahead.1) as i32,
    }
}

fn clip(x: i64) -> (r: i32)
    ensures
        r == clipped(x as int),
{
    if x < i32::MIN as i64 {
        i32::MIN
    } else if x > i32::MAX as i64 {
        i32::MAX
    } else {
        x as i32
    }
}

/// Steering target number `i` of `count`.
pub fn aim(player: &Player, i: usize, count: usize) -> (target: Point)
    requires
        i < count <= MAX_DIRECTIONS,
    ensures
        target == spec_aim(*player, i as int, count as int),
{
    let k: usize = i * 16 / count;
    proof {
        assert(i * 16 / (count as int) < 16) by (nonlinear_arith)
            requires
                0 <= i < count,
        ;
    }
    let c = unit_cos(k);
    let s = unit_sin(k);
    let (hx, hy): (i64, i64) = if player.speed.x == 0 && player.speed.y == 0 {
        (1, 0)
    } else {
        (player.speed.x as i64, player.speed.y as i64)
    };
    proof {
        lemma_turn_fits(c as int, s as int, hx as int, hy as int);
    }
    let turned_x: i64 = c * hx - s * hy;
    let turned_y: i64 = s * hx + c * hy;
    let (ahead_x, ahead_y) = scale_wide(turned_x, turned_y, THROW);
    proof {
        if turned_x != 0 || turned_y != 0 {
            crate::numeric::lemma_scaled_bounds(turned_x as int, turned_y as int, THROW as int);
        }
    }
    Point { x: clip(player.pos.x as i64 + ahead_x), y: clip(player.pos.y as i64 + ahead_y) }
}

proof fn lemma_turn_fits(c: int, s: int, hx: int, hy: int)
    requires
        -1_000_000 <= c <= 1_000_000,
        -1_000_000 <= s <= 1_000_000,
        -0x8000_0000 <= hx <= 0x8000_0000,
        -0x8000_0000 <= hy <= 0x8000_0000,
    ensures
        -0x8_0000_0000_0000 <= c * hx <= 0x8_0000_0000_0000,
        -0x8_0000_0000_0000 <= s * hy <= 0x8_0000_0000_0000,
        -0x8_0000_0000_0000 <= s * hx <= 0x8_0000_0000_0000,
        -0x8_0000_0000_0000 <= c * hy <= 0x8_0000_0000_0000,
        (2 * THROW + 1) * (2 * THROW + 1) * ((c * hx - s * hy) * (c * hx - s * hy) + (s * hx + c
            * hy) * (s * hx + c * hy)) <= u128::MAX,
{
    assert(-0x8_0000_0000_0000 <= c * hx <= 0x8_0000_0000_0000) by (nonlinear_arith)
        requires
            -1_000_000 <= c <= 1_000_000,
            -0x8000_0000 <= hx <= 0x8000_0000,
    ;
    assert(-0x8_0000_0000_0000 <= s * hy <= 0x8_0000_0000_0000) by (nonlinear_arith)
        requires
            -1_000_000 <= s <= 1_000_000,
            -0x8000_0000 <= hy <= 0x8000_0000,
    ;
    assert(-0x8_0000_0000_0000 <= s * hx <= 0x8_0000_0000_0000) by (nonlinear_arith)
        requires
            -1_000_000 <= s <= 1_000_000,
            -0x8000_0000 <= hx <= 0x8000_0000,
    ;
    assert(-0x8_0000_0000_0000 <= c * hy <= 0x8_0000_0000_0000) by (nonlinear_arith)
        requires
            -1_000_000 <= c <= 1_000_000,
            -0x8000_0000 <= hy <= 0x8000_0000,
    ;
    let a = c * hx - s * hy;
    let b = s * hx + c * hy;
    assert(0 <= a * a <= 0x100_0000_0000_0000_0000_0000_0000) by (nonlinear_arith)
        requires
            -0x10_0000_0000_0000 <= a <= 0x10_0000_0000_0000,
    ;
    assert(0 <= b * b <= 0x100_0000_0000_0000_0000_0000_0000) by (nonlinear_arith)
        requires
            -0x10_0000_0000_0000 <= b <= 0x10_0000_0000_0000,
    ;
    assert((2 * THROW + 1) * (2 * THROW + 1) * (a * a + b * b) <= 0x40_0000
        * 0x200_0000_0000_0000_0000_0000_0000) by (nonlinear_arith)
        requires
            0 <= a * a + b * b <= 0x200_0000_0000_0000_0000_0000_0000,
            THROW == 900,
    ;
}

/// A steering choice and what the search expects of it.
#[derive(Copy, Clone, Debug, PartialEq, Eq, Structural)]
pub struct Move {
    pub score: u128,
    pub target: Point,
}

/// The search over one snapshot.
///
/// `directions` and `blow` are the schedule: at depth `d` below their
/// length the search tries `directions[d]` steering targets and inflates the
/// player's radius by `blow[d]`. From there to `MAX_DEPTH` the player keeps
/// the target it has, with its radius inflated by `TAIL_BLOW`.
pub struct Strategy<'state> {
    pub game_state: &'state GameState,
    pub precompute: GamePrecompute<'state>,
    pub directions: Vec<usize>,
    pub blow: Vec<i32>,
}

/// The most that one node can add to a score over a snapshot of `n` items.
pub open spec fn node_cap(n: int) -> int {
    2 * SPEED_SCORE_FACTOR * (MAX_SPEED + 1) + 2 * NON_BOUNDARY_BONUS_FACTOR * BOUNDARY_SIZE + n
        * ITEM_SCORE
}

impl<'state> Strategy<'state> {
    /// The snapshot is well formed and has a controlled player, the table
    /// belongs to it, and the schedule is one that the search can follow.
    pub open spec fn wf(&self) -> bool {
        &&& self.game_state.wf()
        &&& 1 <= self.game_state.players@.len()
        &&& self.precompute.wf()
        &&& self.precompute.width == self.game_state.width
        &&& self.precompute.height == self.game_state.height
        &&& self.precompute.items@ == self.game_state.items@
        &&& schedule_ok(self.directions@, self.blow@)
    }

    /// The width of the arena.
    pub open spec fn width(&self) -> int {
        self.game_state.width as int
    }

    /// The height of the arena.
    pub open spec fn height(&self) -> int {
        self.game_state.height as int
    }

    /// A player that the search can work on: at home in the arena.
    pub open spec fn admits(&self, me: Player, available: Seq<bool>) -> bool {
        &&& me.at_home(self.width(), self.height())
        &&& available.len() == self.game_state.items@.len()
    }

    /// The bonus for keeping away from the walls.
    pub fn non_boundary_bonus(&self, player: &Player) -> (bonus: u128)
        requires
            player.valid_in(self.width(), self.height()),
        ensures
            bonus == spec_non_boundary_bonus(*player, self.width(), self.height()),
            bonus <= 2 * NON_BOUNDARY_BONUS_FACTOR * BOUNDARY_SIZE,
    {
        let along = in_boundary(player.pos.x, self.game_state.width);
        let across = in_boundary(player.pos.y, self.game_state.height);
        NON_BOUNDARY_BONUS_FACTOR * (along as u128 + across as u128)
    }

    /// The score of moving `me` by one tick toward the target it has, at
    /// depth `depth` with its radius inflated by `blow`, and searching on
    /// from there: the bonuses of the place reached, what is collected
    /// there, and the decayed score of the rest of the search.
    pub open spec fn branch_score(
        &self,
        me: Player,
        available: Seq<bool>,
        depth: int,
        blow: int,
    ) -> int
        decreases MAX_DEPTH - depth, 0int, 0int,
    {
        if depth >= MAX_DEPTH {
            0
        } else {
            let after = me.advanced(self.width(), self.height());
            let probe = blown(after, blow);
            spec_speed_bonus(after) + spec_non_boundary_bonus(after, self.width(), self.height())
                + spec_decay(
                self.precompute.gain(probe, available, depth),
                self.node_score(after, self.precompute.left(probe, available), depth + 1),
            )
        }
    }

    /// The score of steering at target number `i` of depth `depth` and
    /// searching on.
    pub open spec fn candidate_score(
        &self,
        me: Player,
        available: Seq<bool>,
        depth: int,
        i: int,
    ) -> int
        decreases MAX_DEPTH - depth, 0int, 1int,
    {
        self.branch_score(
            aimed(me, i, self.directions@[depth] as int),
            available,
            depth,
            self.blow@[depth] as int,
        )
    }

    /// The score of the best of the first `n` steering targets at depth
    /// `depth`, or 0 if none scores more.
    pub open spec fn best_upto(&self, me: Player, available: Seq<bool>, depth: int, n: int) -> int
        decreases MAX_DEPTH - depth, 1int, n,
    {
        if n <= 0 || depth >= MAX_DEPTH || depth < 0 {
            0
        } else {
            let earlier = self.best_upto(me, available, depth, n - 1);
            let this = self.candidate_score(me, available, depth, n - 1);
            if this > earlier {
                this
            } else {
                earlier
            }
        }
    }

    /// The score of the search below a node: at `MAX_DEPTH` the bonus for
    /// keeping away from the walls; within the schedule the best score over
    /// the steering targets of this depth; beyond it the score of going on
    /// toward the target that the player has.
    pub open spec fn node_score(&self, me: Player, available: Seq<bool>, depth: int) -> int
        decreases MAX_DEPTH - depth, 2int, 0int,
    {
        if depth >= MAX_DEPTH || depth < 0 {
            spec_non_boundary_bonus(me, self.width(), self.height())
        } else if depth >= self.directions@.len() {
            self.branch_score(me, available, depth, TAIL_BLOW as int)
        } else {
            self.best_upto(me, available, depth, self.directions@[depth] as int)
        }
    }

    /// The number of the first steering target, among the first `n` at
    /// depth `depth`, that scores as much as any of them; 0 if none scores
    /// above 0.
    pub open spec fn choice_upto(&self, me: Player, available: Seq<bool>, depth: int, n: int) -> int
        decreases n,
    {
        if n <= 0 {
            0
        } else if self.candidate_score(me, available, depth, n - 1) > self.best_upto(
            me,
            available,
            depth,
            n - 1,
        ) {
            n - 1
        } else {
            self.choice_upto(me, available, depth, n - 1)
        }
    }

    /// The target that the search hands up from a node: within the schedule
    /// the steering target chosen at this depth, beyond it the target that
    /// the player has.
    pub open spec fn node_target(&self, me: Player, available: Seq<bool>, depth: int) -> Point {
        if 0 <= depth < self.directions@.len() && depth < MAX_DEPTH {
            spec_aim(
                me,
                self.choice_upto(me, available, depth, self.directions@[depth] as int),
                self.directions@[depth] as int,
            )
        } else {
            me.target
        }
    }

    /// Prepares the search over `state` with the standard schedule.
    pub fn new(state: &'state GameState) -> (strategy: Self)
        requires
            state.wf(),
            1 <= state.players@.len(),
        ensures
            strategy.wf(),
            strategy.game_state == state,
            strategy.directions@ == step_directions(),
            strategy.blow@ == step_blow(),
            forall|depth: int, i: int|
                0 <= depth < MAX_DEPTH && 0 <= i < state.items@.len()
                    ==> #[trigger] strategy.precompute.divisor_at(depth, i) == state.divisor(
                    depth as nat,
                    i,
                ),
    {
        let directions: Vec<usize> = vec![16, 8, 8, 8, 4, 4, 4];
        let blow: Vec<i32> = vec![0, 0, 0, 2, 3, 5, 5];
        Self::with_schedule(state, directions, blow)
    }

    /// Prepares the search over `state` with a schedule of the caller's.
    pub fn with_schedule(state: &'state GameState, directions: Vec<usize>, blow: Vec<i32>) -> (strategy:
        Self)
        requires
            state.wf(),
            1 <= state.players@.len(),
            schedule_ok(directions@, blow@),
        ensures
            strategy.wf(),
            strategy.game_state == state,
            strategy.directions@ == directions@,
            strategy.blow@ == blow@,
            forall|depth: int, i: int|
                0 <= depth < MAX_DEPTH && 0 <= i < state.items@.len()
                    ==> #[trigger] strategy.precompute.divisor_at(depth, i) == state.divisor(
                    depth as nat,
                    i,
                ),
    {
        Self { game_state: state, precompute: GamePrecompute::new(state), directions, blow }
    }

    /// The controlled player.
    pub open spec fn me(&self) -> Player {
        self.game_state.players@[0]
    }

    /// Every item of the snapshot, available.
    pub open spec fn everything(&self) -> Seq<bool> {
        Seq::new(self.game_state.items@.len(), |i: int| true)
    }

    /// The steering target for this tick, where the search follows the
    /// controlled player with every item still available: the first target
    /// of the root that scores as much as any. With an empty schedule it is
    /// the target that the player has.
    pub fn best_target(&self) -> (target: Point)
        requires
            self.wf(),
        ensures
            target == self.node_target(self.me(), self.everything(), 0),
            self.directions@.len() > 0 ==> exists|c: int|
                #![trigger spec_aim(self.me(), c, self.directions@[0] as int)]
                self.first_best(self.me(), self.everything(), 0, c) && target == spec_aim(
                    self.me(),
                    c,
                    self.directions@[0] as int,
                ),
    {
        let me = self.game_state.players[0];
        let items = all_available(self.game_state.items.len());
        proof {
            if self.directions@.len() > 0 {
                self.lemma_node_picks_first_best(me, items@, 0);
            }
        }
        let best = self.best_move(&me, items, 0);
        best.target
    }

    /// The most that the search below a node at depth `depth` can score.
    pub open spec fn score_cap(&self, depth: int) -> int {
        (MAX_DEPTH - depth + 1) * node_cap(self.game_state.items@.len() as int)
    }

    /// Moves `me` by one tick toward the target it has and searches on.
    fn branch(&self, me: &Player, items: &Vec<bool>, depth: usize, blow: i32) -> (score: u128)
        requires
            self.wf(),
            self.admits(*me, items@),
            depth < MAX_DEPTH,
            0 <= blow <= MAX_BLOW,
        ensures
            score == self.branch_score(*me, items@, depth as int, blow as int),
            score <= self.score_cap(depth as int),
        decreases MAX_DEPTH - depth, 0int,
    {
        let mut player = *me;
        let mut left = items.clone();
        let n = self.game_state.items.len();
        proof {
            lemma_advanced_at_home(*me, self.width(), self.height());
            lemma_caps_fit(n as int, depth as int);
            lemma_caps_fit(n as int, depth + 1);
            crate::numeric::lemma_capped_bounds(
                me.speed.x + me.acceleration().0,
                me.speed.y + me.acceleration().1,
                MAX_SPEED as int,
            );
        }
        let increment = self.precompute.step(&mut player, &mut left, depth, blow);
        let next = self.best_move(&player, left, depth + 1);
        let fast = speed_bonus(&player);
        let clear = self.non_boundary_bonus(&player);
        fast + clear + decay(increment, next.score)
    }

    /// Steers `me` at target number `i` of this depth and searches on.
    pub fn evaluate(&self, me: &Player, items: &Vec<bool>, depth: usize, i: usize) -> (found: Move)
        requires
            self.wf(),
            self.admits(*me, items@),
            depth < self.directions@.len(),
            i < self.directions@[depth as int],
        ensures
            self.yields(found, *me, items@, depth as int, i as int),
        decreases MAX_DEPTH - depth, 1int,
    {
        let count = self.directions[depth];
        let target = aim(me, i, count);
        let player = Player {
            pos: me.pos,
            speed: me.speed,
            target,
            score: me.score,
            radius: me.radius,
        };
        let score = self.branch(&player, items, depth, self.blow[depth]);
        Move { score, target }
    }

    /// Searches below a node: the score of the best line of play, and the
    /// steering target that it starts with.
    pub fn best_move(&self, me: &Player, items: Vec<bool>, depth: usize) -> (best: Move)
        requires
            self.wf(),
            self.admits(*me, items@),
            depth <= MAX_DEPTH,
        ensures
            best.score == self.node_score(*me, items@, depth as int),
            best.target == self.node_target(*me, items@, depth as int),
            best.score <= self.score_cap(depth as int),
        decreases MAX_DEPTH - depth, 2int,
    {
        let n = self.game_state.items.len();
        proof {
            lemma_caps_fit(n as int, depth as int);
        }
        if depth >= MAX_DEPTH {
            return Move { score: self.non_boundary_bonus(me), target: me.target };
        }
        if depth >= self.directions.len() {
            let score = self.branch(me, &items, depth, TAIL_BLOW);
            return Move { score, target: me.target };
        }
        let count = self.directions[depth];
        let mut best = Move { score: 0, target: aim(me, 0, count) };
        if depth == 0 {
            let moves = self.par_evaluate(me, &items, depth);
            let mut i: usize = 0;
            while i < count
                invariant
                    i <= count,
                    count == self.directions@[depth as int],
                    moves@.len() == count,
                    depth < self.directions@.len(),
                    depth < MAX_DEPTH,
                    forall|a: int|
                        0 <= a < count ==> self.yields(
                            #[trigger] moves@[a],
                            *me,
                            items@,
                            depth as int,
                            a,
                        ),
                    self.picked_upto(best, *me, items@, depth as int, i as int),
                decreases count - i,
            {
                let found = moves[i];
                if found.score > best.score {
                    best = found;
                }
                i += 1;
            }
        } else {
            let mut i: usize = 0;
            while i < count
                invariant
                    i <= count,
                    self.wf(),
                    self.admits(*me, items@),
                    0 < depth < self.directions@.len(),
                    depth < MAX_DEPTH,
                    count == self.directions@[depth as int],
                    self.picked_upto(best, *me, items@, depth as int, i as int),
                decreases count - i,
            {
                let found = self.evaluate(me, &items, depth, i);
                if found.score > best.score {
                    best = found;
                }
                i += 1;
            }
        }
        best
    }

    /// `best` is the pick among the first `n` steering targets.
    pub open spec fn picked_upto(
        &self,
        best: Move,
        me: Player,
        available: Seq<bool>,
        depth: int,
        n: int,
    ) -> bool {
        &&& best.score == self.best_upto(me, available, depth, n)
        &&& best.target == spec_aim(
            me,
            self.choice_upto(me, available, depth, n),
            self.directions@[depth] as int,
        )
        &&& best.score <= self.score_cap(depth)
    }

    /// Evaluates the steering targets of depth `depth` side by side, on
    /// the threads of rayon's pool.
    ///
    /// Not proved: the body hands the numbers of the targets to rayon, as
    /// `(0..n).into_par_iter().map(..).collect()`, and the contract states
    /// what rayon documents of that chain for a range of integers and a
    /// `Vec`: there is one result for each number, the results stand in the
    /// order of the numbers, and each is what the mapped function returns
    /// for its number. The mapped function is `evaluate`, whose contract is
    /// proved and is repeated here. Rayon starts its pool of threads at the
    /// first call, and panics if it cannot start one.
    #[verifier::external_body]
    fn par_evaluate(&self, me: &Player, items: &Vec<bool>, depth: usize) -> (moves: Vec<Move>)
        requires
            self.wf(),
            self.admits(*me, items@),
            depth < self.directions@.len(),
        ensures
            moves@.len() == self.directions@[depth as int],
            forall|i: int|
                0 <= i < moves@.len() ==> self.yields(
                    #[trigger] moves@[i],
                    *me,
                    items@,
                    depth as int,
                    i,
                ),
    {
        (0..self.directions[depth]).into_par_iter().map(
            |i| self.evaluate(me, items, depth, i),
        ).collect()
    }

    /// Steering target number `c` is the first best at depth `depth`: none
    /// scores more, and none before it scores as much.
    pub open spec fn first_best(&self, me: Player, available: Seq<bool>, depth: int, c: int) -> bool {
        &&& 0 <= c < self.directions@[depth]
        &&& forall|i: int|
            0 <= i < self.directions@[depth] ==> #[trigger] self.candidate_score(
                me,
                available,
                depth,
                i,
            ) <= self.candidate_score(me, available, depth, c)
        &&& forall|i: int|
            0 <= i < c ==> #[trigger] self.candidate_score(me, available, depth, i)
                < self.candidate_score(me, available, depth, c)
    }

    /// The score of moving on toward a target is not negative.
    pub proof fn lemma_branch_not_negative(
        &self,
        me: Player,
        available: Seq<bool>,
        depth: int,
        blow: int,
    )
        requires
            self.wf(),
            self.admits(me, available),
            0 <= depth <= MAX_DEPTH,
        ensures
            0 <= self.branch_score(me, available, depth, blow),
        decreases MAX_DEPTH - depth, 0int,
    {
        let w = self.width();
        let h = self.height();
        if depth < MAX_DEPTH {
            let after = me.advanced(w, h);
            let probe = blown(after, blow);
            let left = self.precompute.left(probe, available);
            lemma_advanced_at_home(me, w, h);
            self.lemma_node_not_negative(after, left, depth + 1);
            lemma_bonuses_not_negative(after, w, h);
            self.precompute.lemma_masked_gain_range(
                self.precompute.picked(probe, available),
                depth,
                self.game_state.items@.len() as int,
            );
        }
    }

    /// The score of the search below a node is not negative.
    pub proof fn lemma_node_not_negative(&self, me: Player, available: Seq<bool>, depth: int)
        requires
            self.wf(),
            self.admits(me, available),
            0 <= depth <= MAX_DEPTH,
        ensures
            0 <= self.node_score(me, available, depth),
        decreases MAX_DEPTH - depth, 1int,
    {
        if depth >= MAX_DEPTH {
            lemma_bonuses_not_negative(me, self.width(), self.height());
        } else if depth >= self.directions@.len() {
            self.lemma_branch_not_negative(me, available, depth, TAIL_BLOW as int);
        } else {
            self.lemma_best_not_negative(me, available, depth, self.directions@[depth] as int);
        }
    }

    /// The best of any number of steering targets scores 0 at least.
    pub proof fn lemma_best_not_negative(&self, me: Player, available: Seq<bool>, depth: int, n: int)
        ensures
            0 <= self.best_upto(me, available, depth, n),
        decreases n,
    {
        if n > 0 && 0 <= depth < MAX_DEPTH {
            self.lemma_best_not_negative(me, available, depth, n - 1);
        }
    }

    /// The target chosen among the first `n` is the first best of them, and
    /// the best score is its score.
    pub proof fn lemma_choice_is_first_best(
        &self,
        me: Player,
        available: Seq<bool>,
        depth: int,
        n: int,
    )
        requires
            self.wf(),
            self.admits(me, available),
            0 <= depth < self.directions@.len(),
            1 <= n <= self.directions@[depth],
        ensures
            ({
                let c = self.choice_upto(me, available, depth, n);
                &&& 0 <= c < n
                &&& self.best_upto(me, available, depth, n) == self.candidate_score(
                    me,
                    available,
                    depth,
                    c,
                )
                &&& forall|i: int|
                    0 <= i < n ==> #[trigger] self.candidate_score(me, available, depth, i)
                        <= self.candidate_score(me, available, depth, c)
                &&& forall|i: int|
                    0 <= i < c ==> #[trigger] self.candidate_score(me, available, depth, i)
                        < self.candidate_score(me, available, depth, c)
            }),
        decreases n,
    {
        let count = self.directions@[depth] as int;
        let last = aimed(me, n - 1, count);
        self.lemma_branch_not_negative(last, available, depth, self.blow@[depth] as int);
        if n > 1 {
            self.lemma_choice_is_first_best(me, available, depth, n - 1);
        }
    }

    /// The search hands up the first best steering target of a node within
    /// the schedule, and its score.
    pub proof fn lemma_node_picks_first_best(&self, me: Player, available: Seq<bool>, depth: int)
        requires
            self.wf(),
            self.admits(me, available),
            0 <= depth < self.directions@.len(),
        ensures
            ({
                let c = self.choice_upto(me, available, depth, self.directions@[depth] as int);
                &&& self.first_best(me, available, depth, c)
                &&& self.node_target(me, available, depth) == spec_aim(
                    me,
                    c,
                    self.directions@[depth] as int,
                )
                &&& self.node_score(me, available, depth) == self.candidate_score(
                    me,
                    available,
                    depth,
                    c,
                )
            }),
    {
        self.lemma_choice_is_first_best(me, available, depth, self.directions@[depth] as int);
    }

    /// `found` is what steering target number `i` is worth at depth
    /// `depth`: the target, and the score of the search that starts with it.
    pub open spec fn yields(
        &self,
        found: Move,
        me: Player,
        available: Seq<bool>,
        depth: int,
        i: int,
    ) -> bool {
        &&& found.score == self.candidate_score(me, available, depth, i)
        &&& found.target == spec_aim(me, i, self.directions@[depth] as int)
        &&& found.score <= self.score_cap(depth)
    }
}

/// Neither bonus is negative for a player within the arena.
pub proof fn lemma_bonuses_not_negative(player: Player, width: int, height: int)
    requires
        player.valid_in(width, height),
    ensures
        0 <= spec_speed_bonus(player),
        0 <= spec_non_boundary_bonus(player, width, height),
{
    let m = player.speed.spec_len2() * (SPEED_SCORE_FACTOR * SPEED_SCORE_FACTOR);
    assert(0 <= m) by (nonlinear_arith)
        requires
            m == (player.speed.x * player.speed.x + player.speed.y * player.speed.y) * (1000
                * 1000),
    ;
    crate::numeric::lemma_nearest_root_bounds(m, 1);
    let along = spec_in_boundary(player.pos.x as int, width);
    let across = spec_in_boundary(player.pos.y as int, height);
    assert(0 <= NON_BOUNDARY_BONUS_FACTOR * (along + across)) by (nonlinear_arith)
        requires
            0 <= along,
            0 <= across,
    ;
}

/// The standard schedule of direction counts: wide at the root, narrower
/// below.
pub open spec fn step_directions() -> Seq<usize> {
    seq![16, 8, 8, 8, 4, 4, 4]
}

/// The standard schedule of radius inflations.
pub open spec fn step_blow() -> Seq<i32> {
    seq![0, 0, 0, 2, 3, 5, 5]
}

/// A list that marks each of `n` items as available.
pub fn all_available(n: usize) -> (items: Vec<bool>)
    ensures
        items@ == Seq::new(n as nat, |i: int| true),
{
    let mut items: Vec<bool> = Vec::new();
    let mut i: usize = 0;
    while i < n
        invariant
            i <= n,
            items@ == Seq::new(i as nat, |a: int| true),
        decreases n - i,
    {
        items.push(true);
        assert(items@ =~= Seq::new((i + 1) as nat, |a: int| true));
        i += 1;
    }
    items
}

/// The scores of the search fit in 128 bits with room to spare.
pub proof fn lemma_caps_fit(n: int, depth: int)
    requires
        0 <= n <= usize::MAX,
        0 <= depth <= MAX_DEPTH,
    ensures
        0 <= node_cap(n) <= 0x1_0000_0000_0000_0000_0000_0000,
        (MAX_DEPTH - depth + 1) * node_cap(n) <= 0x20_0000_0000_0000_0000_0000_0000,
        depth < MAX_DEPTH ==> (MAX_DEPTH - depth + 1) * node_cap(n) == node_cap(n) + (MAX_DEPTH - (
        depth + 1) + 1) * node_cap(n),
        node_cap(n) <= (MAX_DEPTH - depth + 1) * node_cap(n),
{
    assert(0 <= n * ITEM_SCORE <= 0x1_0000_0000_0000_0000 * 1_000_000) by (nonlinear_arith)
        requires
            0 <= n <= 0x1_0000_0000_0000_0000,
    ;
    let cap = node_cap(n);
    let k = MAX_DEPTH - depth + 1;
    assert(k * cap <= 17 * cap && cap <= k * cap && (k - 1) * cap + cap == k * cap)
        by (nonlinear_arith)
        requires
            1 <= k <= 17,
            0 <= cap,
    ;
}

/// The player steering at target number `i` of `count`.
pub open spec fn aimed(player: Player, i: int, count: int) -> Player {
    Player {
        pos: player.pos,
        speed: player.speed,
        target: spec_aim(player, i, count),
        score: player.score,
        radius: player.radius,
    }
}

/// A schedule that the search can follow: as many radius inflations as
/// direction counts, no more than `MAX_DEPTH` of them, each count within
/// `1..=MAX_DIRECTIONS` and each inflation within `0..=MAX_BLOW`.
pub open spec fn schedule_ok(directions: Seq<usize>, blow: Seq<i32>) -> bool {
    &&& directions.len() == blow.len()
    &&& directions.len() <= MAX_DEPTH
    &&& forall|d: int| 0 <= d < directions.len() ==> 1 <= #[trigger] directions[d] <= MAX_DIRECTIONS
    &&& forall|d: int| 0 <= d < blow.len() ==> 0 <= #[trigger] blow[d] <= MAX_BLOW
}

} // verus!
