//! The world model: players, items, the snapshot of one tick, and the rules
//! that lead from one tick to the next.

use crate::consts::{MAX_ACC, MAX_SPEED};
use crate::numeric::{cap_wide, capped, lemma_capped_bounds, lemma_capped_length};
use crate::point::{lemma_square_range, Point};
use vstd::prelude::*;

verus! {

/// A player: a disk that steers toward its target.
#[derive(Copy, Clone, Debug, PartialEq, Eq, Structural)]
pub struct Player {
    pub pos: Point,
    pub speed: Point,
    pub target: Point,
    pub score: i32,
    pub radius: i32,
}

/// An item: a disk that lies still until a player touches it.
#[derive(Copy, Clone, Debug, PartialEq, Eq, Structural)]
pub struct Item {
    pub pos: Point,
    pub radius: i32,
}

impl Item {
    /// Whether the item's disk and the player's disk meet.
    pub open spec fn spec_intersects(self, player: Player) -> bool {
        self.pos.spec_dist2(player.pos) <= (self.radius + player.radius) * (self.radius
            + player.radius)
    }

    /// Whether the item's disk and the player's disk meet.
    pub fn intersects(&self, player: &Player) -> (hit: bool)
        ensures
            hit == self.spec_intersects(*player),
    {
        let dx: i128 = self.pos.x as i128 - player.pos.x as i128;
        let dy: i128 = self.pos.y as i128 - player.pos.y as i128;
        let reach: i128 = self.radius as i128 + player.radius as i128;
        proof {
            lemma_square_range(dx as int);
            lemma_square_range(dy as int);
            lemma_square_range(reach as int);
        }
        dx * dx + dy * dy <= reach * reach
    }
}

/// The state of the game at one tick. The controlled player comes first.
#[derive(Clone, Debug, PartialEq, Eq)]
pub struct GameState {
    pub width: i32,
    pub height: i32,
    pub turn: usize,
    pub max_turns: usize,
    pub players: Vec<Player>,
    pub items: Vec<Item>,
    pub game_id: String,
}

/// A snapshot as a mathematical value: the lists as sequences, the game's
/// name as its characters.
pub struct Snapshot {
    pub width: i32,
    pub height: i32,
    pub turn: usize,
    pub max_turns: usize,
    pub players: Seq<Player>,
    pub items: Seq<Item>,
    pub game_id: Seq<char>,
}

impl View for GameState {
    type V = Snapshot;

    open spec fn view(&self) -> Snapshot {
        Snapshot {
            width: self.width,
            height: self.height,
            turn: self.turn,
            max_turns: self.max_turns,
            players: self.players@,
            items: self.items@,
            game_id: self.game_id@,
        }
    }
}

impl GameState {
    /// The arena has a size, and every player is at home in it.
    pub open spec fn wf(&self) -> bool {
        &&& 0 < self.width
        &&& 0 < self.height
        &&& forall|j: int|
            0 <= j < self.players@.len() ==> (#[trigger] self.players@[j]).at_home(
                self.width as int,
                self.height as int,
            )
    }

    /// Whether the snapshot is well formed.
    pub fn is_well_formed(&self) -> (ok: bool)
        ensures
            ok == self.wf(),
    {
        if self.width <= 0 || self.height <= 0 {
            return false;
        }
        let mut j: usize = 0;
        while j < self.players.len()
            invariant
                j <= self.players@.len(),
                forall|a: int|
                    0 <= a < j ==> (#[trigger] self.players@[a]).at_home(
                        self.width as int,
                        self.height as int,
                    ),
            decreases self.players@.len() - j,
        {
            if !self.players[j].is_at_home(self.width, self.height) {
                return false;
            }
            j += 1;
        }
        true
    }
}

/// A coordinate and its speed after the bounce off the walls at `min_pos`
/// and `max_pos`: a coordinate beyond a wall is mirrored across it and the
/// speed changes sign; within the walls, and on them, both stay as they
/// are.
pub open spec fn reflected(pos: int, speed: int, min_pos: int, max_pos: int) -> (int, int) {
    if pos < min_pos {
        (2 * min_pos - pos, -speed)
    } else if pos > max_pos {
        (2 * max_pos - pos, -speed)
    } else {
        (pos, speed)
    }
}

/// Bounces one coordinate off the walls at `min_pos` and `max_pos`: beyond
/// a wall the coordinate is mirrored across it and the speed on this axis
/// changes sign. The other axis is not touched.
pub fn clamp(pos: &mut i64, speed: &mut i64, min_pos: i64, max_pos: i64)
    requires
        i64::MIN <= reflected(*old(pos) as int, *old(speed) as int, min_pos as int, max_pos as int).0
            <= i64::MAX,
        i64::MIN <= reflected(*old(pos) as int, *old(speed) as int, min_pos as int, max_pos as int).1
            <= i64::MAX,
    ensures
        *final(pos) == reflected(
            *old(pos) as int,
            *old(speed) as int,
            min_pos as int,
            max_pos as int,
        ).0,
        *final(speed) == reflected(
            *old(pos) as int,
            *old(speed) as int,
            min_pos as int,
            max_pos as int,
        ).1,
{
    if *pos < min_pos {
        *pos = (2 * (min_pos as i128) - *pos as i128) as i64;
        *speed = -*speed;
    } else if *pos > max_pos {
        *pos = (2 * (max_pos as i128) - *pos as i128) as i64;
        *speed = -*speed;
    }
}

impl Player {
    /// The player's disk has a positive radius and lies within the arena.
    pub open spec fn valid_in(self, width: int, height: int) -> bool {
        &&& 0 < self.radius
        &&& self.radius <= self.pos.x <= width - self.radius
        &&& self.radius <= self.pos.y <= height - self.radius
    }

    /// The player lies within the arena, and the arena leaves it room to
    /// bounce: between the walls, on each axis, its centre can move by
    /// `MAX_SPEED` at least. Such a player stays within the arena for good.
    pub open spec fn at_home(self, width: int, height: int) -> bool {
        &&& self.valid_in(width, height)
        &&& width - 2 * self.radius >= MAX_SPEED
        &&& height - 2 * self.radius >= MAX_SPEED
    }

    /// The player after `ticks` ticks.
    pub open spec fn advanced_by(self, width: int, height: int, ticks: nat) -> Player
        decreases ticks,
    {
        if ticks == 0 {
            self
        } else {
            self.advanced_by(width, height, (ticks - 1) as nat).advanced(width, height)
        }
    }

    /// Whether the player is at home in an arena of the given size.
    pub fn is_at_home(&self, width: i32, height: i32) -> (ok: bool)
        ensures
            ok == self.at_home(width as int, height as int),
    {
        let r: i64 = self.radius as i64;
        let w: i64 = width as i64;
        let h: i64 = height as i64;
        let x: i64 = self.pos.x as i64;
        let y: i64 = self.pos.y as i64;
        0 < r && r <= x && x <= w - r && r <= y && y <= h - r && w - 2 * r >= MAX_SPEED as i64 && h
            - 2 * r >= MAX_SPEED as i64
    }

    /// The acceleration of this tick: the vector to the target, no longer
    /// than `MAX_ACC`.
    pub open spec fn acceleration(self) -> (int, int) {
        capped(self.target.x - self.pos.x, self.target.y - self.pos.y, MAX_ACC as int)
    }

    /// The velocity after accelerating, no longer than `MAX_SPEED`, before
    /// any bounce.
    pub open spec fn boosted(self) -> (int, int) {
        capped(
            self.speed.x + self.acceleration().0,
            self.speed.y + self.acceleration().1,
            MAX_SPEED as int,
        )
    }

    /// The player one tick later in an arena of the given size.
    pub open spec fn advanced(self, width: int, height: int) -> Player {
        let v = self.boosted();
        let along = reflected(self.pos.x + v.0, v.0, self.radius as int, width - self.radius);
        let across = reflected(self.pos.y + v.1, v.1, self.radius as int, height - self.radius);
        Player {
            pos: Point { x: along.0 as i32, y: across.0 as i32 },
            speed: Point { x: along.1 as i32, y: across.1 as i32 },
            target: self.target,
            score: self.score,
            radius: self.radius,
        }
    }
}

/// Moves the player by one tick: accelerate toward the target, keep to the
/// speed limit, move, and bounce off the walls.
pub fn next_turn_player_state(player: &mut Player, width: i32, height: i32)
    requires
        old(player).valid_in(width as int, height as int),
    ensures
        *final(player) == old(player).advanced(width as int, height as int),
{
    let dx: i64 = player.target.x as i64 - player.pos.x as i64;
    let dy: i64 = player.target.y as i64 - player.pos.y as i64;
    let acc = cap_wide(dx, dy, MAX_ACC as i64);
    let fast_x: i64 = player.speed.x as i64 + acc.0;
    let fast_y: i64 = player.speed.y as i64 + acc.1;
    let (mut vx, mut vy) = cap_wide(fast_x, fast_y, MAX_SPEED as i64);
    let mut x: i64 = player.pos.x as i64 + vx;
    let mut y: i64 = player.pos.y as i64 + vy;
    let radius: i64 = player.radius as i64;
    clamp(&mut x, &mut vx, radius, width as i64 - radius);
    clamp(&mut y, &mut vy, radius, height as i64 - radius);
    player.pos = Point { x: x as i32, y: y as i32 };
    player.speed = Point { x: vx as i32, y: vy as i32 };
}

/// Whether one bounce off the walls at `min_pos` and `max_pos` brings the
/// coordinate `moved` back between them.
pub open spec fn comes_back(moved: int, min_pos: int, max_pos: int) -> bool {
    2 * min_pos - max_pos <= moved <= 2 * max_pos - min_pos
}

/// After a tick, a player that was within the arena is within it again if
/// and only if one bounce brings it back on each axis.
pub proof fn lemma_advanced_stays_inside(player: Player, width: int, height: int)
    requires
        player.valid_in(width, height),
        width <= i32::MAX,
        height <= i32::MAX,
    ensures
        player.advanced(width, height).valid_in(width, height) <==> comes_back(
            player.pos.x + player.boosted().0,
            player.radius as int,
            width - player.radius,
        ) && comes_back(
            player.pos.y + player.boosted().1,
            player.radius as int,
            height - player.radius,
        ),
{
    let a = player.acceleration();
    lemma_capped_bounds(player.speed.x + a.0, player.speed.y + a.1, MAX_SPEED as int);
}

/// After a tick the velocity is shorter than `MAX_SPEED + 1`. A bounce
/// keeps its length, so it is as long as the accelerated velocity where
/// that was within the limit, and no longer than `MAX_SPEED` there. (A
/// velocity that had to be scaled back is rounded to the lattice, which
/// can leave it up to half a unit longer on each axis.)
pub proof fn lemma_advanced_speed_limit(player: Player, width: int, height: int)
    ensures
        player.advanced(width, height).speed.spec_len2() < (MAX_SPEED + 1) * (MAX_SPEED + 1),
        player.advanced(width, height).speed.spec_len2() == player.boosted().0
            * player.boosted().0 + player.boosted().1 * player.boosted().1,
        ({
            let a = player.acceleration();
            let fast = (player.speed.x + a.0, player.speed.y + a.1);
            fast.0 * fast.0 + fast.1 * fast.1 <= MAX_SPEED * MAX_SPEED ==> player.boosted() == fast
                && player.advanced(width, height).speed.spec_len2() <= MAX_SPEED * MAX_SPEED
        }),
{
    let a = player.acceleration();
    let fast = (player.speed.x + a.0, player.speed.y + a.1);
    let v = player.boosted();
    lemma_capped_bounds(fast.0, fast.1, MAX_SPEED as int);
    lemma_capped_length(fast.0, fast.1, MAX_SPEED as int);
    let after = player.advanced(width, height).speed;
    assert(after.x == v.0 || after.x == -v.0);
    assert(after.y == v.1 || after.y == -v.1);
    assert(after.x * after.x == v.0 * v.0) by (nonlinear_arith)
        requires
            after.x == v.0 || after.x == -v.0,
    ;
    assert(after.y * after.y == v.1 * v.1) by (nonlinear_arith)
        requires
            after.y == v.1 || after.y == -v.1,
    ;
}

/// A player at home is at home again after a tick: the arena leaves it the
/// room that one bounce needs.
pub proof fn lemma_advanced_at_home(player: Player, width: int, height: int)
    requires
        player.at_home(width, height),
        width <= i32::MAX,
        height <= i32::MAX,
    ensures
        player.advanced(width, height).at_home(width, height),
{
    let a = player.acceleration();
    lemma_capped_bounds(player.speed.x + a.0, player.speed.y + a.1, MAX_SPEED as int);
    lemma_advanced_stays_inside(player, width, height);
}

/// A player at home is at home after any number of ticks, with the radius,
/// the score and the target it had.
pub proof fn lemma_advanced_by_at_home(player: Player, width: int, height: int, ticks: nat)
    requires
        player.at_home(width, height),
        width <= i32::MAX,
        height <= i32::MAX,
    ensures
        player.advanced_by(width, height, ticks).at_home(width, height),
        player.advanced_by(width, height, ticks).radius == player.radius,
        player.advanced_by(width, height, ticks).score == player.score,
        player.advanced_by(width, height, ticks).target == player.target,
    decreases ticks,
{
    if ticks > 0 {
        lemma_advanced_by_at_home(player, width, height, (ticks - 1) as nat);
        lemma_advanced_at_home(
            player.advanced_by(width, height, (ticks - 1) as nat),
            width,
            height,
        );
    }
}

/// A bounce turns round the velocity on the axis that left the walls, and
/// on that axis only: each axis of the new velocity is the boosted velocity
/// of that axis, negated exactly if the moved coordinate lay beyond a wall.
pub proof fn lemma_bounce_per_axis(player: Player, width: int, height: int)
    requires
        player.valid_in(width, height),
    ensures
        ({
            let v = player.boosted();
            let after = player.advanced(width, height).speed;
            let out_x = player.pos.x + v.0 < player.radius || player.pos.x + v.0 > width
                - player.radius;
            let out_y = player.pos.y + v.1 < player.radius || player.pos.y + v.1 > height
                - player.radius;
            &&& after.x == if out_x { -v.0 } else { v.0 }
            &&& after.y == if out_y { -v.1 } else { v.1 }
        }),
{
    let a = player.acceleration();
    lemma_capped_bounds(player.speed.x + a.0, player.speed.y + a.1, MAX_SPEED as int);
}

/// Moves every player by one tick.
pub fn advance_all(players: &mut Vec<Player>, width: i32, height: i32)
    requires
        forall|j: int|
            0 <= j < old(players)@.len() ==> (#[trigger] old(players)@[j]).at_home(
                width as int,
                height as int,
            ),
    ensures
        final(players)@.len() == old(players)@.len(),
        forall|j: int|
            0 <= j < old(players)@.len() ==> #[trigger] final(players)@[j] == old(players)@[j].advanced(
                width as int,
                height as int,
            ),
{
    let mut j: usize = 0;
    while j < players.len()
        invariant
            j <= players@.len(),
            players@.len() == old(players)@.len(),
            forall|a: int|
                0 <= a < j ==> #[trigger] players@[a] == old(players)@[a].advanced(
                    width as int,
                    height as int,
                ),
            forall|a: int| j <= a < players@.len() ==> #[trigger] players@[a] == old(players)@[a],
            forall|a: int|
                0 <= a < old(players)@.len() ==> (#[trigger] old(players)@[a]).at_home(
                    width as int,
                    height as int,
                ),
        decreases players@.len() - j,
    {
        let mut player = players[j];
        next_turn_player_state(&mut player, width, height);
        players.set(j, player);
        j += 1;
    }
}

/// Whether one of the first `n` players touches the item.
pub open spec fn touched_by(item: Item, players: Seq<Player>, n: int) -> bool {
    exists|j: int| 0 <= j < n && #[trigger] item.spec_intersects(players[j])
}

/// Those of the first `n` items that no player touches, in their order.
pub open spec fn untouched(items: Seq<Item>, players: Seq<Player>, n: int) -> Seq<Item>
    decreases n,
{
    if n <= 0 {
        Seq::empty()
    } else if touched_by(items[n - 1], players, players.len() as int) {
        untouched(items, players, n - 1)
    } else {
        untouched(items, players, n - 1).push(items[n - 1])
    }
}

/// Whether player `j` claims the item: it touches it, and no player before
/// it does.
pub open spec fn claimed_by(item: Item, players: Seq<Player>, j: int) -> bool {
    item.spec_intersects(players[j]) && !touched_by(item, players, j)
}

/// How many of the first `n` items player `j` claims.
pub open spec fn claims(items: Seq<Item>, players: Seq<Player>, j: int, n: int) -> int
    decreases n,
{
    if n <= 0 {
        0
    } else {
        claims(items, players, j, n - 1) + if claimed_by(items[n - 1], players, j) {
            1int
        } else {
            0int
        }
    }
}

/// An item that a player touches is claimed by one of the players.
pub proof fn lemma_touched_is_claimed(item: Item, players: Seq<Player>, n: int)
    requires
        touched_by(item, players, n),
    ensures
        exists|j: int| 0 <= j < n && #[trigger] claimed_by(item, players, j),
    decreases n,
{
    let w = choose|w: int| 0 <= w < n && item.spec_intersects(players[w]);
    if touched_by(item, players, n - 1) {
        lemma_touched_is_claimed(item, players, n - 1);
        let j = choose|j: int| 0 <= j < n - 1 && #[trigger] claimed_by(item, players, j);
        assert(0 <= j < n && claimed_by(item, players, j));
    } else {
        assert(w == n - 1);
        assert(claimed_by(item, players, n - 1));
    }
}

/// No item is claimed by two players.
pub proof fn lemma_claimed_once(item: Item, players: Seq<Player>, first: int, second: int)
    requires
        0 <= first,
        0 <= second,
        claimed_by(item, players, first),
        claimed_by(item, players, second),
    ensures
        first == second,
{
}

/// A player claims no more items than there are.
pub proof fn lemma_claims_range(items: Seq<Item>, players: Seq<Player>, j: int, n: int)
    requires
        0 <= n,
    ensures
        0 <= claims(items, players, j, n) <= n,
    decreases n,
{
    if n > 0 {
        lemma_claims_range(items, players, j, n - 1);
    }
}

/// An item is gone after the tick in which a player's disk first covers it,
/// and no item comes back: what is left are items that were there and that
/// no player touches, as many at most as there were, and every item that no
/// player touches is left.
pub proof fn lemma_untouched(items: Seq<Item>, players: Seq<Player>, n: int)
    requires
        0 <= n <= items.len(),
    ensures
        untouched(items, players, n).len() <= n,
        forall|k: int|
            0 <= k < untouched(items, players, n).len() ==> {
                let item = #[trigger] untouched(items, players, n)[k];
                &&& !touched_by(item, players, players.len() as int)
                &&& exists|i: int| 0 <= i < n && items[i] == item
            },
        forall|i: int|
            0 <= i < n && !touched_by(#[trigger] items[i], players, players.len() as int)
                ==> untouched(items, players, n).contains(items[i]),
    decreases n,
{
    if n > 0 {
        lemma_untouched(items, players, n - 1);
        let before = untouched(items, players, n - 1);
        let after = untouched(items, players, n);
        assert forall|k: int| 0 <= k < after.len() implies {
            let item = #[trigger] after[k];
            &&& !touched_by(item, players, players.len() as int)
            &&& exists|i: int| 0 <= i < n && items[i] == item
        } by {
            if k < before.len() {
                let item = before[k];
                let i = choose|i: int| 0 <= i < n - 1 && items[i] == item;
                assert(0 <= i < n && items[i] == item);
            } else {
                assert(items[n - 1] == after[k]);
            }
        }
        assert forall|i: int|
            0 <= i < n && !touched_by(
                #[trigger] items[i],
                players,
                players.len() as int,
            ) implies after.contains(items[i]) by {
            if i < n - 1 {
                assert(before.contains(items[i]));
                let k = choose|k: int| 0 <= k < before.len() && before[k] == items[i];
                assert(after[k] == items[i]);
            } else {
                assert(after[after.len() - 1] == items[i]);
            }
        }
    }
}

impl GameState {
    /// Every player, moved by one tick.
    pub open spec fn moved(&self) -> Seq<Player> {
        Seq::new(
            self.players@.len(),
            |j: int| self.players@[j].advanced(self.width as int, self.height as int),
        )
    }

    /// The snapshot one tick later. Every player moves; then the players,
    /// in their order, take the items that they touch: an item goes to the
    /// first player that touches it, for one point, and is gone. Behind the
    /// last turn nothing changes any more.
    pub open spec fn spec_next_turn(&self) -> Snapshot {
        if self.turn > self.max_turns {
            self@
        } else {
            Snapshot {
                width: self.width,
                height: self.height,
                turn: (self.turn + 1) as usize,
                max_turns: self.max_turns,
                players: Seq::new(
                    self.players@.len(),
                    |j: int|
                        Player {
                            pos: self.moved()[j].pos,
                            speed: self.moved()[j].speed,
                            target: self.moved()[j].target,
                            score: (self.moved()[j].score + claims(
                                self.items@,
                                self.moved(),
                                j,
                                self.items@.len() as int,
                            )) as i32,
                            radius: self.moved()[j].radius,
                        },
                ),
                items: untouched(self.items@, self.moved(), self.items@.len() as int),
                game_id: self.game_id@,
            }
        }
    }

    /// The scores and the turn counter have room for one more tick.
    pub open spec fn can_go_on(&self) -> bool {
        &&& self.turn <= self.max_turns ==> self.turn < usize::MAX
        &&& forall|j: int|
            0 <= j < self.players@.len() ==> (#[trigger] self.players@[j]).score
                + self.items@.len() <= i32::MAX
    }

    /// Whether the scores and the turn counter have room for one more tick.
    pub fn has_room(&self) -> (ok: bool)
        ensures
            ok == self.can_go_on(),
    {
        if self.turn <= self.max_turns && self.turn == usize::MAX {
            return false;
        }
        let n = self.items.len();
        let mut j: usize = 0;
        while j < self.players.len()
            invariant
                j <= self.players@.len(),
                n == self.items@.len(),
                forall|a: int|
                    0 <= a < j ==> (#[trigger] self.players@[a]).score + self.items@.len()
                        <= i32::MAX,
            decreases self.players@.len() - j,
        {
            if self.players[j].score as i128 + n as i128 > i32::MAX as i128 {
                return false;
            }
            j += 1;
        }
        true
    }

    /// A well-formed snapshot is well formed one tick later.
    pub proof fn lemma_next_turn_wf(&self, next: GameState)
        requires
            self.wf(),
            next@ == self.spec_next_turn(),
        ensures
            next.wf(),
    {
        if self.turn <= self.max_turns {
            assert forall|j: int| 0 <= j < next.players@.len() implies (
            #[trigger] next.players@[j]).at_home(next.width as int, next.height as int) by {
                lemma_advanced_at_home(self.players@[j], self.width as int, self.height as int);
            }
        }
    }

    /// The snapshot one tick later.
    pub fn next_turn(&self) -> (next: GameState)
        requires
            self.wf(),
            self.can_go_on(),
        ensures
            next@ == self.spec_next_turn(),
            next.wf(),
    {
        let mut players = self.players.clone();
        let game_id = self.game_id.clone();
        if self.turn > self.max_turns {
            let same = GameState {
                width: self.width,
                height: self.height,
                turn: self.turn,
                max_turns: self.max_turns,
                players,
                items: self.items.clone(),
                game_id,
            };
            proof {
                self.lemma_next_turn_wf(same);
            }
            return same;
        }
        let ghost moved = self.moved();
        advance_all(&mut players, self.width, self.height);
        assert(players@ =~= moved);
        let n = self.items.len();
        let mut present: Vec<bool> = Vec::new();
        let mut i: usize = 0;
        while i < n
            invariant
                i <= n,
                present@.len() == i,
                forall|a: int| 0 <= a < i ==> #[trigger] present@[a],
            decreases n - i,
        {
            present.push(true);
            i += 1;
        }
        let mut j: usize = 0;
        while j < players.len()
            invariant
                j <= players@.len(),
                n == self.items@.len(),
                moved == self.moved(),
                self.can_go_on(),
                players@.len() == moved.len(),
                present@.len() == n,
                forall|a: int| j <= a < moved.len() ==> #[trigger] players@[a] == moved[a],
                forall|a: int|
                    0 <= a < j ==> #[trigger] players@[a] == self.spec_next_turn().players[a],
                forall|a: int|
                    0 <= a < n ==> #[trigger] present@[a] == !touched_by(
                        self.items@[a],
                        moved,
                        j as int,
                    ),
                self.turn <= self.max_turns,
            decreases players@.len() - j,
        {
            let mut player = players[j];
            let ghost start = player.score;
            let mut i: usize = 0;
            while i < n
                invariant
                    i <= n,
                    j < moved.len(),
                    n == self.items@.len(),
                    present@.len() == n,
                    start + n <= i32::MAX,
                    player.pos == moved[j as int].pos,
                    player.radius == moved[j as int].radius,
                    player.speed == moved[j as int].speed,
                    player.target == moved[j as int].target,
                    start == moved[j as int].score,
                    self.turn <= self.max_turns,
                    moved == self.moved(),
                    player.score == start + claims(self.items@, moved, j as int, i as int),
                    forall|a: int|
                        0 <= a < i ==> #[trigger] present@[a] == !touched_by(
                            self.items@[a],
                            moved,
                            j + 1,
                        ),
                    forall|a: int|
                        i <= a < n ==> #[trigger] present@[a] == !touched_by(
                            self.items@[a],
                            moved,
                            j as int,
                        ),
                decreases n - i,
            {
                let touches = self.items[i].intersects(&player);
                proof {
                    let item = self.items@[i as int];
                    assert(touches == item.spec_intersects(moved[j as int]));
                    lemma_claims_range(self.items@, moved, j as int, i as int);
                    if touched_by(item, moved, j as int) {
                        let w = choose|w: int| 0 <= w < j && item.spec_intersects(moved[w]);
                        assert(0 <= w < j + 1 && item.spec_intersects(moved[w]));
                    }
                    if touched_by(item, moved, j + 1) && !touches {
                        let w = choose|w: int| 0 <= w < j + 1 && item.spec_intersects(moved[w]);
                        assert(0 <= w < j && item.spec_intersects(moved[w]));
                    }
                }
                if present[i] && touches {
                    present.set(i, false);
                    player.score = player.score + 1;
                }
                i += 1;
            }
            proof {
                lemma_claims_range(self.items@, moved, j as int, n as int);
                assert(player == self.spec_next_turn().players[j as int]);
            }
            players.set(j, player);
            j += 1;
        }
        let mut items: Vec<Item> = Vec::new();
        let mut i: usize = 0;
        while i < n
            invariant
                i <= n,
                n == self.items@.len(),
                present@.len() == n,
                forall|a: int|
                    0 <= a < n ==> #[trigger] present@[a] == !touched_by(
                        self.items@[a],
                        moved,
                        moved.len() as int,
                    ),
                items@ == untouched(self.items@, moved, i as int),
            decreases n - i,
        {
            if present[i] {
                items.push(self.items[i]);
            }
            i += 1;
        }
        let next = GameState {
            width: self.width,
            height: self.height,
            turn: self.turn + 1,
            max_turns: self.max_turns,
            players,
            items,
            game_id,
        };
        proof {
            assert(next@.players =~= self.spec_next_turn().players);
            self.lemma_next_turn_wf(next);
        }
        next
    }
}

} // verus!
