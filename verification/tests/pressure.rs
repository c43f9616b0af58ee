use arena_planner::game_state::{GameState, Item, Player};
use arena_planner::point::Point;
use arena_planner::precompute::{GamePrecompute, GONE_DIVISOR, ITEM_SCORE, MAX_DEPTH};

fn still(x: i32, y: i32) -> Player {
    Player {
        pos: Point { x, y },
        speed: Point { x: 0, y: 0 },
        target: Point { x, y },
        score: 0,
        radius: 10,
    }
}

fn moving(x: i32, y: i32, vx: i32, target_x: i32) -> Player {
    Player {
        pos: Point { x, y },
        speed: Point { x: vx, y: 0 },
        target: Point { x: target_x, y },
        score: 0,
        radius: 10,
    }
}

fn wide_arena(players: Vec<Player>, items: Vec<Item>) -> GameState {
    GameState {
        width: 10000,
        height: 10000,
        turn: 17,
        max_turns: 1000,
        players,
        items,
        game_id: "g".to_string(),
    }
}

fn small_item(x: i32, y: i32) -> Item {
    Item { pos: Point { x, y }, radius: 5 }
}

#[test]
fn constants_of_the_table() {
    assert_eq!(MAX_DEPTH, 16);
    assert_eq!(GONE_DIVISOR, 10);
    assert_eq!(ITEM_SCORE, 1_000_000);
}

#[test]
fn without_opponents_every_share_is_whole() {
    let state = wide_arena(vec![still(5000, 5000)], vec![small_item(5000, 5000), small_item(100, 100)]);
    let pre = GamePrecompute::new(&state);
    assert_eq!(pre.width, 10000);
    assert_eq!(pre.height, 10000);
    assert_eq!(pre.turn, 17);
    assert_eq!(pre.max_turns, 1000);
    assert_eq!(pre.items, &state.items);
    assert_eq!(pre.turn_item_divisor.len(), MAX_DEPTH);
    for depth in 0..MAX_DEPTH {
        assert_eq!(pre.turn_item_divisor[depth], vec![1, 1]);
    }
}

#[test]
fn without_items_the_table_has_empty_rows() {
    let state = wide_arena(vec![still(5000, 5000), still(100, 100)], vec![]);
    let pre = GamePrecompute::new(&state);
    assert_eq!(pre.turn_item_divisor.len(), MAX_DEPTH);
    for depth in 0..MAX_DEPTH {
        assert_eq!(pre.turn_item_divisor[depth], Vec::<u64>::new());
    }
}

#[test]
fn the_controlled_player_puts_no_pressure_on_items() {
    let state = wide_arena(vec![still(5000, 5000), still(100, 100)], vec![small_item(5000, 5000)]);
    let pre = GamePrecompute::new(&state);
    for depth in 0..MAX_DEPTH {
        assert_eq!(pre.turn_item_divisor[depth], vec![1]);
    }
}

#[test]
fn an_opponent_on_an_item_divides_it_again_and_again() {
    let state = wide_arena(
        vec![still(5000, 5000), still(100, 100), still(105, 100)],
        vec![small_item(100, 100), small_item(900, 900)],
    );
    let pre = GamePrecompute::new(&state);
    // Two opponents touch item 0 at every depth: a third at depth 0, then a
    // tenth of the share before at each depth.
    let mut expected: u64 = 3;
    for depth in 0..MAX_DEPTH {
        assert_eq!(pre.turn_item_divisor[depth], vec![expected, 1]);
        expected *= GONE_DIVISOR;
    }
}

#[test]
fn an_opponent_passing_by_leaves_its_mark() {
    // The opponent flies along y = 100 at full speed: x is 200 after the
    // first tick, 300 after the second and so on. The item at x = 400 is
    // touched at depth 2 only.
    let state = wide_arena(
        vec![still(5000, 5000), moving(100, 100, 100, 9000)],
        vec![small_item(400, 100)],
    );
    let pre = GamePrecompute::new(&state);
    let column: Vec<u64> = (0..MAX_DEPTH).map(|depth| pre.turn_item_divisor[depth][0]).collect();
    assert_eq!(column, vec![1, 1, 2, 20, 20, 20, 20, 20, 20, 20, 20, 20, 20, 20, 20, 20]);
}

#[test]
fn an_opponent_on_an_item_and_one_passing_by() {
    // One opponent stands on the item; the other comes by at depth 2, when
    // the item is taken for gone already.
    let state = wide_arena(
        vec![still(5000, 5000), still(400, 100), moving(100, 120, 100, 9000)],
        vec![small_item(400, 110)],
    );
    let pre = GamePrecompute::new(&state);
    let column: Vec<u64> = (0..4).map(|depth| pre.turn_item_divisor[depth][0]).collect();
    assert_eq!(column, vec![2, 20, 200, 2000]);
}

#[test]
fn small_shares_count_for_nothing() {
    let state = wide_arena(vec![still(5000, 5000), still(100, 100)], vec![small_item(100, 100)]);
    let mut pre = GamePrecompute::new(&state);
    // The divisors never shrink from one depth to the next, and none is 0.
    assert_eq!(pre.turn_item_divisor[MAX_DEPTH - 1][0], 2_000_000_000_000_000);
    for depth in 1..MAX_DEPTH {
        assert!(pre.turn_item_divisor[depth - 1][0] <= pre.turn_item_divisor[depth][0]);
        assert!(pre.turn_item_divisor[depth][0] >= 1);
    }
    // A share below a millionth counts for nothing.
    let mut me = still(100, 100);
    let mut available = vec![true];
    assert_eq!(pre.step(&mut me, &mut available, 7, 0), 0);
    assert_eq!(available, vec![false]);
    pre.turn_item_divisor[0][0] = u64::MAX;
    let mut me = still(100, 100);
    let mut available = vec![true];
    assert_eq!(pre.step(&mut me, &mut available, 0, 0), 0);
}

#[test]
fn step_picks_up_what_the_player_touches() {
    let state = wide_arena(
        vec![still(5000, 5000), still(100, 100)],
        vec![small_item(5000, 5000), small_item(5030, 5000), small_item(100, 100), small_item(5012, 5009)],
    );
    let pre = GamePrecompute::new(&state);
    let mut me = still(5000, 5000);
    let mut available = vec![true, true, true, true];
    let gain = pre.step(&mut me, &mut available, 0, 0);
    // Items 0 and 3 are within reach (15 and exactly 15 away).
    assert_eq!(gain, 2_000_000);
    assert_eq!(available, vec![false, true, true, false]);
    assert_eq!(me.pos, Point { x: 5000, y: 5000 });
    // Nothing is picked up twice.
    let again = pre.step(&mut me, &mut available, 1, 0);
    assert_eq!(again, 0);
    assert_eq!(available, vec![false, true, true, false]);
}

#[test]
fn step_moves_the_player_before_it_looks() {
    let state = wide_arena(vec![still(5000, 5000)], vec![small_item(5000, 5000), small_item(5030, 5000)]);
    let pre = GamePrecompute::new(&state);
    let mut me = moving(5000, 5000, 10, 5900);
    let mut available = vec![true, true];
    let gain = pre.step(&mut me, &mut available, 0, 0);
    assert_eq!(me.pos, Point { x: 5030, y: 5000 });
    assert_eq!(me.speed, Point { x: 30, y: 0 });
    assert_eq!(gain, 1_000_000);
    assert_eq!(available, vec![true, false]);
}

#[test]
fn step_sees_farther_with_an_inflated_radius() {
    let state = wide_arena(vec![still(5000, 5000)], vec![small_item(5020, 5000)]);
    let pre = GamePrecompute::new(&state);
    let mut me = still(5000, 5000);
    let mut available = vec![true];
    assert_eq!(pre.step(&mut me, &mut available, 0, 4), 0);
    assert_eq!(available, vec![true]);
    assert_eq!(pre.step(&mut me, &mut available, 1, 5), 1_000_000);
    assert_eq!(available, vec![false]);
    // The player itself is as it was.
    assert_eq!(me.radius, 10);
}

#[test]
fn step_pays_the_share_of_the_depth() {
    let state = wide_arena(
        vec![still(5000, 5000), still(5000, 5000), still(5005, 5000)],
        vec![small_item(5000, 5000)],
    );
    let pre = GamePrecompute::new(&state);
    for (depth, share) in [(0usize, 333_333u128), (1, 33_333), (2, 3_333), (5, 3), (6, 0)] {
        let mut me = still(5000, 5000);
        let mut available = vec![true];
        assert_eq!(pre.step(&mut me, &mut available, depth, 0), share);
    }
}

#[test]
fn large_items_are_counted_and_picked_up() {
    // The item reaches 300: the opponent, 305 away, touches it, and so
    // does the controlled player from 310 away.
    let state = wide_arena(
        vec![still(5310, 5000), still(5000, 5305)],
        vec![Item { pos: Point { x: 5000, y: 5000 }, radius: 300 }],
    );
    assert!(state.is_well_formed());
    let pre = GamePrecompute::new(&state);
    assert_eq!(pre.turn_item_divisor[0], vec![2]);
    assert_eq!(pre.turn_item_divisor[1], vec![20]);
    let mut me = still(5310, 5000);
    let mut available = vec![true];
    assert_eq!(pre.step(&mut me, &mut available, 0, 0), 500_000);
    assert_eq!(available, vec![false]);
    let mut far = still(5311, 5000);
    let mut available = vec![true];
    assert_eq!(pre.step(&mut far, &mut available, 0, 0), 0);
    assert_eq!(available, vec![true]);
}

#[test]
fn step_leaves_unavailable_items_alone() {
    let state = wide_arena(vec![still(5000, 5000)], vec![small_item(5000, 5000), small_item(5001, 5000)]);
    let pre = GamePrecompute::new(&state);
    let mut me = still(5000, 5000);
    let mut available = vec![false, true];
    assert_eq!(pre.step(&mut me, &mut available, 3, 0), 1_000_000);
    assert_eq!(available, vec![false, false]);
}
