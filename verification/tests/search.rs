use arena_planner::game_state::{GameState, Item, Player};
use arena_planner::point::Point;
use arena_planner::precompute::{GamePrecompute, MAX_DEPTH};
use arena_planner::strategy::{
    aim, all_available, decay, in_boundary, speed_bonus, unit_cos, unit_sin, Move, Strategy,
    BOUNDARY_SIZE, MAX_BLOW, MAX_DIRECTIONS, NON_BOUNDARY_BONUS_FACTOR, SCORE_DECAY_PERCENT,
    SPEED_SCORE_FACTOR, TAIL_BLOW, THROW,
};

fn me(pos: (i32, i32), speed: (i32, i32)) -> Player {
    Player {
        pos: Point { x: pos.0, y: pos.1 },
        speed: Point { x: speed.0, y: speed.1 },
        target: Point { x: 1, y: 1 },
        score: 0,
        radius: 10,
    }
}

fn snapshot(size: i32, players: Vec<Player>, items: Vec<Item>) -> GameState {
    GameState {
        width: size,
        height: size,
        turn: 0,
        max_turns: 1000,
        players,
        items,
        game_id: "g".to_string(),
    }
}

fn item(x: i32, y: i32) -> Item {
    Item { pos: Point { x, y }, radius: 5 }
}

#[test]
fn constants_of_the_search() {
    assert_eq!(THROW, 900);
    assert_eq!(TAIL_BLOW, 15);
    assert_eq!(MAX_DIRECTIONS, 16);
    assert_eq!(SPEED_SCORE_FACTOR, 1000);
    assert_eq!(BOUNDARY_SIZE, 500);
    assert_eq!(NON_BOUNDARY_BONUS_FACTOR, 200);
    assert_eq!(SCORE_DECAY_PERCENT, 92);
    assert_eq!(MAX_BLOW, i32::MAX / 2);
}

#[test]
fn speed_bonus_is_a_thousand_times_the_speed() {
    assert_eq!(speed_bonus(&me((500, 500), (0, 0))), 0);
    assert_eq!(speed_bonus(&me((500, 500), (100, 0))), 100_000);
    assert_eq!(speed_bonus(&me((500, 500), (0, -100))), 100_000);
    assert_eq!(speed_bonus(&me((500, 500), (3, 4))), 5_000);
    // sqrt(685) = 26.17250...
    assert_eq!(speed_bonus(&me((500, 500), (19, 18))), 26_173);
    assert_eq!(speed_bonus(&me((500, 500), (71, 71))), 100_409);
    // 1000 * sqrt(2) * 2^31 = 3037000499976.04...
    assert_eq!(speed_bonus(&me((500, 500), (i32::MIN, i32::MIN))), 3_037_000_499_976);
}

#[test]
fn boundary_distance_is_capped() {
    assert_eq!(in_boundary(100, 10000), 100);
    assert_eq!(in_boundary(499, 10000), 499);
    assert_eq!(in_boundary(500, 10000), 500);
    assert_eq!(in_boundary(5000, 10000), 500);
    assert_eq!(in_boundary(9500, 10000), 500);
    assert_eq!(in_boundary(9501, 10000), 499);
    assert_eq!(in_boundary(9600, 10000), 400);
    assert_eq!(in_boundary(10000, 10000), 0);
    assert_eq!(in_boundary(0, 10000), 0);
    // In a narrow arena the near wall counts first.
    assert_eq!(in_boundary(300, 600), 300);
    assert_eq!(in_boundary(550, 600), 50);
}

#[test]
fn boundary_bonus_adds_both_axes() {
    let state = snapshot(10000, vec![me((100, 9600), (0, 0))], vec![]);
    let strategy = Strategy::new(&state);
    assert_eq!(strategy.non_boundary_bonus(&state.players[0]), 100_000);
    assert_eq!(strategy.non_boundary_bonus(&me((5000, 5000), (0, 0))), 200_000);
    assert_eq!(strategy.non_boundary_bonus(&me((10, 10), (0, 0))), 4_000);
}

#[test]
fn decay_takes_92_hundredths_of_what_follows() {
    assert_eq!(decay(0, 0), 0);
    assert_eq!(decay(100, 100), 192);
    assert_eq!(decay(0, 1), 0);
    assert_eq!(decay(5, 99), 96);
    assert_eq!(decay(7, 1_000_000), 920_007);
}

#[test]
fn unit_vectors_of_the_sixteen_directions() {
    let cos: Vec<i64> = (0..16).map(|k| unit_cos(k)).collect();
    assert_eq!(
        cos,
        vec![
            1_000_000, 923_880, 707_107, 382_683, 0, -382_683, -707_107, -923_880, -1_000_000,
            -923_880, -707_107, -382_683, 0, 382_683, 707_107, 923_880
        ]
    );
    for k in 0..16 {
        assert_eq!(unit_sin(k), unit_cos((k + 12) % 16));
        assert_eq!(unit_sin((k + 4) % 16), unit_cos(k));
        let length2 = unit_cos(k) * unit_cos(k) + unit_sin(k) * unit_sin(k);
        assert!((length2 - 1_000_000_000_000).abs() < 2_000_000);
    }
    assert_eq!(unit_sin(4), 1_000_000);
    assert_eq!(unit_sin(1), 382_683);
}

#[test]
fn aims_round_the_heading() {
    let player = me((5000, 5000), (50, 0));
    let targets: Vec<(i32, i32)> = (0..16)
        .map(|i| {
            let t = aim(&player, i, 16);
            (t.x, t.y)
        })
        .collect();
    assert_eq!(
        targets,
        vec![
            (5900, 5000),
            (5831, 5344),
            (5636, 5636),
            (5344, 5831),
            (5000, 5900),
            (4656, 5831),
            (4364, 5636),
            (4169, 5344),
            (4100, 5000),
            (4169, 4656),
            (4364, 4364),
            (4656, 4169),
            (5000, 4100),
            (5344, 4169),
            (5636, 4364),
            (5831, 4656)
        ]
    );
    assert_eq!(aim(&player, 1, 4), Point { x: 5000, y: 5900 });
    assert_eq!(aim(&player, 3, 8), Point { x: 4364, y: 5636 });
    assert_eq!(aim(&player, 0, 1), Point { x: 5900, y: 5000 });
}

#[test]
fn aims_follow_the_velocity() {
    let player = me((5000, 5000), (3, 4));
    assert_eq!(aim(&player, 0, 16), Point { x: 5540, y: 5720 });
    assert_eq!(aim(&player, 4, 16), Point { x: 4280, y: 5540 });
    assert_eq!(aim(&player, 8, 16), Point { x: 4460, y: 4280 });
    assert_eq!(aim(&player, 13, 16), Point { x: 5872, y: 4777 });
}

#[test]
fn a_player_at_rest_heads_along_the_first_axis() {
    let player = me((5000, 5000), (0, 0));
    assert_eq!(aim(&player, 0, 16), Point { x: 5900, y: 5000 });
    assert_eq!(aim(&player, 4, 16), Point { x: 5000, y: 5900 });
}

#[test]
fn aims_stop_at_the_end_of_the_numbers() {
    let player = me((i32::MAX - 5, i32::MIN + 5), (i32::MAX, i32::MIN));
    assert_eq!(aim(&player, 0, 1), Point { x: i32::MAX, y: i32::MIN });
}

#[test]
fn all_items_start_available() {
    assert_eq!(all_available(0), Vec::<bool>::new());
    assert_eq!(all_available(3), vec![true, true, true]);
}

#[test]
fn standard_schedule() {
    let state = snapshot(10000, vec![me((5000, 5000), (50, 0))], vec![]);
    let strategy = Strategy::new(&state);
    assert_eq!(strategy.directions, vec![16, 8, 8, 8, 4, 4, 4]);
    assert_eq!(strategy.blow, vec![0, 0, 0, 2, 3, 5, 5]);
    assert_eq!(strategy.precompute.turn_item_divisor.len(), MAX_DEPTH);
}

#[test]
fn without_items_or_opponents_the_default_target_wins() {
    // Zero items and zero opponents: the score comes from the bonuses only,
    // and the player goes on along its velocity.
    let state = snapshot(10000, vec![me((5000, 5000), (50, 0))], vec![]);
    assert!(state.is_well_formed());
    let strategy = Strategy::new(&state);
    assert_eq!(strategy.best_target(), Point { x: 5900, y: 5000 });
    assert_eq!(strategy.best_target(), aim(&state.players[0], 0, 16));
}

#[test]
fn the_leaf_scores_the_boundary_bonus() {
    let state = snapshot(10000, vec![me((5000, 5000), (10, 0))], vec![]);
    let strategy = Strategy::with_schedule(&state, vec![], vec![]);
    let mut player = me((5000, 5000), (10, 0));
    player.target = Point { x: 5900, y: 5000 };
    assert_eq!(
        strategy.best_move(&player, vec![], MAX_DEPTH),
        Move { score: 200_000, target: Point { x: 5900, y: 5000 } }
    );
    // One tick before the leaf: the player reaches speed 30.
    // 30000 + 200000 + 92% of 200000.
    assert_eq!(strategy.best_move(&player, vec![], MAX_DEPTH - 1).score, 414_000);
}

#[test]
fn beyond_the_schedule_the_player_keeps_its_target() {
    let state = snapshot(10000, vec![me((5000, 5000), (10, 0))], vec![]);
    let strategy = Strategy::with_schedule(&state, vec![], vec![]);
    let mut player = me((5000, 5000), (10, 0));
    player.target = Point { x: 5900, y: 5000 };
    assert_eq!(
        strategy.best_move(&player, vec![], 0),
        Move { score: 2_569_249, target: Point { x: 5900, y: 5000 } }
    );
    assert_eq!(strategy.best_target(), Point { x: 1, y: 1 });
}

#[test]
fn an_item_on_the_way_adds_its_decayed_share() {
    let state = snapshot(10000, vec![me((5000, 5000), (10, 0))], vec![item(5100, 5000)]);
    let strategy = Strategy::with_schedule(&state, vec![], vec![]);
    let mut player = me((5000, 5000), (10, 0));
    player.target = Point { x: 5900, y: 5000 };
    // The item is reached at depth 1, with the radius inflated by 15:
    // 2569249 without it, and 92% of a whole item more.
    assert_eq!(strategy.best_move(&player, vec![true], 0).score, 3_489_249);
    assert_eq!(strategy.best_move(&player, vec![false], 0).score, 2_569_249);
}

#[test]
fn one_level_of_four_directions() {
    let state = snapshot(10000, vec![me((5000, 5000), (10, 0))], vec![]);
    let strategy = Strategy::with_schedule(&state, vec![4], vec![0]);
    let player = state.players[0];
    let scores: Vec<u128> =
        (0..4).map(|i| strategy.evaluate(&player, &vec![], 0, i).score).collect();
    assert_eq!(scores, vec![2_569_249, 2_575_312, 2_525_246, 2_575_312]);
    // The first of the two best wins.
    assert_eq!(
        strategy.best_move(&player, vec![], 0),
        Move { score: 2_575_312, target: Point { x: 5000, y: 5900 } }
    );
    assert_eq!(strategy.best_target(), Point { x: 5000, y: 5900 });
}

#[test]
fn two_levels_of_four_directions() {
    let state = snapshot(10000, vec![me((5000, 5000), (10, 0))], vec![]);
    let strategy = Strategy::with_schedule(&state, vec![4, 4], vec![0, 0]);
    let player = state.players[0];
    let scores: Vec<u128> =
        (0..4).map(|i| strategy.evaluate(&player, &vec![], 0, i).score).collect();
    assert_eq!(scores, vec![2_586_281, 2_576_379, 2_525_246, 2_576_379]);
    assert_eq!(strategy.best_target(), Point { x: 5900, y: 5000 });
}

#[test]
fn three_levels_from_rest() {
    let state = snapshot(10000, vec![me((5000, 5000), (0, 0))], vec![]);
    let strategy = Strategy::with_schedule(&state, vec![16, 8, 8], vec![0, 0, 0]);
    assert_eq!(
        strategy.best_move(&state.players[0], vec![], 0),
        Move { score: 2_591_844, target: Point { x: 5636, y: 5636 } }
    );
}

#[test]
fn the_search_keeps_away_from_the_wall() {
    let state = snapshot(1000, vec![me((100, 500), (0, 0))], vec![]);
    let strategy = Strategy::with_schedule(&state, vec![4], vec![0]);
    let player = state.players[0];
    let scores: Vec<u128> =
        (0..4).map(|i| strategy.evaluate(&player, &vec![], 0, i).score).collect();
    assert_eq!(scores, vec![2_032_180, 1_172_317, 1_376_446, 1_172_317]);
    assert_eq!(strategy.best_target(), Point { x: 1000, y: 500 });
}

#[test]
fn staying_on_a_coincident_item_scores_higher_at_depth_0() {
    // The player stands on the item and drifts at (10, 0). Braking keeps it
    // on the item for the tick; going on carries it away.
    let state = snapshot(10000, vec![me((5000, 5000), (10, 0))], vec![item(5000, 5000)]);
    let pre = GamePrecompute::new(&state);

    let mut stays = state.players[0];
    stays.target = aim(&state.players[0], 8, 16);
    let mut left_for_stays = vec![true];
    let gain_stays = pre.step(&mut stays, &mut left_for_stays, 0, 0);
    assert_eq!(stays.pos, Point { x: 4990, y: 5000 });

    let mut leaves = state.players[0];
    leaves.target = aim(&state.players[0], 0, 16);
    let mut left_for_leaves = vec![true];
    let gain_leaves = pre.step(&mut leaves, &mut left_for_leaves, 0, 0);
    assert_eq!(leaves.pos, Point { x: 5030, y: 5000 });

    assert_eq!(gain_stays, 1_000_000);
    assert_eq!(gain_leaves, 0);
    assert!(gain_stays > gain_leaves);
    assert_eq!(left_for_stays, vec![false]);
    assert_eq!(left_for_leaves, vec![true]);

    // With the rest of the search behind them the order is the same.
    let strategy = Strategy::with_schedule(&state, vec![16], vec![0]);
    let scores: Vec<u128> = (0..16)
        .map(|i| strategy.evaluate(&state.players[0], &vec![true], 0, i).score)
        .collect();
    assert_eq!(
        scores,
        vec![
            2_569_249, 2_567_292, 2_572_723, 2_576_188, 2_575_312, 2_555_042, 3_541_629,
            3_531_900, 3_525_246, 3_531_900, 3_541_629, 2_555_042, 2_575_312, 2_576_188,
            2_572_723, 2_567_292
        ]
    );
    assert!(scores[8] > scores[0]);
    // Targets 6 and 10 score the same: the first of them is chosen.
    assert_eq!(strategy.best_target(), Point { x: 4364, y: 5636 });
}

#[test]
fn the_root_is_evaluated_side_by_side_as_one_by_one() {
    let state = snapshot(
        10000,
        vec![me((5000, 5000), (10, 0)), me((5200, 5000), (0, 0))],
        vec![item(5000, 5000), item(5200, 5010), item(4800, 5100), item(5050, 4900)],
    );
    let strategy = Strategy::with_schedule(&state, vec![16, 4], vec![0, 2]);
    let player = state.players[0];
    let available = all_available(4);
    let mut best = Move { score: 0, target: aim(&player, 0, 16) };
    let mut scores = vec![];
    for i in 0..16 {
        let found = strategy.evaluate(&player, &available, 0, i);
        assert_eq!(found.target, aim(&player, i, 16));
        scores.push(found.score);
        if found.score > best.score {
            best = found;
        }
    }
    assert_eq!(strategy.best_move(&player, available, 0), best);
    assert_eq!(strategy.best_target(), best.target);
    // The scores differ, so that an answer in another order would show.
    assert!(scores.iter().any(|s| *s != scores[0]));
    assert!(best.score > scores[0]);
}
