use arena_planner::consts::{MAX_ACC, MAX_SPEED};
use arena_planner::game_state::{
    advance_all, clamp, next_turn_player_state, GameState, Item, Player,
};
use arena_planner::numeric::{cap_wide, nearest_root_below, scale_wide};
use arena_planner::point::Point;

fn player(pos: (i32, i32), speed: (i32, i32), target: (i32, i32), radius: i32) -> Player {
    Player {
        pos: Point { x: pos.0, y: pos.1 },
        speed: Point { x: speed.0, y: speed.1 },
        target: Point { x: target.0, y: target.1 },
        score: 0,
        radius,
    }
}

fn arena(players: Vec<Player>, items: Vec<Item>) -> GameState {
    GameState {
        width: 1000,
        height: 1000,
        turn: 3,
        max_turns: 100,
        players,
        items,
        game_id: "game".to_string(),
    }
}

#[test]
fn next_turn_state() {
    let mut player = Player {
        pos: Point { x: 100, y: 100 },
        speed: Point { x: 10, y: 0 },
        target: Point { x: 150, y: 200 },
        score: 0,
        radius: 1,
    };
    next_turn_player_state(&mut player, 1000, 1000);
    // The acceleration points along (50, 100), which is longer than 20, so
    // it is scaled to (8.9, 17.8) and rounded to (9, 18).
    assert_eq!(player.speed, Point { x: 19, y: 18 });
    assert_eq!(player.pos, Point { x: 119, y: 118 });
}

#[test]
fn test_point() {
    let point = Point { x: 1, y: 2 };
    assert_eq!(point.len2(), 5);
    assert_eq!((point.len2() as f32).sqrt(), 5.0f32.sqrt());

    let long_vec_y = Point { x: 0, y: 10 };
    assert_eq!(long_vec_y.scale(1), Point { x: 0, y: 1 });
    let long_vec_x = Point { x: -10, y: 0 };
    assert_eq!(long_vec_x.scale(1), Point { x: -1, y: 0 });

    assert_eq!(point - long_vec_x, Point { x: 11, y: 2 });
    assert_eq!(long_vec_x + long_vec_y, Point { x: -10, y: 10 });
}

#[test]
fn limits_are_as_documented() {
    assert_eq!(MAX_ACC, 20);
    assert_eq!(MAX_SPEED, 100);
}

#[test]
fn point_distance_and_add_assign() {
    let a = Point { x: 3, y: -4 };
    let b = Point { x: -1, y: -1 };
    assert_eq!(a.dist2(&b), 25);
    assert_eq!(b.dist2(&a), 25);
    assert_eq!(a.dist2(&a), 0);
    let mut c = a;
    c += b;
    assert_eq!(c, Point { x: 2, y: -5 });
}

#[test]
fn scaling_rounds_to_the_nearest_lattice_point() {
    assert_eq!(Point { x: 3, y: 4 }.scale(20), Point { x: 12, y: 16 });
    assert_eq!(Point { x: 50, y: 100 }.scale(20), Point { x: 9, y: 18 });
    assert_eq!(Point { x: 1, y: 1 }.scale(100), Point { x: 71, y: 71 });
    assert_eq!(Point { x: -1, y: 1 }.scale(100), Point { x: -71, y: 71 });
    assert_eq!(Point { x: 7, y: 0 }.scale(0), Point { x: 0, y: 0 });
}

#[test]
fn scaling_the_zero_vector_changes_nothing() {
    assert_eq!(Point { x: 0, y: 0 }.scale(20), Point { x: 0, y: 0 });
    assert_eq!(scale_wide(0, 0, 900), (0, 0));
    assert_eq!(cap_wide(0, 0, 0), (0, 0));
}

#[test]
fn scaling_copes_with_the_largest_vectors() {
    assert_eq!(
        Point { x: i32::MIN, y: i32::MIN }.scale(i32::MAX),
        Point { x: -1518500249, y: -1518500249 }
    );
    assert_eq!(Point { x: i32::MAX, y: 0 }.scale(i32::MAX), Point { x: i32::MAX, y: 0 });
}

#[test]
fn nearest_root_is_the_rounded_root() {
    assert_eq!(nearest_root_below(0, 1, 10), 0);
    assert_eq!(nearest_root_below(2, 1, 10), 1);
    assert_eq!(nearest_root_below(3, 1, 10), 2);
    assert_eq!(nearest_root_below(16, 1, 4), 4);
    assert_eq!(nearest_root_below(685_000_000, 1, 37_000), 26_173);
    // sqrt(9 / 4) = 1.5 is not reached from below by 2 - 1/2: it is met.
    assert_eq!(nearest_root_below(9, 4, 5), 2);
    assert_eq!(nearest_root_below(8, 4, 5), 1);
}

#[test]
fn capping_leaves_short_vectors_alone() {
    assert_eq!(cap_wide(12, 16, 20), (12, 16));
    assert_eq!(cap_wide(12, 17, 20), (12, 16));
    assert_eq!(cap_wide(-3, 4, 5), (-3, 4));
    assert_eq!(cap_wide(1 << 40, -(1 << 40), 100), (71, -71));
}

#[test]
fn acceleration_is_not_scaled_up() {
    let mut p = player((500, 500), (0, 0), (503, 504), 10);
    next_turn_player_state(&mut p, 1000, 1000);
    assert_eq!(p.speed, Point { x: 3, y: 4 });
    assert_eq!(p.pos, Point { x: 503, y: 504 });
}

#[test]
fn a_player_on_its_target_keeps_its_velocity() {
    let mut p = player((500, 500), (7, -9), (500, 500), 10);
    next_turn_player_state(&mut p, 1000, 1000);
    assert_eq!(p.speed, Point { x: 7, y: -9 });
    assert_eq!(p.pos, Point { x: 507, y: 491 });
}

#[test]
fn speed_is_capped_and_rounded() {
    // (70, 70) + (14, 14) = (84, 84) is too fast and comes back to
    // (70.7, 70.7), which rounds to (71, 71): longer than 100 by rounding.
    let mut p = player((500, 500), (70, 70), (600, 600), 10);
    next_turn_player_state(&mut p, 1000, 1000);
    assert_eq!(p.speed, Point { x: 71, y: 71 });
    assert_eq!(p.pos, Point { x: 571, y: 571 });
    assert!(p.speed.len2() > MAX_SPEED * MAX_SPEED);
    assert!(p.speed.len2() < (MAX_SPEED + 1) * (MAX_SPEED + 1));
}

#[test]
fn speed_stays_within_the_limit_where_nothing_is_scaled() {
    let mut p = player((500, 500), (60, 60), (520, 500), 10);
    next_turn_player_state(&mut p, 1000, 1000);
    assert_eq!(p.speed, Point { x: 80, y: 60 });
    assert_eq!(p.speed.len2(), MAX_SPEED * MAX_SPEED);
}

#[test]
fn bounce_off_the_near_wall_turns_one_axis_only() {
    let mut p = player((95, 500), (-90, 0), (0, 500), 10);
    next_turn_player_state(&mut p, 1000, 1000);
    // Moved to x = -5, mirrored across the wall at 10.
    assert_eq!(p.pos, Point { x: 25, y: 500 });
    assert_eq!(p.speed, Point { x: 100, y: 0 });

    let mut q = player((95, 500), (-90, 30), (95, 500), 10);
    next_turn_player_state(&mut q, 1000, 1000);
    assert_eq!(q.pos, Point { x: 15, y: 530 });
    assert_eq!(q.speed, Point { x: 90, y: 30 });
}

#[test]
fn bounce_off_the_far_walls() {
    let mut p = player((985, 500), (90, 0), (2000, 500), 10);
    next_turn_player_state(&mut p, 1000, 1000);
    assert_eq!(p.pos, Point { x: 895, y: 500 });
    assert_eq!(p.speed, Point { x: -100, y: 0 });

    let mut q = player((500, 985), (0, 90), (500, 2000), 10);
    next_turn_player_state(&mut q, 1000, 1000);
    assert_eq!(q.pos, Point { x: 500, y: 895 });
    assert_eq!(q.speed, Point { x: 0, y: -100 });
}

#[test]
fn a_player_that_reaches_the_far_wall_exactly_goes_on() {
    let mut p = player((980, 500), (10, 0), (980, 500), 10);
    next_turn_player_state(&mut p, 1000, 1000);
    assert_eq!(p.pos, Point { x: 990, y: 500 });
    assert_eq!(p.speed, Point { x: 10, y: 0 });

    let mut q = player((989, 500), (10, 0), (989, 500), 1);
    next_turn_player_state(&mut q, 1000, 1000);
    assert_eq!(q.pos, Point { x: 999, y: 500 });
    assert_eq!(q.speed, Point { x: 10, y: 0 });

    let mut r = player((500, 985), (0, 5), (500, 985), 10);
    next_turn_player_state(&mut r, 1000, 1000);
    assert_eq!(r.pos, Point { x: 500, y: 990 });
    assert_eq!(r.speed, Point { x: 0, y: 5 });
}

#[test]
fn a_player_one_step_beyond_the_far_wall_turns_round() {
    let mut p = player((980, 500), (11, 0), (980, 500), 10);
    next_turn_player_state(&mut p, 1000, 1000);
    assert_eq!(p.pos, Point { x: 989, y: 500 });
    assert_eq!(p.speed, Point { x: -11, y: 0 });
}

#[test]
fn a_player_that_reaches_the_near_wall_exactly_goes_on() {
    let mut p = player((20, 500), (-10, 0), (20, 500), 10);
    next_turn_player_state(&mut p, 1000, 1000);
    assert_eq!(p.pos, Point { x: 10, y: 500 });
    assert_eq!(p.speed, Point { x: -10, y: 0 });
}

#[test]
fn clamp_mirrors_across_the_wall() {
    let (mut pos, mut speed) = (7i64, -5i64);
    clamp(&mut pos, &mut speed, 10, 90);
    assert_eq!((pos, speed), (13, 5));
    let (mut pos, mut speed) = (90i64, 5i64);
    clamp(&mut pos, &mut speed, 10, 90);
    assert_eq!((pos, speed), (90, 5));
    let (mut pos, mut speed) = (10i64, -5i64);
    clamp(&mut pos, &mut speed, 10, 90);
    assert_eq!((pos, speed), (10, -5));
    let (mut pos, mut speed) = (91i64, 5i64);
    clamp(&mut pos, &mut speed, 10, 90);
    assert_eq!((pos, speed), (89, -5));
    let (mut pos, mut speed) = (9i64, -5i64);
    clamp(&mut pos, &mut speed, 10, 90);
    assert_eq!((pos, speed), (11, 5));
    let (mut pos, mut speed) = (50i64, 5i64);
    clamp(&mut pos, &mut speed, 10, 90);
    assert_eq!((pos, speed), (50, 5));
}

#[test]
fn players_stay_inside_for_many_ticks() {
    let mut p = player((50, 950), (-100, 100), (-100_000, 100_000), 30);
    assert!(p.is_at_home(1000, 1000));
    for _ in 0..500 {
        next_turn_player_state(&mut p, 1000, 1000);
        assert!(p.is_at_home(1000, 1000));
        assert!(p.speed.len2() < (MAX_SPEED + 1) * (MAX_SPEED + 1));
    }
}

#[test]
fn at_home_asks_for_room_to_bounce() {
    assert!(player((50, 50), (0, 0), (0, 0), 50).is_at_home(200, 200));
    assert!(!player((50, 50), (0, 0), (0, 0), 50).is_at_home(199, 200));
    assert!(!player((49, 50), (0, 0), (0, 0), 50).is_at_home(200, 200));
    assert!(!player((50, 151), (0, 0), (0, 0), 50).is_at_home(200, 200));
    assert!(!player((50, 50), (0, 0), (0, 0), 0).is_at_home(200, 200));
}

#[test]
fn advance_all_moves_every_player() {
    let mut players = vec![
        player((100, 100), (10, 0), (150, 200), 1),
        player((500, 500), (7, -9), (500, 500), 10),
    ];
    advance_all(&mut players, 1000, 1000);
    assert_eq!(players[0].pos, Point { x: 119, y: 118 });
    assert_eq!(players[1].pos, Point { x: 507, y: 491 });
}

#[test]
fn intersects_when_the_disks_touch() {
    let p = player((100, 100), (0, 0), (0, 0), 10);
    assert!(Item { pos: Point { x: 115, y: 100 }, radius: 5 }.intersects(&p));
    assert!(!Item { pos: Point { x: 116, y: 100 }, radius: 5 }.intersects(&p));
    assert!(Item { pos: Point { x: 109, y: 112 }, radius: 5 }.intersects(&p));
    assert!(!Item { pos: Point { x: 110, y: 112 }, radius: 5 }.intersects(&p));
    let far = player((i32::MAX, i32::MAX), (0, 0), (0, 0), 10);
    assert!(!Item { pos: Point { x: i32::MIN, y: i32::MIN }, radius: 5 }.intersects(&far));
}

#[test]
fn well_formed_snapshots() {
    let good = arena(
        vec![player((100, 100), (0, 0), (0, 0), 10)],
        vec![Item { pos: Point { x: -5, y: 5000 }, radius: 50 }],
    );
    assert!(good.is_well_formed());
    let mut no_size = good.clone();
    no_size.width = 0;
    assert!(!no_size.is_well_formed());
    let mut no_height = good.clone();
    no_height.height = -1;
    assert!(!no_height.is_well_formed());
    // The items are as they come.
    let mut big_item = good.clone();
    big_item.items[0].radius = 5100;
    assert!(big_item.is_well_formed());
    let mut narrow = good.clone();
    narrow.width = 119;
    assert!(!narrow.is_well_formed());
    narrow.width = 120;
    assert!(narrow.is_well_formed());
    let mut outside = good.clone();
    outside.players[0].pos.x = 5;
    assert!(!outside.is_well_formed());
    assert!(arena(vec![], vec![]).is_well_formed());
}

#[test]
fn the_first_player_to_touch_an_item_claims_it() {
    let state = arena(
        vec![
            player((500, 500), (0, 0), (500, 500), 10),
            player((510, 500), (0, 0), (510, 500), 10),
            player((100, 100), (0, 0), (100, 100), 10),
        ],
        vec![
            Item { pos: Point { x: 505, y: 500 }, radius: 5 },
            Item { pos: Point { x: 900, y: 900 }, radius: 5 },
            Item { pos: Point { x: 525, y: 500 }, radius: 5 },
        ],
    );
    assert!(state.is_well_formed() && state.has_room());
    let next = state.next_turn();
    assert_eq!(next.turn, 4);
    assert_eq!(next.max_turns, 100);
    assert_eq!(next.game_id, "game");
    assert_eq!(next.items, vec![Item { pos: Point { x: 900, y: 900 }, radius: 5 }]);
    let scores: Vec<i32> = next.players.iter().map(|p| p.score).collect();
    // Both of the first two touch item 0: it goes to the first, once.
    assert_eq!(scores, vec![1, 1, 0]);
    // What is gone does not come back.
    let later = next.next_turn();
    assert_eq!(later.items, next.items);
    assert_eq!(later.turn, 5);
}

#[test]
fn items_are_claimed_where_the_players_arrive() {
    let state = arena(
        vec![player((500, 500), (30, 0), (530, 500), 10)],
        vec![
            Item { pos: Point { x: 500, y: 500 }, radius: 5 },
            Item { pos: Point { x: 545, y: 500 }, radius: 5 },
        ],
    );
    let next = state.next_turn();
    // The player moves to x = 550 and leaves the item it stood on.
    assert_eq!(next.players[0].pos, Point { x: 550, y: 500 });
    assert_eq!(next.players[0].score, 1);
    assert_eq!(next.items, vec![Item { pos: Point { x: 500, y: 500 }, radius: 5 }]);
}

#[test]
fn nothing_changes_behind_the_last_turn() {
    let mut state = arena(
        vec![player((500, 500), (30, 0), (530, 500), 10)],
        vec![Item { pos: Point { x: 545, y: 500 }, radius: 5 }],
    );
    state.turn = 100;
    let last = state.next_turn();
    assert_eq!(last.turn, 101);
    assert_eq!(last.items.len(), 0);
    let after = last.next_turn();
    assert_eq!(after, last);
    state.turn = 101;
    assert_eq!(state.next_turn(), state);
}

#[test]
fn a_tick_needs_room_in_the_counters() {
    let mut state = arena(vec![player((500, 500), (0, 0), (500, 500), 10)], vec![]);
    assert!(state.has_room());
    state.turn = usize::MAX;
    state.max_turns = usize::MAX;
    assert!(!state.has_room());
    state.max_turns = 5;
    assert!(state.has_room());
    state.items.push(Item { pos: Point { x: 0, y: 0 }, radius: 1 });
    state.players[0].score = i32::MAX;
    assert!(!state.has_room());
    state.players[0].score = i32::MAX - 1;
    assert!(state.has_room());
}
