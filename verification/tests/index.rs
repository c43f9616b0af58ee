use arena_planner::consts::MAX_ITEM_R;
use arena_planner::game_state::{Item, Player};
use arena_planner::point::Point;
use arena_planner::precompute::{clamp1, grid_size, row_index, ItemIndex, INDEX_GRID_SIZE};

fn probe(x: i32, y: i32, radius: i32) -> Player {
    Player {
        pos: Point { x, y },
        speed: Point { x: 0, y: 0 },
        target: Point { x, y },
        score: 0,
        radius,
    }
}

fn brute_force(items: &Vec<Item>, player: &Player) -> Vec<usize> {
    let mut hits = vec![];
    for i in 0..items.len() {
        if items[i].intersects(player) {
            hits.push(i);
        }
    }
    hits
}

fn next_random(seed: &mut u64) -> i32 {
    *seed = seed.wrapping_mul(6364136223846793005).wrapping_add(1442695040888963407);
    ((*seed >> 33) % 1_000_000) as i32
}

#[test]
fn grid_helpers() {
    assert_eq!(INDEX_GRID_SIZE, 200);
    assert_eq!(grid_size(1), 1);
    assert_eq!(grid_size(200), 1);
    assert_eq!(grid_size(201), 2);
    assert_eq!(grid_size(1000), 5);
    assert_eq!(grid_size(i32::MAX), 10_737_419);
    assert_eq!(row_index(0), 0);
    assert_eq!(row_index(199), 0);
    assert_eq!(row_index(200), 1);
    assert_eq!(row_index(-1), 0);
    assert_eq!(row_index(-199), 0);
    assert_eq!(row_index(-200), -1);
    assert_eq!(row_index(-401), -2);
    assert_eq!(clamp1(-3, 5), 0);
    assert_eq!(clamp1(0, 5), 0);
    assert_eq!(clamp1(4, 5), 4);
    assert_eq!(clamp1(5, 5), 4);
    assert_eq!(clamp1(i64::MAX, 1), 0);
}

#[test]
fn an_empty_index_finds_nothing() {
    let items: Vec<Item> = vec![];
    let index = ItemIndex::new(&items, 1000, 1000);
    assert_eq!(index.len(), 0);
    assert_eq!(index.intersections(&probe(500, 500, 10)), Vec::<usize>::new());
}

#[test]
fn finds_items_across_cell_borders() {
    let items = vec![
        Item { pos: Point { x: 199, y: 199 }, radius: 10 },
        Item { pos: Point { x: 201, y: 199 }, radius: 10 },
        Item { pos: Point { x: 199, y: 201 }, radius: 10 },
        Item { pos: Point { x: 201, y: 201 }, radius: 10 },
        Item { pos: Point { x: 500, y: 500 }, radius: 10 },
    ];
    let index = ItemIndex::new(&items, 1000, 1000);
    let mut hits = index.intersections(&probe(200, 200, 5));
    hits.sort();
    assert_eq!(hits, vec![0, 1, 2, 3]);
    assert_eq!(index.intersections(&probe(515, 500, 5)), vec![4]);
    assert_eq!(index.intersections(&probe(516, 500, 5)), Vec::<usize>::new());
}

#[test]
fn finds_the_largest_items_from_the_next_cell() {
    // The item lies in cell 0 and reaches 50 into cell 1, where a player of
    // radius 1 stands 51 away.
    let items = vec![Item { pos: Point { x: 199, y: 100 }, radius: MAX_ITEM_R }];
    let index = ItemIndex::new(&items, 1000, 1000);
    assert_eq!(index.intersections(&probe(250, 100, 1)), vec![0]);
    assert_eq!(index.intersections(&probe(251, 100, 1)), Vec::<usize>::new());
}

#[test]
fn finds_items_larger_than_the_game_places() {
    // The item reaches 700 from its centre, across three cells.
    let items = vec![
        Item { pos: Point { x: 100, y: 100 }, radius: 700 },
        Item { pos: Point { x: 900, y: 900 }, radius: 5 },
    ];
    let index = ItemIndex::new(&items, 1000, 1000);
    assert_eq!(index.intersections(&probe(805, 100, 5)), vec![0]);
    assert_eq!(index.intersections(&probe(806, 100, 5)), Vec::<usize>::new());
    let mut hits = index.intersections(&probe(600, 600, 10));
    hits.sort();
    assert_eq!(hits, brute_force(&items, &probe(600, 600, 10)));
    assert_eq!(hits, vec![0]);
}

#[test]
fn items_outside_the_arena_are_filed_in_the_nearest_cell() {
    let items = vec![
        Item { pos: Point { x: -500, y: -500 }, radius: 10 },
        Item { pos: Point { x: 5000, y: 300 }, radius: 10 },
        Item { pos: Point { x: i32::MIN, y: i32::MAX }, radius: 10 },
    ];
    let index = ItemIndex::new(&items, 1000, 1000);
    assert_eq!(index.intersections(&probe(-495, -500, 1)), vec![0]);
    assert_eq!(index.intersections(&probe(5000, 310, 1)), vec![1]);
    assert_eq!(index.intersections(&probe(i32::MIN, i32::MAX, 1)), vec![2]);
    assert_eq!(index.intersections(&probe(500, 500, 1)), Vec::<usize>::new());
}

#[test]
fn coincident_items_are_all_found_once() {
    let items = vec![
        Item { pos: Point { x: 300, y: 300 }, radius: 5 },
        Item { pos: Point { x: 300, y: 300 }, radius: 5 },
        Item { pos: Point { x: 300, y: 300 }, radius: 7 },
    ];
    let index = ItemIndex::new(&items, 1000, 1000);
    let mut hits = index.intersections(&probe(300, 300, 1));
    hits.sort();
    assert_eq!(hits, vec![0, 1, 2]);
}

#[test]
fn the_index_agrees_with_brute_force() {
    let mut seed = 7u64;
    for round in 0..40 {
        let width = 1 + next_random(&mut seed) % 3000;
        let height = 1 + next_random(&mut seed) % 3000;
        let mut items = vec![];
        for _ in 0..(next_random(&mut seed) % 200) {
            items.push(Item {
                pos: Point {
                    x: next_random(&mut seed) % (width + 200) - 100,
                    y: next_random(&mut seed) % (height + 200) - 100,
                },
                radius: next_random(&mut seed) % (MAX_ITEM_R + 1),
            });
        }
        if round % 4 == 3 {
            // Now and then an item that the game would not place.
            items.push(Item {
                pos: Point {
                    x: next_random(&mut seed) % width,
                    y: next_random(&mut seed) % height,
                },
                radius: next_random(&mut seed) % 1500 - 500,
            });
        }
        let index = ItemIndex::new(&items, width, height);
        assert_eq!(index.len(), items.len());
        for _ in 0..50 {
            let player = probe(
                next_random(&mut seed) % (width + 400) - 200,
                next_random(&mut seed) % (height + 400) - 200,
                next_random(&mut seed) % 300 - round % 2 * 20,
            );
            let mut hits = index.intersections(&player);
            hits.sort();
            assert_eq!(hits, brute_force(&items, &player), "round {}", round);
        }
    }
}
