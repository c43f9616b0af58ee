//! What is worked out once per tick, before the search: a grid index over
//! the items, and the pressure that the opponents put on each item.

use crate::consts::MAX_ITEM_R;
use crate::game_state::{
    advance_all, lemma_advanced_by_at_home, next_turn_player_state, GameState, Item, Player,
};
use crate::numeric::abs;
use vstd::prelude::*;

verus! {

/// The side of one square cell of the grid.
pub const INDEX_GRID_SIZE: i32 = 200;

/// The number of cells that cover a side of length `size`.
pub open spec fn spec_grid_size(size: int) -> int {
    (size + INDEX_GRID_SIZE - 1) / (INDEX_GRID_SIZE as int)
}

/// The number of cells that cover a side of length `size`.
pub fn grid_size(size: i32) -> (cells: usize)
    requires
        0 < size,
    ensures
        cells == spec_grid_size(size as int),
        1 <= cells,
{
    ((size as i64 + INDEX_GRID_SIZE as i64 - 1) / INDEX_GRID_SIZE as i64) as usize
}

/// The row of cells that a coordinate falls into, counted from the row that
/// starts at `0`; the division rounds toward zero.
pub open spec fn spec_row_index(x: int) -> int {
    if x >= 0 {
        x / (INDEX_GRID_SIZE as int)
    } else {
        -((-x) / (INDEX_GRID_SIZE as int))
    }
}

/// The row of cells that a coordinate falls into.
pub fn row_index(x: i64) -> (row: i64)
    ensures
        row == spec_row_index(x as int),
{
    x / INDEX_GRID_SIZE as i64
}

/// `input` brought into `0..max`.
pub open spec fn spec_clamp1(input: int, max: int) -> int {
    if input < 0 {
        0
    } else if input >= max {
        max - 1
    } else {
        input
    }
}

/// Brings a row number into the rows that the grid has.
pub fn clamp1(input: i64, max: usize) -> (row: usize)
    requires
        1 <= max,
    ensures
        row == spec_clamp1(input as int, max as int),
        row < max,
{
    if input < 0 {
        0usize
    } else if input as u64 >= max as u64 {
        max - 1
    } else {
        input as usize
    }
}

/// The row, among `cells` rows, that holds the coordinate `x`; what lies
/// outside the grid belongs to the nearest row.
pub open spec fn cell_of(x: int, cells: int) -> int {
    spec_clamp1(spec_row_index(x), cells)
}

/// A larger coordinate never falls into an earlier row.
pub proof fn lemma_cell_monotone(a: int, b: int, cells: int)
    requires
        a <= b,
        1 <= cells,
    ensures
        0 <= cell_of(a, cells) <= cell_of(b, cells) < cells,
{
}

/// The item numbers filed under cell `(x, y)`.
spec fn bucket(index: Seq<Vec<Vec<usize>>>, x: int, y: int) -> Seq<usize> {
    index[x]@[y]@
}

/// The grid has `g_width` columns of `g_height` cells each.
spec fn grid_shaped(index: Seq<Vec<Vec<usize>>>, g_width: int, g_height: int) -> bool {
    &&& index.len() == g_width
    &&& forall|x: int| 0 <= x < g_width ==> (#[trigger] index[x])@.len() == g_height
}

/// The first `n` items are filed, each once and in the cell that holds its
/// centre, and nothing else is.
spec fn filed_upto(
    index: Seq<Vec<Vec<usize>>>,
    items: Seq<Item>,
    g_width: int,
    g_height: int,
    n: int,
) -> bool {
    &&& forall|x: int, y: int, k: int|
        0 <= x < g_width && 0 <= y < g_height && 0 <= k < bucket(index, x, y).len() ==> {
            let i = #[trigger] bucket(index, x, y)[k];
            &&& i < n
            &&& cell_of(items[i as int].pos.x as int, g_width) == x
            &&& cell_of(items[i as int].pos.y as int, g_height) == y
        }
    &&& forall|x: int, y: int, j: int, k: int|
        0 <= x < g_width && 0 <= y < g_height && 0 <= j < k < bucket(index, x, y).len()
            ==> #[trigger] bucket(index, x, y)[j] < #[trigger] bucket(index, x, y)[k]
    &&& forall|i: int|
        0 <= i < n ==> lists(
            #[trigger] bucket(
                index,
                cell_of(items[i].pos.x as int, g_width),
                cell_of(items[i].pos.y as int, g_height),
            ),
            i,
        )
}

/// The number `i` stands in the list.
pub open spec fn lists(list: Seq<usize>, i: int) -> bool {
    exists|at: int| 0 <= at < list.len() && #[trigger] list[at] == i
}

/// The largest radius among the first `n` items, or `MAX_ITEM_R` if none
/// is as large: how far from a disk an item's centre can lie that touches
/// it. A negative radius counts by its size.
pub open spec fn widest(items: Seq<Item>, n: int) -> int
    decreases n,
{
    if n <= 0 {
        MAX_ITEM_R as int
    } else if abs(items[n - 1].radius as int) > widest(items, n - 1) {
        abs(items[n - 1].radius as int)
    } else {
        widest(items, n - 1)
    }
}

/// No item among the first `n` has a radius beyond `widest`.
pub proof fn lemma_widest(items: Seq<Item>, n: int)
    requires
        0 <= n <= items.len(),
    ensures
        MAX_ITEM_R <= widest(items, n) <= 0x8000_0000,
        forall|i: int| 0 <= i < n ==> abs((#[trigger] items[i]).radius as int) <= widest(items, n),
    decreases n,
{
    if n > 0 {
        lemma_widest(items, n - 1);
    }
}

/// A uniform grid over the arena that files each item under the cell of its
/// centre, so that a query looks only at the cells near the player.
pub struct ItemIndex<'items> {
    g_width: usize,
    g_height: usize,
    reach: i64,
    items: &'items Vec<Item>,
    index: Vec<Vec<Vec<usize>>>,
}

fn empty_grid(g_width: usize, g_height: usize) -> (index: Vec<Vec<Vec<usize>>>)
    ensures
        grid_shaped(index@, g_width as int, g_height as int),
        forall|x: int, y: int|
            0 <= x < g_width && 0 <= y < g_height ==> (#[trigger] bucket(index@, x, y)).len() == 0,
{
    let mut index: Vec<Vec<Vec<usize>>> = Vec::new();
    let mut x: usize = 0;
    while x < g_width
        invariant
            x <= g_width,
            grid_shaped(index@, x as int, g_height as int),
            forall|i: int, j: int|
                0 <= i < x && 0 <= j < g_height ==> (#[trigger] bucket(index@, i, j)).len() == 0,
        decreases g_width - x,
    {
        let mut column: Vec<Vec<usize>> = Vec::new();
        let mut y: usize = 0;
        while y < g_height
            invariant
                y <= g_height,
                column@.len() == y,
                forall|j: int| 0 <= j < y ==> (#[trigger] column@[j])@.len() == 0,
            decreases g_height - y,
        {
            column.push(Vec::new());
            y += 1;
        }
        let ghost before = index@;
        index.push(column);
        proof {
            assert forall|i: int, j: int| 0 <= i < x + 1 && 0 <= j < g_height implies (
            #[trigger] bucket(index@, i, j)).len() == 0 by {
                if i < x {
                    assert(bucket(index@, i, j) == bucket(before, i, j));
                } else {
                    assert(bucket(index@, i, j) == column@[j]@);
                }
            }
        }
        x += 1;
    }
    index
}

impl<'items> ItemIndex<'items> {
    /// The items that the index was built over.
    pub closed spec fn items(&self) -> Seq<Item> {
        self.items@
    }

    /// The grid has at least one cell, every item is filed once, under the
    /// cell that holds its centre, and the reach is that of the widest item.
    pub closed spec fn wf(&self) -> bool {
        &&& 1 <= self.g_width
        &&& 1 <= self.g_height
        &&& self.reach == widest(self.items@, self.items@.len() as int)
        &&& grid_shaped(self.index@, self.g_width as int, self.g_height as int)
        &&& filed_upto(
            self.index@,
            self.items@,
            self.g_width as int,
            self.g_height as int,
            self.items@.len() as int,
        )
    }

    /// The number of columns of cells.
    pub closed spec fn columns(&self) -> int {
        self.g_width as int
    }

    /// The number of rows of cells.
    pub closed spec fn rows(&self) -> int {
        self.g_height as int
    }

    /// How far round a player's disk a query looks for the centres of
    /// items.
    pub closed spec fn reach(&self) -> int {
        self.reach as int
    }

    /// Builds the index over `items` for an arena of the given size: a grid
    /// of cells of side `INDEX_GRID_SIZE` that covers the arena.
    pub fn new(items: &'items Vec<Item>, width: i32, height: i32) -> (index: Self)
        requires
            0 < width,
            0 < height,
        ensures
            index.wf(),
            index.items() == items@,
            index.columns() == spec_grid_size(width as int),
            index.rows() == spec_grid_size(height as int),
            index.reach() == widest(items@, items@.len() as int),
    {
        let g_width = grid_size(width);
        let g_height = grid_size(height);
        let mut index: Vec<Vec<Vec<usize>>> = empty_grid(g_width, g_height);
        let mut reach: i64 = MAX_ITEM_R as i64;
        let mut i: usize = 0;
        while i < items.len()
            invariant
                i <= items@.len(),
                1 <= g_width,
                1 <= g_height,
                reach == widest(items@, i as int),
                grid_shaped(index@, g_width as int, g_height as int),
                filed_upto(index@, items@, g_width as int, g_height as int, i as int),
            decreases items@.len() - i,
        {
            let x = clamp1(row_index(items[i].pos.x as i64), g_width);
            let y = clamp1(row_index(items[i].pos.y as i64), g_height);
            let size = magnitude(items[i].radius);
            if size > reach {
                reach = size;
            }
            let ghost before = index@;
            index[x][y].push(i);
            proof {
                let after = index@;
                assert(bucket(after, x as int, y as int) == bucket(before, x as int, y as int).push(
                    i,
                ));
                assert forall|a: int, b: int|
                    0 <= a < g_width && 0 <= b < g_height && !(a == x && b == y) implies bucket(
                    after,
                    a,
                    b,
                ) == bucket(before, a, b) by {}
                assert forall|j: int| 0 <= j < i + 1 implies lists(
                    #[trigger] bucket(
                        after,
                        cell_of(items@[j].pos.x as int, g_width as int),
                        cell_of(items@[j].pos.y as int, g_height as int),
                    ),
                    j,
                ) by {
                    let a = cell_of(items@[j].pos.x as int, g_width as int);
                    let b = cell_of(items@[j].pos.y as int, g_height as int);
                    if j == i {
                        assert(bucket(after, a, b)[bucket(before, a, b).len() as int] == i);
                    } else {
                        let held = bucket(before, a, b);
                        assert(lists(held, j));
                        let k = choose|k: int| 0 <= k < held.len() && held[k] == j;
                        assert(bucket(after, a, b)[k] == j);
                    }
                }
            }
            i += 1;
        }
        Self { g_width, g_height, reach, items, index }
    }

    fn index_safe(&self, x: i64, y: i64) -> (cell: (usize, usize))
        requires
            self.wf(),
        ensures
            cell.0 == cell_of(x as int, self.g_width as int),
            cell.1 == cell_of(y as int, self.g_height as int),
    {
        (clamp1(row_index(x), self.g_width), clamp1(row_index(y), self.g_height))
    }

    /// The number of items.
    pub fn len(&self) -> (n: usize)
        ensures
            n == self.items().len(),
    {
        self.items.len()
    }

    /// The column of cells that holds item `i`.
    spec fn column_of(&self, i: int) -> int {
        cell_of(self.items@[i].pos.x as int, self.g_width as int)
    }

    /// The row of cells that holds item `i`.
    spec fn row_of(&self, i: int) -> int {
        cell_of(self.items@[i].pos.y as int, self.g_height as int)
    }

    /// Item `i` lies in the window of cells and the sweep, which goes column
    /// by column and within a column row by row, has passed it: its cell
    /// comes before cell `(x, y)`, or it is that cell and the item stands
    /// among the first `k` of its bucket.
    spec fn swept(&self, window: (int, int, int), i: int, x: int, y: int, k: int) -> bool {
        let cx = self.column_of(i);
        let cy = self.row_of(i);
        &&& window.0 <= cx
        &&& window.1 <= cy <= window.2
        &&& cx < x || (cx == x && cy < y) || (cx == x && cy == y && listed_before(
            bucket(self.index@, x, y),
            k,
            i,
        ))
    }

    /// The sweep has gathered exactly the items it has passed that touch the
    /// player.
    spec fn gathered(
        &self,
        hits: Seq<usize>,
        player: Player,
        window: (int, int, int),
        x: int,
        y: int,
        k: int,
    ) -> bool {
        &&& hits.no_duplicates()
        &&& forall|j: int|
            0 <= j < hits.len() ==> {
                let i = #[trigger] hits[j];
                &&& i < self.items@.len()
                &&& self.items@[i as int].spec_intersects(player)
                &&& self.swept(window, i as int, x, y, k)
            }
        &&& forall|i: int|
            0 <= i < self.items@.len() && self.items@[i].spec_intersects(player) && #[trigger] self.swept(
                window,
                i,
                x,
                y,
                k,
            ) ==> lists(hits, i)
    }

    /// The numbers of the items whose disks meet the player's disk, each
    /// once.
    ///
    /// Every number returned is that of an item that meets the player, and
    /// no such item is missed: the cells searched are those that hold the
    /// centres within the player's radius and the reach of the index, and an
    /// item found there is tested by its distance.
    pub fn intersections(&self, player: &Player) -> (hits: Vec<usize>)
        requires
            self.wf(),
        ensures
            hits@.no_duplicates(),
            forall|j: int|
                0 <= j < hits@.len() ==> (#[trigger] hits@[j]) < self.items().len()
                    && self.items()[hits@[j] as int].spec_intersects(*player),
            forall|i: int|
                0 <= i < self.items().len() && #[trigger] self.items()[i].spec_intersects(*player)
                    ==> lists(hits@, i),
    {
        proof {
            lemma_widest(self.items@, self.items@.len() as int);
        }
        let max_distance: i64 = magnitude(player.radius) + self.reach;
        let (x_min, y_min) = self.index_safe(
            player.pos.x as i64 - max_distance,
            player.pos.y as i64 - max_distance,
        );
        let (x_max, y_max) = self.index_safe(
            player.pos.x as i64 + max_distance,
            player.pos.y as i64 + max_distance,
        );
        let ghost window = (x_min as int, y_min as int, y_max as int);
        let mut intersections: Vec<usize> = Vec::new();
        let mut x: usize = x_min;
        while x <= x_max
            invariant
                self.wf(),
                x_min <= x,
                x <= x_max + 1 || x == x_min,
                x_max < self.g_width,
                y_max < self.g_height,
                window == (x_min as int, y_min as int, y_max as int),
                self.gathered(intersections@, *player, window, x as int, y_min as int, 0),
            decreases x_max + 1 - x,
        {
            let mut y: usize = y_min;
            while y <= y_max
                invariant
                    self.wf(),
                    x_min <= x <= x_max,
                    x_max < self.g_width,
                    y_max < self.g_height,
                    y_min <= y,
                    y <= y_max + 1 || y == y_min,
                    window == (x_min as int, y_min as int, y_max as int),
                    self.gathered(intersections@, *player, window, x as int, y as int, 0),
                decreases y_max + 1 - y,
            {
                let cell = &self.index[x][y];
                let mut k: usize = 0;
                while k < cell.len()
                    invariant
                        self.wf(),
                        x_min <= x <= x_max,
                        y_min <= y <= y_max,
                        x_max < self.g_width,
                        y_max < self.g_height,
                        k <= cell@.len(),
                        cell@ == bucket(self.index@, x as int, y as int),
                        window == (x_min as int, y_min as int, y_max as int),
                        self.gathered(intersections@, *player, window, x as int, y as int, k as int),
                    decreases cell@.len() - k,
                {
                    let item_idx = cell[k];
                    let ghost before = intersections@;
                    proof {
                        assert(item_idx == bucket(self.index@, x as int, y as int)[k as int]);
                        assert forall|j: int| 0 <= j < before.len() implies before[j]
                            != item_idx by {
                            let i = before[j];
                            assert(self.swept(window, i as int, x as int, y as int, k as int));
                            if self.column_of(i as int) == x && self.row_of(i as int) == y {
                                let at = choose|at: int| 0 <= at < k && cell@[at] == i;
                                assert(cell@[at] < cell@[k as int]);
                            }
                        }
                    }
                    if self.items[item_idx].intersects(player) {
                        intersections.push(item_idx);
                    }
                    proof {
                        let after = intersections@;
                        assert(listed_before(cell@, k + 1, item_idx as int));
                        assert forall|i: int|
                            self.swept(window, i, x as int, y as int, k as int) implies self.swept(
                            window,
                            i,
                            x as int,
                            y as int,
                            k + 1,
                        ) by {
                            if listed_before(cell@, k as int, i) {
                                let at = choose|at: int| 0 <= at < k && cell@[at] == i;
                                assert(0 <= at < k + 1 && cell@[at] == i);
                            }
                        }
                        assert forall|i: int|
                            0 <= i < self.items@.len() && self.items@[i].spec_intersects(*player)
                                && #[trigger] self.swept(
                                window,
                                i,
                                x as int,
                                y as int,
                                k + 1,
                            ) implies lists(after, i) by {
                            if self.swept(window, i, x as int, y as int, k as int) {
                                assert(lists(before, i));
                                let at = choose|at: int| 0 <= at < before.len() && before[at] == i;
                                assert(after[at] == i);
                            } else {
                                let at = choose|at: int| 0 <= at < k + 1 && cell@[at] == i;
                                assert(at == k);
                                assert(after[before.len() as int] == i);
                            }
                        }
                    }
                    k += 1;
                }
                proof {
                    assert forall|i: int|
                        0 <= i < self.items@.len() implies (self.swept(
                        window,
                        i,
                        x as int,
                        y as int,
                        cell@.len() as int,
                    ) <==> #[trigger] self.swept(window, i, x as int, y + 1, 0)) by {
                        if self.column_of(i) == x && self.row_of(i) == y {
                            assert(lists(bucket(self.index@, x as int, y as int), i));
                            let at = choose|at: int| 0 <= at < cell@.len() && cell@[at] == i;
                            assert(listed_before(cell@, cell@.len() as int, i));
                        }
                    }
                }
                y += 1;
            }
            proof {
                assert forall|i: int|
                    0 <= i < self.items@.len() implies (self.swept(
                    window,
                    i,
                    x as int,
                    y as int,
                    0,
                ) <==> #[trigger] self.swept(window, i, x + 1, y_min as int, 0)) by {}
            }
            x += 1;
        }
        proof {
            assert forall|i: int|
                0 <= i < self.items@.len() && #[trigger] self.items@[i].spec_intersects(
                    *player,
                ) implies lists(intersections@, i) by {
                lemma_touching_is_near(self.items@[i], *player, self.reach as int);
                let d = abs(player.radius as int) + self.reach;
                lemma_cell_monotone(player.pos.x - d, self.items@[i].pos.x as int, self.g_width as int);
                lemma_cell_monotone(self.items@[i].pos.x as int, player.pos.x + d, self.g_width as int);
                lemma_cell_monotone(player.pos.y - d, self.items@[i].pos.y as int, self.g_height as int);
                lemma_cell_monotone(self.items@[i].pos.y as int, player.pos.y + d, self.g_height as int);
                assert(self.swept(window, i, x as int, y_min as int, 0));
            }
        }
        intersections
    }
}

/// Item `i` stands among the first `k` entries of the bucket.
spec fn listed_before(bucket: Seq<usize>, k: int, i: int) -> bool {
    exists|at: int| 0 <= at < k && #[trigger] bucket[at] == i
}

/// The size of a radius.
fn magnitude(radius: i32) -> (size: i64)
    ensures
        size == abs(radius as int),
{
    if radius < 0 {
        -(radius as i64)
    } else {
        radius as i64
    }
}

/// An item that meets the player has its centre within the player's radius
/// plus `reach` of the player's centre, on each axis, where `reach` is no
/// less than the item's radius.
pub proof fn lemma_touching_is_near(item: Item, player: Player, reach: int)
    requires
        item.spec_intersects(player),
        abs(item.radius as int) <= reach,
    ensures
        player.pos.x - (abs(player.radius as int) + reach) <= item.pos.x <= player.pos.x + (abs(
            player.radius as int,
        ) + reach),
        player.pos.y - (abs(player.radius as int) + reach) <= item.pos.y <= player.pos.y + (abs(
            player.radius as int,
        ) + reach),
{
    let dx = item.pos.x - player.pos.x;
    let dy = item.pos.y - player.pos.y;
    let sum = item.radius + player.radius;
    let d = abs(player.radius as int) + reach;
    assert(-d <= dx <= d && -d <= dy <= d) by (nonlinear_arith)
        requires
            dx * dx + dy * dy <= sum * sum,
            -d <= sum <= d,
    ;
}

/// How many ticks ahead the opponents are followed, and how deep the search
/// goes.
pub const MAX_DEPTH: usize = 16;

/// The divisor that stands for an item all but certainly gone.
pub const GONE_DIVISOR: u64 = 10;

/// How many of the first `n` players touch the item after `ticks` ticks.
pub open spec fn contacts(
    players: Seq<Player>,
    item: Item,
    width: int,
    height: int,
    ticks: nat,
    n: int,
) -> int
    decreases n,
{
    if n <= 0 {
        0
    } else {
        contacts(players, item, width, height, ticks, n - 1) + if item.spec_intersects(
            players[n - 1].advanced_by(width, height, ticks),
        ) {
            1int
        } else {
            0int
        }
    }
}

/// How many of the first `n` players touch the item where they stand.
pub open spec fn touching(players: Seq<Player>, item: Item, n: int) -> int
    decreases n,
{
    if n <= 0 {
        0
    } else {
        touching(players, item, n - 1) + if item.spec_intersects(players[n - 1]) {
            1int
        } else {
            0int
        }
    }
}

/// `x`, or the largest `u64` if `x` is larger.
pub open spec fn saturated(x: int) -> int {
    if x > u64::MAX {
        u64::MAX as int
    } else {
        x
    }
}

impl GameState {
    /// Everyone but the controlled player.
    pub open spec fn opponents(&self) -> Seq<Player> {
        self.players@.skip(1)
    }

    /// How many opponents touch item `item` at search depth `depth`, that
    /// is after `depth + 1` ticks, each steering at the target it has now.
    pub open spec fn contacts_at(&self, depth: nat, item: int) -> int {
        contacts(
            self.opponents(),
            self.items@[item],
            self.width as int,
            self.height as int,
            depth + 1,
            self.opponents().len() as int,
        )
    }

    /// The pressure on item `item` at depth `depth`, as a divisor `d`: the
    /// share of the item that is expected to be left for the controlled
    /// player is `1 / d`.
    ///
    /// At depth 0 the item is shared with the opponents that touch it. At a
    /// later depth, an item that was touched one tick earlier is all but
    /// gone, and its share is divided by `GONE_DIVISOR`; else it is shared
    /// again with those that touch it now. A divisor that no longer fits in
    /// 64 bits stays at the largest that does.
    pub open spec fn divisor(&self, depth: nat, item: int) -> int
        decreases depth,
    {
        if depth == 0 {
            saturated(1 + self.contacts_at(0, item))
        } else if self.contacts_at((depth - 1) as nat, item) > 0 {
            saturated(self.divisor((depth - 1) as nat, item) * GONE_DIVISOR)
        } else {
            saturated(self.divisor((depth - 1) as nat, item) * (1 + self.contacts_at(depth, item)))
        }
    }
}

/// No more players touch an item than there are.
pub proof fn lemma_contacts_range(
    players: Seq<Player>,
    item: Item,
    width: int,
    height: int,
    ticks: nat,
    n: int,
)
    requires
        0 <= n,
    ensures
        0 <= contacts(players, item, width, height, ticks, n) <= n,
    decreases n,
{
    if n > 0 {
        lemma_contacts_range(players, item, width, height, ticks, n - 1);
    }
}

/// No more players touch an item than there are.
pub proof fn lemma_touching_range(players: Seq<Player>, item: Item, n: int)
    requires
        0 <= n,
    ensures
        0 <= touching(players, item, n) <= n,
    decreases n,
{
    if n > 0 {
        lemma_touching_range(players, item, n - 1);
    }
}

/// Counting the players that touch an item where they stand after `ticks`
/// ticks is counting the contacts after `ticks` ticks.
pub proof fn lemma_touching_is_contacts(
    start: Seq<Player>,
    now: Seq<Player>,
    item: Item,
    width: int,
    height: int,
    ticks: nat,
    n: int,
)
    requires
        0 <= n <= start.len(),
        now.len() == start.len(),
        forall|j: int|
            0 <= j < start.len() ==> #[trigger] now[j] == start[j].advanced_by(width, height, ticks),
    ensures
        touching(now, item, n) == contacts(start, item, width, height, ticks, n),
    decreases n,
{
    if n > 0 {
        lemma_touching_is_contacts(start, now, item, width, height, ticks, n - 1);
    }
}

/// A divisor is at least 1 and fits in 64 bits.
pub proof fn lemma_divisor_range(state: &GameState, depth: nat, item: int)
    requires
        0 <= item < state.items@.len(),
    ensures
        1 <= state.divisor(depth, item) <= u64::MAX,
    decreases depth,
{
    let n = state.opponents().len() as int;
    let w = state.width as int;
    let h = state.height as int;
    lemma_contacts_range(state.opponents(), state.items@[item], w, h, depth + 1, n);
    if depth > 0 {
        lemma_divisor_range(state, (depth - 1) as nat, item);
        let p = state.divisor((depth - 1) as nat, item);
        let c = state.contacts_at(depth, item);
        assert(p * GONE_DIVISOR >= 1 && p * (1 + c) >= 1) by (nonlinear_arith)
            requires
                p >= 1,
                c >= 0,
        ;
    }
}

/// The share of an item, `1 / divisor`, lies in `(0, 1]` and does not grow
/// with the depth: the divisor is at least 1 and does not shrink.
pub proof fn lemma_divisor_monotone(state: &GameState, depth: nat, item: int)
    requires
        0 <= item < state.items@.len(),
    ensures
        1 <= state.divisor(depth, item) <= state.divisor(depth + 1, item) <= u64::MAX,
{
    let n = state.opponents().len() as int;
    let w = state.width as int;
    let h = state.height as int;
    lemma_contacts_range(state.opponents(), state.items@[item], w, h, depth + 2, n);
    lemma_divisor_range(state, depth, item);
    lemma_divisor_range(state, depth + 1, item);
    let d = state.divisor(depth, item);
    let c = state.contacts_at(depth + 1, item);
    assert(d * GONE_DIVISOR >= d && d * (1 + c) >= d) by (nonlinear_arith)
        requires
            d >= 1,
            c >= 0,
    ;
}

/// The share does not grow between any two depths.
pub proof fn lemma_divisor_grows(state: &GameState, early: nat, late: nat, item: int)
    requires
        early <= late,
        0 <= item < state.items@.len(),
    ensures
        1 <= state.divisor(early, item) <= state.divisor(late, item) <= u64::MAX,
    decreases late - early,
{
    lemma_divisor_monotone(state, early, item);
    if early < late {
        lemma_divisor_monotone(state, (late - 1) as nat, item);
        lemma_divisor_grows(state, early, (late - 1) as nat, item);
    }
}

/// What the search reads of a snapshot: the arena, the items with their
/// index, and the table of divisors, one row for each depth and in each row
/// one entry for each item.
pub struct GamePrecompute<'state> {
    pub width: i32,
    pub height: i32,
    pub turn: usize,
    pub items: &'state Vec<Item>,
    pub turn_item_divisor: Vec<Vec<u64>>,
    pub max_turns: usize,
    pub item_index: ItemIndex<'state>,
}

fn zeros(n: usize) -> (row: Vec<usize>)
    ensures
        row@.len() == n,
        forall|i: int| 0 <= i < n ==> #[trigger] row@[i] == 0,
{
    let mut row: Vec<usize> = Vec::new();
    let mut i: usize = 0;
    while i < n
        invariant
            i <= n,
            row@.len() == i,
            forall|a: int| 0 <= a < i ==> #[trigger] row@[a] == 0,
        decreases n - i,
    {
        row.push(0);
        i += 1;
    }
    row
}

fn opponents_of(state: &GameState) -> (others: Vec<Player>)
    requires
        1 <= state.players@.len(),
    ensures
        others@ == state.opponents(),
{
    let mut others: Vec<Player> = Vec::new();
    let mut j: usize = 1;
    while j < state.players.len()
        invariant
            1 <= j <= state.players@.len(),
            others@ == state.players@.subrange(1, j as int),
        decreases state.players@.len() - j,
    {
        others.push(state.players[j]);
        assert(state.players@.subrange(1, j + 1) == state.players@.subrange(1, j as int).push(
            state.players@[j as int],
        ));
        j += 1;
    }
    others
}

/// `a * b`, or the largest `u64` if the product is larger.
fn saturating_product(a: u64, b: u64) -> (p: u64)
    ensures
        p == saturated(a * b),
{
    match a.checked_mul(b) {
        Some(p) => p,
        None => u64::MAX,
    }
}

impl<'state> GamePrecompute<'state> {
    /// The table has `MAX_DEPTH` rows with an entry for each item, every
    /// entry at least 1, and the index is built over the items.
    pub closed spec fn wf(&self) -> bool {
        &&& 0 < self.width
        &&& 0 < self.height
        &&& self.item_index.wf()
        &&& self.item_index.items() == self.items@
        &&& self.turn_item_divisor@.len() == MAX_DEPTH
        &&& forall|depth: int|
            0 <= depth < MAX_DEPTH ==> (#[trigger] self.turn_item_divisor@[depth])@.len()
                == self.items@.len()
        &&& forall|depth: int, i: int|
            0 <= depth < MAX_DEPTH && 0 <= i < self.items@.len() ==> 1 <= #[trigger] self.divisor_at(
                depth,
                i,
            )
    }

    /// The table's entry for item `i` at depth `depth`.
    pub open spec fn divisor_at(&self, depth: int, i: int) -> int {
        self.turn_item_divisor@[depth]@[i] as int
    }

    /// The share of every item, one over its divisor, lies in `(0, 1]` and
    /// does not grow from one depth to the next.
    pub open spec fn shares_decay(&self) -> bool {
        forall|depth: int, i: int|
            0 <= depth && depth + 1 < MAX_DEPTH && 0 <= i < self.items@.len() ==> 1
                <= #[trigger] self.divisor_at(depth, i) <= self.divisor_at(depth + 1, i)
    }

    /// Follows the opponents for `MAX_DEPTH` ticks and works out the
    /// pressure that they put on each item.
    pub fn new(orig_state: &'state GameState) -> (pre: Self)
        requires
            orig_state.wf(),
            1 <= orig_state.players@.len(),
        ensures
            pre.wf(),
            pre.width == orig_state.width,
            pre.height == orig_state.height,
            pre.turn == orig_state.turn,
            pre.max_turns == orig_state.max_turns,
            pre.items@ == orig_state.items@,
            forall|depth: int, i: int|
                0 <= depth < MAX_DEPTH && 0 <= i < orig_state.items@.len() ==> #[trigger] pre.divisor_at(
                    depth,
                    i,
                ) == orig_state.divisor(depth as nat, i),
            pre.shares_decay(),
            pre.turn_item_divisor@.len() == MAX_DEPTH,
            forall|depth: int|
                0 <= depth < MAX_DEPTH ==> (#[trigger] pre.turn_item_divisor@[depth])@.len()
                    == orig_state.items@.len(),
            pre.item_index.columns() == spec_grid_size(orig_state.width as int),
            pre.item_index.rows() == spec_grid_size(orig_state.height as int),
            pre.item_index.reach() == widest(orig_state.items@, orig_state.items@.len() as int),
    {
        let width = orig_state.width;
        let height = orig_state.height;
        let items = &orig_state.items;
        let n = items.len();
        let item_index = ItemIndex::new(items, width, height);
        let mut others = opponents_of(orig_state);
        let ghost start = others@;
        let mut turn_item_eaten: Vec<Vec<usize>> = Vec::new();
        let mut step: usize = 0;
        while step < MAX_DEPTH
            invariant
                step <= MAX_DEPTH,
                orig_state.wf(),
                1 <= orig_state.players@.len(),
                width == orig_state.width,
                height == orig_state.height,
                items@ == orig_state.items@,
                n == items@.len(),
                item_index.wf(),
                item_index.items() == items@,
                start == orig_state.opponents(),
                others@.len() == start.len(),
                forall|j: int|
                    0 <= j < start.len() ==> #[trigger] others@[j] == start[j].advanced_by(
                        width as int,
                        height as int,
                        step as nat,
                    ),
                turn_item_eaten@.len() == step,
                forall|s: int| 0 <= s < step ==> (#[trigger] turn_item_eaten@[s])@.len() == n,
                forall|s: int, i: int|
                    0 <= s < step && 0 <= i < n ==> #[trigger] turn_item_eaten@[s]@[i]
                        == orig_state.contacts_at(s as nat, i),
            decreases MAX_DEPTH - step,
        {
            proof {
                assert forall|j: int| 0 <= j < others@.len() implies (#[trigger] others@[j]).at_home(
                    width as int,
                    height as int,
                ) by {
                    assert(start[j] == orig_state.players@[j + 1]);
                    lemma_advanced_by_at_home(start[j], width as int, height as int, step as nat);
                }
            }
            advance_all(&mut others, width, height);
            let row = tally(&item_index, &others);
            proof {
                assert forall|i: int| 0 <= i < n implies #[trigger] row@[i]
                    == orig_state.contacts_at(step as nat, i) by {
                    lemma_touching_is_contacts(
                        start,
                        others@,
                        items@[i],
                        width as int,
                        height as int,
                        (step + 1) as nat,
                        start.len() as int,
                    );
                }
            }
            turn_item_eaten.push(row);
            step += 1;
        }
        let mut turn_item_divisor: Vec<Vec<u64>> = Vec::new();
        let mut step: usize = 0;
        while step < MAX_DEPTH
            invariant
                step <= MAX_DEPTH,
                n == orig_state.items@.len(),
                turn_item_eaten@.len() == MAX_DEPTH,
                forall|s: int| 0 <= s < MAX_DEPTH ==> (#[trigger] turn_item_eaten@[s])@.len() == n,
                forall|s: int, i: int|
                    0 <= s < MAX_DEPTH && 0 <= i < n ==> #[trigger] turn_item_eaten@[s]@[i]
                        == orig_state.contacts_at(s as nat, i),
                turn_item_divisor@.len() == step,
                forall|s: int| 0 <= s < step ==> (#[trigger] turn_item_divisor@[s])@.len() == n,
                forall|s: int, i: int|
                    0 <= s < step && 0 <= i < n ==> #[trigger] turn_item_divisor@[s]@[i]
                        == orig_state.divisor(s as nat, i),
            decreases MAX_DEPTH - step,
        {
            let mut row: Vec<u64> = Vec::new();
            let mut i: usize = 0;
            while i < n
                invariant
                    i <= n,
                    step < MAX_DEPTH,
                    n == orig_state.items@.len(),
                    turn_item_eaten@.len() == MAX_DEPTH,
                    forall|s: int|
                        0 <= s < MAX_DEPTH ==> (#[trigger] turn_item_eaten@[s])@.len() == n,
                    forall|s: int, a: int|
                        0 <= s < MAX_DEPTH && 0 <= a < n ==> #[trigger] turn_item_eaten@[s]@[a]
                            == orig_state.contacts_at(s as nat, a),
                    turn_item_divisor@.len() == step,
                    forall|s: int|
                        0 <= s < step ==> (#[trigger] turn_item_divisor@[s])@.len() == n,
                    forall|s: int, a: int|
                        0 <= s < step && 0 <= a < n ==> #[trigger] turn_item_divisor@[s]@[a]
                            == orig_state.divisor(s as nat, a),
                    row@.len() == i,
                    forall|a: int|
                        0 <= a < i ==> #[trigger] row@[a] == orig_state.divisor(step as nat, a),
                decreases n - i,
            {
                let eaten: u64 = turn_item_eaten[step][i] as u64;
                let value: u64 = if step == 0 {
                    eaten.saturating_add(1)
                } else if turn_item_eaten[step - 1][i] > 0 {
                    saturating_product(turn_item_divisor[step - 1][i], GONE_DIVISOR)
                } else {
                    saturating_product(turn_item_divisor[step - 1][i], eaten.saturating_add(1))
                };
                proof {
                    lemma_contacts_range(
                        orig_state.opponents(),
                        orig_state.items@[i as int],
                        orig_state.width as int,
                        orig_state.height as int,
                        (step + 1) as nat,
                        orig_state.opponents().len() as int,
                    );
                    if step > 0 {
                        lemma_divisor_range(orig_state, (step - 1) as nat, i as int);
                        lemma_saturated_twice(
                            orig_state.divisor((step - 1) as nat, i as int),
                            1 + eaten,
                        );
                    }
                }
                row.push(value);
                i += 1;
            }
            turn_item_divisor.push(row);
            step += 1;
        }
        let pre = Self {
            width,
            height,
            turn: orig_state.turn,
            items,
            turn_item_divisor,
            max_turns: orig_state.max_turns,
            item_index,
        };
        proof {
            assert forall|depth: int, i: int|
                0 <= depth < MAX_DEPTH && 0 <= i < n implies 1 <= #[trigger] pre.divisor_at(
                depth,
                i,
            ) by {
                lemma_divisor_range(orig_state, depth as nat, i);
            }
            assert forall|depth: int, i: int|
                0 <= depth && depth + 1 < MAX_DEPTH && 0 <= i < n implies 1
                <= #[trigger] pre.divisor_at(depth, i) <= pre.divisor_at(depth + 1, i) by {
                lemma_divisor_monotone(orig_state, depth as nat, i);
                assert(pre.divisor_at(depth + 1, i) == orig_state.divisor((depth + 1) as nat, i));
            }
        }
        pre
    }
}

/// The score of one whole item. Scores are counted in millionths of an item.
pub const ITEM_SCORE: u128 = 1_000_000;

/// The player as the collisions of one search node see it: the radius is
/// inflated by `blow`, nothing else changes.
pub open spec fn blown(me: Player, blow: int) -> Player {
    Player {
        pos: me.pos,
        speed: me.speed,
        target: me.target,
        score: me.score,
        radius: (me.radius + blow) as i32,
    }
}

impl<'state> GamePrecompute<'state> {
    /// What is left of item `i` at depth `depth`, in millionths of the item,
    /// rounded down: a share below a millionth, behind a divisor above
    /// `ITEM_SCORE`, counts for nothing in a score.
    pub open spec fn share(&self, depth: int, i: int) -> int {
        ITEM_SCORE as int / self.divisor_at(depth, i)
    }

    /// The shares of the first `n` items that `mask` marks, added up.
    pub open spec fn masked_gain(&self, mask: Seq<bool>, depth: int, n: int) -> int
        decreases n,
    {
        if n <= 0 {
            0
        } else {
            self.masked_gain(mask, depth, n - 1) + if mask[n - 1] {
                self.share(depth, n - 1)
            } else {
                0
            }
        }
    }

    /// The items that `probe` picks up: those still available that it
    /// touches.
    pub open spec fn picked(&self, probe: Player, available: Seq<bool>) -> Seq<bool> {
        Seq::new(
            self.items@.len(),
            |i: int| available[i] && self.items@[i].spec_intersects(probe),
        )
    }

    /// The items still available once `probe` has picked up what it touches.
    pub open spec fn left(&self, probe: Player, available: Seq<bool>) -> Seq<bool> {
        Seq::new(
            self.items@.len(),
            |i: int| available[i] && !self.items@[i].spec_intersects(probe),
        )
    }

    /// What `probe` gains at depth `depth`: the shares of the items it picks
    /// up.
    pub open spec fn gain(&self, probe: Player, available: Seq<bool>, depth: int) -> int {
        self.masked_gain(self.picked(probe, available), depth, self.items@.len() as int)
    }

    /// A gain is not negative and no more than one item's score for each
    /// item.
    pub proof fn lemma_masked_gain_range(&self, mask: Seq<bool>, depth: int, n: int)
        requires
            self.wf(),
            0 <= depth < MAX_DEPTH,
            0 <= n <= self.items@.len(),
        ensures
            0 <= self.masked_gain(mask, depth, n) <= n * ITEM_SCORE,
        decreases n,
    {
        if n > 0 {
            self.lemma_masked_gain_range(mask, depth, n - 1);
            let d = self.divisor_at(depth, n - 1);
            assert(1 <= d);
            assert(0 <= ITEM_SCORE as int / d <= ITEM_SCORE) by (nonlinear_arith)
                requires
                    1 <= d,
            ;
        }
    }

    /// Marking one more item adds its share.
    pub proof fn lemma_masked_gain_mark(&self, mask: Seq<bool>, depth: int, n: int, i: int)
        requires
            0 <= i < mask.len(),
            n <= mask.len(),
            !mask[i],
        ensures
            self.masked_gain(mask.update(i, true), depth, n) == self.masked_gain(mask, depth, n)
                + if i < n {
                self.share(depth, i)
            } else {
                0
            },
        decreases n,
    {
        if n > 0 {
            self.lemma_masked_gain_mark(mask, depth, n - 1, i);
        }
    }

    /// Masks that agree on the first `n` items gain the same from them.
    pub proof fn lemma_masked_gain_agree(&self, a: Seq<bool>, b: Seq<bool>, depth: int, n: int)
        requires
            forall|i: int| 0 <= i < n ==> a[i] == b[i],
        ensures
            self.masked_gain(a, depth, n) == self.masked_gain(b, depth, n),
        decreases n,
    {
        if n > 0 {
            self.lemma_masked_gain_agree(a, b, depth, n - 1);
        }
    }

    /// Moves the player by one tick and lets it pick up every item that is
    /// still available and that it touches with its radius inflated by
    /// `blow`. Returns the gain; the items picked up are no longer
    /// available, and none returns.
    pub fn step(&self, me: &mut Player, items: &mut Vec<bool>, depth: usize, blow: i32) -> (score:
        u128)
        requires
            self.wf(),
            old(me).at_home(self.width as int, self.height as int),
            old(items)@.len() == self.items@.len(),
            depth < MAX_DEPTH,
            0 <= blow,
            old(me).radius + blow <= i32::MAX,
        ensures
            *final(me) == old(me).advanced(self.width as int, self.height as int),
            final(items)@ == self.left(blown(*final(me), blow as int), old(items)@),
            score == self.gain(blown(*final(me), blow as int), old(items)@, depth as int),
            score <= self.items@.len() * ITEM_SCORE,
            forall|i: int| 0 <= i < self.items@.len() && final(items)@[i] ==> old(items)@[i],
    {
        next_turn_player_state(me, self.width, self.height);
        let probe = Player {
            pos: me.pos,
            speed: me.speed,
            target: me.target,
            score: me.score,
            radius: me.radius + blow,
        };
        let hits = self.item_index.intersections(&probe);
        let n = items.len();
        let ghost available = items@;
        let ghost mut mask = Seq::new(n as nat, |i: int| false);
        let mut score: u128 = 0;
        let mut k: usize = 0;
        proof {
            self.lemma_masked_gain_zero(mask, depth as int, n as int);
        }
        while k < hits.len()
            invariant
                k <= hits@.len(),
                self.wf(),
                depth < MAX_DEPTH,
                n == self.items@.len(),
                available.len() == n,
                hits@.no_duplicates(),
                forall|a: int| 0 <= a < hits@.len() ==> (#[trigger] hits@[a]) < n,
                items@.len() == n,
                mask.len() == n,
                forall|i: int|
                    0 <= i < n ==> #[trigger] mask[i] == (available[i] && listed_before(
                        hits@,
                        k as int,
                        i,
                    )),
                forall|i: int|
                    0 <= i < n ==> #[trigger] items@[i] == (available[i] && !listed_before(
                        hits@,
                        k as int,
                        i,
                    )),
                score == self.masked_gain(mask, depth as int, n as int),
            decreases hits@.len() - k,
        {
            let i = hits[k];
            let ghost mask_before = mask;
            proof {
                if listed_before(hits@, k as int, i as int) {
                    let at = choose|at: int| 0 <= at < k && hits@[at] == i;
                    assert(hits@[at] == hits@[k as int]);
                }
                assert(0 <= k < k + 1 && hits@[k as int] == i);
            }
            if items[i] {
                proof {
                    mask = mask.update(i as int, true);
                    self.lemma_masked_gain_mark(mask_before, depth as int, n as int, i as int);
                    self.lemma_masked_gain_range(mask, depth as int, n as int);
                    assert(n * ITEM_SCORE <= usize::MAX * ITEM_SCORE) by (nonlinear_arith)
                        requires
                            n <= usize::MAX,
                    ;
                }
                score = score + ITEM_SCORE / (self.turn_item_divisor[depth][i] as u128);
                items.set(i, false);
            }
            proof {
                assert forall|j: int| 0 <= j < n implies (listed_before(hits@, k + 1, j) <==> (
                listed_before(hits@, k as int, j) || j == i)) by {
                    if listed_before(hits@, k as int, j) {
                        let at = choose|at: int| 0 <= at < k && hits@[at] == j;
                        assert(0 <= at < k + 1 && hits@[at] == j);
                    }
                    if listed_before(hits@, k + 1, j) {
                        let at = choose|at: int| 0 <= at < k + 1 && hits@[at] == j;
                        if at < k {
                            assert(listed_before(hits@, k as int, j));
                        }
                    }
                }
            }
            k += 1;
        }
        proof {
            let probe_spec = blown(*me, blow as int);
            assert(probe == probe_spec);
            assert forall|i: int| 0 <= i < n implies (listed_before(hits@, hits@.len() as int, i)
                <==> self.items@[i].spec_intersects(probe)) by {
                if listed_before(hits@, hits@.len() as int, i) {
                    let at = choose|at: int| 0 <= at < hits@.len() && hits@[at] == i;
                    assert(self.items@[hits@[at] as int].spec_intersects(probe));
                }
                if self.items@[i].spec_intersects(probe) {
                    assert(lists(hits@, i));
                    let at = choose|at: int| 0 <= at < hits@.len() && hits@[at] == i;
                    assert(listed_before(hits@, hits@.len() as int, i));
                }
            }
            assert(items@ =~= self.left(probe_spec, available));
            self.lemma_masked_gain_agree(
                mask,
                self.picked(probe_spec, available),
                depth as int,
                n as int,
            );
            self.lemma_masked_gain_range(mask, depth as int, n as int);
        }
        score
    }

    /// Nothing marked, nothing gained.
    pub proof fn lemma_masked_gain_zero(&self, mask: Seq<bool>, depth: int, n: int)
        requires
            forall|i: int| 0 <= i < n ==> !mask[i],
        ensures
            self.masked_gain(mask, depth, n) == 0,
        decreases n,
    {
        if n > 0 {
            self.lemma_masked_gain_zero(mask, depth, n - 1);
        }
    }
}

/// Saturating a factor first leaves a saturated product as it is.
proof fn lemma_saturated_twice(d: int, f: int)
    requires
        1 <= d,
        1 <= f,
    ensures
        saturated(d * saturated(f)) == saturated(d * f),
{
    if f > u64::MAX {
        assert(d * (u64::MAX as int) >= u64::MAX && d * f >= u64::MAX) by (nonlinear_arith)
            requires
                1 <= d,
                f > u64::MAX,
        ;
    }
}

/// For each item, how many of the players touch it where they stand.
fn tally(item_index: &ItemIndex, players: &Vec<Player>) -> (row: Vec<usize>)
    requires
        item_index.wf(),
    ensures
        row@.len() == item_index.items().len(),
        forall|i: int|
            0 <= i < row@.len() ==> #[trigger] row@[i] == touching(
                players@,
                item_index.items()[i],
                players@.len() as int,
            ),
{
    let ghost items = item_index.items();
    let n = item_index.len();
    let mut row = zeros(n);
    let mut j: usize = 0;
    while j < players.len()
        invariant
            j <= players@.len(),
            item_index.wf(),
            items == item_index.items(),
            n == items.len(),
            row@.len() == n,
            forall|i: int|
                0 <= i < n ==> #[trigger] row@[i] == touching(players@, items[i], j as int),
        decreases players@.len() - j,
    {
        let hits = item_index.intersections(&players[j]);
        let ghost base = row@;
        let mut k: usize = 0;
        while k < hits.len()
            invariant
                k <= hits@.len(),
                j < players@.len(),
                j < usize::MAX,
                n == items.len(),
                hits@.no_duplicates(),
                forall|a: int| 0 <= a < hits@.len() ==> (#[trigger] hits@[a]) < n,
                base.len() == n,
                forall|i: int|
                    0 <= i < n ==> #[trigger] base[i] == touching(players@, items[i], j as int),
                row@.len() == n,
                forall|i: int|
                    0 <= i < n ==> #[trigger] row@[i] == base[i] + if listed_before(hits@, k as int, i) {
                        1int
                    } else {
                        0int
                    },
            decreases hits@.len() - k,
        {
            let hit = hits[k];
            proof {
                lemma_touching_range(players@, items[hit as int], j as int);
                if listed_before(hits@, k as int, hit as int) {
                    let at = choose|at: int| 0 <= at < k && hits@[at] == hit;
                    assert(hits@[at] == hits@[k as int]);
                }
            }
            let ghost earlier = row@;
            row.set(hit, row[hit] + 1);
            proof {
                assert forall|i: int| 0 <= i < n implies #[trigger] row@[i] == base[i]
                    + if listed_before(hits@, k + 1, i) {
                    1int
                } else {
                    0int
                } by {
                    if listed_before(hits@, k as int, i) {
                        let at = choose|at: int| 0 <= at < k && hits@[at] == i;
                        assert(0 <= at < k + 1 && hits@[at] == i);
                    }
                    if i == hit {
                        assert(0 <= k < k + 1 && hits@[k as int] == i);
                    } else if listed_before(hits@, k + 1, i) {
                        let at = choose|at: int| 0 <= at < k + 1 && hits@[at] == i;
                        assert(at < k);
                    }
                }
            }
            k += 1;
        }
        proof {
            assert forall|i: int| 0 <= i < n implies #[trigger] row@[i] == touching(players@, items[i], j + 1) by {
                let touches = items[i].spec_intersects(players@[j as int]);
                if listed_before(hits@, hits@.len() as int, i) {
                    let at = choose|at: int| 0 <= at < hits@.len() && hits@[at] == i;
                    assert(items[hits@[at] as int].spec_intersects(players@[j as int]));
                }
                if touches {
                    assert(lists(hits@, i));
                    let at = choose|at: int| 0 <= at < hits@.len() && hits@[at] == i;
                    assert(listed_before(hits@, hits@.len() as int, i));
                }
            }
        }
        j += 1;
    }
    row
}

} // verus!
