//! The text form of a snapshot: a stream of tokens, written in lines.
//!
//! ```text
//! TURN <turn> <max_turns> <width> <height> <game_id>
//! <number of players>
//! <name> <score> <x> <y> <radius> <vx> <vy> <target_x> <target_y>
//! <number of items>
//! <x> <y> <radius>
//! END_STATE
//! ```
//!
//! with one line for each player and one for each item. A reader takes the
//! tokens wherever the white space stands; what follows `END_STATE` is not
//! read. Players have no names here: a name is read over, and written as
//! `player`.

use crate::decimal::{
    decimal, int_text, is_digit, lemma_decimal_reads_back, lemma_int_text_reads_back, parse_i32,
    parse_usize, push_decimal, push_int,
};
use crate::game_state::{GameState, Item, Player, Snapshot};
use crate::point::Point;
use crate::tokens::{
    i32_at, is_space, is_word, joined, lemma_tokens_are_words, lemma_tokens_of_joined, tokens,
    usize_at, word_at, ParseError, TokenReader,
};
use vstd::prelude::*;
use vstd::string::StringExecFns;

verus! {

/// The word that opens a snapshot.
pub open spec fn turn_word() -> Seq<char> {
    seq!['T', 'U', 'R', 'N']
}

/// The word that closes a snapshot.
pub open spec fn end_word() -> Seq<char> {
    seq!['E', 'N', 'D', '_', 'S', 'T', 'A', 'T', 'E']
}

/// The name that every player is written with.
pub open spec fn name_word() -> Seq<char> {
    seq!['p', 'l', 'a', 'y', 'e', 'r']
}

/// The tokens before the first player: the opening word, the turn, the
/// last turn, the width, the height, the game's name and the number of
/// players.
pub const HEADER_TOKENS: usize = 7;

/// The tokens of one player.
pub const PLAYER_TOKENS: usize = 9;

/// The tokens of one item.
pub const ITEM_TOKENS: usize = 3;

/// The number that token `k` stands for, or 0 if it is no `usize`.
pub open spec fn count_at(ts: Seq<Seq<char>>, k: int) -> int {
    match usize_at(ts, k) {
        Ok(n) => n as int,
        Err(_) => 0,
    }
}

/// The number that token `k` stands for, or 0 if it is no `i32`.
pub open spec fn int_at(ts: Seq<Seq<char>>, k: int) -> i32 {
    match i32_at(ts, k) {
        Ok(v) => v,
        Err(_) => 0,
    }
}

/// The place of the token that counts the items.
pub open spec fn items_place(ts: Seq<Seq<char>>) -> int {
    HEADER_TOKENS + PLAYER_TOKENS * count_at(ts, HEADER_TOKENS - 1)
}

/// The place of the closing word.
pub open spec fn end_place(ts: Seq<Seq<char>>) -> int {
    items_place(ts) + 1 + ITEM_TOKENS * count_at(ts, items_place(ts))
}

/// What is wrong with token `k` as a word.
pub open spec fn word_error(ts: Seq<Seq<char>>, k: int) -> Option<ParseError> {
    match word_at(ts, k) {
        Ok(_) => None,
        Err(e) => Some(e),
    }
}

/// What is wrong with token `k` as the word `word`.
pub open spec fn keyword_error(ts: Seq<Seq<char>>, k: int, word: Seq<char>) -> Option<ParseError> {
    match word_at(ts, k) {
        Ok(w) => if w == word {
            None
        } else {
            Some(ParseError::Unexpected(k as usize))
        },
        Err(e) => Some(e),
    }
}

/// What is wrong with token `k` as an `i32`.
pub open spec fn int_error(ts: Seq<Seq<char>>, k: int) -> Option<ParseError> {
    match i32_at(ts, k) {
        Ok(_) => None,
        Err(e) => Some(e),
    }
}

/// What is wrong with token `k` as a `usize`.
pub open spec fn count_error(ts: Seq<Seq<char>>, k: int) -> Option<ParseError> {
    match usize_at(ts, k) {
        Ok(_) => None,
        Err(e) => Some(e),
    }
}

/// What is wrong with token `k` in the place where it stands, if the tokens
/// before it are in order.
pub open spec fn error_at(ts: Seq<Seq<char>>, k: int) -> Option<ParseError> {
    if k == 0 {
        keyword_error(ts, k, turn_word())
    } else if k == 1 || k == 2 || k == 6 {
        count_error(ts, k)
    } else if k == 3 || k == 4 {
        int_error(ts, k)
    } else if k == 5 {
        word_error(ts, k)
    } else if k < items_place(ts) {
        if (k - HEADER_TOKENS) % (PLAYER_TOKENS as int) == 0 {
            word_error(ts, k)
        } else {
            int_error(ts, k)
        }
    } else if k == items_place(ts) {
        count_error(ts, k)
    } else if k < end_place(ts) {
        int_error(ts, k)
    } else if k == end_place(ts) {
        keyword_error(ts, k, end_word())
    } else {
        None
    }
}

/// The first thing wrong with the tokens from place `k` on.
pub open spec fn first_error(ts: Seq<Seq<char>>, k: int) -> Option<ParseError>
    decreases end_place(ts) + 1 - k,
{
    if k > end_place(ts) {
        None
    } else if error_at(ts, k) is Some {
        error_at(ts, k)
    } else {
        first_error(ts, k + 1)
    }
}

/// The player whose tokens start at place `k`, the name first.
pub open spec fn player_at(ts: Seq<Seq<char>>, k: int) -> Player {
    Player {
        score: int_at(ts, k + 1),
        pos: Point { x: int_at(ts, k + 2), y: int_at(ts, k + 3) },
        radius: int_at(ts, k + 4),
        speed: Point { x: int_at(ts, k + 5), y: int_at(ts, k + 6) },
        target: Point { x: int_at(ts, k + 7), y: int_at(ts, k + 8) },
    }
}

/// The item whose tokens start at place `k`.
pub open spec fn item_at(ts: Seq<Seq<char>>, k: int) -> Item {
    Item { pos: Point { x: int_at(ts, k), y: int_at(ts, k + 1) }, radius: int_at(ts, k + 2) }
}

/// The snapshot that tokens in order stand for.
pub open spec fn built(ts: Seq<Seq<char>>) -> Snapshot {
    Snapshot {
        turn: count_at(ts, 1) as usize,
        max_turns: count_at(ts, 2) as usize,
        width: int_at(ts, 3),
        height: int_at(ts, 4),
        game_id: ts[5],
        players: Seq::new(
            count_at(ts, 6) as nat,
            |j: int| player_at(ts, HEADER_TOKENS + PLAYER_TOKENS * j),
        ),
        items: Seq::new(
            count_at(ts, items_place(ts)) as nat,
            |i: int| item_at(ts, items_place(ts) + 1 + ITEM_TOKENS * i),
        ),
    }
}

/// What a text stands for: the snapshot, or the first thing wrong with it.
pub open spec fn spec_parse(s: Seq<char>) -> Result<Snapshot, ParseError> {
    match first_error(tokens(s), 0) {
        Some(e) => Err(e),
        None => Ok(built(tokens(s))),
    }
}

/// No token before place `k` has anything wrong with it.
pub open spec fn clean_upto(ts: Seq<Seq<char>>, k: int) -> bool {
    forall|j: int| 0 <= j < k ==> #[trigger] error_at(ts, j) is None
}

/// Where the tokens before place `k` are in order, the first thing wrong
/// is the first thing wrong from place `k` on.
pub proof fn lemma_first_error_from(ts: Seq<Seq<char>>, k: int)
    requires
        clean_upto(ts, k),
        0 <= k,
    ensures
        first_error(ts, 0) == first_error(ts, k),
    decreases k,
{
    if k > 0 {
        lemma_first_error_from(ts, k - 1);
        assert(error_at(ts, k - 1) is None);
        if k - 1 > end_place(ts) {
            assert(first_error(ts, k - 1) == first_error(ts, k));
        }
    }
}

/// The reader stands at a place up to which the tokens are in order, and
/// which a well-formed text has.
pub open spec fn on_track(reader: TokenReader, ts: Seq<Seq<char>>, k: int) -> bool {
    &&& reader.wf()
    &&& reader.all() == ts
    &&& reader.taken() == k
    &&& clean_upto(ts, k)
    &&& 0 <= k <= end_place(ts)
}

/// The reader has read the token at place `k` and found it in order.
pub open spec fn moved_on(reader: TokenReader, ts: Seq<Seq<char>>, k: int) -> bool {
    &&& reader.wf()
    &&& reader.all() == ts
    &&& reader.taken() == k + 1
    &&& clean_upto(ts, k + 1)
}

fn take_int(reader: &mut TokenReader, Ghost(ts): Ghost<Seq<Seq<char>>>, Ghost(k): Ghost<int>) -> (r:
    Result<i32, ParseError>)
    requires
        on_track(*old(reader), ts, k),
        error_at(ts, k) == int_error(ts, k),
    ensures
        match r {
            Ok(v) => moved_on(*final(reader), ts, k) && v == int_at(ts, k),
            Err(e) => first_error(ts, 0) == Some(e),
        },
{
    let r = reader.next_i32();
    proof {
        lemma_first_error_from(ts, k);
    }
    r
}

fn take_count(reader: &mut TokenReader, Ghost(ts): Ghost<Seq<Seq<char>>>, Ghost(k): Ghost<int>) -> (r:
    Result<usize, ParseError>)
    requires
        on_track(*old(reader), ts, k),
        error_at(ts, k) == count_error(ts, k),
    ensures
        match r {
            Ok(v) => moved_on(*final(reader), ts, k) && v == count_at(ts, k),
            Err(e) => first_error(ts, 0) == Some(e),
        },
{
    let r = reader.next_usize();
    proof {
        lemma_first_error_from(ts, k);
    }
    r
}

fn take_name(reader: &mut TokenReader, Ghost(ts): Ghost<Seq<Seq<char>>>, Ghost(k): Ghost<int>) -> (r:
    Result<(), ParseError>)
    requires
        on_track(*old(reader), ts, k),
        error_at(ts, k) == word_error(ts, k),
    ensures
        match r {
            Ok(_) => moved_on(*final(reader), ts, k),
            Err(e) => first_error(ts, 0) == Some(e),
        },
{
    let r = reader.skip();
    proof {
        lemma_first_error_from(ts, k);
    }
    r
}

fn take_word(reader: &mut TokenReader, Ghost(ts): Ghost<Seq<Seq<char>>>, Ghost(k): Ghost<int>) -> (r:
    Result<String, ParseError>)
    requires
        on_track(*old(reader), ts, k),
        error_at(ts, k) == word_error(ts, k),
    ensures
        match r {
            Ok(word) => moved_on(*final(reader), ts, k) && word@ == ts[k] && 0 <= k < ts.len(),
            Err(e) => first_error(ts, 0) == Some(e),
        },
{
    let r = reader.next();
    proof {
        lemma_first_error_from(ts, k);
    }
    r
}

fn take_keyword(
    reader: &mut TokenReader,
    word: &str,
    Ghost(ts): Ghost<Seq<Seq<char>>>,
    Ghost(k): Ghost<int>,
) -> (r: Result<(), ParseError>)
    requires
        on_track(*old(reader), ts, k),
        error_at(ts, k) == keyword_error(ts, k, word@),
        k <= usize::MAX,
    ensures
        match r {
            Ok(_) => moved_on(*final(reader), ts, k),
            Err(e) => first_error(ts, 0) == Some(e),
        },
{
    let r = reader.next();
    proof {
        lemma_first_error_from(ts, k);
    }
    match r {
        Ok(found) => {
            if found == String::from_str(word) {
                Ok(())
            } else {
                Err(ParseError::Unexpected(reader.position() - 1))
            }
        },
        Err(e) => Err(e),
    }
}

impl GameState {
    /// Reads a snapshot from its text form.
    pub fn from_string(s: &str) -> (r: Result<GameState, ParseError>)
        ensures
            match r {
                Ok(state) => spec_parse(s@) == Ok::<Snapshot, ParseError>(state@),
                Err(e) => spec_parse(s@) == Err::<Snapshot, ParseError>(e),
            },
    {
        let mut reader = TokenReader::new(s);
        let ghost ts = reader.all();
        proof {
            reveal_strlit("TURN");
            reveal_strlit("END_STATE");
            assert("TURN"@ =~= turn_word());
            assert("END_STATE"@ =~= end_word());
        }
        take_keyword(&mut reader, "TURN", Ghost(ts), Ghost(0))?;
        let turn = take_count(&mut reader, Ghost(ts), Ghost(1))?;
        let max_turns = take_count(&mut reader, Ghost(ts), Ghost(2))?;
        let width = take_int(&mut reader, Ghost(ts), Ghost(3))?;
        let height = take_int(&mut reader, Ghost(ts), Ghost(4))?;
        let game_id = take_word(&mut reader, Ghost(ts), Ghost(5))?;
        let num_players = take_count(&mut reader, Ghost(ts), Ghost(6))?;
        let mut players: Vec<Player> = Vec::new();
        let mut j: usize = 0;
        while j < num_players
            invariant
                j <= num_players,
                ts == tokens(s@),
                num_players == count_at(ts, 6),
                moved_on(reader, ts, 6 + PLAYER_TOKENS * j),
                players@.len() == j,
                forall|a: int|
                    0 <= a < j ==> #[trigger] players@[a] == player_at(
                        ts,
                        HEADER_TOKENS + PLAYER_TOKENS * a,
                    ),
            decreases num_players - j,
        {
            let ghost base = HEADER_TOKENS + PLAYER_TOKENS * j;
            proof {
                lemma_player_places(ts, j as int);
            }
            take_name(&mut reader, Ghost(ts), Ghost(base))?;
            let score = take_int(&mut reader, Ghost(ts), Ghost(base + 1))?;
            let x = take_int(&mut reader, Ghost(ts), Ghost(base + 2))?;
            let y = take_int(&mut reader, Ghost(ts), Ghost(base + 3))?;
            let r = take_int(&mut reader, Ghost(ts), Ghost(base + 4))?;
            let vx = take_int(&mut reader, Ghost(ts), Ghost(base + 5))?;
            let vy = take_int(&mut reader, Ghost(ts), Ghost(base + 6))?;
            let target_x = take_int(&mut reader, Ghost(ts), Ghost(base + 7))?;
            let target_y = take_int(&mut reader, Ghost(ts), Ghost(base + 8))?;
            players.push(
                Player {
                    score,
                    pos: Point { x, y },
                    speed: Point { x: vx, y: vy },
                    target: Point { x: target_x, y: target_y },
                    radius: r,
                },
            );
            j += 1;
        }
        let ghost items_from = items_place(ts);
        let num_items = take_count(&mut reader, Ghost(ts), Ghost(items_from))?;
        let mut items: Vec<Item> = Vec::new();
        let mut i: usize = 0;
        while i < num_items
            invariant
                i <= num_items,
                ts == tokens(s@),
                items_from == items_place(ts),
                num_items == count_at(ts, items_from),
                moved_on(reader, ts, items_from + ITEM_TOKENS * i),
                items@.len() == i,
                forall|a: int|
                    0 <= a < i ==> #[trigger] items@[a] == item_at(
                        ts,
                        items_from + 1 + ITEM_TOKENS * a,
                    ),
            decreases num_items - i,
        {
            let ghost base = items_from + 1 + ITEM_TOKENS * i;
            proof {
                lemma_item_places(ts, i as int);
            }
            let x = take_int(&mut reader, Ghost(ts), Ghost(base))?;
            let y = take_int(&mut reader, Ghost(ts), Ghost(base + 1))?;
            let r = take_int(&mut reader, Ghost(ts), Ghost(base + 2))?;
            items.push(Item { pos: Point { x, y }, radius: r });
            i += 1;
        }
        proof {
            assert(end_place(ts) <= reader.taken());
            reader.lemma_taken_fits();
        }
        take_keyword(&mut reader, "END_STATE", Ghost(ts), Ghost(end_place(ts)))?;
        let state = GameState { width, height, turn, max_turns, players, items, game_id };
        proof {
            lemma_first_error_from(ts, end_place(ts) + 1);
            assert(state@.players =~= built(ts).players);
            assert(state@.items =~= built(ts).items);
        }
        Ok(state)
    }
}

/// The tokens of player `j` stand before the count of the items, the name
/// first and eight numbers behind it.
pub proof fn lemma_player_places(ts: Seq<Seq<char>>, j: int)
    requires
        0 <= j < count_at(ts, 6),
    ensures
        ({
            let base = HEADER_TOKENS + PLAYER_TOKENS * j;
            &&& error_at(ts, base) == word_error(ts, base)
            &&& forall|f: int| 1 <= f < PLAYER_TOKENS ==> #[trigger] error_at(ts, base + f) == int_error(ts, base + f)
            &&& base + PLAYER_TOKENS <= items_place(ts) <= end_place(ts)
        }),
{
    let base = HEADER_TOKENS + PLAYER_TOKENS * j;
    assert(base + PLAYER_TOKENS <= items_place(ts)) by (nonlinear_arith)
        requires
            base == 7 + 9 * j,
            items_place(ts) == 7 + 9 * count_at(ts, 6),
            j < count_at(ts, 6),
    ;
    assert(items_place(ts) <= end_place(ts)) by (nonlinear_arith)
        requires
            end_place(ts) == items_place(ts) + 1 + 3 * count_at(ts, items_place(ts)),
            0 <= count_at(ts, items_place(ts)),
    ;
    assert forall|f: int| 1 <= f < PLAYER_TOKENS implies #[trigger] error_at(ts, base + f)
        == int_error(ts, base + f) by {
        assert((base + f - 7) % 9 == f) by (nonlinear_arith)
            requires
                base == 7 + 9 * j,
                0 <= j,
                1 <= f < 9,
        ;
    }
    assert((base - 7) % 9 == 0) by (nonlinear_arith)
        requires
            base == 7 + 9 * j,
            0 <= j,
    ;
}

/// The tokens of item `i` stand behind the count of the items and before
/// the closing word, three numbers.
pub proof fn lemma_item_places(ts: Seq<Seq<char>>, i: int)
    requires
        0 <= i < count_at(ts, items_place(ts)),
    ensures
        ({
            let base = items_place(ts) + 1 + ITEM_TOKENS * i;
            &&& forall|f: int| 0 <= f < ITEM_TOKENS ==> #[trigger] error_at(ts, base + f) == int_error(ts, base + f)
            &&& base + ITEM_TOKENS <= end_place(ts)
            &&& HEADER_TOKENS <= items_place(ts)
        }),
{
    let base = items_place(ts) + 1 + ITEM_TOKENS * i;
    assert(base + ITEM_TOKENS <= end_place(ts)) by (nonlinear_arith)
        requires
            base == items_place(ts) + 1 + 3 * i,
            end_place(ts) == items_place(ts) + 1 + 3 * count_at(ts, items_place(ts)),
            i < count_at(ts, items_place(ts)),
    ;
    assert(7 <= items_place(ts)) by (nonlinear_arith)
        requires
            items_place(ts) == 7 + 9 * count_at(ts, 6),
            0 <= count_at(ts, 6),
    ;
}

/// Token number `f` of a player's line.
pub open spec fn player_token(player: Player, f: int) -> Seq<char> {
    if f == 0 {
        name_word()
    } else if f == 1 {
        int_text(player.score as int)
    } else if f == 2 {
        int_text(player.pos.x as int)
    } else if f == 3 {
        int_text(player.pos.y as int)
    } else if f == 4 {
        int_text(player.radius as int)
    } else if f == 5 {
        int_text(player.speed.x as int)
    } else if f == 6 {
        int_text(player.speed.y as int)
    } else if f == 7 {
        int_text(player.target.x as int)
    } else {
        int_text(player.target.y as int)
    }
}

/// Token number `f` of an item's line.
pub open spec fn item_token(item: Item, f: int) -> Seq<char> {
    if f == 0 {
        int_text(item.pos.x as int)
    } else if f == 1 {
        int_text(item.pos.y as int)
    } else {
        int_text(item.radius as int)
    }
}

/// The place of the count of the items in the text of `g`.
pub open spec fn items_place_of(g: Snapshot) -> int {
    HEADER_TOKENS + PLAYER_TOKENS * g.players.len()
}

/// The place of the closing word in the text of `g`.
pub open spec fn end_place_of(g: Snapshot) -> int {
    items_place_of(g) + 1 + ITEM_TOKENS * g.items.len()
}

/// Token number `k` of the text of `g`.
pub open spec fn token_at(g: Snapshot, k: int) -> Seq<char> {
    if k == 0 {
        turn_word()
    } else if k == 1 {
        decimal(g.turn as nat)
    } else if k == 2 {
        decimal(g.max_turns as nat)
    } else if k == 3 {
        int_text(g.width as int)
    } else if k == 4 {
        int_text(g.height as int)
    } else if k == 5 {
        g.game_id
    } else if k == 6 {
        decimal(g.players.len())
    } else if k < items_place_of(g) {
        player_token(
            g.players[(k - HEADER_TOKENS) / (PLAYER_TOKENS as int)],
            (k - HEADER_TOKENS) % (PLAYER_TOKENS as int),
        )
    } else if k == items_place_of(g) {
        decimal(g.items.len())
    } else if k < end_place_of(g) {
        item_token(
            g.items[(k - items_place_of(g) - 1) / (ITEM_TOKENS as int)],
            (k - items_place_of(g) - 1) % (ITEM_TOKENS as int),
        )
    } else {
        end_word()
    }
}

/// Whether token number `k` of the text of `g` ends a line.
pub open spec fn ends_line(g: Snapshot, k: int) -> bool {
    if k < 5 {
        false
    } else if k == 5 || k == 6 {
        true
    } else if k < items_place_of(g) {
        (k - HEADER_TOKENS) % (PLAYER_TOKENS as int) == PLAYER_TOKENS - 1
    } else if k == items_place_of(g) {
        true
    } else if k < end_place_of(g) {
        (k - items_place_of(g) - 1) % (ITEM_TOKENS as int) == ITEM_TOKENS - 1
    } else {
        true
    }
}

/// What stands behind token number `k`: a line feed at the end of a line,
/// else a space.
pub open spec fn separator_at(g: Snapshot, k: int) -> char {
    if ends_line(g, k) {
        '\n'
    } else {
        ' '
    }
}

/// The text of the first `k` tokens of `g`, each with what stands behind
/// it.
pub open spec fn text_upto(g: Snapshot, k: int) -> Seq<char>
    decreases k,
{
    if k <= 0 {
        Seq::empty()
    } else {
        text_upto(g, k - 1) + token_at(g, k - 1).push(separator_at(g, k - 1))
    }
}

/// The text form of `g`.
pub open spec fn wire_text(g: Snapshot) -> Seq<char> {
    text_upto(g, end_place_of(g) + 1)
}

fn put_separator(out: &mut String, last: bool)
    ensures
        final(out)@ == old(out)@.push(
            if last {
                '\n'
            } else {
                ' '
            },
        ),
{
    proof {
        reveal_strlit("\n");
        reveal_strlit(" ");
    }
    if last {
        out.append("\n");
        assert(old(out)@ + "\n"@ =~= old(out)@.push('\n'));
    } else {
        out.append(" ");
        assert(old(out)@ + " "@ =~= old(out)@.push(' '));
    }
}

fn put_int(out: &mut String, v: i32, last: bool, Ghost(g): Ghost<Snapshot>, Ghost(k): Ghost<int>)
    requires
        0 <= k,
        old(out)@ == text_upto(g, k),
        token_at(g, k) == int_text(v as int),
        ends_line(g, k) == last,
    ensures
        final(out)@ == text_upto(g, k + 1),
{
    push_int(out, v as i64);
    put_separator(out, last);
    assert(out@ =~= text_upto(g, k) + token_at(g, k).push(separator_at(g, k)));
}

fn put_count(out: &mut String, n: usize, last: bool, Ghost(g): Ghost<Snapshot>, Ghost(k): Ghost<int>)
    requires
        0 <= k,
        old(out)@ == text_upto(g, k),
        token_at(g, k) == decimal(n as nat),
        ends_line(g, k) == last,
    ensures
        final(out)@ == text_upto(g, k + 1),
{
    push_decimal(out, n as u64);
    put_separator(out, last);
    assert(out@ =~= text_upto(g, k) + token_at(g, k).push(separator_at(g, k)));
}

fn put_word(out: &mut String, word: &str, last: bool, Ghost(g): Ghost<Snapshot>, Ghost(k): Ghost<int>)
    requires
        0 <= k,
        old(out)@ == text_upto(g, k),
        token_at(g, k) == word@,
        ends_line(g, k) == last,
    ensures
        final(out)@ == text_upto(g, k + 1),
{
    out.append(word);
    put_separator(out, last);
    assert(out@ =~= text_upto(g, k) + token_at(g, k).push(separator_at(g, k)));
}

/// Where the tokens of player `j` stand in the text of `g`.
pub proof fn lemma_player_tokens(g: Snapshot, j: int)
    requires
        0 <= j < g.players.len(),
    ensures
        ({
            let base = HEADER_TOKENS + PLAYER_TOKENS * j;
            &&& forall|f: int|
                0 <= f < PLAYER_TOKENS ==> #[trigger] token_at(g, base + f) == player_token(
                    g.players[j],
                    f,
                )
            &&& forall|f: int|
                0 <= f < PLAYER_TOKENS ==> #[trigger] ends_line(g, base + f) == (f
                    == PLAYER_TOKENS - 1)
            &&& base + PLAYER_TOKENS <= items_place_of(g)
        }),
{
    let base = HEADER_TOKENS + PLAYER_TOKENS * j;
    assert(base + PLAYER_TOKENS <= items_place_of(g)) by (nonlinear_arith)
        requires
            base == 7 + 9 * j,
            items_place_of(g) == 7 + 9 * g.players.len(),
            j < g.players.len(),
    ;
    assert forall|f: int| 0 <= f < PLAYER_TOKENS implies #[trigger] token_at(g, base + f)
        == player_token(g.players[j], f) by {
        assert((base + f - 7) / 9 == j && (base + f - 7) % 9 == f) by (nonlinear_arith)
            requires
                base == 7 + 9 * j,
                0 <= j,
                0 <= f < 9,
        ;
    }
    assert forall|f: int| 0 <= f < PLAYER_TOKENS implies #[trigger] ends_line(g, base + f) == (f
        == PLAYER_TOKENS - 1) by {
        assert((base + f - 7) / 9 == j && (base + f - 7) % 9 == f) by (nonlinear_arith)
            requires
                base == 7 + 9 * j,
                0 <= j,
                0 <= f < 9,
        ;
    }
}

/// Where the tokens of item `i` stand in the text of `g`.
pub proof fn lemma_item_tokens(g: Snapshot, i: int)
    requires
        0 <= i < g.items.len(),
    ensures
        ({
            let base = items_place_of(g) + 1 + ITEM_TOKENS * i;
            &&& forall|f: int|
                0 <= f < ITEM_TOKENS ==> #[trigger] token_at(g, base + f) == item_token(
                    g.items[i],
                    f,
                )
            &&& forall|f: int|
                0 <= f < ITEM_TOKENS ==> #[trigger] ends_line(g, base + f) == (f == ITEM_TOKENS
                    - 1)
            &&& base + ITEM_TOKENS <= end_place_of(g)
            &&& HEADER_TOKENS <= items_place_of(g)
        }),
{
    let from = items_place_of(g);
    let base = from + 1 + ITEM_TOKENS * i;
    assert(base + ITEM_TOKENS <= end_place_of(g)) by (nonlinear_arith)
        requires
            base == from + 1 + 3 * i,
            end_place_of(g) == from + 1 + 3 * g.items.len(),
            i < g.items.len(),
    ;
    assert forall|f: int| 0 <= f < ITEM_TOKENS implies #[trigger] token_at(g, base + f)
        == item_token(g.items[i], f) by {
        assert((base + f - from - 1) / 3 == i && (base + f - from - 1) % 3 == f)
            by (nonlinear_arith)
            requires
                base == from + 1 + 3 * i,
                0 <= i,
                0 <= f < 3,
        ;
    }
    assert forall|f: int| 0 <= f < ITEM_TOKENS implies #[trigger] ends_line(g, base + f) == (f
        == ITEM_TOKENS - 1) by {
        assert((base + f - from - 1) / 3 == i && (base + f - from - 1) % 3 == f)
            by (nonlinear_arith)
            requires
                base == from + 1 + 3 * i,
                0 <= i,
                0 <= f < 3,
        ;
    }
}

fn put_player(out: &mut String, player: &Player, Ghost(g): Ghost<Snapshot>, Ghost(j): Ghost<int>)
    requires
        0 <= j < g.players.len(),
        *player == g.players[j],
        old(out)@ == text_upto(g, HEADER_TOKENS + PLAYER_TOKENS * j),
    ensures
        final(out)@ == text_upto(g, HEADER_TOKENS + PLAYER_TOKENS * (j + 1)),
{
    let ghost base = HEADER_TOKENS + PLAYER_TOKENS * j;
    proof {
        reveal_strlit("player");
        assert("player"@ =~= name_word());
        lemma_player_tokens(g, j);
        assert(token_at(g, base + 0) == player_token(*player, 0) && !ends_line(g, base + 0));
        assert(token_at(g, base + 1) == player_token(*player, 1) && !ends_line(g, base + 1));
        assert(token_at(g, base + 2) == player_token(*player, 2) && !ends_line(g, base + 2));
        assert(token_at(g, base + 3) == player_token(*player, 3) && !ends_line(g, base + 3));
        assert(token_at(g, base + 4) == player_token(*player, 4) && !ends_line(g, base + 4));
        assert(token_at(g, base + 5) == player_token(*player, 5) && !ends_line(g, base + 5));
        assert(token_at(g, base + 6) == player_token(*player, 6) && !ends_line(g, base + 6));
        assert(token_at(g, base + 7) == player_token(*player, 7) && !ends_line(g, base + 7));
        assert(token_at(g, base + 8) == player_token(*player, 8) && ends_line(g, base + 8));
    }
    put_word(out, "player", false, Ghost(g), Ghost(base));
    put_int(out, player.score, false, Ghost(g), Ghost(base + 1));
    put_int(out, player.pos.x, false, Ghost(g), Ghost(base + 2));
    put_int(out, player.pos.y, false, Ghost(g), Ghost(base + 3));
    put_int(out, player.radius, false, Ghost(g), Ghost(base + 4));
    put_int(out, player.speed.x, false, Ghost(g), Ghost(base + 5));
    put_int(out, player.speed.y, false, Ghost(g), Ghost(base + 6));
    put_int(out, player.target.x, false, Ghost(g), Ghost(base + 7));
    put_int(out, player.target.y, true, Ghost(g), Ghost(base + 8));
}

fn put_item(out: &mut String, item: &Item, Ghost(g): Ghost<Snapshot>, Ghost(i): Ghost<int>)
    requires
        0 <= i < g.items.len(),
        *item == g.items[i],
        old(out)@ == text_upto(g, items_place_of(g) + 1 + ITEM_TOKENS * i),
    ensures
        final(out)@ == text_upto(g, items_place_of(g) + 1 + ITEM_TOKENS * (i + 1)),
{
    let ghost base = items_place_of(g) + 1 + ITEM_TOKENS * i;
    proof {
        lemma_item_tokens(g, i);
        assert(token_at(g, base + 0) == item_token(*item, 0) && !ends_line(g, base + 0));
        assert(token_at(g, base + 1) == item_token(*item, 1) && !ends_line(g, base + 1));
        assert(token_at(g, base + 2) == item_token(*item, 2) && ends_line(g, base + 2));
    }
    put_int(out, item.pos.x, false, Ghost(g), Ghost(base));
    put_int(out, item.pos.y, false, Ghost(g), Ghost(base + 1));
    put_int(out, item.radius, true, Ghost(g), Ghost(base + 2));
}

impl GameState {
    /// Writes the snapshot in its text form.
    pub fn to_string(&self) -> (text: String)
        ensures
            text@ == wire_text(self@),
    {
        let ghost g = self@;
        let mut res = String::new();
        proof {
            reveal_strlit("TURN");
            reveal_strlit("END_STATE");
            reveal_strlit("player");
            assert("TURN"@ =~= turn_word());
            assert("END_STATE"@ =~= end_word());
            assert("player"@ =~= name_word());
            assert(res@ =~= text_upto(g, 0));
        }
        put_word(&mut res, "TURN", false, Ghost(g), Ghost(0));
        put_count(&mut res, self.turn, false, Ghost(g), Ghost(1));
        put_count(&mut res, self.max_turns, false, Ghost(g), Ghost(2));
        put_int(&mut res, self.width, false, Ghost(g), Ghost(3));
        put_int(&mut res, self.height, false, Ghost(g), Ghost(4));
        put_word(&mut res, self.game_id.as_str(), true, Ghost(g), Ghost(5));
        put_count(&mut res, self.players.len(), true, Ghost(g), Ghost(6));
        let mut j: usize = 0;
        while j < self.players.len()
            invariant
                j <= self.players@.len(),
                g == self@,
                res@ == text_upto(g, HEADER_TOKENS + PLAYER_TOKENS * j),
            decreases self.players@.len() - j,
        {
            put_player(&mut res, &self.players[j], Ghost(g), Ghost(j as int));
            j += 1;
        }
        let ghost from = items_place_of(g);
        put_count(&mut res, self.items.len(), true, Ghost(g), Ghost(from));
        let mut i: usize = 0;
        while i < self.items.len()
            invariant
                i <= self.items@.len(),
                g == self@,
                from == items_place_of(g),
                res@ == text_upto(g, from + 1 + ITEM_TOKENS * i),
            decreases self.items@.len() - i,
        {
            put_item(&mut res, &self.items[i], Ghost(g), Ghost(i as int));
            i += 1;
        }
        put_word(&mut res, "END_STATE", true, Ghost(g), Ghost(end_place_of(g)));
        res
    }
}

/// The tokens of the text of `g`.
pub open spec fn wire_tokens(g: Snapshot) -> Seq<Seq<char>> {
    Seq::new((end_place_of(g) + 1) as nat, |k: int| token_at(g, k))
}

/// What stands behind each token of the text of `g`.
pub open spec fn wire_separators(g: Snapshot) -> Seq<char> {
    Seq::new((end_place_of(g) + 1) as nat, |k: int| separator_at(g, k))
}

/// A snapshot that a text can stand for: its name is one token, and its
/// lists are no longer than a `usize` can count.
pub open spec fn writable(g: Snapshot) -> bool {
    &&& is_word(g.game_id)
    &&& g.players.len() <= usize::MAX
    &&& g.items.len() <= usize::MAX
}

/// A numeral is a word.
pub proof fn lemma_int_text_is_word(v: int)
    ensures
        is_word(int_text(v)),
        v >= 0 ==> is_word(decimal(v as nat)),
{
    let n = if v < 0 {
        (-v) as nat
    } else {
        v as nat
    };
    lemma_decimal_reads_back(n);
    let digits = decimal(n);
    assert forall|i: int| 0 <= i < digits.len() implies !is_space(#[trigger] digits[i]) by {
        assert(is_digit(digits[i]));
    }
    let text = int_text(v);
    assert forall|i: int| 0 <= i < text.len() implies !is_space(#[trigger] text[i]) by {
        if v < 0 {
            if i > 0 {
                assert(text[i] == digits[i - 1]);
            }
        }
    }
}

/// The text of the first `k` tokens is the tokens joined.
pub proof fn lemma_text_is_joined(g: Snapshot, k: int)
    requires
        0 <= k <= end_place_of(g) + 1,
    ensures
        text_upto(g, k) == joined(wire_tokens(g), wire_separators(g), k),
    decreases k,
{
    if k > 0 {
        lemma_text_is_joined(g, k - 1);
    }
}

/// Token `k` of the text of `g` belongs to the header, to a player, to the
/// count of the items, to an item, or is the closing word.
pub proof fn lemma_token_cases(g: Snapshot, k: int)
    requires
        0 <= k <= end_place_of(g),
    ensures
        k < HEADER_TOKENS || k == items_place_of(g) || k == end_place_of(g) || ({
            let j = (k - HEADER_TOKENS) / (PLAYER_TOKENS as int);
            let f = (k - HEADER_TOKENS) % (PLAYER_TOKENS as int);
            &&& k < items_place_of(g)
            &&& 0 <= j < g.players.len()
            &&& 0 <= f < PLAYER_TOKENS
            &&& k == HEADER_TOKENS + PLAYER_TOKENS * j + f
        }) || ({
            let i = (k - items_place_of(g) - 1) / (ITEM_TOKENS as int);
            let f = (k - items_place_of(g) - 1) % (ITEM_TOKENS as int);
            &&& items_place_of(g) < k < end_place_of(g)
            &&& 0 <= i < g.items.len()
            &&& 0 <= f < ITEM_TOKENS
            &&& k == items_place_of(g) + 1 + ITEM_TOKENS * i + f
        }),
{
    let from = items_place_of(g);
    if HEADER_TOKENS <= k < from {
        let j = (k - 7) / 9;
        let f = (k - 7) % 9;
        assert(0 <= j < g.players.len() && 0 <= f < 9 && k == 7 + 9 * j + f) by (nonlinear_arith)
            requires
                7 <= k < 7 + 9 * g.players.len(),
                j == (k - 7) / 9,
                f == (k - 7) % 9,
        ;
    } else if from < k < end_place_of(g) {
        let i = (k - from - 1) / 3;
        let f = (k - from - 1) % 3;
        assert(0 <= i < g.items.len() && 0 <= f < 3 && k == from + 1 + 3 * i + f)
            by (nonlinear_arith)
            requires
                from < k < from + 1 + 3 * g.items.len(),
                i == (k - from - 1) / 3,
                f == (k - from - 1) % 3,
        ;
    }
}

/// Every token of the text of a writable snapshot is a word.
pub proof fn lemma_wire_tokens_are_words(g: Snapshot)
    requires
        writable(g),
    ensures
        forall|k: int| 0 <= k < wire_tokens(g).len() ==> is_word(#[trigger] wire_tokens(g)[k]),
{
    assert forall|k: int| 0 <= k < wire_tokens(g).len() implies is_word(
        #[trigger] wire_tokens(g)[k],
    ) by {
        lemma_token_cases(g, k);
        lemma_int_text_is_word(g.turn as int);
        lemma_int_text_is_word(g.max_turns as int);
        lemma_int_text_is_word(g.width as int);
        lemma_int_text_is_word(g.height as int);
        lemma_int_text_is_word(g.players.len() as int);
        lemma_int_text_is_word(g.items.len() as int);
        if HEADER_TOKENS <= k < items_place_of(g) {
            let j = (k - HEADER_TOKENS) / (PLAYER_TOKENS as int);
            let player = g.players[j];
            lemma_int_text_is_word(player.score as int);
            lemma_int_text_is_word(player.pos.x as int);
            lemma_int_text_is_word(player.pos.y as int);
            lemma_int_text_is_word(player.radius as int);
            lemma_int_text_is_word(player.speed.x as int);
            lemma_int_text_is_word(player.speed.y as int);
            lemma_int_text_is_word(player.target.x as int);
            lemma_int_text_is_word(player.target.y as int);
        } else if items_place_of(g) < k < end_place_of(g) {
            let i = (k - items_place_of(g) - 1) / (ITEM_TOKENS as int);
            let item = g.items[i];
            lemma_int_text_is_word(item.pos.x as int);
            lemma_int_text_is_word(item.pos.y as int);
            lemma_int_text_is_word(item.radius as int);
        }
    }
}

/// Cutting up the text of a writable snapshot gives its tokens.
pub proof fn lemma_tokens_of_wire_text(g: Snapshot)
    requires
        writable(g),
    ensures
        tokens(wire_text(g)) == wire_tokens(g),
{
    let words = wire_tokens(g);
    let separators = wire_separators(g);
    lemma_wire_tokens_are_words(g);
    lemma_text_is_joined(g, end_place_of(g) + 1);
    lemma_tokens_of_joined(words, separators, 0);
    assert(words.skip(0) =~= words);
}

/// Reading the numeral of a number of its type gives the number.
pub proof fn lemma_numerals_read_back(v: i32, n: usize)
    ensures
        parse_i32(int_text(v as int)) == Some(v),
        parse_usize(decimal(n as nat)) == Some(n),
{
    lemma_int_text_reads_back(v as int);
    lemma_int_text_reads_back(n as int);
}

/// Round trip: the text of a writable snapshot stands for that snapshot.
pub proof fn lemma_round_trip(g: Snapshot)
    requires
        writable(g),
    ensures
        spec_parse(wire_text(g)) == Ok::<Snapshot, ParseError>(g),
{
    let ts = wire_tokens(g);
    lemma_tokens_of_wire_text(g);
    let end = end_place_of(g);
    lemma_numerals_read_back(g.width, g.turn);
    lemma_numerals_read_back(g.height, g.max_turns);
    lemma_numerals_read_back(0, g.players.len() as usize);
    lemma_numerals_read_back(0, g.items.len() as usize);
    assert(ts[6] == decimal(g.players.len()));
    assert(count_at(ts, 6) == g.players.len());
    assert(items_place(ts) == items_place_of(g));
    assert(ts[items_place_of(g)] == decimal(g.items.len()));
    assert(count_at(ts, items_place(ts)) == g.items.len());
    assert(end_place(ts) == end);
    assert forall|k: int| 0 <= k < end + 1 implies #[trigger] error_at(ts, k) is None by {
        lemma_token_cases(g, k);
        assert(ts[k] == token_at(g, k));
        if HEADER_TOKENS <= k < items_place_of(g) {
            let j = (k - HEADER_TOKENS) / (PLAYER_TOKENS as int);
            lemma_player_fields(g, j);
        } else if items_place_of(g) < k < end {
            let i = (k - items_place_of(g) - 1) / (ITEM_TOKENS as int);
            lemma_item_fields(g, i);
        }
    }
    lemma_first_error_from(ts, end + 1);
    let b = built(ts);
    assert(b.players =~= g.players) by {
        assert forall|j: int| 0 <= j < g.players.len() implies b.players[j] == g.players[j] by {
            lemma_player_fields(g, j);
        }
    }
    assert(b.items =~= g.items) by {
        assert forall|i: int| 0 <= i < g.items.len() implies b.items[i] == g.items[i] by {
            lemma_item_fields(g, i);
        }
    }
    assert(ts[5] == g.game_id);
}

/// The tokens of player `j` read back as the player.
pub proof fn lemma_player_fields(g: Snapshot, j: int)
    requires
        0 <= j < g.players.len(),
    ensures
        ({
            let base = HEADER_TOKENS + PLAYER_TOKENS * j;
            &&& player_at(wire_tokens(g), base) == g.players[j]
            &&& forall|f: int|
                1 <= f < PLAYER_TOKENS ==> #[trigger] int_error(wire_tokens(g), base + f) is None
            &&& word_error(wire_tokens(g), base) is None
        }),
{
    let ts = wire_tokens(g);
    let base = HEADER_TOKENS + PLAYER_TOKENS * j;
    let player = g.players[j];
    lemma_player_tokens(g, j);
    lemma_item_range(g);
    lemma_numerals_read_back(player.score, 0);
    lemma_numerals_read_back(player.pos.x, 0);
    lemma_numerals_read_back(player.pos.y, 0);
    lemma_numerals_read_back(player.radius, 0);
    lemma_numerals_read_back(player.speed.x, 0);
    lemma_numerals_read_back(player.speed.y, 0);
    lemma_numerals_read_back(player.target.x, 0);
    lemma_numerals_read_back(player.target.y, 0);
    assert forall|f: int| 0 <= f < PLAYER_TOKENS implies #[trigger] ts[base + f] == player_token(
        player,
        f,
    ) by {
        assert(token_at(g, base + f) == player_token(player, f));
    }
    assert(ts[base + 1] == player_token(player, 1));
    assert(ts[base + 2] == player_token(player, 2));
    assert(ts[base + 3] == player_token(player, 3));
    assert(ts[base + 4] == player_token(player, 4));
    assert(ts[base + 5] == player_token(player, 5));
    assert(ts[base + 6] == player_token(player, 6));
    assert(ts[base + 7] == player_token(player, 7));
    assert(ts[base + 8] == player_token(player, 8));
}

/// The tokens of item `i` read back as the item.
pub proof fn lemma_item_fields(g: Snapshot, i: int)
    requires
        0 <= i < g.items.len(),
    ensures
        ({
            let base = items_place_of(g) + 1 + ITEM_TOKENS * i;
            &&& item_at(wire_tokens(g), base) == g.items[i]
            &&& forall|f: int|
                0 <= f < ITEM_TOKENS ==> #[trigger] int_error(wire_tokens(g), base + f) is None
        }),
{
    let ts = wire_tokens(g);
    let base = items_place_of(g) + 1 + ITEM_TOKENS * i;
    let item = g.items[i];
    lemma_item_tokens(g, i);
    lemma_numerals_read_back(item.pos.x, 0);
    lemma_numerals_read_back(item.pos.y, 0);
    lemma_numerals_read_back(item.radius, 0);
    assert forall|f: int| 0 <= f < ITEM_TOKENS implies #[trigger] ts[base + f] == item_token(
        item,
        f,
    ) by {
        assert(token_at(g, base + f) == item_token(item, f));
    }
    assert(ts[base] == item_token(item, 0));
    assert(ts[base + 1] == item_token(item, 1));
    assert(ts[base + 2] == item_token(item, 2));
}

/// The count of the items stands behind the header and before the closing
/// word.
pub proof fn lemma_item_range(g: Snapshot)
    ensures
        HEADER_TOKENS <= items_place_of(g) < end_place_of(g),
{
    assert(7 <= 7 + 9 * g.players.len() && 0 <= 3 * g.items.len()) by (nonlinear_arith);
}

/// What the parser reads is writable.
pub proof fn lemma_parsed_is_writable(s: Seq<char>)
    requires
        spec_parse(s) is Ok,
    ensures
        writable(spec_parse(s)->Ok_0),
{
    let ts = tokens(s);
    lemma_tokens_are_words(s, 0);
    assert(7 <= items_place(ts) <= end_place(ts)) by (nonlinear_arith)
        requires
            items_place(ts) == 7 + 9 * count_at(ts, 6),
            end_place(ts) == items_place(ts) + 1 + 3 * count_at(ts, items_place(ts)),
            0 <= count_at(ts, 6),
            0 <= count_at(ts, items_place(ts)),
    ;
    lemma_clean_when_no_error(ts, 0, 5);
}

/// Where nothing is wrong from place `k` on, nothing is wrong at a place
/// `at` behind it.
pub proof fn lemma_clean_when_no_error(ts: Seq<Seq<char>>, k: int, at: int)
    requires
        first_error(ts, k) is None,
        k <= at <= end_place(ts),
    ensures
        error_at(ts, at) is None,
    decreases at - k,
{
    if k < at {
        lemma_clean_when_no_error(ts, k + 1, at);
    }
}

} // verus!
