//! The scores of the last few games, for the log.

use crate::decimal::{int_text, push_int};
use vstd::prelude::*;
use vstd::string::StringExecFns;

verus! {

/// How many games are remembered.
pub const MAX_SCORES_SIZE: usize = 10;

/// The scores of the last games, the latest last, and the name of the game
/// that the last score belongs to.
pub struct PastScores {
    scores: Vec<i32>,
    last_game_id: String,
}

/// The first `n` scores as a list: numerals with `, ` between them.
pub open spec fn listed(scores: Seq<i32>, n: int) -> Seq<char>
    decreases n,
{
    if n <= 0 {
        Seq::empty()
    } else if n == 1 {
        int_text(scores[0] as int)
    } else {
        listed(scores, n - 1) + seq![',', ' '] + int_text(scores[n - 1] as int)
    }
}

impl PastScores {
    /// The scores remembered, the latest last.
    pub closed spec fn scores(&self) -> Seq<i32> {
        self.scores@
    }

    /// The name of the game that the last score belongs to.
    pub closed spec fn last_game_id(&self) -> Seq<char> {
        self.last_game_id@
    }

    /// No more games are remembered than `MAX_SCORES_SIZE`.
    pub closed spec fn wf(&self) -> bool {
        self.scores@.len() <= MAX_SCORES_SIZE
    }

    /// No game yet. The name `NULL0` stands for the game before the first.
    pub fn new() -> (past: Self)
        ensures
            past.wf(),
            past.scores() == Seq::<i32>::empty(),
            past.last_game_id() == "NULL0"@,
    {
        PastScores { scores: Vec::new(), last_game_id: String::from_str("NULL0") }
    }

    /// How many games are remembered.
    pub fn len(&self) -> (n: usize)
        ensures
            n == self.scores().len(),
    {
        self.scores.len()
    }

    /// Whether `game_id` names the game that the last score belongs to.
    pub fn is_current(&self, game_id: &String) -> (same: bool)
        ensures
            same == (self.last_game_id() == game_id@),
    {
        self.last_game_id == *game_id
    }

    /// Takes down the score `item` of the game `game_id`: in place of the
    /// last score if that belongs to the same game, else as the score of a
    /// new game, for which the oldest score goes where `MAX_SCORES_SIZE` are
    /// remembered already.
    pub fn push(&mut self, item: i32, game_id: &String)
        requires
            old(self).wf(),
            old(self).last_game_id() == game_id@ ==> old(self).scores().len() > 0,
        ensures
            final(self).wf(),
            final(self).last_game_id() == game_id@,
            final(self).scores() == if old(self).last_game_id() == game_id@ {
                old(self).scores().drop_last().push(item)
            } else if old(self).scores().len() == MAX_SCORES_SIZE {
                old(self).scores().skip(1).push(item)
            } else {
                old(self).scores().push(item)
            },
    {
        if self.last_game_id == *game_id {
            self.scores.pop();
            self.scores.push(item);
        } else {
            self.last_game_id = game_id.clone();
            if self.scores.len() == MAX_SCORES_SIZE {
                self.scores.remove(0);
                assert(self.scores@ =~= old(self).scores@.skip(1));
            }
            self.scores.push(item);
        }
    }

    /// The scores as a list in square brackets.
    pub fn to_string(&self) -> (text: String)
        ensures
            text@ == seq!['['] + listed(self.scores(), self.scores().len() as int) + seq![']'],
    {
        proof {
            reveal_strlit("[");
            reveal_strlit("]");
            reveal_strlit(", ");
        }
        let mut text = String::from_str("[");
        let mut i: usize = 0;
        while i < self.scores.len()
            invariant
                i <= self.scores@.len(),
                "]"@ == seq![']'],
                ", "@ == seq![',', ' '],
                text@ == seq!['['] + listed(self.scores@, i as int),
            decreases self.scores@.len() - i,
        {
            if i > 0 {
                text.append(", ");
            }
            push_int(&mut text, self.scores[i] as i64);
            proof {
                let before = seq!['['] + listed(self.scores@, i as int);
                let numeral = int_text(self.scores@[i as int] as int);
                if i > 0 {
                    assert(before + seq![',', ' '] + numeral =~= seq!['['] + listed(
                        self.scores@,
                        i + 1,
                    ));
                } else {
                    assert(before + numeral =~= seq!['['] + listed(self.scores@, i + 1));
                }
            }
            i += 1;
        }
        text.append("]");
        text
    }
}

} // verus!
