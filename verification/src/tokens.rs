//! A text cut into tokens at white space, and a reader that hands out the
//! tokens one by one.

use crate::decimal::{parse_i32, parse_usize, read_i32, read_usize};
use vstd::prelude::*;
use vstd::string::{StrSliceExecFns, StringExecFns};

verus! {

/// Whether `c` separates tokens: space, tab, line feed, form feed or
/// carriage return.
pub open spec fn is_space(c: char) -> bool {
    c == ' ' || c == '\t' || c == '\n' || c == '\x0c' || c == '\r'
}

/// Whether `c` separates tokens.
pub fn is_separator(c: char) -> (b: bool)
    ensures
        b == is_space(c),
{
    c == ' ' || c == '\t' || c == '\n' || c == '\x0c' || c == '\r'
}

/// The first place at or behind `i` that holds no white space.
pub open spec fn skip_spaces(s: Seq<char>, i: int) -> int
    decreases s.len() - i,
{
    if 0 <= i < s.len() && is_space(s[i]) {
        skip_spaces(s, i + 1)
    } else {
        i
    }
}

/// The first place at or behind `i` that holds white space, or the end.
pub open spec fn skip_word(s: Seq<char>, i: int) -> int
    decreases s.len() - i,
{
    if 0 <= i < s.len() && !is_space(s[i]) {
        skip_word(s, i + 1)
    } else {
        i
    }
}

/// Skipping moves forward only, and not beyond the end.
pub proof fn lemma_skip_bounds(s: Seq<char>, i: int)
    requires
        0 <= i <= s.len(),
    ensures
        i <= skip_spaces(s, i) <= s.len(),
        i <= skip_word(s, i) <= s.len(),
        i < s.len() && !is_space(s[i]) ==> i < skip_word(s, i),
    decreases s.len() - i,
{
    if i < s.len() {
        lemma_skip_bounds(s, i + 1);
    }
}

/// The tokens of `s` from place `i` on: the runs of characters that are no
/// white space, in their order.
pub open spec fn tokens_from(s: Seq<char>, i: int) -> Seq<Seq<char>>
    decreases s.len() - i,
{
    if 0 <= i <= s.len() {
        let start = skip_spaces(s, i);
        if start >= s.len() {
            Seq::empty()
        } else {
            let end = skip_word(s, start);
            if i <= start < end <= s.len() {
                seq![s.subrange(start, end)] + tokens_from(s, end)
            } else {
                Seq::empty()
            }
        }
    } else {
        Seq::empty()
    }
}

/// The tokens of `s`.
pub open spec fn tokens(s: Seq<char>) -> Seq<Seq<char>> {
    tokens_from(s, 0)
}

/// Why a text is not what the reader was asked for.
#[derive(Copy, Clone, Debug, PartialEq, Eq, Structural)]
pub enum ParseError {
    /// The text ends before the token of this number.
    Missing(usize),
    /// The token of this number is not the numeral that belongs there.
    Malformed(usize),
    /// The token of this number is not the word that belongs there.
    Unexpected(usize),
}

/// Token number `k`, if there is one.
pub open spec fn word_at(ts: Seq<Seq<char>>, k: int) -> Result<Seq<char>, ParseError> {
    if 0 <= k < ts.len() {
        Ok(ts[k])
    } else {
        Err(ParseError::Missing(k as usize))
    }
}

/// Token number `k` read as an `i32`.
pub open spec fn i32_at(ts: Seq<Seq<char>>, k: int) -> Result<i32, ParseError> {
    if 0 <= k < ts.len() {
        match parse_i32(ts[k]) {
            Some(v) => Ok(v),
            None => Err(ParseError::Malformed(k as usize)),
        }
    } else {
        Err(ParseError::Missing(k as usize))
    }
}

/// Token number `k` read as a `usize`.
pub open spec fn usize_at(ts: Seq<Seq<char>>, k: int) -> Result<usize, ParseError> {
    if 0 <= k < ts.len() {
        match parse_usize(ts[k]) {
            Some(v) => Ok(v),
            None => Err(ParseError::Malformed(k as usize)),
        }
    } else {
        Err(ParseError::Missing(k as usize))
    }
}

/// Hands out the tokens of a text, from the first on.
pub struct TokenReader<'a> {
    text: &'a str,
    chars: Vec<char>,
    pos: usize,
    taken: usize,
}

impl<'a> TokenReader<'a> {
    /// All tokens of the text.
    pub closed spec fn all(&self) -> Seq<Seq<char>> {
        tokens(self.chars@)
    }

    /// How many tokens were handed out.
    pub closed spec fn taken(&self) -> int {
        self.taken as int
    }

    /// The reader stands between two tokens of its text.
    pub closed spec fn wf(&self) -> bool {
        &&& self.chars@ == self.text@
        &&& self.taken <= self.pos <= self.chars@.len()
        &&& self.taken <= self.all().len()
        &&& self.all().skip(self.taken as int) == tokens_from(self.chars@, self.pos as int)
    }

    /// A reader at the start of `s`.
    pub fn new(s: &'a str) -> (reader: Self)
        ensures
            reader.wf(),
            reader.all() == tokens(s@),
            reader.taken() == 0,
    {
        let mut chars: Vec<char> = Vec::new();
        for c in it: s.chars()
            invariant
                chars@ == s@.take(it.index() as int),
                it.seq() == s@,
        {
            chars.push(c);
        }
        proof {
            assert(s@.take(s@.len() as int) == s@);
            assert(tokens(chars@).skip(0) =~= tokens(chars@));
        }
        TokenReader { text: s, chars, pos: 0, taken: 0 }
    }

    /// How many tokens were handed out.
    pub fn position(&self) -> (k: usize)
        ensures
            k == self.taken(),
    {
        self.taken
    }

    /// The tokens handed out are counted in a `usize`.
    pub proof fn lemma_taken_fits(&self)
        ensures
            0 <= self.taken() <= usize::MAX,
    {
    }

    /// Finds the next token and steps over it.
    fn next_span(&mut self) -> (span: Option<(usize, usize)>)
        requires
            old(self).wf(),
        ensures
            final(self).wf(),
            final(self).all() == old(self).all(),
            final(self).chars == old(self).chars,
            final(self).text == old(self).text,
            match span {
                Some((start, end)) => {
                    &&& old(self).taken() < old(self).all().len()
                    &&& final(self).taken() == old(self).taken() + 1
                    &&& start <= end <= final(self).chars@.len()
                    &&& final(self).chars@.subrange(start as int, end as int) == old(self).all()[old(
                        self,
                    ).taken()]
                },
                None => {
                    &&& old(self).taken() == old(self).all().len()
                    &&& final(self).taken() == old(self).taken()
                },
            },
    {
        let n = self.chars.len();
        let ghost from = self.pos as int;
        let mut at: usize = self.pos;
        while at < n && is_separator(self.chars[at])
            invariant
                from <= at <= n,
                n == self.chars@.len(),
                skip_spaces(self.chars@, from) == skip_spaces(self.chars@, at as int),
            decreases n - at,
        {
            at += 1;
        }
        if at >= n {
            self.pos = at;
            proof {
                assert(tokens_from(self.chars@, from).len() == 0);
                assert(tokens_from(self.chars@, at as int).len() == 0);
                assert(self.all().skip(self.taken as int).len() == 0);
                assert(self.all().skip(self.taken as int) =~= tokens_from(self.chars@, at as int));
            }
            return None;
        }
        let start = at;
        while at < n && !is_separator(self.chars[at])
            invariant
                start <= at <= n,
                n == self.chars@.len(),
                skip_word(self.chars@, start as int) == skip_word(self.chars@, at as int),
            decreases n - at,
        {
            at += 1;
        }
        proof {
            lemma_skip_bounds(self.chars@, start as int);
            lemma_skip_bounds(self.chars@, from);
            let rest = tokens_from(self.chars@, from);
            assert(rest == seq![self.chars@.subrange(start as int, at as int)] + tokens_from(
                self.chars@,
                at as int,
            ));
            let all = self.all();
            let k = self.taken as int;
            assert(all.skip(k)[0] == all[k]);
            assert(all.skip(k + 1) =~= all.skip(k).skip(1));
            assert(rest.skip(1) =~= tokens_from(self.chars@, at as int));
        }
        self.pos = at;
        self.taken = self.taken + 1;
        Some((start, at))
    }

    /// Steps over the next token.
    pub fn skip(&mut self) -> (r: Result<(), ParseError>)
        requires
            old(self).wf(),
        ensures
            final(self).wf(),
            final(self).all() == old(self).all(),
            final(self).taken() == old(self).taken() + if r is Ok { 1int } else { 0int },
            r is Ok <==> word_at(old(self).all(), old(self).taken()) is Ok,
            r matches Err(e) ==> word_at(old(self).all(), old(self).taken()) == Err::<
                Seq<char>,
                ParseError,
            >(e),
    {
        let taken = self.taken;
        match self.next_span() {
            Some(_) => Ok(()),
            None => Err(ParseError::Missing(taken)),
        }
    }

    /// Hands out the next token.
    pub fn next(&mut self) -> (r: Result<String, ParseError>)
        requires
            old(self).wf(),
        ensures
            final(self).wf(),
            final(self).all() == old(self).all(),
            final(self).taken() == old(self).taken() + if r is Ok { 1int } else { 0int },
            match r {
                Ok(word) => word_at(old(self).all(), old(self).taken()) == Ok::<
                    Seq<char>,
                    ParseError,
                >(word@),
                Err(e) => word_at(old(self).all(), old(self).taken()) == Err::<
                    Seq<char>,
                    ParseError,
                >(e),
            },
    {
        let taken = self.taken;
        match self.next_span() {
            Some((start, end)) => {
                let word = self.text.substring_char(start, end);
                Ok(String::from_str(word))
            },
            None => Err(ParseError::Missing(taken)),
        }
    }

    /// Reads the next token as an `i32`.
    pub fn next_i32(&mut self) -> (r: Result<i32, ParseError>)
        requires
            old(self).wf(),
        ensures
            final(self).wf(),
            final(self).all() == old(self).all(),
            final(self).taken() == old(self).taken() + if r is Err && r->Err_0 is Missing {
                0int
            } else {
                1int
            },
            r == i32_at(old(self).all(), old(self).taken()),
    {
        let taken = self.taken;
        match self.next_span() {
            Some((start, end)) => match read_i32(&self.chars, start, end) {
                Some(v) => Ok(v),
                None => Err(ParseError::Malformed(taken)),
            },
            None => Err(ParseError::Missing(taken)),
        }
    }

    /// Reads the next token as a `usize`.
    pub fn next_usize(&mut self) -> (r: Result<usize, ParseError>)
        requires
            old(self).wf(),
        ensures
            final(self).wf(),
            final(self).all() == old(self).all(),
            final(self).taken() == old(self).taken() + if r is Err && r->Err_0 is Missing {
                0int
            } else {
                1int
            },
            r == usize_at(old(self).all(), old(self).taken()),
    {
        let taken = self.taken;
        match self.next_span() {
            Some((start, end)) => match read_usize(&self.chars, start, end) {
                Some(v) => Ok(v),
                None => Err(ParseError::Malformed(taken)),
            },
            None => Err(ParseError::Missing(taken)),
        }
    }
}

/// Whether `w` can stand as a token: it is not empty and holds no white
/// space.
pub open spec fn is_word(w: Seq<char>) -> bool {
    &&& w.len() > 0
    &&& forall|i: int| 0 <= i < w.len() ==> !is_space(#[trigger] w[i])
}

/// The first `k` of the words, each followed by its separator, in one text.
pub open spec fn joined(words: Seq<Seq<char>>, separators: Seq<char>, k: int) -> Seq<char>
    decreases k,
{
    if k <= 0 {
        Seq::empty()
    } else {
        joined(words, separators, k - 1) + words[k - 1].push(separators[k - 1])
    }
}

/// The text of fewer words is the start of the text of more.
pub proof fn lemma_joined_prefix(words: Seq<Seq<char>>, separators: Seq<char>, k: int, m: int)
    requires
        0 <= k <= m,
    ensures
        joined(words, separators, k).len() <= joined(words, separators, m).len(),
        joined(words, separators, m).take(joined(words, separators, k).len() as int) == joined(
            words,
            separators,
            k,
        ),
    decreases m - k,
{
    let short = joined(words, separators, k);
    if k == m {
        assert(short.take(short.len() as int) =~= short);
    } else {
        lemma_joined_prefix(words, separators, k, m - 1);
        let less = joined(words, separators, m - 1);
        let more = joined(words, separators, m);
        assert(more.take(short.len() as int) =~= less.take(short.len() as int));
    }
}

/// Where word `k` stands in the text of `m` words, and what stands behind
/// it.
pub proof fn lemma_joined_content(words: Seq<Seq<char>>, separators: Seq<char>, k: int, m: int)
    requires
        0 <= k < m,
    ensures
        ({
            let text = joined(words, separators, m);
            let at = joined(words, separators, k).len() as int;
            &&& at + words[k].len() + 1 == joined(words, separators, k + 1).len()
            &&& at + words[k].len() + 1 <= text.len()
            &&& text.subrange(at, at + words[k].len()) == words[k]
            &&& text[at + words[k].len()] == separators[k]
        }),
{
    let text = joined(words, separators, m);
    let before = joined(words, separators, k);
    let with = joined(words, separators, k + 1);
    let at = before.len() as int;
    lemma_joined_prefix(words, separators, k + 1, m);
    assert(with =~= before + words[k].push(separators[k]));
    assert(text.take(with.len() as int) == with);
    assert(text.subrange(at, at + words[k].len()) =~= words[k]) by {
        assert forall|t: int| 0 <= t < words[k].len() implies text[at + t] == words[k][t] by {
            assert(text.take(with.len() as int)[at + t] == with[at + t]);
        }
    }
    assert(text.take(with.len() as int)[at + words[k].len()] == with[at + words[k].len()]);
}

/// From within a run of characters that are no white space, a word goes on
/// to the end of the run.
pub proof fn lemma_skip_word_run(s: Seq<char>, from: int, to: int)
    requires
        0 <= from <= to <= s.len(),
        forall|i: int| from <= i < to ==> !is_space(#[trigger] s[i]),
        to == s.len() || is_space(s[to]),
    ensures
        skip_word(s, from) == to,
    decreases to - from,
{
    if from < to {
        lemma_skip_word_run(s, from + 1, to);
    }
}

/// Cutting up the text of words gives the words back.
pub proof fn lemma_tokens_of_joined(words: Seq<Seq<char>>, separators: Seq<char>, k: int)
    requires
        words.len() == separators.len(),
        0 <= k <= words.len(),
        forall|i: int| 0 <= i < words.len() ==> is_word(#[trigger] words[i]),
        forall|i: int| 0 <= i < separators.len() ==> is_space(#[trigger] separators[i]),
    ensures
        tokens_from(
            joined(words, separators, words.len() as int),
            joined(words, separators, k).len() as int,
        ) == words.skip(k),
    decreases words.len() - k,
{
    let m = words.len() as int;
    let text = joined(words, separators, m);
    let at = joined(words, separators, k).len() as int;
    lemma_joined_prefix(words, separators, k, m);
    if k == m {
        assert(tokens_from(text, at) =~= words.skip(k));
    } else {
        lemma_tokens_of_joined(words, separators, k + 1);
        lemma_joined_content(words, separators, k, m);
        let w = words[k];
        let end = at + w.len();
        assert(is_word(w));
        assert(text[at] == text.subrange(at, end)[0]);
        assert(!is_space(text[at]));
        assert(skip_spaces(text, at) == at);
        assert forall|i: int| at <= i < end implies !is_space(#[trigger] text[i]) by {
            assert(text[i] == text.subrange(at, end)[i - at]);
        }
        lemma_skip_word_run(text, at, end);
        assert(is_space(text[end]));
        assert(skip_spaces(text, end) == skip_spaces(text, end + 1));
        lemma_skip_bounds(text, end + 1);
        assert(tokens_from(text, end) == tokens_from(text, end + 1));
        assert(tokens_from(text, at) == seq![w] + tokens_from(text, end));
        assert(seq![w] + words.skip(k + 1) =~= words.skip(k));
    }
}

/// Every token is a word.
pub proof fn lemma_tokens_are_words(s: Seq<char>, i: int)
    requires
        0 <= i <= s.len(),
    ensures
        forall|k: int| 0 <= k < tokens_from(s, i).len() ==> is_word(#[trigger] tokens_from(s, i)[k]),
    decreases s.len() - i,
{
    lemma_skip_bounds(s, i);
    let start = skip_spaces(s, i);
    if start < s.len() {
        lemma_skip_bounds(s, start);
        lemma_skip_stops(s, i);
        let end = skip_word(s, start);
        lemma_tokens_are_words(s, end);
        lemma_word_run(s, start);
        let first = s.subrange(start, end);
        assert forall|k: int| 0 <= k < tokens_from(s, i).len() implies is_word(
            #[trigger] tokens_from(s, i)[k],
        ) by {
            if k == 0 {
                assert(tokens_from(s, i)[0] == first);
                assert forall|t: int| 0 <= t < first.len() implies !is_space(#[trigger] first[t]) by {
                    assert(first[t] == s[start + t]);
                }
            } else {
                assert(tokens_from(s, i)[k] == tokens_from(s, end)[k - 1]);
            }
        }
    }
}

/// Skipping white space stops at the end or at a character that is none.
pub proof fn lemma_skip_stops(s: Seq<char>, i: int)
    requires
        0 <= i <= s.len(),
    ensures
        skip_spaces(s, i) == s.len() || !is_space(s[skip_spaces(s, i)]),
    decreases s.len() - i,
{
    if i < s.len() && is_space(s[i]) {
        lemma_skip_stops(s, i + 1);
    }
}

/// What a word steps over is no white space.
pub proof fn lemma_word_run(s: Seq<char>, i: int)
    requires
        0 <= i <= s.len(),
    ensures
        forall|t: int| i <= t < skip_word(s, i) ==> !is_space(#[trigger] s[t]),
    decreases s.len() - i,
{
    if i < s.len() && !is_space(s[i]) {
        lemma_word_run(s, i + 1);
    }
}

} // verus!
