//! The round itself: picking the puzzle word and the anchor letter,
//! building the solution set, and evaluating guesses.

use vstd::prelude::*;

use crate::letters::distinct_letters;
use crate::letters::get_distinct_chars;
use crate::letters::is_guessable;
use crate::letters::is_guessable_word;
use crate::letters::is_qualifying;
use crate::letters::is_qualifying_word;
use crate::letters::lemma_lower_seq_idempotent;
use crate::letters::lemma_strictly_sorted_no_duplicates;
use crate::letters::lower_seq;
use crate::letters::strictly_sorted;
use crate::rng::new_rng;
use crate::rng::random_below;
use crate::words::contains_word;
use crate::words::lower_string;
use crate::words::str_eq;

verus! {

/// One round of the puzzle: the secret puzzle word, its seven distinct
/// letters, the mandatory anchor letter, every guessable word, and the
/// words guessed so far.
#[derive(Debug, Clone)]
pub struct GameStatus {
    pub game_word: String,
    pub game_chars: Vec<char>,
    pub anchor_char: char,
    pub guessable_words: Vec<String>,
    pub guessed_words: Vec<String>,
}

/// Why a round could not be started.
#[derive(Debug, Clone, Copy, PartialEq, Eq, Structural)]
pub enum GameError {
    /// The word list holds no word with exactly seven distinct letters.
    NoQualifyingWords,
}

/// What evaluating one guess did.
#[derive(Debug, Clone, Copy, PartialEq, Eq, Structural)]
pub enum GuessOutcome {
    /// The player asked to leave the round.
    Exit,
    /// The player gave up; the solution set is to be revealed.
    GiveUp,
    /// A novel solution word; it was added to the guessed words.
    Accepted,
    /// A solution word that had already been guessed; nothing changed.
    Duplicate,
    /// Not a solution word; nothing changed.
    Rejected,
}

/// The qualifying words of a word list, in order.
pub open spec fn spec_candidates(words: Seq<Seq<char>>) -> Seq<Seq<char>>
    decreases words.len(),
{
    if words.len() == 0 {
        Seq::empty()
    } else {
        let rest = spec_candidates(words.drop_last());
        if is_qualifying(words.last()) {
            rest.push(words.last())
        } else {
            rest
        }
    }
}

/// The solution set of a round: every word of the list whose distinct
/// letters fit the pool and include the anchor, lowercased, in order.
pub open spec fn spec_solution_set(words: Seq<Seq<char>>, pool: Seq<char>, anchor: char) -> Seq<
    Seq<char>,
>
    decreases words.len(),
{
    if words.len() == 0 {
        Seq::empty()
    } else {
        let rest = spec_solution_set(words.drop_last(), pool, anchor);
        if is_guessable(words.last(), pool, anchor) {
            rest.push(lower_seq(words.last()))
        } else {
            rest
        }
    }
}

proof fn lemma_candidates_sound(words: Seq<Seq<char>>, k: int)
    requires
        0 <= k < spec_candidates(words).len(),
    ensures
        is_qualifying(spec_candidates(words)[k]),
        words.contains(spec_candidates(words)[k]),
    decreases words.len(),
{
    let rest = spec_candidates(words.drop_last());
    if is_qualifying(words.last()) && k == rest.len() {
        assert(words[words.len() - 1] == spec_candidates(words)[k]);
    } else {
        lemma_candidates_sound(words.drop_last(), k);
        let i = choose|i: int|
            0 <= i < words.drop_last().len() && words.drop_last()[i] == spec_candidates(words)[k];
        assert(words[i] == spec_candidates(words)[k]);
    }
}

proof fn lemma_candidates_empty(words: Seq<Seq<char>>)
    ensures
        spec_candidates(words).len() == 0 <==> (forall|i: int|
            0 <= i < words.len() ==> !is_qualifying(#[trigger] words[i])),
    decreases words.len(),
{
    if words.len() > 0 {
        lemma_candidates_empty(words.drop_last());
        assert(forall|i: int|
            0 <= i < words.len() - 1 ==> words.drop_last()[i] == #[trigger] words[i]);
        if spec_candidates(words).len() == 0 {
            assert(forall|i: int| 0 <= i < words.len() ==> !is_qualifying(#[trigger] words[i]));
        }
    }
}

proof fn lemma_solution_set_complete_at(words: Seq<Seq<char>>, pool: Seq<char>, anchor: char, i: int)
    requires
        0 <= i < words.len(),
        is_guessable(words[i], pool, anchor),
    ensures
        spec_solution_set(words, pool, anchor).contains(lower_seq(words[i])),
    decreases words.len(),
{
    let s = spec_solution_set(words, pool, anchor);
    let rest = spec_solution_set(words.drop_last(), pool, anchor);
    if i == words.len() - 1 {
        assert(s[s.len() - 1] == lower_seq(words[i]));
    } else {
        assert(words.drop_last()[i] == words[i]);
        lemma_solution_set_complete_at(words.drop_last(), pool, anchor, i);
        let k = choose|k: int| 0 <= k < rest.len() && rest[k] == lower_seq(words[i]);
        assert(s[k] == lower_seq(words[i]));
    }
}

proof fn lemma_solution_set_sound_at(words: Seq<Seq<char>>, pool: Seq<char>, anchor: char, k: int)
    requires
        0 <= k < spec_solution_set(words, pool, anchor).len(),
    ensures
        is_guessable(spec_solution_set(words, pool, anchor)[k], pool, anchor),
        exists|i: int|
            0 <= i < words.len() && spec_solution_set(words, pool, anchor)[k] == lower_seq(
                #[trigger] words[i],
            ),
    decreases words.len(),
{
    let s = spec_solution_set(words, pool, anchor);
    let rest = spec_solution_set(words.drop_last(), pool, anchor);
    if is_guessable(words.last(), pool, anchor) && k == rest.len() {
        lemma_lower_seq_idempotent(words.last());
        assert(s[k] == lower_seq(words[words.len() - 1]));
    } else {
        lemma_solution_set_sound_at(words.drop_last(), pool, anchor, k);
        let i = choose|i: int|
            0 <= i < words.drop_last().len() && rest[k] == lower_seq(#[trigger] words.drop_last()[i]);
        assert(s[k] == lower_seq(words[i]));
    }
}

/// The solution set is sound and complete: every word in it fits the
/// pool and contains the anchor, and every word of the list that does so
/// stands in it (lowercased).
pub proof fn lemma_solution_set_sound_complete(words: Seq<Seq<char>>, pool: Seq<char>, anchor: char)
    ensures
        forall|k: int|
            0 <= k < spec_solution_set(words, pool, anchor).len() ==> is_guessable(
                #[trigger] spec_solution_set(words, pool, anchor)[k],
                pool,
                anchor,
            ),
        forall|i: int|
            0 <= i < words.len() && is_guessable(#[trigger] words[i], pool, anchor)
                ==> spec_solution_set(words, pool, anchor).contains(lower_seq(words[i])),
{
    assert forall|k: int|
        0 <= k < spec_solution_set(words, pool, anchor).len() implies is_guessable(
        #[trigger] spec_solution_set(words, pool, anchor)[k],
        pool,
        anchor,
    ) by {
        lemma_solution_set_sound_at(words, pool, anchor, k);
    }
    assert forall|i: int|
        0 <= i < words.len() && is_guessable(
            #[trigger] words[i],
            pool,
            anchor,
        ) implies spec_solution_set(words, pool, anchor).contains(lower_seq(words[i])) by {
        lemma_solution_set_complete_at(words, pool, anchor, i);
    }
}

/// The puzzle word is always in the solution set: its distinct letters
/// are exactly the pool, a subset of itself, and the anchor letter is
/// drawn from the pool.
pub proof fn lemma_puzzle_word_in_solution_set(
    words: Seq<Seq<char>>,
    word: Seq<char>,
    pool: Seq<char>,
    anchor: char,
)
    requires
        words.contains(word),
        distinct_letters(word) == pool.to_set(),
        pool.to_set().contains(anchor),
    ensures
        spec_solution_set(words, pool, anchor).contains(lower_seq(word)),
{
    let i = choose|i: int| 0 <= i < words.len() && words[i] == word;
    assert(distinct_letters(word).subset_of(pool.to_set()));
    lemma_solution_set_complete_at(words, pool, anchor, i);
}

/// Picks the qualifying words out of a word list, in order.
fn filter_qualifying(words: &Vec<String>) -> (r: Vec<String>)
    ensures
        r.deep_view() == spec_candidates(words.deep_view()),
{
    let mut r: Vec<String> = Vec::new();
    let mut i: usize = 0;
    while i < words.len()
        invariant
            i <= words@.len(),
            r.deep_view() == spec_candidates(words.deep_view().take(i as int)),
        decreases words@.len() - i,
    {
        let ghost prev = r.deep_view();
        if is_qualifying_word(words[i].as_str()) {
            let w = words[i].clone();
            r.push(w);
            proof {
                assert(r.deep_view() =~= prev.push(words.deep_view()[i as int]));
            }
        }
        proof {
            let dv = words.deep_view();
            assert(dv.take(i + 1).drop_last() =~= dv.take(i as int));
            assert(dv.take(i + 1).last() == dv[i as int]);
        }
        i += 1;
    }
    proof {
        assert(words.deep_view().take(words@.len() as int) =~= words.deep_view());
    }
    r
}

/// Builds the solution set of a round from the word list, the letter
/// pool and the anchor letter, lowercasing each accepted word.
pub fn build_solution_set(words: &Vec<String>, game_chars: &Vec<char>, anchor_char: char) -> (r:
    Vec<String>)
    ensures
        r.deep_view() == spec_solution_set(words.deep_view(), game_chars@, anchor_char),
{
    let mut r: Vec<String> = Vec::new();
    let mut i: usize = 0;
    while i < words.len()
        invariant
            i <= words@.len(),
            r.deep_view() == spec_solution_set(
                words.deep_view().take(i as int),
                game_chars@,
                anchor_char,
            ),
        decreases words@.len() - i,
    {
        let ghost prev = r.deep_view();
        if is_guessable_word(words[i].as_str(), game_chars, &anchor_char) {
            let w = lower_string(words[i].as_str());
            r.push(w);
            proof {
                assert(r.deep_view() =~= prev.push(lower_seq(words.deep_view()[i as int])));
            }
        }
        proof {
            let dv = words.deep_view();
            assert(dv.take(i + 1).drop_last() =~= dv.take(i as int));
            assert(dv.take(i + 1).last() == dv[i as int]);
        }
        i += 1;
    }
    proof {
        assert(words.deep_view().take(words@.len() as int) =~= words.deep_view());
    }
    r
}

/// What evaluating a guess answers, given the round's solution set and
/// the words guessed so far.
pub open spec fn spec_guess_outcome(
    guessable: Seq<Seq<char>>,
    guessed: Seq<Seq<char>>,
    input: Seq<char>,
) -> GuessOutcome {
    if input == "exit()"@ {
        GuessOutcome::Exit
    } else if input == "give_up()"@ {
        GuessOutcome::GiveUp
    } else if !guessable.contains(input) {
        GuessOutcome::Rejected
    } else if guessed.contains(input) {
        GuessOutcome::Duplicate
    } else {
        GuessOutcome::Accepted
    }
}

/// The guessed words after evaluating a guess: the guess is appended
/// exactly when it is accepted.
pub open spec fn spec_guessed_after(
    guessable: Seq<Seq<char>>,
    guessed: Seq<Seq<char>>,
    input: Seq<char>,
) -> Seq<Seq<char>> {
    if spec_guess_outcome(guessable, guessed, input) == GuessOutcome::Accepted {
        guessed.push(input)
    } else {
        guessed
    }
}

/// A guess that is rejected changes nothing, and the same guess is
/// rejected again: rejection is idempotent.
pub proof fn lemma_rejection_idempotent(
    guessable: Seq<Seq<char>>,
    guessed: Seq<Seq<char>>,
    input: Seq<char>,
)
    requires
        spec_guess_outcome(guessable, guessed, input) == GuessOutcome::Rejected,
    ensures
        spec_guessed_after(guessable, guessed, input) == guessed,
        spec_guess_outcome(guessable, spec_guessed_after(guessable, guessed, input), input)
            == GuessOutcome::Rejected,
{
}

/// A valid novel guess is accepted exactly once: the first evaluation
/// accepts it and appends it, the second one reports a duplicate and
/// changes nothing, and the guessed words hold it exactly once.
pub proof fn lemma_accept_then_duplicate(
    guessable: Seq<Seq<char>>,
    guessed: Seq<Seq<char>>,
    input: Seq<char>,
)
    requires
        guessable.contains(input),
        !guessed.contains(input),
        guessed.no_duplicates(),
        input != "exit()"@,
        input != "give_up()"@,
    ensures
        spec_guess_outcome(guessable, guessed, input) == GuessOutcome::Accepted,
        spec_guessed_after(guessable, guessed, input) == guessed.push(input),
        spec_guess_outcome(guessable, guessed.push(input), input) == GuessOutcome::Duplicate,
        spec_guessed_after(guessable, guessed.push(input), input) == guessed.push(input),
        guessed.push(input).no_duplicates(),
        guessed.push(input).contains(input),
{
    let after = guessed.push(input);
    assert(after[after.len() - 1] == input);
    assert(after.no_duplicates()) by {
        assert(forall|i: int| 0 <= i < guessed.len() ==> after[i] == #[trigger] guessed[i]);
        assert forall|i: int, j: int| 0 <= i < j < after.len() implies after[i] != after[j] by {
            if j == after.len() - 1 {
                assert(guessed.contains(guessed[i]));
            }
        }
    }
}

/// In every well-formed round the letter pool has exactly seven letters
/// and the anchor letter is one of them.
pub proof fn lemma_pool_invariant(g: GameStatus)
    requires
        g.wf(),
    ensures
        g.pool().len() == 7,
        g.pool().contains(g.anchor_char),
{
    lemma_strictly_sorted_no_duplicates(g.game_chars@);
    g.game_chars@.unique_seq_to_set();
}

impl GameStatus {
    /// The letter pool of the round, as a set.
    pub open spec fn pool(self) -> Set<char> {
        self.game_chars@.to_set()
    }

    /// A well-formed round: seven sorted pool letters, the anchor among
    /// them, every guessable word fitting the pool and the anchor, and
    /// guessed words that are distinct guessable words.
    pub open spec fn wf(self) -> bool {
        &&& self.game_chars@.len() == 7
        &&& strictly_sorted(self.game_chars@)
        &&& self.pool().contains(self.anchor_char)
        &&& forall|k: int|
            0 <= k < self.guessable_words.deep_view().len() ==> is_guessable(
                #[trigger] self.guessable_words.deep_view()[k],
                self.game_chars@,
                self.anchor_char,
            )
        &&& self.guessed_words.deep_view().no_duplicates()
        &&& forall|k: int|
            0 <= k < self.guessed_words.deep_view().len()
                ==> self.guessable_words.deep_view().contains(
                #[trigger] self.guessed_words.deep_view()[k],
            )
    }

    /// Starts a round: picks a random qualifying puzzle word, derives its
    /// seven distinct letters, picks a random anchor letter among them,
    /// and builds the solution set. Fails exactly when the word list has
    /// no qualifying word.
    pub fn new_game(words: &Vec<String>) -> (r: Result<GameStatus, GameError>)
        ensures
            match r {
                Ok(g) => {
                    &&& g.wf()
                    &&& words.deep_view().contains(g.game_word@)
                    &&& is_qualifying(g.game_word@)
                    &&& g.game_chars@.to_set() == distinct_letters(g.game_word@)
                    &&& g.guessable_words.deep_view() == spec_solution_set(
                        words.deep_view(),
                        g.game_chars@,
                        g.anchor_char,
                    )
                    &&& g.guessable_words.deep_view().contains(lower_seq(g.game_word@))
                    &&& lower_seq(g.game_word@) == g.game_word@
                        ==> g.guessable_words.deep_view().contains(g.game_word@)
                    &&& g.guessed_words@.len() == 0
                },
                Err(e) => {
                    &&& e == GameError::NoQualifyingWords
                    &&& forall|i: int|
                        0 <= i < words.deep_view().len() ==> !is_qualifying(
                            #[trigger] words.deep_view()[i],
                        )
                },
            },
    {
        let candidates = filter_qualifying(words);
        if candidates.len() == 0 {
            proof {
                lemma_candidates_empty(words.deep_view());
            }
            return Err(GameError::NoQualifyingWords);
        }
        let mut rng = new_rng();
        let wi = random_below(&mut rng, candidates.len());
        let game_word = candidates[wi].clone();
        proof {
            lemma_candidates_sound(words.deep_view(), wi as int);
            assert(game_word@ == candidates.deep_view()[wi as int]);
        }
        let game_chars = get_distinct_chars(game_word.as_str());
        let ai = random_below(&mut rng, game_chars.len());
        let anchor_char = game_chars[ai];
        let guessable_words = build_solution_set(words, &game_chars, anchor_char);
        proof {
            assert(game_chars@.to_set().contains(game_chars@[ai as int]));
            lemma_solution_set_sound_complete(words.deep_view(), game_chars@, anchor_char);
            let i = choose|i: int|
                0 <= i < words.deep_view().len() && words.deep_view()[i] == game_word@;
            assert(distinct_letters(game_word@).subset_of(game_chars@.to_set()));
            lemma_solution_set_complete_at(words.deep_view(), game_chars@, anchor_char, i);
        }
        Ok(
            GameStatus {
                game_word,
                game_chars,
                anchor_char,
                guessable_words,
                guessed_words: Vec::new(),
            },
        )
    }

    /// Evaluates one guess, already trimmed and lowercased. The two
    /// terminal commands change nothing; a solution word not guessed
    /// before is appended to the guessed words; everything else changes
    /// nothing.
    pub fn process_guess(&mut self, input: &String) -> (r: GuessOutcome)
        requires
            old(self).wf(),
        ensures
            final(self).wf(),
            r == spec_guess_outcome(
                old(self).guessable_words.deep_view(),
                old(self).guessed_words.deep_view(),
                input@,
            ),
            final(self).guessed_words.deep_view() == spec_guessed_after(
                old(self).guessable_words.deep_view(),
                old(self).guessed_words.deep_view(),
                input@,
            ),
            final(self).game_word == old(self).game_word,
            final(self).game_chars == old(self).game_chars,
            final(self).anchor_char == old(self).anchor_char,
            final(self).guessable_words == old(self).guessable_words,
            r != GuessOutcome::Accepted ==> *final(self) == *old(self),
    {
        if str_eq(input.as_str(), "exit()") {
            return GuessOutcome::Exit;
        }
        if str_eq(input.as_str(), "give_up()") {
            return GuessOutcome::GiveUp;
        }
        if !contains_word(&self.guessable_words, input.as_str()) {
            return GuessOutcome::Rejected;
        }
        if contains_word(&self.guessed_words, input.as_str()) {
            return GuessOutcome::Duplicate;
        }
        let ghost prev = self.guessed_words.deep_view();
        let w = input.clone();
        self.guessed_words.push(w);
        proof {
            assert(self.guessed_words.deep_view() =~= prev.push(input@));
            lemma_accept_then_duplicate(self.guessable_words.deep_view(), prev, input@);
        }
        GuessOutcome::Accepted
    }
}

} // verus!
