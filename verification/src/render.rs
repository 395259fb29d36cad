//! Rendering: the board snapshot, the guess summary, and the messages
//! the round reports. Every function here is pure: the same state
//! renders to the same text.

use vstd::prelude::*;
use vstd::string::StringExecFns;

use crate::game::GameStatus;
use crate::letters::chars_of;
use crate::words::string_from_chars;

verus! {

/// The decimal digit for one value below ten.
pub open spec fn spec_digit(d: int) -> char
    recommends
        0 <= d <= 9,
{
    (d + 48) as char
}

/// The decimal rendering of a number, most significant digit first.
pub open spec fn spec_decimal(n: nat) -> Seq<char>
    decreases n,
{
    if n < 10 {
        seq![spec_digit(n as int)]
    } else {
        spec_decimal(n / 10).push(spec_digit((n % 10) as int))
    }
}

/// A word in quotes.
pub open spec fn spec_quoted(w: Seq<char>) -> Seq<char> {
    seq!['"'] + w + seq!['"']
}

/// The words, each in quotes, joined by commas.
pub open spec fn spec_joined(ws: Seq<Seq<char>>) -> Seq<char>
    decreases ws.len(),
{
    if ws.len() == 0 {
        Seq::empty()
    } else if ws.len() == 1 {
        spec_quoted(ws[0])
    } else {
        spec_joined(ws.drop_last()) + ", "@ + spec_quoted(ws.last())
    }
}

/// A list of words rendered as a bracketed, comma-separated list of
/// quoted words.
pub open spec fn spec_word_list_text(ws: Seq<Seq<char>>) -> Seq<char> {
    seq!['['] + spec_joined(ws) + seq![']']
}

/// The pool letters other than the anchor letter, in pool order.
pub open spec fn spec_non_anchor(pool: Seq<char>, anchor: char) -> Seq<char>
    decreases pool.len(),
{
    if pool.len() == 0 {
        Seq::empty()
    } else {
        let rest = spec_non_anchor(pool.drop_last(), anchor);
        if pool.last() == anchor {
            rest
        } else {
            rest.push(pool.last())
        }
    }
}

/// Removing the anchor letter from a pool without repeated letters
/// shortens it by one exactly when the anchor is in the pool.
pub proof fn lemma_non_anchor_len(pool: Seq<char>, anchor: char)
    requires
        pool.no_duplicates(),
    ensures
        pool.contains(anchor) ==> spec_non_anchor(pool, anchor).len() == pool.len() - 1,
        !pool.contains(anchor) ==> spec_non_anchor(pool, anchor).len() == pool.len(),
    decreases pool.len(),
{
    if pool.len() > 0 {
        let head = pool.drop_last();
        lemma_non_anchor_len(head, anchor);
        if pool.last() == anchor {
            assert(!head.contains(anchor)) by {
                if head.contains(anchor) {
                    let i = choose|i: int| 0 <= i < head.len() && head[i] == anchor;
                    assert(pool[i] == anchor && pool[pool.len() - 1] == anchor);
                }
            }
            assert(pool.contains(anchor));
        } else {
            if pool.contains(anchor) {
                let i = choose|i: int| 0 <= i < pool.len() && pool[i] == anchor;
                assert(head[i] == anchor);
            }
            if head.contains(anchor) {
                let i = choose|i: int| 0 <= i < head.len() && head[i] == anchor;
                assert(pool[i] == anchor);
            }
        }
    }
}

/// The board snapshot: the seven letters laid out in a ring of six
/// around the anchor letter.
pub open spec fn spec_board(pool: Seq<char>, anchor: char) -> Seq<char>
    recommends
        spec_non_anchor(pool, anchor).len() == 6,
{
    let n = spec_non_anchor(pool, anchor);
    "Your letters are:\n\n "@ + seq![n[0]] + " "@ + seq![n[1]] + "\n"@ + seq![n[2]] + " "@
        + seq![anchor] + " "@ + seq![n[3]] + "\n "@ + seq![n[4]] + " "@ + seq![n[5]]
}

/// The guess summary: how many of the solution words were guessed, and
/// the guessed words themselves.
pub open spec fn spec_guess_summary(guessed: Seq<Seq<char>>, total: nat) -> Seq<char> {
    "So far you have guessed the following "@ + spec_decimal(guessed.len()) + " words out of "@
        + spec_decimal(total) + " words possible:\n"@ + spec_word_list_text(guessed)
}

/// The whole rendered board: letters, guess summary, and the reminder of
/// the two terminal commands.
pub open spec fn spec_render(g: GameStatus) -> Seq<char> {
    "\n"@ + spec_board(g.game_chars@, g.anchor_char) + "\n\n"@ + spec_guess_summary(
        g.guessed_words.deep_view(),
        g.guessable_words@.len() as nat,
    ) + "\n\n"@ + "Please enter your guess, exit() to exit or give_up() to end the game."@
}

fn digit_char(d: usize) -> (r: char)
    requires
        d <= 9,
    ensures
        r == spec_digit(d as int),
{
    ((d as u8) + 48) as char
}

/// The decimal digits of a number, most significant first.
pub fn decimal_chars(n: usize) -> (r: Vec<char>)
    ensures
        r@ == spec_decimal(n as nat),
    decreases n,
{
    if n < 10 {
        let mut r: Vec<char> = Vec::new();
        r.push(digit_char(n));
        proof {
            assert(r@ =~= seq![spec_digit(n as int)]);
        }
        r
    } else {
        let mut r = decimal_chars(n / 10);
        r.push(digit_char(n % 10));
        r
    }
}

/// Appends the characters of a string.
fn push_str_chars(out: &mut Vec<char>, s: &str)
    ensures
        final(out)@ == old(out)@ + s@,
{
    let cs = chars_of(s);
    let mut i: usize = 0;
    while i < cs.len()
        invariant
            i <= cs@.len(),
            cs@ == s@,
            out@ == old(out)@ + s@.take(i as int),
        decreases cs@.len() - i,
    {
        let c = cs[i];
        out.push(c);
        proof {
            assert(old(out)@ + s@.take(i + 1) =~= (old(out)@ + s@.take(i as int)).push(
                s@[i as int],
            ));
        }
        i += 1;
    }
    proof {
        assert(old(out)@ + s@.take(s@.len() as int) =~= old(out)@ + s@);
    }
}

/// Appends the characters of another vector.
fn push_chars(out: &mut Vec<char>, v: &Vec<char>)
    ensures
        final(out)@ == old(out)@ + v@,
{
    let mut i: usize = 0;
    while i < v.len()
        invariant
            i <= v@.len(),
            out@ == old(out)@ + v@.take(i as int),
        decreases v@.len() - i,
    {
        let c = v[i];
        out.push(c);
        proof {
            assert(old(out)@ + v@.take(i + 1) =~= (old(out)@ + v@.take(i as int)).push(
                v@[i as int],
            ));
        }
        i += 1;
    }
    proof {
        assert(old(out)@ + v@.take(v@.len() as int) =~= old(out)@ + v@);
    }
}

/// Appends a word in quotes.
fn push_quoted(out: &mut Vec<char>, w: &str)
    ensures
        final(out)@ == old(out)@ + spec_quoted(w@),
{
    out.push('"');
    push_str_chars(out, w);
    out.push('"');
    proof {
        assert(out@ =~= old(out)@ + spec_quoted(w@));
    }
}

/// Appends the words, each in quotes, joined by commas.
fn push_joined(out: &mut Vec<char>, ws: &Vec<String>)
    ensures
        final(out)@ == old(out)@ + spec_joined(ws.deep_view()),
{
    let ghost base = out@;
    let mut i: usize = 0;
    while i < ws.len()
        invariant
            i <= ws@.len(),
            out@ == base + spec_joined(ws.deep_view().take(i as int)),
        decreases ws@.len() - i,
    {
        let ghost before = out@;
        if i > 0 {
            push_str_chars(out, ", ");
        }
        push_quoted(out, ws[i].as_str());
        proof {
            let dv = ws.deep_view();
            assert(dv.take(i + 1).drop_last() =~= dv.take(i as int));
            assert(dv.take(i + 1).last() == dv[i as int]);
            if i == 0 {
                assert(out@ =~= base + spec_joined(dv.take(1)));
            } else {
                assert(spec_joined(dv.take(i + 1)) == spec_joined(dv.take(i as int)) + ", "@
                    + spec_quoted(dv[i as int]));
                assert(out@ =~= base + spec_joined(dv.take(i + 1)));
            }
        }
        i += 1;
    }
    proof {
        assert(ws.deep_view().take(ws@.len() as int) =~= ws.deep_view());
    }
}

/// The pool letters other than the anchor letter, in pool order.
fn non_anchor_chars(pool: &Vec<char>, anchor: char) -> (r: Vec<char>)
    ensures
        r@ == spec_non_anchor(pool@, anchor),
{
    let mut r: Vec<char> = Vec::new();
    let mut i: usize = 0;
    while i < pool.len()
        invariant
            i <= pool@.len(),
            r@ == spec_non_anchor(pool@.take(i as int), anchor),
        decreases pool@.len() - i,
    {
        let c = pool[i];
        if c != anchor {
            r.push(c);
        }
        proof {
            assert(pool@.take(i + 1).drop_last() =~= pool@.take(i as int));
            assert(pool@.take(i + 1).last() == pool@[i as int]);
        }
        i += 1;
    }
    proof {
        assert(pool@.take(pool@.len() as int) =~= pool@);
    }
    r
}

/// The rendered board snapshot for a well-formed round: the six letters
/// around the anchor, the guess summary, and the command reminder.
pub fn print_game(game: &GameStatus) -> (r: String)
    requires
        game.wf(),
    ensures
        r@ == spec_render(*game),
{
    proof {
        crate::letters::lemma_strictly_sorted_no_duplicates(game.game_chars@);
        lemma_non_anchor_len(game.game_chars@, game.anchor_char);
        assert(game.game_chars@.contains(game.anchor_char));
    }
    let na = non_anchor_chars(&game.game_chars, game.anchor_char);
    let mut out: Vec<char> = Vec::new();
    push_str_chars(&mut out, "\n");
    push_str_chars(&mut out, "Your letters are:\n\n ");
    out.push(na[0]);
    push_str_chars(&mut out, " ");
    out.push(na[1]);
    push_str_chars(&mut out, "\n");
    out.push(na[2]);
    push_str_chars(&mut out, " ");
    out.push(game.anchor_char);
    push_str_chars(&mut out, " ");
    out.push(na[3]);
    push_str_chars(&mut out, "\n ");
    out.push(na[4]);
    push_str_chars(&mut out, " ");
    out.push(na[5]);
    proof {
        assert(out@ =~= "\n"@ + spec_board(game.game_chars@, game.anchor_char));
    }
    push_str_chars(&mut out, "\n\n");
    push_str_chars(&mut out, "So far you have guessed the following ");
    let guessed_count = decimal_chars(game.guessed_words.len());
    push_chars(&mut out, &guessed_count);
    push_str_chars(&mut out, " words out of ");
    let total_count = decimal_chars(game.guessable_words.len());
    push_chars(&mut out, &total_count);
    push_str_chars(&mut out, " words possible:\n");
    out.push('[');
    push_joined(&mut out, &game.guessed_words);
    out.push(']');
    proof {
        assert(out@ =~= "\n"@ + spec_board(game.game_chars@, game.anchor_char) + "\n\n"@
            + spec_guess_summary(
            game.guessed_words.deep_view(),
            game.guessable_words@.len() as nat,
        ));
    }
    push_str_chars(&mut out, "\n\n");
    push_str_chars(&mut out, "Please enter your guess, exit() to exit or give_up() to end the game.");
    proof {
        assert(out@ =~= spec_render(*game));
    }
    string_from_chars(&out)
}

/// The farewell printed when the player leaves the round.
pub fn farewell_message() -> (r: String)
    ensures
        r@ == "\n\nThank you for playing the game! Hope to see you soon!\n\n"@,
{
    String::from_str("\n\nThank you for playing the game! Hope to see you soon!\n\n")
}

/// The report for an accepted guess.
pub fn accepted_message(input: &str) -> (r: String)
    ensures
        r@ == "Good job! "@ + input@ + " was one of the words!"@,
{
    let mut s = String::from_str("Good job! ");
    s.append(input);
    s.append(" was one of the words!");
    s
}

/// The report for a guess that had already been made.
pub fn duplicate_message(input: &str) -> (r: String)
    ensures
        r@ == input@ + " was already guessed. Try again."@,
{
    let mut s = String::from_str("");
    s.append(input);
    s.append(" was already guessed. Try again.");
    proof {
        assert(""@ + input@ + " was already guessed. Try again."@ =~= input@
            + " was already guessed. Try again."@) by {
            reveal_strlit("");
        }
    }
    s
}

/// The report for a rejected guess.
pub fn rejected_message(input: &str) -> (r: String)
    ensures
        r@ == "I'm sorry. "@ + input@ + " was not one of the words!"@,
{
    let mut s = String::from_str("I'm sorry. ");
    s.append(input);
    s.append(" was not one of the words!");
    s
}

/// The report for giving up: the score and the whole solution set.
pub fn give_up_message(game: &GameStatus) -> (r: String)
    ensures
        r@ == "Not bad. You got "@ + spec_decimal(game.guessed_words@.len() as nat) + " out of "@
            + spec_decimal(game.guessable_words@.len() as nat)
            + ".\n\n The complete list of words was: "@ + spec_word_list_text(
            game.guessable_words.deep_view(),
        ) + "\n"@,
{
    let mut out: Vec<char> = Vec::new();
    push_str_chars(&mut out, "Not bad. You got ");
    let guessed_count = decimal_chars(game.guessed_words.len());
    push_chars(&mut out, &guessed_count);
    push_str_chars(&mut out, " out of ");
    let total_count = decimal_chars(game.guessable_words.len());
    push_chars(&mut out, &total_count);
    push_str_chars(&mut out, ".\n\n The complete list of words was: ");
    out.push('[');
    push_joined(&mut out, &game.guessable_words);
    out.push(']');
    push_str_chars(&mut out, "\n");
    proof {
        assert(out@ =~= "Not bad. You got "@ + spec_decimal(game.guessed_words@.len() as nat)
            + " out of "@ + spec_decimal(game.guessable_words@.len() as nat)
            + ".\n\n The complete list of words was: "@ + spec_word_list_text(
            game.guessable_words.deep_view(),
        ) + "\n"@);
    }
    string_from_chars(&out)
}

} // verus!
