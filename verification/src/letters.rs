//! Letters and letter sets: lowercasing, distinct letters of a word,
//! the qualifying-word predicate and the guessable-word predicate.

use vstd::prelude::*;
use vstd::string::StrSliceExecFns;

verus! {

/// Lowercases a single letter: ASCII uppercase letters map to their
/// lowercase counterpart, every other character is unchanged.
pub open spec fn lower_char(c: char) -> char {
    if 'A' <= c && c <= 'Z' {
        ((c as u8) + 32) as char
    } else {
        c
    }
}

/// The word with every letter lowercased.
pub open spec fn lower_seq(s: Seq<char>) -> Seq<char> {
    s.map_values(|c: char| lower_char(c))
}

/// The set of distinct lowercase letters of a word.
pub open spec fn distinct_letters(s: Seq<char>) -> Set<char> {
    lower_seq(s).to_set()
}

/// A word qualifies as a puzzle seed exactly when it has seven distinct
/// lowercase letters.
pub open spec fn is_qualifying(s: Seq<char>) -> bool {
    distinct_letters(s).len() == 7
}

/// A guessable word: its distinct lowercase letters all come from the
/// letter pool and include the anchor letter.
pub open spec fn is_guessable(word: Seq<char>, pool: Seq<char>, anchor: char) -> bool {
    &&& distinct_letters(word).subset_of(pool.to_set())
    &&& distinct_letters(word).contains(anchor)
}

pub open spec fn strictly_sorted(s: Seq<char>) -> bool {
    forall|i: int, j: int| 0 <= i < j < s.len() ==> s[i] < s[j]
}

/// Lowercasing is idempotent, so a lowercased word has exactly the same
/// distinct letters as the word itself.
pub proof fn lemma_lower_seq_idempotent(s: Seq<char>)
    ensures
        lower_seq(lower_seq(s)) == lower_seq(s),
        distinct_letters(lower_seq(s)) == distinct_letters(s),
{
    assert(lower_seq(lower_seq(s)) =~= lower_seq(s)) by {
        assert forall|i: int| 0 <= i < s.len() implies lower_seq(lower_seq(s))[i] == lower_seq(
            s,
        )[i] by {
            let c = s[i];
            if 'A' <= c && c <= 'Z' {
                assert(lower_char(lower_char(c)) == lower_char(c));
            }
        }
    }
}

/// A strictly sorted sequence repeats no letter.
pub proof fn lemma_strictly_sorted_no_duplicates(s: Seq<char>)
    requires
        strictly_sorted(s),
    ensures
        s.no_duplicates(),
{
}

fn lower_char_exec(c: char) -> (r: char)
    ensures
        r == lower_char(c),
{
    if 'A' <= c && c <= 'Z' {
        ((c as u8) + 32) as char
    } else {
        c
    }
}

/// The characters of a string, in order, as a vector.
pub fn chars_of(s: &str) -> (r: Vec<char>)
    ensures
        r@ == s@,
{
    let n = s.unicode_len();
    let mut r: Vec<char> = Vec::new();
    let mut i: usize = 0;
    while i < n
        invariant
            i <= n,
            n == s@.len(),
            r@ == s@.take(i as int),
        decreases n - i,
    {
        let c = s.get_char(i);
        r.push(c);
        proof {
            assert(s@.take(i + 1) =~= s@.take(i as int).push(s@[i as int]));
        }
        i += 1;
    }
    proof {
        assert(s@.take(n as int) =~= s@);
    }
    r
}

/// Every character of the word lowercased, in order.
pub fn lower_chars(v: &Vec<char>) -> (r: Vec<char>)
    ensures
        r@ == lower_seq(v@),
{
    let mut r: Vec<char> = Vec::new();
    let mut i: usize = 0;
    while i < v.len()
        invariant
            i <= v@.len(),
            r@ == lower_seq(v@.take(i as int)),
        decreases v@.len() - i,
    {
        let c = lower_char_exec(v[i]);
        r.push(c);
        proof {
            assert(lower_seq(v@.take(i + 1)) =~= lower_seq(v@.take(i as int)).push(
                lower_char(v@[i as int]),
            ));
        }
        i += 1;
    }
    proof {
        assert(v@.take(v@.len() as int) =~= v@);
    }
    r
}

/// Inserting a letter anywhere in a sequence adds exactly that letter to
/// the sequence's set of members.
proof fn lemma_insert_to_set(s: Seq<char>, i: int, c: char)
    requires
        0 <= i <= s.len(),
    ensures
        s.insert(i, c).to_set() == s.to_set().insert(c),
{
    s.insert_ensures(i, c);
    let t = s.insert(i, c);
    assert forall|x: char| t.to_set().contains(x) implies s.to_set().insert(c).contains(x) by {
        let k = choose|k: int| 0 <= k < t.len() && t[k] == x;
        if k < i {
            assert(s[k] == x);
        } else if k > i {
            assert(s[k - 1] == x);
        }
    }
    assert forall|x: char| s.to_set().insert(c).contains(x) implies t.to_set().contains(x) by {
        if x == c {
            assert(t[i] == x);
        } else {
            let k = choose|k: int| 0 <= k < s.len() && s[k] == x;
            if k < i {
                assert(t[k] == x);
            } else {
                assert(t[k + 1] == x);
            }
        }
    }
    assert(t.to_set() =~= s.to_set().insert(c));
}

/// Adds a letter to a strictly sorted vector, keeping it strictly sorted;
/// a letter already present is not added again.
fn insert_distinct_sorted(v: &mut Vec<char>, c: char)
    requires
        strictly_sorted(old(v)@),
    ensures
        strictly_sorted(final(v)@),
        final(v)@.to_set() == old(v)@.to_set().insert(c),
{
    let mut i: usize = 0;
    while i < v.len() && v[i] < c
        invariant
            i <= v@.len(),
            strictly_sorted(v@),
            v == old(v),
            forall|j: int| 0 <= j < i ==> v@[j] < c,
        decreases v@.len() - i,
    {
        i += 1;
    }
    if i < v.len() && v[i] == c {
        proof {
            assert(v@.contains(c));
            assert(v@.to_set() =~= v@.to_set().insert(c));
        }
    } else {
        proof {
            v@.insert_ensures(i as int, c);
            lemma_insert_to_set(v@, i as int, c);
        }
        v.insert(i, c);
        proof {
            assert(strictly_sorted(v@)) by {
                assert(forall|j: int| 0 <= j < i ==> v@[j] < c);
                assert(forall|j: int| i < j < v@.len() ==> c < v@[j]);
            }
        }
    }
}

/// The sorted distinct lowercase letters of a word, each exactly once.
pub fn get_distinct_chars(word: &str) -> (r: Vec<char>)
    ensures
        strictly_sorted(r@),
        r@.no_duplicates(),
        r@.to_set() == distinct_letters(word@),
        r@.len() == distinct_letters(word@).len(),
{
    let cs = chars_of(word);
    let mut r: Vec<char> = Vec::new();
    let mut i: usize = 0;
    while i < cs.len()
        invariant
            i <= cs@.len(),
            cs@ == word@,
            strictly_sorted(r@),
            r@.to_set() == distinct_letters(word@.take(i as int)),
        decreases cs@.len() - i,
    {
        let c = lower_char_exec(cs[i]);
        insert_distinct_sorted(&mut r, c);
        proof {
            broadcast use vstd::prelude::Seq::lemma_push_to_set_commute;

            assert(lower_seq(word@.take(i + 1)) =~= lower_seq(word@.take(i as int)).push(
                lower_char(word@[i as int]),
            ));
        }
        i += 1;
    }
    proof {
        assert(word@.take(cs@.len() as int) =~= word@);
        lemma_strictly_sorted_no_duplicates(r@);
        r@.unique_seq_to_set();
    }
    r
}

/// True exactly when the word has seven distinct lowercase letters.
pub fn is_qualifying_word(word: &str) -> (r: bool)
    ensures
        r == is_qualifying(word@),
{
    let distinct = get_distinct_chars(word);
    distinct.len() == 7
}

/// True exactly when the vector holds the letter.
pub fn contains_char(v: &Vec<char>, c: char) -> (r: bool)
    ensures
        r == v@.contains(c),
{
    let mut i: usize = 0;
    while i < v.len()
        invariant
            i <= v@.len(),
            forall|j: int| 0 <= j < i ==> v@[j] != c,
        decreases v@.len() - i,
    {
        if v[i] == c {
            return true;
        }
        i += 1;
    }
    false
}

/// True exactly when the word can be guessed in a round with the given
/// letter pool and anchor letter: every distinct lowercase letter of the
/// word is in the pool, and the anchor letter is among them.
pub fn is_guessable_word(word: &str, game_chars: &Vec<char>, anchor_char: &char) -> (r: bool)
    ensures
        r == is_guessable(word@, game_chars@, *anchor_char),
{
    let word_chars = get_distinct_chars(word);
    let mut i: usize = 0;
    while i < word_chars.len()
        invariant
            i <= word_chars@.len(),
            word_chars@.to_set() == distinct_letters(word@),
            forall|j: int| 0 <= j < i ==> game_chars@.contains(#[trigger] word_chars@[j]),
        decreases word_chars@.len() - i,
    {
        if !contains_char(game_chars, word_chars[i]) {
            proof {
                assert(distinct_letters(word@).contains(word_chars@[i as int]));
                assert(!game_chars@.to_set().contains(word_chars@[i as int]));
            }
            return false;
        }
        i += 1;
    }
    proof {
        assert forall|x: char| distinct_letters(word@).contains(x) implies game_chars@.to_set().contains(
            x,
        ) by {
            assert(word_chars@.contains(x));
        }
    }
    contains_char(&word_chars, *anchor_char)
}

} // verus!
