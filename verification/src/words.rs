//! Words and word lists: string comparison, normalization of dictionary
//! lines (trim, lowercase, drop short lines), and word-list membership.

use vstd::prelude::*;
use vstd::string::StrSliceExecFns;

use crate::letters::lower_seq;
use crate::letters::lower_chars;
use crate::letters::chars_of;

verus! {

/// The whitespace characters a dictionary line may be padded with.
pub open spec fn is_space(c: char) -> bool {
    c == ' ' || c == '\t' || c == '\r' || c == '\n'
}

/// The word without its leading whitespace.
pub open spec fn trim_front(s: Seq<char>) -> Seq<char>
    decreases s.len(),
{
    if s.len() > 0 && is_space(s[0]) {
        trim_front(s.drop_first())
    } else {
        s
    }
}

/// The word without its trailing whitespace.
pub open spec fn trim_back(s: Seq<char>) -> Seq<char>
    decreases s.len(),
{
    if s.len() > 0 && is_space(s.last()) {
        trim_back(s.drop_last())
    } else {
        s
    }
}

/// The word without leading and trailing whitespace.
pub open spec fn trim_spec(s: Seq<char>) -> Seq<char> {
    trim_back(trim_front(s))
}

/// A normalized dictionary word: trimmed, then lowercased.
pub open spec fn normalize_spec(s: Seq<char>) -> Seq<char> {
    lower_seq(trim_spec(s))
}

/// The word list built from raw dictionary lines: each line normalized,
/// lines of fewer than three characters dropped, order preserved.
pub open spec fn spec_word_list(lines: Seq<Seq<char>>) -> Seq<Seq<char>>
    decreases lines.len(),
{
    if lines.len() == 0 {
        Seq::empty()
    } else {
        let rest = spec_word_list(lines.drop_last());
        let w = normalize_spec(lines.last());
        if w.len() >= 3 {
            rest.push(w)
        } else {
            rest
        }
    }
}

proof fn lemma_word_list_sound_at(lines: Seq<Seq<char>>, k: int)
    requires
        0 <= k < spec_word_list(lines).len(),
    ensures
        spec_word_list(lines)[k].len() >= 3,
        exists|i: int|
            0 <= i < lines.len() && spec_word_list(lines)[k] == normalize_spec(#[trigger] lines[i]),
    decreases lines.len(),
{
    let s = spec_word_list(lines);
    let rest = spec_word_list(lines.drop_last());
    if normalize_spec(lines.last()).len() >= 3 && k == rest.len() {
        assert(s[k] == normalize_spec(lines[lines.len() - 1]));
    } else {
        lemma_word_list_sound_at(lines.drop_last(), k);
        let i = choose|i: int|
            0 <= i < lines.drop_last().len() && rest[k] == normalize_spec(
                #[trigger] lines.drop_last()[i],
            );
        assert(s[k] == normalize_spec(lines[i]));
    }
}

proof fn lemma_word_list_complete_at(lines: Seq<Seq<char>>, i: int)
    requires
        0 <= i < lines.len(),
        normalize_spec(lines[i]).len() >= 3,
    ensures
        spec_word_list(lines).contains(normalize_spec(lines[i])),
    decreases lines.len(),
{
    let s = spec_word_list(lines);
    let rest = spec_word_list(lines.drop_last());
    if i == lines.len() - 1 {
        assert(s[s.len() - 1] == normalize_spec(lines[i]));
    } else {
        assert(lines.drop_last()[i] == lines[i]);
        lemma_word_list_complete_at(lines.drop_last(), i);
        let k = choose|k: int| 0 <= k < rest.len() && rest[k] == normalize_spec(lines[i]);
        assert(s[k] == normalize_spec(lines[i]));
    }
}

/// The word list is sound and complete: every word in it is a
/// normalized line of at least three characters, and every line whose
/// normalized form has at least three characters stands in it.
pub proof fn lemma_word_list_sound_complete(lines: Seq<Seq<char>>)
    ensures
        forall|k: int|
            0 <= k < spec_word_list(lines).len() ==> #[trigger] spec_word_list(lines)[k].len()
                >= 3,
        forall|k: int|
            0 <= k < spec_word_list(lines).len() ==> exists|i: int|
                0 <= i < lines.len() && #[trigger] spec_word_list(lines)[k] == normalize_spec(
                    #[trigger] lines[i],
                ),
        forall|i: int|
            0 <= i < lines.len() && normalize_spec(#[trigger] lines[i]).len() >= 3
                ==> spec_word_list(lines).contains(normalize_spec(lines[i])),
{
    assert forall|k: int|
        0 <= k < spec_word_list(lines).len() implies #[trigger] spec_word_list(lines)[k].len() >= 3
        && exists|i: int|
        0 <= i < lines.len() && spec_word_list(lines)[k] == normalize_spec(
            #[trigger] lines[i],
        ) by {
        lemma_word_list_sound_at(lines, k);
    }
    assert forall|i: int|
        0 <= i < lines.len() && normalize_spec(
            #[trigger] lines[i],
        ).len() >= 3 implies spec_word_list(lines).contains(normalize_spec(lines[i])) by {
        lemma_word_list_complete_at(lines, i);
    }
}

fn is_space_exec(c: char) -> (r: bool)
    ensures
        r == is_space(c),
{
    c == ' ' || c == '\t' || c == '\r' || c == '\n'
}

/// True exactly when the two strings hold the same characters.
pub fn str_eq(a: &str, b: &str) -> (r: bool)
    ensures
        r == (a@ == b@),
{
    let na = a.unicode_len();
    let nb = b.unicode_len();
    if na != nb {
        return false;
    }
    let mut i: usize = 0;
    while i < na
        invariant
            i <= na,
            na == a@.len(),
            na == b@.len(),
            forall|j: int| 0 <= j < i ==> a@[j] == b@[j],
        decreases na - i,
    {
        if a.get_char(i) != b.get_char(i) {
            return false;
        }
        i += 1;
    }
    proof {
        assert(a@ =~= b@);
    }
    true
}

/// True exactly when the list holds a word with the given characters.
pub fn contains_word(list: &Vec<String>, w: &str) -> (r: bool)
    ensures
        r == list.deep_view().contains(w@),
{
    let mut i: usize = 0;
    while i < list.len()
        invariant
            i <= list@.len(),
            forall|j: int| 0 <= j < i ==> list.deep_view()[j] != w@,
        decreases list@.len() - i,
    {
        if str_eq(list[i].as_str(), w) {
            proof {
                assert(list.deep_view()[i as int] == w@);
            }
            return true;
        }
        i += 1;
    }
    false
}

/// Relies on the standard library's `FromIterator` for `String`:
/// collecting characters yields the string of exactly those characters.
#[verifier::external_body]
pub(crate) fn string_from_chars(v: &Vec<char>) -> (r: String)
    ensures
        r@ == v@,
{
    v.iter().collect()
}

/// The word with every letter lowercased.
pub fn lower_string(w: &str) -> (r: String)
    ensures
        r@ == lower_seq(w@),
{
    let cs = chars_of(w);
    let l = lower_chars(&cs);
    string_from_chars(&l)
}

/// If a word starts with some number of whitespace characters, trimming
/// the front is the same as trimming the front of what follows them.
proof fn lemma_trim_front_skip(s: Seq<char>, k: int)
    requires
        0 <= k <= s.len(),
        forall|j: int| 0 <= j < k ==> is_space(s[j]),
    ensures
        trim_front(s) == trim_front(s.skip(k)),
    decreases k,
{
    if k > 0 {
        assert(s.drop_first() =~= s.skip(1));
        lemma_trim_front_skip(s.drop_first(), k - 1);
        assert(s.drop_first().skip(k - 1) =~= s.skip(k));
    } else {
        assert(s.skip(0) =~= s);
    }
}

/// If a word ends with some number of whitespace characters, trimming
/// the back is the same as trimming the back of what precedes them.
proof fn lemma_trim_back_take(s: Seq<char>, k: int)
    requires
        0 <= k <= s.len(),
        forall|j: int| k <= j < s.len() ==> is_space(s[j]),
    ensures
        trim_back(s) == trim_back(s.take(k)),
    decreases s.len() - k,
{
    if k < s.len() {
        assert(is_space(s.last()));
        assert(s.drop_last() =~= s.take(s.len() - 1));
        lemma_trim_back_take(s.take(s.len() - 1), k);
        assert(s.take(s.len() - 1).take(k) =~= s.take(k));
    } else {
        assert(s.take(k as int) =~= s);
    }
}

/// The characters of the word with leading and trailing whitespace removed.
pub fn trim_chars(v: &Vec<char>) -> (r: Vec<char>)
    ensures
        r@ == trim_spec(v@),
{
    let mut start: usize = 0;
    while start < v.len() && is_space_exec(v[start])
        invariant
            start <= v@.len(),
            forall|j: int| 0 <= j < start ==> is_space(v@[j]),
        decreases v@.len() - start,
    {
        start += 1;
    }
    proof {
        lemma_trim_front_skip(v@, start as int);
    }
    let mut end: usize = v.len();
    while end > start && is_space_exec(v[end - 1])
        invariant
            start <= end <= v@.len(),
            forall|j: int| end <= j < v@.len() ==> is_space(v@[j]),
        decreases end,
    {
        end -= 1;
    }
    let mut r: Vec<char> = Vec::new();
    let mut i: usize = start;
    while i < end
        invariant
            start <= i <= end <= v@.len(),
            r@ == v@.subrange(start as int, i as int),
        decreases end - i,
    {
        let c = v[i];
        r.push(c);
        proof {
            assert(v@.subrange(start as int, i + 1) =~= v@.subrange(start as int, i as int).push(
                v@[i as int],
            ));
        }
        i += 1;
    }
    proof {
        let f = v@.skip(start as int);
        if start == v@.len() {
            assert(f =~= Seq::<char>::empty());
            assert(r@ =~= trim_spec(v@));
        } else {
            assert(!is_space(f[0]));
            assert(trim_front(f) == f);
            assert forall|j: int| end - start <= j < f.len() implies is_space(f[j]) by {
                assert(f[j] == v@[j + start]);
            }
            lemma_trim_back_take(f, end - start);
            assert(f.take(end - start) =~= v@.subrange(start as int, end as int));
            if end == start {
                assert(r@ =~= trim_spec(v@));
            } else {
                assert(!is_space(v@[end - 1]));
                assert(f.take(end - start).last() == v@[end - 1]);
                assert(trim_back(f.take(end - start)) == f.take(end - start));
                assert(r@ == trim_spec(v@));
            }
        }
    }
    r
}

/// The normalized form of one dictionary line: trimmed, then lowercased.
pub fn normalize_word(line: &str) -> (r: String)
    ensures
        r@ == normalize_spec(line@),
{
    let cs = chars_of(line);
    let t = trim_chars(&cs);
    let l = lower_chars(&t);
    string_from_chars(&l)
}

/// Builds the word list from raw dictionary lines: normalizes each line
/// and drops lines of fewer than three characters, keeping the order.
pub fn build_word_list(lines: &Vec<String>) -> (r: Vec<String>)
    ensures
        r.deep_view() == spec_word_list(lines.deep_view()),
{
    let mut r: Vec<String> = Vec::new();
    let mut i: usize = 0;
    while i < lines.len()
        invariant
            i <= lines@.len(),
            r.deep_view() == spec_word_list(lines.deep_view().take(i as int)),
        decreases lines@.len() - i,
    {
        let w = normalize_word(lines[i].as_str());
        let ghost prev = r.deep_view();
        if w.as_str().unicode_len() >= 3 {
            r.push(w);
            proof {
                assert(r.deep_view() =~= prev.push(w@));
            }
        }
        proof {
            let dv = lines.deep_view();
            assert(dv.take(i + 1).drop_last() =~= dv.take(i as int));
            assert(dv.take(i + 1).last() == dv[i as int]);
            assert(dv[i as int] == lines@[i as int]@);
        }
        i += 1;
    }
    proof {
        assert(lines.deep_view().take(lines@.len() as int) =~= lines.deep_view());
    }
    r
}

} // verus!
