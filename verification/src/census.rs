//! Letter frequencies of a token and the letter that dominates it.
//!
//! Only ASCII lower-case letters are counted. The dominant letter is the one
//! that occurs most often; among letters that occur equally often, the one
//! whose first occurrence comes first.

use vstd::prelude::*;
use crate::symbols::is_lower;
use crate::symbols::is_lowercase;
use crate::symbols::letter_index;
use crate::symbols::letter_of;
use crate::symbols::lemma_letter_index;
use crate::symbols::lower_letter;

verus! {

/// How many times `c` occurs in `s`.
pub open spec fn occurrences(s: Seq<char>, c: char) -> nat
    decreases s.len(),
{
    if s.len() == 0 {
        0
    } else {
        occurrences(s.drop_last(), c) + if s.last() == c {
            1nat
        } else {
            0nat
        }
    }
}

/// `position` is where `c` occurs first in `s`.
pub open spec fn is_first_at(s: Seq<char>, c: char, position: int) -> bool {
    &&& 0 <= position < s.len()
    &&& s[position] == c
    &&& forall|j: int| 0 <= j < position ==> s[j] != c
}

/// Where `c` occurs first in `s`, for a `c` that occurs in it.
pub open spec fn first_index(s: Seq<char>, c: char) -> int {
    choose|position: int| is_first_at(s, c, position)
}

/// `c` is the dominant letter of `s`: a lower-case letter that occurs in `s`,
/// and every other lower-case letter occurs less often, or as often and for
/// the first time later.
pub open spec fn is_dominant(s: Seq<char>, c: char) -> bool {
    &&& is_lower(c)
    &&& occurrences(s, c) > 0
    &&& forall|d: char|
        is_lower(d) && d != c ==> #[trigger] occurrences(s, d) < occurrences(s, c) || (
        occurrences(s, d) == occurrences(s, c) && first_index(s, c) < first_index(s, d))
}

/// The letter frequencies of `s`: each lower-case letter that occurs in `s`,
/// with the number of its occurrences.
pub open spec fn frequency_map(s: Seq<char>) -> Map<char, nat> {
    Map::new(|c: char| is_lower(c) && occurrences(s, c) > 0, |c: char| occurrences(s, c))
}

/// A character that does not occur is counted zero times, and the other way
/// round.
pub proof fn lemma_occurrences_positive(s: Seq<char>, c: char)
    ensures
        occurrences(s, c) > 0 <==> s.contains(c),
        occurrences(s, c) <= s.len(),
    decreases s.len(),
{
    if s.len() > 0 {
        lemma_occurrences_positive(s.drop_last(), c);
        if s.drop_last().contains(c) {
            let i = choose|i: int| 0 <= i < s.drop_last().len() && s.drop_last()[i] == c;
            assert(s[i] == c);
        }
        if s.contains(c) && s.last() != c {
            let i = choose|i: int| 0 <= i < s.len() && s[i] == c;
            assert(s.drop_last()[i] == c);
        }
        if s.last() == c {
            assert(s[s.len() - 1] == c);
        }
    }
}

/// A character has at most one first occurrence.
pub proof fn lemma_first_index_is(s: Seq<char>, c: char, position: int)
    requires
        is_first_at(s, c, position),
    ensures
        first_index(s, c) == position,
{
    let other = first_index(s, c);
    assert(is_first_at(s, c, other));
    if other < position {
        assert(s[other] != c);
    } else if position < other {
        assert(s[position] != c);
    }
}

/// A sequence has at most one dominant letter.
pub proof fn lemma_dominant_unique(s: Seq<char>, c1: char, c2: char)
    requires
        is_dominant(s, c1),
        is_dominant(s, c2),
    ensures
        c1 == c2,
{
    if c1 != c2 {
        assert(occurrences(s, c2) < occurrences(s, c1) || (occurrences(s, c2) == occurrences(s, c1)
            && first_index(s, c1) < first_index(s, c2)));
        assert(occurrences(s, c1) < occurrences(s, c2) || (occurrences(s, c1) == occurrences(s, c2)
            && first_index(s, c2) < first_index(s, c1)));
    }
}

/// The number of occurrences of each lower-case letter in a token.
#[derive(Debug)]
pub struct CharFrequency {
    counts: Vec<usize>,
}

impl View for CharFrequency {
    type V = Map<char, nat>;

    /// The letters that were counted at least once, each with its count.
    closed spec fn view(&self) -> Map<char, nat> {
        Map::new(
            |c: char| is_lower(c) && self.counts@[letter_index(c)] > 0,
            |c: char| self.counts@[letter_index(c)] as nat,
        )
    }
}

impl CharFrequency {
    #[verifier::type_invariant]
    spec fn well_formed(&self) -> bool {
        self.counts@.len() == 26
    }

    /// How often `c` was counted: zero for a character that is no lower-case
    /// letter or did not occur.
    pub fn get(&self, c: char) -> (count: usize)
        ensures
            count == if self@.contains_key(c) {
                self@[c]
            } else {
                0
            },
    {
        proof {
            use_type_invariant(self);
        }
        if is_lowercase(c) {
            self.counts[(c as u32 - 97) as usize]
        } else {
            0
        }
    }

    /// The letters that occur, in alphabetical order, each with its count.
    pub fn entries(&self) -> (pairs: Vec<(char, usize)>)
        ensures
            forall|i: int|
                0 <= i < pairs@.len() ==> self@.contains_key(#[trigger] pairs@[i].0) && self@[pairs@[i].0]
                    == pairs@[i].1,
            forall|c: char|
                self@.contains_key(c) ==> exists|i: int|
                    0 <= i < pairs@.len() && #[trigger] pairs@[i].0 == c,
            forall|i: int, j: int| 0 <= i < j < pairs@.len() ==> pairs@[i].0 < pairs@[j].0,
    {
        proof {
            use_type_invariant(self);
        }
        let mut pairs: Vec<(char, usize)> = Vec::new();
        let mut k: u32 = 0;
        while k < 26
            invariant
                k <= 26,
                self.counts@.len() == 26,
                forall|i: int|
                    0 <= i < pairs@.len() ==> self@.contains_key(#[trigger] pairs@[i].0)
                        && self@[pairs@[i].0] == pairs@[i].1 && letter_index(pairs@[i].0) < k,
                forall|c: char|
                    self@.contains_key(c) && letter_index(c) < k ==> exists|i: int|
                        0 <= i < pairs@.len() && #[trigger] pairs@[i].0 == c,
                forall|i: int, j: int| 0 <= i < j < pairs@.len() ==> pairs@[i].0 < pairs@[j].0,
            decreases 26 - k,
        {
            let count = self.counts[k as usize];
            if count > 0 {
                let letter = lower_letter(k);
                let ghost before = pairs@;
                pairs.push((letter, count));
                proof {
                    lemma_letter_index(k as int, letter);
                    assert(forall|i: int| 0 <= i < before.len() ==> pairs@[i] == before[i]);
                    assert(pairs@[before.len() as int].0 == letter);
                    assert forall|c: char|
                        self@.contains_key(c) && letter_index(c) < k + 1 implies exists|i: int|
                        0 <= i < pairs@.len() && #[trigger] pairs@[i].0 == c by {
                        if letter_index(c) < k {
                            let i = choose|i: int|
                                0 <= i < before.len() && #[trigger] before[i].0 == c;
                            assert(pairs@[i].0 == c);
                        } else {
                            lemma_letter_index(k as int, c);
                            assert(c == letter);
                        }
                    }
                }
            } else {
                proof {
                    assert forall|c: char|
                        self@.contains_key(c) && letter_index(c) < k + 1 implies letter_index(c)
                        < k by {
                        lemma_letter_index(k as int, c);
                    }
                }
            }
            k = k + 1;
        }
        pairs
    }
}

/// Counts each lower-case letter of `chars` and notes where it occurs first.
/// Both results are indexed by the letter's position in the alphabet.
fn tally(chars: &Vec<char>) -> (result: (Vec<usize>, Vec<usize>))
    ensures
        result.0@.len() == 26,
        result.1@.len() == 26,
        forall|k: int| 0 <= k < 26 ==> #[trigger] result.0@[k] == occurrences(chars@, letter_of(k)),
        forall|k: int|
            0 <= k < 26 && #[trigger] result.0@[k] > 0 ==> is_first_at(
                chars@,
                letter_of(k),
                result.1@[k] as int,
            ),
{
    let ghost s = chars@;
    let mut counts: Vec<usize> = Vec::new();
    let mut firsts: Vec<usize> = Vec::new();
    let mut k: usize = 0;
    while k < 26
        invariant
            k <= 26,
            counts@.len() == k,
            firsts@.len() == k,
            forall|i: int| 0 <= i < k ==> counts@[i] == 0,
        decreases 26 - k,
    {
        counts.push(0);
        firsts.push(0);
        k = k + 1;
    }
    let mut i: usize = 0;
    while i < chars.len()
        invariant
            s == chars@,
            i <= s.len(),
            counts@.len() == 26,
            firsts@.len() == 26,
            forall|k: int|
                0 <= k < 26 ==> #[trigger] counts@[k] == occurrences(s.take(i as int), letter_of(k)),
            forall|k: int|
                0 <= k < 26 && #[trigger] counts@[k] > 0 ==> is_first_at(
                    s,
                    letter_of(k),
                    firsts@[k] as int,
                ),
        decreases s.len() - i,
    {
        let c = chars[i];
        let ghost before = counts@;
        let ghost prefix = s.take(i as int);
        let ghost longer = s.take(i as int + 1);
        proof {
            assert(longer.drop_last() == prefix);
            assert(longer.last() == c);
        }
        if is_lowercase(c) {
            let slot: usize = (c as u32 - 97) as usize;
            let count: usize = counts[slot];
            proof {
                lemma_letter_index(slot as int, c);
                lemma_occurrences_positive(prefix, c);
            }
            if count == 0 {
                proof {
                    assert forall|j: int| 0 <= j < i implies s[j] != c by {
                        if s[j] == c {
                            assert(prefix[j] == c);
                        }
                    }
                }
                firsts.set(slot, i);
            }
            counts.set(slot, count + 1);
            proof {
                assert forall|k: int| 0 <= k < 26 implies #[trigger] counts@[k] == occurrences(
                    longer,
                    letter_of(k),
                ) by {
                    assert(before[k] == occurrences(prefix, letter_of(k)));
                    lemma_letter_index(k, c);
                }
                assert forall|k: int| 0 <= k < 26 && #[trigger] counts@[k] > 0 implies is_first_at(
                    s,
                    letter_of(k),
                    firsts@[k] as int,
                ) by {
                    if k != slot {
                        assert(before[k] > 0);
                    }
                }
            }
        } else {
            proof {
                assert forall|k: int| 0 <= k < 26 implies #[trigger] counts@[k] == occurrences(
                    longer,
                    letter_of(k),
                ) by {
                    assert(before[k] == occurrences(prefix, letter_of(k)));
                    lemma_letter_index(k, c);
                }
            }
        }
        i = i + 1;
    }
    proof {
        assert(s.take(s.len() as int) == s);
    }
    (counts, firsts)
}

/// Counts the lower-case letters of `chars`.
pub fn count_letters(chars: &Vec<char>) -> (frequency: CharFrequency)
    ensures
        frequency@ == frequency_map(chars@),
{
    let (counts, _) = tally(chars);
    let frequency = CharFrequency { counts };
    proof {
        assert forall|c: char| is_lower(c) implies frequency.counts@[letter_index(c)]
            == occurrences(chars@, c) by {
            lemma_letter_index(0, c);
        }
        assert(frequency@ =~= frequency_map(chars@));
    }
    frequency
}

/// Finds the dominant letter of `chars`, if any lower-case letter occurs.
pub fn dominant_letter(chars: &Vec<char>) -> (dominant: Option<char>)
    ensures
        match dominant {
            Some(c) => is_dominant(chars@, c),
            None => forall|c: char| is_lower(c) ==> !chars@.contains(c),
        },
{
    let ghost s = chars@;
    let (counts, firsts) = tally(chars);
    let mut best: Option<u32> = None;
    let mut letter: u32 = 0;
    while letter < 26
        invariant
            s == chars@,
            letter <= 26,
            counts@.len() == 26,
            firsts@.len() == 26,
            forall|k: int|
                0 <= k < 26 && #[trigger] counts@[k] > 0 ==> is_first_at(
                    s,
                    letter_of(k),
                    firsts@[k] as int,
                ),
            match best {
                Some(b) => {
                    &&& b < letter
                    &&& counts@[b as int] > 0
                    &&& forall|k: int|
                        0 <= k < letter && k != b ==> #[trigger] counts@[k] < counts@[b as int] || (
                        counts@[k] == counts@[b as int] && firsts@[b as int] < firsts@[k])
                },
                None => forall|k: int| 0 <= k < letter ==> #[trigger] counts@[k] == 0,
            },
        decreases 26 - letter,
    {
        let count = counts[letter as usize];
        if count > 0 {
            match best {
                None => {
                    best = Some(letter);
                },
                Some(b) => {
                    let leading = counts[b as usize];
                    proof {
                        assert(is_first_at(s, letter_of(b as int), firsts@[b as int] as int));
                        assert(is_first_at(s, letter_of(letter as int), firsts@[letter as int] as int));
                        lemma_letter_index(b as int, 'a');
                        lemma_letter_index(letter as int, 'a');
                        assert(firsts@[b as int] != firsts@[letter as int]);
                    }
                    if count > leading || (count == leading && firsts[letter as usize]
                        < firsts[b as usize]) {
                        best = Some(letter);
                    }
                },
            }
        }
        letter = letter + 1;
    }
    match best {
        None => {
            proof {
                assert forall|c: char| is_lower(c) implies !s.contains(c) by {
                    lemma_letter_index(0, c);
                    assert(counts@[letter_index(c)] == 0);
                    lemma_occurrences_positive(s, c);
                }
            }
            None
        },
        Some(b) => {
            let c = lower_letter(b);
            proof {
                lemma_letter_index(b as int, c);
                assert(is_first_at(s, c, firsts@[b as int] as int));
                lemma_first_index_is(s, c, firsts@[b as int] as int);
                assert forall|d: char| is_lower(d) && d != c implies #[trigger] occurrences(s, d)
                    < occurrences(s, c) || (occurrences(s, d) == occurrences(s, c) && first_index(
                    s,
                    c,
                ) < first_index(s, d)) by {
                    let k = letter_index(d);
                    lemma_letter_index(k, d);
                    assert(counts@[k] < counts@[b as int] || (counts@[k] == counts@[b as int]
                        && firsts@[b as int] < firsts@[k]));
                    if counts@[k] > 0 {
                        assert(is_first_at(s, d, firsts@[k] as int));
                        lemma_first_index_is(s, d, firsts@[k] as int);
                    }
                }
            }
            Some(c)
        },
    }
}

} // verus!
