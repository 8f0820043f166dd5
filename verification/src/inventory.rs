//! Box identifiers: their checksum, and the pair of identifiers that differ
//! in exactly one position.
//!
//! An identifier is compared character by character: its length is its number
//! of characters and a position is the index of a character.
use crate::sums::{lemma_wrap_in_range, lemma_wrap_mul, sum, wrap, wrapping_sum};
use crate::text::{lines_of, records, texts, to_chars, trim};
use vstd::prelude::*;
use vstd::seq_lib::{to_multiset_build, to_multiset_contains, to_multiset_len};

verus! {

/// How often `letter` occurs in `id`.
pub open spec fn occurrences(id: Seq<char>, letter: char) -> nat {
    id.to_multiset().count(letter)
}

/// Some letter occurs in `id` exactly `times` times.
pub open spec fn has_letter_times(id: Seq<char>, times: nat) -> bool {
    exists|letter: char| occurrences(id, letter) == times
}

/// A truth value as the number 1 or 0.
pub open spec fn flag(holds: bool) -> i32 {
    if holds {
        1
    } else {
        0
    }
}

/// For each identifier, 1 where some letter occurs in it exactly `times`
/// times, and 0 where none does.
pub open spec fn flags(ids: Seq<Seq<char>>, times: nat) -> Seq<i32> {
    ids.map_values(|id: Seq<char>| flag(has_letter_times(id, times)))
}

/// The number of identifiers in which some letter occurs exactly `times` times.
pub open spec fn count_with(ids: Seq<Seq<char>>, times: nat) -> nat {
    ids.filter(|id: Seq<char>| has_letter_times(id, times)).len()
}

/// The checksum of a list of identifiers: the number of identifiers with a
/// letter that occurs exactly twice, times the number of identifiers with a
/// letter that occurs exactly three times, in 32 bits.
pub open spec fn checksum_of(ids: Seq<Seq<char>>) -> i32 {
    wrap((count_with(ids, 2) * count_with(ids, 3)) as int)
}

/// `a` and `b` have the same length and hold different characters at position
/// `at`, and nowhere else.
pub open spec fn differ_only_at(a: Seq<char>, b: Seq<char>, at: int) -> bool {
    &&& a.len() == b.len()
    &&& 0 <= at < a.len()
    &&& a[at] != b[at]
    &&& forall|k: int| 0 <= k < a.len() && k != at ==> a[k] == b[k]
}

/// The identifiers at `i` and `j`, with `i <= j`, differ in exactly one position.
pub open spec fn pair_matches(ids: Seq<Seq<char>>, i: int, j: int) -> bool {
    &&& 0 <= i <= j < ids.len()
    &&& exists|at: int| differ_only_at(ids[i], ids[j], at)
}

/// `(i, j)` is the first matching pair in search order: the smallest `i`, and
/// for it the smallest `j`.
pub open spec fn is_first_match(ids: Seq<Seq<char>>, i: int, j: int) -> bool {
    &&& pair_matches(ids, i, j)
    &&& forall|i2: int, j2: int| (i2 < i || (i2 == i && j2 < j)) ==> !pair_matches(ids, i2, j2)
}

/// `common` is what the search over `ids` yields: the first matching pair's
/// identifier without the character at the differing position, or the empty
/// text where no pair matches.
pub open spec fn is_common_id(ids: Seq<Seq<char>>, common: Seq<char>) -> bool {
    ||| exists|i: int, j: int, at: int|
        is_first_match(ids, i, j) && differ_only_at(ids[i], ids[j], at) && common
            == ids[i].remove(at)
    ||| (forall|i: int, j: int| !pair_matches(ids, i, j)) && common == Seq::<char>::empty()
}

/// The flags of a list of identifiers add up to the number of identifiers
/// that have a letter with the given number of occurrences.
pub proof fn lemma_flags_sum(ids: Seq<Seq<char>>, times: nat)
    ensures
        sum(flags(ids, times)) == count_with(ids, times),
    decreases ids.len(),
{
    reveal(Seq::filter);
    if ids.len() > 0 {
        lemma_flags_sum(ids.drop_last(), times);
        assert(flags(ids, times).drop_last() == flags(ids.drop_last(), times));
    }
}

/// Where the product of the two counts fits in 32 bits, the checksum is that
/// product.
pub proof fn lemma_checksum_exact(ids: Seq<Seq<char>>)
    requires
        count_with(ids, 2) * count_with(ids, 3) <= i32::MAX,
    ensures
        checksum_of(ids) == count_with(ids, 2) * count_with(ids, 3),
{
    lemma_wrap_in_range((count_with(ids, 2) * count_with(ids, 3)) as int);
}

/// The position at which two identifiers differ, and nowhere else, is the
/// only such position.
pub proof fn lemma_difference_unique(a: Seq<char>, b: Seq<char>, first: int, second: int)
    requires
        differ_only_at(a, b, first),
        differ_only_at(a, b, second),
    ensures
        first == second,
{
}

/// The search over a list of identifiers has one outcome.
pub proof fn lemma_common_id_unique(ids: Seq<Seq<char>>, first: Seq<char>, second: Seq<char>)
    requires
        is_common_id(ids, first),
        is_common_id(ids, second),
    ensures
        first == second,
{
    if exists|i: int, j: int| pair_matches(ids, i, j) {
        let (i1, j1, at1) = choose|i: int, j: int, at: int|
            is_first_match(ids, i, j) && differ_only_at(ids[i], ids[j], at) && first
                == ids[i].remove(at);
        let (i2, j2, at2) = choose|i: int, j: int, at: int|
            is_first_match(ids, i, j) && differ_only_at(ids[i], ids[j], at) && second
                == ids[i].remove(at);
        assert(i1 == i2 && j1 == j2);
        lemma_difference_unique(ids[i1], ids[j1], at1, at2);
    }
}

/// Two runs over the same input text report the same checksum and the same
/// common identifier: what is reported depends on the text alone.
pub proof fn lemma_inventory_deterministic(
    input: Seq<char>,
    first: (Seq<Seq<char>>, i32, Seq<char>),
    second: (Seq<Seq<char>>, i32, Seq<char>),
)
    requires
        first.0 == records(input),
        first.1 == checksum_of(first.0),
        is_common_id(first.0, first.2),
        second.0 == records(input),
        second.1 == checksum_of(second.0),
        is_common_id(second.0, second.2),
    ensures
        first == second,
{
    lemma_common_id_unique(records(input), first.2, second.2);
}

/// `tally` lists each character that occurs in `seen` once, with the number
/// of times it occurs there, and lists no other character.
spec fn tallies(tally: Seq<(char, usize)>, seen: Seq<char>) -> bool {
    &&& forall|i: int, j: int| 0 <= i < j < tally.len() ==> tally[i].0 != tally[j].0
    &&& forall|i: int|
        0 <= i < tally.len() ==> 0 < #[trigger] tally[i].1 == occurrences(seen, tally[i].0)
    &&& forall|letter: char|
        #![trigger occurrences(seen, letter)]
        occurrences(seen, letter) > 0 ==> exists|i: int|
            0 <= i < tally.len() && tally[i].0 == letter
}

/// One more character at the end of `id` adds one occurrence of that
/// character and none of any other.
proof fn lemma_occurrences_push(id: Seq<char>, last: char, letter: char)
    ensures
        occurrences(id.push(last), letter) == occurrences(id, letter) + if last == letter {
            1nat
        } else {
            0nat
        },
{
    to_multiset_build(id, last);
}

/// A character occurs in `id` at some position exactly when its number of
/// occurrences is positive, and never more often than `id` is long.
proof fn lemma_occurrences_bounds(id: Seq<char>, letter: char)
    ensures
        occurrences(id, letter) <= id.len(),
        occurrences(id, letter) > 0 <==> id.contains(letter),
{
    to_multiset_contains(id, letter);
    to_multiset_len(id);
}

/// Reads the identifiers of `input`: its non-empty lines, in order, once the
/// whitespace around the text is dropped. The characters of an identifier
/// are not checked.
pub fn parse_strings(input: &String) -> (strings: Vec<String>)
    ensures
        texts(strings@) == records(input@),
{
    lines_of(trim(input.as_str()))
}

/// Counts the occurrences of each distinct character of `id`.
fn tally_letters(id: &str) -> (tally: Vec<(char, usize)>)
    ensures
        tallies(tally@, id@),
{
    let letters = to_chars(id);
    let mut tally: Vec<(char, usize)> = Vec::new();
    let mut index: usize = 0;
    proof {
        assert forall|letter: char| occurrences(letters@.take(0), letter) == 0 by {
            lemma_occurrences_bounds(letters@.take(0), letter);
        }
    }
    while index < letters.len()
        invariant
            letters@ == id@,
            index <= letters.len(),
            tallies(tally@, letters@.take(index as int)),
        decreases letters.len() - index,
    {
        let current = letters[index];
        let ghost before = letters@.take(index as int);
        let ghost listed = tally@;
        proof {
            assert(before.push(current) == letters@.take(index + 1));
            assert forall|letter: char|
                occurrences(letters@.take(index + 1), letter) == occurrences(before, letter)
                    + if current == letter {
                    1nat
                } else {
                    0nat
                } by {
                lemma_occurrences_push(before, current, letter);
            }
            lemma_occurrences_bounds(before, current);
        }
        let mut slot: usize = 0;
        while slot < tally.len() && tally[slot].0 != current
            invariant
                slot <= tally.len(),
                forall|i: int| 0 <= i < slot ==> tally[i].0 != current,
            decreases tally.len() - slot,
        {
            slot += 1;
        }
        if slot < tally.len() {
            let count = tally[slot].1;
            tally.set(slot, (current, count + 1));
        } else {
            tally.push((current, 1));
        }
        index += 1;
        proof {
            let after = letters@.take(index as int);
            assert forall|letter: char| occurrences(after, letter) > 0 implies exists|i: int|
                0 <= i < tally.len() && tally[i].0 == letter by {
                if letter != current {
                    assert(occurrences(before, letter) > 0);
                    let i = choose|i: int| 0 <= i < listed.len() && listed[i].0 == letter;
                    assert(tally[i].0 == letter);
                } else {
                    assert(tally[slot as int].0 == letter);
                }
            }
            assert forall|i: int| 0 <= i < tally.len() implies 0 < #[trigger] tally[i].1
                == occurrences(after, tally[i].0) by {
                if i != slot {
                    assert(tally[i] == listed[i]);
                }
            }
        }
    }
    assert(letters@.take(index as int) == id@);
    tally
}

/// Tells whether some letter occurs in `id` exactly twice, and whether some
/// letter occurs in it exactly three times.
pub fn classify(id: &str) -> (found: (bool, bool))
    ensures
        found.0 == has_letter_times(id@, 2),
        found.1 == has_letter_times(id@, 3),
{
    let tally = tally_letters(id);
    let mut has_two = false;
    let mut has_three = false;
    let mut slot: usize = 0;
    while slot < tally.len()
        invariant
            slot <= tally.len(),
            tallies(tally@, id@),
            has_two <==> exists|i: int| 0 <= i < slot && tally[i].1 == 2,
            has_three <==> exists|i: int| 0 <= i < slot && tally[i].1 == 3,
        decreases tally.len() - slot,
    {
        if tally[slot].1 == 2 {
            has_two = true;
        }
        if tally[slot].1 == 3 {
            has_three = true;
        }
        slot += 1;
    }
    proof {
        if has_two {
            let i = choose|i: int| 0 <= i < slot && tally[i].1 == 2;
            assert(occurrences(id@, tally[i].0) == 2);
        }
        if has_three {
            let i = choose|i: int| 0 <= i < slot && tally[i].1 == 3;
            assert(occurrences(id@, tally[i].0) == 3);
        }
        if has_letter_times(id@, 2) {
            let letter = choose|letter: char| occurrences(id@, letter) == 2;
            let i = choose|i: int| 0 <= i < tally.len() && tally[i].0 == letter;
            assert(tally[i].1 == 2);
        }
        if has_letter_times(id@, 3) {
            let letter = choose|letter: char| occurrences(id@, letter) == 3;
            let i = choose|i: int| 0 <= i < tally.len() && tally[i].0 == letter;
            assert(tally[i].1 == 3);
        }
    }
    (has_two, has_three)
}

/// Classifies `input` and records the outcome: appends 1 to `twos` where some
/// letter occurs in `input` exactly twice and 0 where none does, and likewise
/// to `threes` for a letter that occurs exactly three times.
pub fn char_count(input: &String, twos: &mut Vec<i32>, threes: &mut Vec<i32>)
    ensures
        final(twos)@ == old(twos)@.push(flag(has_letter_times(input@, 2))),
        final(threes)@ == old(threes)@.push(flag(has_letter_times(input@, 3))),
{
    let (has_two, has_three) = classify(input.as_str());
    if has_two {
        twos.push(1);
    } else {
        twos.push(0);
    }
    if has_three {
        threes.push(1);
    } else {
        threes.push(0);
    }
}

/// Classifies every identifier: the first list holds, for each identifier in
/// order, 1 where some letter occurs in it exactly twice and 0 otherwise; the
/// second list holds the same for a letter that occurs exactly three times.
pub fn count_strings(strings: &Vec<String>) -> (counts: (Vec<i32>, Vec<i32>))
    ensures
        counts.0@ == flags(texts(strings@), 2),
        counts.1@ == flags(texts(strings@), 3),
{
    let mut twos: Vec<i32> = Vec::new();
    let mut threes: Vec<i32> = Vec::new();
    let mut index: usize = 0;
    while index < strings.len()
        invariant
            index <= strings.len(),
            twos@ == flags(texts(strings@).take(index as int), 2),
            threes@ == flags(texts(strings@).take(index as int), 3),
        decreases strings.len() - index,
    {
        char_count(&strings[index], &mut twos, &mut threes);
        index += 1;
    }
    assert(texts(strings@).take(index as int) == texts(strings@));
    (twos, threes)
}

/// Multiplies the sum of `twos` by the sum of `threes`, in 32 bits with
/// wraparound.
pub fn calc_checksum(twos: &Vec<i32>, threes: &Vec<i32>) -> (checksum: i32)
    ensures
        checksum == wrap(sum(twos@) * sum(threes@)),
{
    let x: i32 = wrapping_sum(twos.as_slice());
    let y: i32 = wrapping_sum(threes.as_slice());
    proof {
        lemma_wrap_mul(sum(twos@), sum(threes@));
    }
    x.wrapping_mul(y)
}

/// The checksum of a list of identifiers: the number of identifiers in which
/// some letter occurs exactly twice, times the number of identifiers in which
/// some letter occurs exactly three times, in 32 bits with wraparound.
pub fn checksum(strings: &Vec<String>) -> (value: i32)
    ensures
        value == checksum_of(texts(strings@)),
{
    let (twos, threes) = count_strings(strings);
    proof {
        lemma_flags_sum(texts(strings@), 2);
        lemma_flags_sum(texts(strings@), 3);
    }
    calc_checksum(&twos, &threes)
}

/// Compares two identifiers position by position.
///
/// Returns the one position at which they differ. Identifiers of different
/// lengths, equal identifiers, and identifiers that differ in two or more
/// positions give `None`.
pub fn compare_id(id1: &String, id2: &String) -> (found: Option<usize>)
    ensures
        match found {
            Some(at) => differ_only_at(id1@, id2@, at as int),
            None => forall|at: int| !differ_only_at(id1@, id2@, at),
        },
{
    let a = to_chars(id1.as_str());
    let b = to_chars(id2.as_str());
    if a.len() != b.len() {
        return None;
    }
    let length = a.len();
    let mut diff_index: Option<usize> = None;
    let mut index: usize = 0;
    while index < length
        invariant
            a@ == id1@,
            b@ == id2@,
            length == a.len(),
            length == b.len(),
            index <= length,
            match diff_index {
                Some(at) => {
                    &&& at < index
                    &&& a[at as int] != b[at as int]
                    &&& forall|k: int| 0 <= k < index && k != at ==> a[k] == b[k]
                },
                None => forall|k: int| 0 <= k < index ==> a[k] == b[k],
            },
        decreases length - index,
    {
        if a[index] != b[index] {
            if let Some(first) = diff_index {
                assert forall|at: int| !differ_only_at(id1@, id2@, at) by {
                    if at != first {
                        assert(a[first as int] != b[first as int]);
                    } else {
                        assert(a[index as int] != b[index as int]);
                    }
                }
                return None;
            }
            diff_index = Some(index);
        }
        index += 1;
    }
    diff_index
}

/// The identifier `id` without the character at position `at`.
pub fn without_char(id: &str, at: usize) -> (rest: String)
    requires
        at < id@.len(),
    ensures
        rest@ == id@.remove(at as int),
{
    let length = id.unicode_len();
    let head = id.substring_char(0, at);
    let tail = id.substring_char(at + 1, length);
    let mut rest = head.to_owned();
    rest.append(tail);
    rest
}

/// Finds the first pair of identifiers that differ in exactly one position
/// and returns what they share.
///
/// Every identifier is compared with itself and with each later one, in
/// order. The result is the first identifier of the first matching pair with
/// the differing character removed; it is empty where no pair matches.
pub fn find_id(strings: &Vec<String>) -> (id: String)
    ensures
        is_common_id(texts(strings@), id@),
{
    let ghost ids = texts(strings@);
    let count = strings.len();
    let mut i: usize = 0;
    while i < count
        invariant
            ids == texts(strings@),
            count == strings.len(),
            i <= count,
            forall|i2: int, j2: int| i2 < i ==> !pair_matches(ids, i2, j2),
        decreases count - i,
    {
        let item = &strings[i];
        let mut j: usize = i;
        while j < count
            invariant
                ids == texts(strings@),
                count == strings.len(),
                i < count,
                i <= j <= count,
                item == strings[i as int],
                forall|i2: int, j2: int| i2 < i ==> !pair_matches(ids, i2, j2),
                forall|j2: int| j2 < j ==> !pair_matches(ids, i as int, j2),
            decreases count - j,
        {
            let item2 = &strings[j];
            if let Some(at) = compare_id(item, item2) {
                let id = without_char(item.as_str(), at);
                proof {
                    assert(ids[i as int] == item@);
                    assert(ids[j as int] == item2@);
                    assert(pair_matches(ids, i as int, j as int));
                    assert(is_first_match(ids, i as int, j as int));
                }
                return id;
            }
            proof {
                assert(ids[i as int] == item@);
                assert(ids[j as int] == item2@);
            }
            j += 1;
        }
        i += 1;
    }
    String::new()
}

} // verus!
