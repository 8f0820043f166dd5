//! Frequency drift: the total of a list of signed changes, and the first
//! frequency that is reached twice when the list is replayed in a cycle.
//!
//! Frequencies are 32-bit signed integers and wrap around on overflow. With
//! wraparound only finitely many frequencies exist, so a list that is not
//! empty always reaches some frequency twice.
use crate::sums::{lemma_wrap_add, sum, wrap, wrapping_sum};
use crate::text::{lines_of, records, texts, to_chars, trim};
use std::collections::HashSet;
use vstd::arithmetic::div_mod::{
    lemma_fundamental_div_mod, lemma_mod_multiples_vanish, lemma_small_mod,
};
use vstd::prelude::*;
use vstd::set_lib::{lemma_len_subset, range_set_properties};

verus! {

/// A record that is no signed 32-bit integer in decimal notation.
#[derive(Clone, Copy, Debug, PartialEq, Eq)]
pub struct ParseError {
    /// The position of the first such record among the records of the input,
    /// counted from 0.
    pub line: usize,
}

/// The value of a decimal digit; `None` for any other character.
pub open spec fn digit(c: char) -> Option<nat> {
    if c == '0' {
        Some(0)
    } else if c == '1' {
        Some(1)
    } else if c == '2' {
        Some(2)
    } else if c == '3' {
        Some(3)
    } else if c == '4' {
        Some(4)
    } else if c == '5' {
        Some(5)
    } else if c == '6' {
        Some(6)
    } else if c == '7' {
        Some(7)
    } else if c == '8' {
        Some(8)
    } else if c == '9' {
        Some(9)
    } else {
        None
    }
}

/// Every character of `s` is a decimal digit.
pub open spec fn all_digits(s: Seq<char>) -> bool {
    forall|i: int| 0 <= i < s.len() ==> digit(#[trigger] s[i]) is Some
}

/// The number that the digits of `s` write in decimal notation. A character
/// that is no digit counts as 0.
pub open spec fn digits_value(s: Seq<char>) -> nat
    decreases s.len(),
{
    if s.len() == 0 {
        0
    } else {
        10 * digits_value(s.drop_last()) + match digit(s.last()) {
            Some(d) => d,
            None => 0,
        }
    }
}

/// `line` starts with a sign, `+` or `-`.
pub open spec fn has_sign(line: Seq<char>) -> bool {
    line.len() > 0 && (line[0] == '+' || line[0] == '-')
}

/// `line` without its sign, if it has one.
pub open spec fn unsigned_part(line: Seq<char>) -> Seq<char> {
    if has_sign(line) {
        line.skip(1)
    } else {
        line
    }
}

/// The integer that `line` writes: an optional sign, `+` or `-`, and then one
/// or more decimal digits. `None` where `line` is not of that form.
pub open spec fn signed_value(line: Seq<char>) -> Option<int> {
    let digits = unsigned_part(line);
    if digits.len() > 0 && all_digits(digits) {
        if line[0] == '-' {
            Some(-digits_value(digits))
        } else {
            Some(digits_value(digits) as int)
        }
    } else {
        None
    }
}

/// The frequency change that `line` writes: its integer, where that fits in
/// 32 bits. `None` where `line` writes no integer or one that does not fit.
pub open spec fn change_of(line: Seq<char>) -> Option<i32> {
    match signed_value(line) {
        Some(value) => if i32::MIN <= value <= i32::MAX {
            Some(value as i32)
        } else {
            None
        },
        None => None,
    }
}

/// `parsed` is the outcome of reading `records` as frequency changes: the
/// change of every record, in order, or the position of the first record that
/// writes no change.
pub open spec fn is_parse_of(records: Seq<Seq<char>>, parsed: Result<Vec<i32>, ParseError>) -> bool {
    match parsed {
        Ok(changes) => {
            &&& changes@.len() == records.len()
            &&& forall|i: int|
                0 <= i < records.len() ==> change_of(#[trigger] records[i]) == Some(changes@[i])
        },
        Err(error) => {
            &&& error.line < records.len()
            &&& change_of(records[error.line as int]) is None
            &&& forall|i: int| 0 <= i < error.line ==> change_of(#[trigger] records[i]) is Some
        },
    }
}

/// The exact sum of the first `steps` changes when `changes` is replayed from
/// its start each time its end is reached.
pub open spec fn replayed_sum(changes: Seq<i32>, steps: nat) -> int
    decreases steps,
{
    if steps == 0 {
        0
    } else {
        replayed_sum(changes, (steps - 1) as nat) + changes[(steps - 1) % (changes.len() as int)]
    }
}

/// The frequency after `steps` changes, starting from 0.
pub open spec fn frequency(changes: Seq<i32>, steps: nat) -> i32 {
    wrap(replayed_sum(changes, steps))
}

/// The frequency after `steps` changes was reached before, after fewer changes.
pub open spec fn repeats_at(changes: Seq<i32>, steps: nat) -> bool {
    exists|earlier: nat| earlier < steps && frequency(changes, earlier) == frequency(changes, steps)
}

/// `steps` is the smallest number of changes after which a frequency is
/// reached for the second time.
pub open spec fn is_first_repeat(changes: Seq<i32>, steps: nat) -> bool {
    &&& repeats_at(changes, steps)
    &&& forall|fewer: nat| fewer < steps ==> !repeats_at(changes, fewer)
}

/// `found` is the first frequency that replaying `changes` reaches twice.
pub open spec fn is_first_repeated(changes: Seq<i32>, found: i32) -> bool {
    exists|steps: nat| is_first_repeat(changes, steps) && found == frequency(changes, steps)
}

/// `report` is the end of a run over `input`: the error of reading it, or
/// the changes read, their total, and the first frequency they reach twice.
pub open spec fn is_drift_report(
    input: Seq<char>,
    report: Result<(Vec<i32>, i32, i32), ParseError>,
) -> bool {
    match report {
        Ok((changes, total, repeated)) => {
            &&& is_parse_of(records(input), Ok(changes))
            &&& total == wrap(sum(changes@))
            &&& is_first_repeated(changes@, repeated)
        },
        Err(error) => is_parse_of(records(input), Err(error)),
    }
}

/// The frequencies after 0 up to `steps` changes.
pub open spec fn frequencies_until(changes: Seq<i32>, steps: nat) -> Set<i32> {
    Set::new(
        |value: i32|
            exists|earlier: nat| earlier <= steps && frequency(changes, earlier) == value,
    )
}

/// No frequency is reached twice within the first `steps` changes.
pub open spec fn no_repeat_until(changes: Seq<i32>, steps: nat) -> bool {
    forall|fewer: nat| fewer <= steps ==> !repeats_at(changes, fewer)
}

/// The number written by a prefix of `s` is at most the number written by `s`.
pub proof fn lemma_digits_prefix(s: Seq<char>, k: int)
    requires
        0 <= k <= s.len(),
    ensures
        digits_value(s.take(k)) <= digits_value(s),
    decreases s.len() - k,
{
    if k == s.len() {
        assert(s.take(k) == s);
    } else {
        lemma_digits_prefix(s.drop_last(), k);
        assert(s.drop_last().take(k) == s.take(k));
    }
}

/// A set of 32-bit integers has at most 2^32 elements.
pub proof fn lemma_i32_set_bound(s: Set<i32>)
    requires
        s.finite(),
    ensures
        s.len() <= 0x1_0000_0000,
{
    let all = Set::<i32>::range_inclusive(i32::MIN, i32::MAX);
    range_set_properties::<i32>(i32::MIN, i32::MAX);
    assert(s.subset_of(all));
    lemma_len_subset(s, all);
}

/// The position in a list of length `n` that is reached `index` steps after
/// a whole number of passes over it.
pub proof fn lemma_cycle_position(start: int, index: int, n: int)
    requires
        n > 0,
        start % n == 0,
        0 <= index <= n,
    ensures
        index < n ==> (start + index) % n == index,
        index == n ==> (start + index) % n == 0,
{
    let q = start / n;
    lemma_fundamental_div_mod(start, n);
    assert(start == n * q);
    if index < n {
        lemma_mod_multiples_vanish(q, index, n);
        lemma_small_mod(index as nat, n as nat);
    } else {
        lemma_mod_multiples_vanish(q + 1, 0, n);
        assert(n * (q + 1) == n * q + n) by (nonlinear_arith);
    }
}

/// Where no frequency is reached twice within the first `steps` changes,
/// `steps + 1` different frequencies are reached.
pub proof fn lemma_distinct_frequencies(changes: Seq<i32>, steps: nat)
    requires
        no_repeat_until(changes, steps),
    ensures
        frequencies_until(changes, steps).finite(),
        frequencies_until(changes, steps).len() == steps + 1,
    decreases steps,
{
    let now = frequency(changes, steps);
    if steps == 0 {
        assert(frequencies_until(changes, 0) =~= Set::<i32>::empty().insert(now));
    } else {
        let before = frequencies_until(changes, (steps - 1) as nat);
        lemma_distinct_frequencies(changes, (steps - 1) as nat);
        assert(!repeats_at(changes, steps));
        assert(!before.contains(now));
        assert(frequencies_until(changes, steps) =~= before.insert(now));
    }
}

/// Where a frequency is reached for the second time after `steps` changes,
/// there is a smallest such number of changes.
pub proof fn lemma_least_repeat(changes: Seq<i32>, steps: nat)
    requires
        repeats_at(changes, steps),
    ensures
        exists|first: nat| first <= steps && is_first_repeat(changes, first),
    decreases steps,
{
    if exists|fewer: nat| fewer < steps && repeats_at(changes, fewer) {
        let fewer = choose|fewer: nat| fewer < steps && repeats_at(changes, fewer);
        lemma_least_repeat(changes, fewer);
    } else {
        assert(is_first_repeat(changes, steps));
    }
}

/// Replaying a list of changes always reaches some frequency twice, within
/// 2^32 changes: with wraparound there are no more frequencies than that.
pub proof fn lemma_first_repeat_exists(changes: Seq<i32>)
    requires
        changes.len() > 0,
    ensures
        exists|steps: nat| steps <= 0x1_0000_0000 && is_first_repeat(changes, steps),
        exists|found: i32| is_first_repeated(changes, found),
{
    let limit: nat = 0x1_0000_0000;
    if no_repeat_until(changes, limit) {
        lemma_distinct_frequencies(changes, limit);
        lemma_i32_set_bound(frequencies_until(changes, limit));
    } else {
        let steps = choose|steps: nat| steps <= limit && repeats_at(changes, steps);
        lemma_least_repeat(changes, steps);
        let first = choose|first: nat| first <= steps && is_first_repeat(changes, first);
        assert(is_first_repeated(changes, frequency(changes, first)));
    }
}

/// Two first repeats under the same list of changes are the same.
pub proof fn lemma_first_repeat_unique(changes: Seq<i32>, a: i32, b: i32)
    requires
        is_first_repeated(changes, a),
        is_first_repeated(changes, b),
    ensures
        a == b,
{
    let m = choose|steps: nat| is_first_repeat(changes, steps) && a == frequency(changes, steps);
    let n = choose|steps: nat| is_first_repeat(changes, steps) && b == frequency(changes, steps);
    assert(m == n);
}

/// Reading a list of records has one outcome: two outcomes hold the same
/// changes, or name the same record.
pub proof fn lemma_parse_unique(
    records: Seq<Seq<char>>,
    first: Result<Vec<i32>, ParseError>,
    second: Result<Vec<i32>, ParseError>,
)
    requires
        is_parse_of(records, first),
        is_parse_of(records, second),
    ensures
        match (first, second) {
            (Ok(a), Ok(b)) => a@ == b@,
            (Err(a), Err(b)) => a == b,
            _ => false,
        },
{
    match (first, second) {
        (Ok(a), Ok(b)) => {
            assert forall|i: int| 0 <= i < a@.len() implies a@[i] == b@[i] by {
                assert(change_of(records[i]) == Some(a@[i]));
            }
            assert(a@ =~= b@);
        },
        (Err(a), Err(b)) => {
            if a.line < b.line {
                assert(change_of(records[a.line as int]) is Some);
            }
            if b.line < a.line {
                assert(change_of(records[b.line as int]) is Some);
            }
        },
        (Ok(a), Err(b)) => {
            assert(change_of(records[b.line as int]) is Some);
        },
        (Err(a), Ok(b)) => {
            assert(change_of(records[a.line as int]) is Some);
        },
    }
}

/// Two runs over the same input text come to the same end: both fail on the
/// same record, or both read the same changes and report the same total and
/// the same first repeated frequency.
pub proof fn lemma_drift_deterministic(
    input: Seq<char>,
    first: Result<(Vec<i32>, i32, i32), ParseError>,
    second: Result<(Vec<i32>, i32, i32), ParseError>,
)
    requires
        is_drift_report(input, first),
        is_drift_report(input, second),
    ensures
        match (first, second) {
            (Ok(a), Ok(b)) => a.0@ == b.0@ && a.1 == b.1 && a.2 == b.2,
            (Err(a), Err(b)) => a == b,
            _ => false,
        },
{
    let parsed_first: Result<Vec<i32>, ParseError> = match first {
        Ok(report) => Ok(report.0),
        Err(error) => Err(error),
    };
    let parsed_second: Result<Vec<i32>, ParseError> = match second {
        Ok(report) => Ok(report.0),
        Err(error) => Err(error),
    };
    lemma_parse_unique(records(input), parsed_first, parsed_second);
    match (first, second) {
        (Ok(a), Ok(b)) => {
            lemma_first_repeat_unique(a.0@, a.2, b.2);
        },
        _ => {},
    }
}

/// The value of the decimal digit `c`, or `None` where `c` is no digit.
pub fn digit_of(c: char) -> (value: Option<u8>)
    ensures
        match value {
            Some(d) => digit(c) == Some(d as nat),
            None => digit(c) is None,
        },
{
    if c == '0' {
        Some(0)
    } else if c == '1' {
        Some(1)
    } else if c == '2' {
        Some(2)
    } else if c == '3' {
        Some(3)
    } else if c == '4' {
        Some(4)
    } else if c == '5' {
        Some(5)
    } else if c == '6' {
        Some(6)
    } else if c == '7' {
        Some(7)
    } else if c == '8' {
        Some(8)
    } else if c == '9' {
        Some(9)
    } else {
        None
    }
}

/// Reads one record as a frequency change: an optional sign and then one or
/// more decimal digits that write an integer of 32 bits.
pub fn parse_change(line: &str) -> (change: Option<i32>)
    ensures
        change == change_of(line@),
{
    let chars = to_chars(line);
    let length = chars.len();
    if length == 0 {
        return None;
    }
    let negative = chars[0] == '-';
    let first: usize = if chars[0] == '+' || chars[0] == '-' {
        1
    } else {
        0
    };
    if first == length {
        return None;
    }
    let ghost digits = unsigned_part(line@);
    assert(digits == chars@.skip(first as int));
    let mut magnitude: i64 = 0;
    let mut index: usize = first;
    assert(digits.take(0) == Seq::<char>::empty());
    while index < length
        invariant
            chars@ == line@,
            length == chars.len(),
            first <= index <= length,
            first < length,
            negative == (line@[0] == '-'),
            digits == unsigned_part(line@),
            digits == chars@.skip(first as int),
            forall|i: int| 0 <= i < index - first ==> digit(#[trigger] digits[i]) is Some,
            magnitude == digits_value(digits.take(index - first)),
            magnitude <= 0x8000_0000,
        decreases length - index,
    {
        let ghost done = digits.take(index - first);
        assert(done.push(chars[index as int]) == digits.take(index - first + 1));
        assert(digits.take(index - first + 1).drop_last() == done);
        match digit_of(chars[index]) {
            None => {
                assert(digit(digits[index - first]) is None);
                return None;
            },
            Some(d) => {
                magnitude = magnitude * 10 + d as i64;
                if magnitude > 0x8000_0000 {
                    proof {
                        lemma_digits_prefix(digits, index - first + 1);
                    }
                    return None;
                }
            },
        }
        index += 1;
    }
    assert(digits.take(index - first) == digits);
    if negative {
        Some((-magnitude) as i32)
    } else if magnitude <= 0x7fff_ffff {
        Some(magnitude as i32)
    } else {
        None
    }
}

/// Reads the records of `input` as frequency changes.
///
/// The records are the non-empty lines of `input` once the whitespace around
/// it is dropped. The result holds the change of every record, in order.
/// Where some record writes no change, the result is the error that names the
/// first such record.
pub fn parse_changes(input: &str) -> (parsed: Result<Vec<i32>, ParseError>)
    ensures
        is_parse_of(records(input@), parsed),
{
    let found = lines_of(trim(input));
    let mut changes: Vec<i32> = Vec::new();
    let mut index: usize = 0;
    while index < found.len()
        invariant
            texts(found@) == records(input@),
            index <= found.len(),
            changes@.len() == index,
            forall|i: int|
                0 <= i < index ==> change_of(#[trigger] records(input@)[i]) == Some(changes@[i]),
        decreases found.len() - index,
    {
        assert(records(input@)[index as int] == found[index as int]@);
        match parse_change(found[index].as_str()) {
            Some(change) => {
                changes.push(change);
            },
            None => {
                return Err(ParseError { line: index });
            },
        }
        index += 1;
    }
    Ok(changes)
}

/// The total of `changes`, in 32 bits with wraparound.
pub fn freq1(changes: &[i32]) -> (total: i32)
    ensures
        total == wrap(sum(changes@)),
{
    wrapping_sum(changes)
}

/// The first frequency that is reached twice.
///
/// The frequency starts at 0, which counts as reached. The changes are
/// applied in order, over and over from the start of the list, and the
/// result is the frequency after the first change that leads to a frequency
/// reached before.
pub fn freq2(changes: &[i32]) -> (found: i32)
    requires
        changes@.len() > 0,
    ensures
        is_first_repeated(changes@, found),
{
    let mut freq: i32 = 0;
    let mut freqs: HashSet<i32> = HashSet::new();
    freqs.insert(0);
    let ghost mut steps: nat = 0;
    proof {
        assert(frequency(changes@, 0) == 0);
        assert(freqs@ =~= frequencies_until(changes@, 0));
    }
    loop
        invariant
            changes@.len() > 0,
            steps as int % changes@.len() as int == 0,
            freq == frequency(changes@, steps),
            freqs@ == frequencies_until(changes@, steps),
            no_repeat_until(changes@, steps),
        decreases 0x1_0000_0000 - steps,
    {
        let ghost start = steps;
        let mut index: usize = 0;
        while index < changes.len()
            invariant
                changes@.len() > 0,
                start as int % changes@.len() as int == 0,
                index <= changes.len(),
                steps == start + index,
                freq == frequency(changes@, steps),
                freqs@ == frequencies_until(changes@, steps),
                no_repeat_until(changes@, steps),
            decreases changes.len() - index,
        {
            proof {
                lemma_cycle_position(start as int, index as int, changes@.len() as int);
                lemma_wrap_add(replayed_sum(changes@, steps), changes[index as int]);
                assert(frequency(changes@, steps + 1) == freq.wrapping_add(changes[index as int]));
            }
            freq = freq.wrapping_add(changes[index]);
            if freqs.contains(&freq) {
                proof {
                    assert(repeats_at(changes@, steps + 1));
                    assert(is_first_repeat(changes@, steps + 1));
                }
                return freq;
            }
            freqs.insert(freq);
            index += 1;
            proof {
                assert(!repeats_at(changes@, steps + 1));
                steps = steps + 1;
                assert(freqs@ =~= frequencies_until(changes@, steps));
            }
        }
        proof {
            lemma_cycle_position(start as int, index as int, changes@.len() as int);
            lemma_distinct_frequencies(changes@, steps);
            lemma_i32_set_bound(freqs@);
        }
    }
}

} // verus!
