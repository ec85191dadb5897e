//! The text form of a problem: a line with the capacity and the number of
//! items, then a line with one number per item.

use vstd::prelude::*;
use crate::item::{Value, Weight};

verus! {

/// Why a text is not a problem.
#[derive(Debug, Clone, Copy, PartialEq, Eq, Structural)]
pub enum InputError {
    /// The text has no first line, or no second.
    MissingLine,
    /// The first line holds fewer than two numbers.
    MissingNumber,
    /// A word is not a decimal number, or the number is too large.
    BadNumber,
}

/// Space, tab, line feed, form feed or carriage return.
pub open spec fn is_space(b: u8) -> bool {
    b == 32 || b == 9 || b == 10 || b == 12 || b == 13
}

/// One of the ten decimal digits.
pub open spec fn is_digit(b: u8) -> bool {
    48 <= b <= 57
}

/// Where the line that holds position `from` ends: at the next line feed, or
/// at the end of the text.
pub open spec fn line_end(text: Seq<u8>, from: int) -> int
    decreases text.len() - from,
{
    if from >= text.len() {
        text.len() as int
    } else if text[from] == 10 {
        from
    } else {
        line_end(text, from + 1)
    }
}

/// The first position from `from` on, before `end`, that holds no space; or
/// `end` if there is none.
pub open spec fn word_start(text: Seq<u8>, from: int, end: int) -> int
    decreases end - from,
{
    if from >= end {
        end
    } else if !is_space(text[from]) {
        from
    } else {
        word_start(text, from + 1, end)
    }
}

/// The first position from `from` on, before `end`, that holds a space; or
/// `end` if there is none.
pub open spec fn word_end(text: Seq<u8>, from: int, end: int) -> int
    decreases end - from,
{
    if from >= end {
        end
    } else if is_space(text[from]) {
        from
    } else {
        word_end(text, from + 1, end)
    }
}

/// Every position from `start` up to `stop` holds a digit.
pub open spec fn all_digits(text: Seq<u8>, start: int, stop: int) -> bool {
    forall|i: int| start <= i < stop ==> is_digit(#[trigger] text[i])
}

/// The number that the digits from `start` up to `stop` spell.
pub open spec fn digits_value(text: Seq<u8>, start: int, stop: int) -> int
    decreases stop - start,
{
    if stop <= start {
        0
    } else {
        digits_value(text, start, stop - 1) * 10 + (text[stop - 1] - 48)
    }
}

/// The number that the word from `start` up to `stop` spells: digits, with or
/// without a plus sign before them.  `None` if the word is no such thing, or
/// spells a number too large for the machine.
pub open spec fn word_number(text: Seq<u8>, start: int, stop: int) -> Option<usize> {
    let first: int = if start < stop && text[start] == 43 {
        start + 1
    } else {
        start
    };
    if first < stop && all_digits(text, first, stop) && digits_value(text, first, stop)
        <= usize::MAX {
        Some(digits_value(text, first, stop) as usize)
    } else {
        None
    }
}

/// The numbers that the words from `from` up to `end` spell, in order; `None`
/// if one of the words spells none.
pub open spec fn numbers_in(text: Seq<u8>, from: int, end: int) -> Option<Seq<usize>>
    decreases end - from,
    via numbers_in_ends
{
    let start: int = word_start(text, from, end);
    let stop: int = word_end(text, start, end);
    if from >= end || start >= end {
        Some(Seq::empty())
    } else {
        match word_number(text, start, stop) {
            None => None,
            Some(x) => match numbers_in(text, stop, end) {
                None => None,
                Some(rest) => Some(seq![x] + rest),
            },
        }
    }
}

/// Every word ends after the place where the search for it began, so
/// reading word after word comes to an end.
#[via_fn]
proof fn numbers_in_ends(text: Seq<u8>, from: int, end: int) {
    if from < end {
        lemma_word_range(text, from, end);
        let start: int = word_start(text, from, end);
        if start < end {
            lemma_word_range(text, start, end);
        }
    }
}

/// What a text says: the capacity, the number of items it announces, and
/// the numbers of its second line; or the first thing that is wrong with it.
///
/// The capacity and the announced count are the first two words of the first
/// line, and what follows them there is not read.  The announced count is not
/// held against the numbers on the second line.  Lines after the second are
/// not read.
pub open spec fn parse_spec(text: Seq<u8>) -> Result<(usize, usize, Seq<usize>), InputError> {
    let end1: int = line_end(text, 0);
    let start1: int = word_start(text, 0, end1);
    let stop1: int = word_end(text, start1, end1);
    let start2: int = word_start(text, stop1, end1);
    let stop2: int = word_end(text, start2, end1);
    let end2: int = line_end(text, end1 + 1);
    if text.len() == 0 {
        Err(InputError::MissingLine)
    } else if start1 >= end1 {
        Err(InputError::MissingNumber)
    } else if word_number(text, start1, stop1) is None {
        Err(InputError::BadNumber)
    } else if start2 >= end1 {
        Err(InputError::MissingNumber)
    } else if word_number(text, start2, stop2) is None {
        Err(InputError::BadNumber)
    } else if end1 + 1 >= text.len() {
        Err(InputError::MissingLine)
    } else {
        match numbers_in(text, end1 + 1, end2) {
            None => Err(InputError::BadNumber),
            Some(numbers) => Ok(
                (
                    word_number(text, start1, stop1).unwrap(),
                    word_number(text, start2, stop2).unwrap(),
                    numbers,
                ),
            ),
        }
    }
}

/// Words start and end within the stretch they are looked for in, and a
/// word that starts on a letter has at least that letter.
proof fn lemma_word_range(text: Seq<u8>, from: int, end: int)
    requires
        from <= end,
    ensures
        from <= word_start(text, from, end) <= end,
        from <= word_end(text, from, end) <= end,
        word_start(text, from, end) < end ==> !is_space(text[word_start(text, from, end)]),
        (from < end && !is_space(text[from])) ==> from < word_end(text, from, end),
    decreases end - from,
{
    if from < end {
        lemma_word_range(text, from + 1, end);
    }
}

/// More digits never spell a smaller number.
proof fn lemma_digits_grow(text: Seq<u8>, start: int, mid: int, stop: int)
    requires
        start <= mid <= stop,
        all_digits(text, start, stop),
    ensures
        0 <= digits_value(text, start, mid) <= digits_value(text, start, stop),
    decreases stop - mid,
{
    if mid < stop {
        lemma_digits_grow(text, start, mid, stop - 1);
        assert(is_digit(text[stop - 1]));
    } else {
        lemma_digits_non_negative(text, start, mid);
    }
}

/// Digits spell no negative number.
proof fn lemma_digits_non_negative(text: Seq<u8>, start: int, stop: int)
    requires
        all_digits(text, start, stop),
    ensures
        0 <= digits_value(text, start, stop),
    decreases stop - start,
{
    if start < stop {
        lemma_digits_non_negative(text, start, stop - 1);
        assert(is_digit(text[stop - 1]));
    }
}

/// Whether `b` is a space in the sense of [`is_space`].
fn is_space_byte(b: u8) -> (r: bool)
    ensures
        r == is_space(b),
{
    b == 32 || b == 9 || b == 10 || b == 12 || b == 13
}

/// Where the line that holds position `from` ends.
fn find_line_end(text: &[u8], from: usize) -> (end: usize)
    requires
        from <= text@.len(),
    ensures
        end == line_end(text@, from as int),
        from <= end <= text@.len(),
{
    let mut i: usize = from;
    while i < text.len() && text[i] != 10
        invariant
            from <= i <= text@.len(),
            line_end(text@, i as int) == line_end(text@, from as int),
        decreases text@.len() - i,
    {
        i = i + 1;
    }
    i
}

/// The start of the next word from `from` on, or `end` if no word is left.
fn find_word_start(text: &[u8], from: usize, end: usize) -> (start: usize)
    requires
        from <= end <= text@.len(),
    ensures
        start == word_start(text@, from as int, end as int),
        from <= start <= end,
        start < end ==> !is_space(text@[start as int]),
{
    let mut i: usize = from;
    while i < end && is_space_byte(text[i])
        invariant
            from <= i <= end <= text@.len(),
            word_start(text@, i as int, end as int) == word_start(text@, from as int, end as int),
        decreases end - i,
    {
        i = i + 1;
    }
    i
}

/// The end of the word that starts at `from`.
fn find_word_end(text: &[u8], from: usize, end: usize) -> (stop: usize)
    requires
        from <= end <= text@.len(),
    ensures
        stop == word_end(text@, from as int, end as int),
        from <= stop <= end,
        (from < end && !is_space(text@[from as int])) ==> from < stop,
{
    let mut i: usize = from;
    while i < end && !is_space_byte(text[i])
        invariant
            from <= i <= end <= text@.len(),
            word_end(text@, i as int, end as int) == word_end(text@, from as int, end as int),
            (from < end && !is_space(text@[from as int])) ==> (from < i || i < end && !is_space(
                text@[i as int],
            )),
        decreases end - i,
    {
        i = i + 1;
    }
    i
}

/// The number that the word from `start` up to `stop` spells, if it spells
/// one.
fn read_number(text: &[u8], start: usize, stop: usize) -> (r: Option<usize>)
    requires
        start < stop <= text@.len(),
    ensures
        r == word_number(text@, start as int, stop as int),
{
    let first: usize = if text[start] == 43 {
        start + 1
    } else {
        start
    };
    if first >= stop {
        return None;
    }
    let mut acc: usize = 0;
    let mut i: usize = first;
    while i < stop
        invariant
            start < stop,
            first == if text@[start as int] == 43 {
                start + 1
            } else {
                start as int
            },
            first <= i <= stop <= text@.len(),
            all_digits(text@, first as int, i as int),
            acc == digits_value(text@, first as int, i as int),
        decreases stop - i,
    {
        let b: u8 = text[i];
        if b < 48 || b > 57 {
            assert(!is_digit(text@[i as int]));
            return None;
        }
        let d: usize = (b - 48) as usize;
        if acc > (usize::MAX - d) / 10 {
            proof {
                if all_digits(text@, first as int, stop as int) {
                    lemma_digits_grow(text@, first as int, i + 1, stop as int);
                }
            }
            return None;
        }
        acc = acc * 10 + d;
        i = i + 1;
    }
    Some(acc)
}

/// The numbers that the words from `from` up to `end` spell, if each of them
/// spells one.
fn read_numbers(text: &[u8], from: usize, end: usize) -> (r: Option<Vec<usize>>)
    requires
        from <= end <= text@.len(),
    ensures
        match r {
            Some(numbers) => numbers_in(text@, from as int, end as int) == Some(numbers@),
            None => numbers_in(text@, from as int, end as int) is None,
        },
{
    let mut numbers: Vec<usize> = Vec::new();
    let mut i: usize = from;
    loop
        invariant
            from <= i <= end <= text@.len(),
            match numbers_in(text@, i as int, end as int) {
                Some(rest) => numbers_in(text@, from as int, end as int) == Some(
                    numbers@ + rest,
                ),
                None => numbers_in(text@, from as int, end as int) is None,
            },
        decreases end - i,
    {
        let start: usize = find_word_start(text, i, end);
        if start >= end {
            assert(numbers@ + Seq::<usize>::empty() =~= numbers@);
            return Some(numbers);
        }
        let stop: usize = find_word_end(text, start, end);
        match read_number(text, start, stop) {
            None => {
                return None;
            },
            Some(x) => {
                proof {
                    match numbers_in(text@, stop as int, end as int) {
                        Some(rest) => {
                            assert(numbers@.push(x) + rest =~= numbers@ + (seq![x] + rest));
                        },
                        None => {},
                    }
                }
                numbers.push(x);
                i = stop;
            },
        }
    }
}

/// Reads a problem from its text: the capacity, the number of items that the
/// text announces, and the numbers of the second line.
pub fn parse_input(text: &[u8]) -> (r: Result<(usize, usize, Vec<usize>), InputError>)
    ensures
        match r {
            Ok(read) => parse_spec(text@) == Ok::<(usize, usize, Seq<usize>), InputError>(
                (read.0, read.1, read.2@),
            ),
            Err(e) => parse_spec(text@) == Err::<(usize, usize, Seq<usize>), InputError>(e),
        },
{
    if text.len() == 0 {
        return Err(InputError::MissingLine);
    }
    let end1: usize = find_line_end(text, 0);
    let start1: usize = find_word_start(text, 0, end1);
    if start1 >= end1 {
        return Err(InputError::MissingNumber);
    }
    let stop1: usize = find_word_end(text, start1, end1);
    let capacity: usize = match read_number(text, start1, stop1) {
        None => {
            return Err(InputError::BadNumber);
        },
        Some(x) => x,
    };
    let start2: usize = find_word_start(text, stop1, end1);
    if start2 >= end1 {
        return Err(InputError::MissingNumber);
    }
    let stop2: usize = find_word_end(text, start2, end1);
    let count: usize = match read_number(text, start2, stop2) {
        None => {
            return Err(InputError::BadNumber);
        },
        Some(x) => x,
    };
    if end1 >= text.len() - 1 {
        return Err(InputError::MissingLine);
    }
    let end2: usize = find_line_end(text, end1 + 1);
    match read_numbers(text, end1 + 1, end2) {
        None => Err(InputError::BadNumber),
        Some(numbers) => Ok((capacity, count, numbers)),
    }
}

/// One item for each number, worth the number and weighing the number.
pub fn twin_items(numbers: &Vec<usize>) -> (items: Vec<(Value, Weight)>)
    ensures
        items@.len() == numbers@.len(),
        forall|i: int| 0 <= i < numbers@.len() ==> #[trigger] items@[i] == (numbers@[i], numbers@[i]),
{
    let mut items: Vec<(Value, Weight)> = Vec::new();
    let mut i: usize = 0;
    while i < numbers.len()
        invariant
            i <= numbers.len(),
            items.len() == i,
            forall|k: int| 0 <= k < i ==> #[trigger] items@[k] == (numbers@[k], numbers@[k]),
        decreases numbers.len() - i,
    {
        items.push((numbers[i], numbers[i]));
        i = i + 1;
    }
    items
}

} // verus!
