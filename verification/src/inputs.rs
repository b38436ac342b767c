//! The settings of a game, read from the text that a player typed: the side of the
//! board and the lengths of the ships.

use vstd::prelude::*;
use vstd::string::StrSliceExecFns;

verus! {

/// The side of the board where the player gave none that can be used.
pub const DEFAULT_GRID_SIZE: usize = 10;

/// The side of the board and the lengths of the ships of a game.
#[derive(Debug)]
pub struct Inputs {
    pub grid_size: usize,
    pub ships: Vec<usize>,
}

/// The fleet of a game where the player gave none that can be used.
pub open spec fn default_fleet() -> Seq<usize> {
    seq![4usize, 3usize, 3usize, 2usize, 2usize, 2usize]
}

/// `c` is one of the ten decimal digits.
pub open spec fn is_digit(c: char) -> bool {
    48 <= c as u32 <= 57
}

/// What a decimal digit counts for; zero for any other character.
pub open spec fn digit_value(c: char) -> nat {
    if is_digit(c) {
        (c as u32 - 48) as nat
    } else {
        0
    }
}

/// The number that a run of decimal digits writes.
pub open spec fn digits_value(s: Seq<char>) -> nat
    decreases s.len(),
{
    if s.len() == 0 {
        0
    } else {
        digits_value(s.drop_last()) * 10 + digit_value(s.last())
    }
}

/// Every character of `s` is a decimal digit.
pub open spec fn all_digits(s: Seq<char>) -> bool {
    forall|i: int| 0 <= i < s.len() ==> is_digit(#[trigger] s[i])
}

/// `s` without the plus sign that it may start with.
pub open spec fn without_plus(s: Seq<char>) -> Seq<char> {
    if s.len() > 0 && s[0] == '+' {
        s.drop_first()
    } else {
        s
    }
}

/// The number that `s` writes: decimal digits, at least one, after at most one plus
/// sign, for a number that the machine can hold. Any other text writes none.
pub open spec fn number_of(s: Seq<char>) -> Option<usize> {
    let digits = without_plus(s);
    if digits.len() > 0 && all_digits(digits) && digits_value(digits) <= usize::MAX {
        Some(digits_value(digits) as usize)
    } else {
        None
    }
}

/// `c` is a blank: a space, a tab, a line feed, a form feed or a carriage return.
pub open spec fn is_blank(c: char) -> bool {
    c == ' ' || c == '\t' || c == '\n' || c == '\x0C' || c == '\r'
}

/// The word that `s` ends in: its characters after the last blank.
pub open spec fn open_word(s: Seq<char>) -> Seq<char>
    decreases s.len(),
{
    if s.len() == 0 || is_blank(s.last()) {
        Seq::empty()
    } else {
        open_word(s.drop_last()).push(s.last())
    }
}

/// The words of `s` that a blank follows, in their order.
pub open spec fn closed_words(s: Seq<char>) -> Seq<Seq<char>>
    decreases s.len(),
{
    if s.len() == 0 {
        Seq::empty()
    } else if is_blank(s.last()) && open_word(s.drop_last()).len() > 0 {
        closed_words(s.drop_last()).push(open_word(s.drop_last()))
    } else {
        closed_words(s.drop_last())
    }
}

/// The words of `s`: its runs of characters between blanks, in their order.
pub open spec fn words(s: Seq<char>) -> Seq<Seq<char>> {
    if open_word(s).len() > 0 {
        closed_words(s).push(open_word(s))
    } else {
        closed_words(s)
    }
}

/// Each of the words writes a number.
pub open spec fn all_numbers(ws: Seq<Seq<char>>) -> bool {
    forall|k: int| 0 <= k < ws.len() ==> number_of(#[trigger] ws[k]) is Some
}

/// The numbers that the words write.
pub open spec fn numbers_of(ws: Seq<Seq<char>>) -> Seq<usize> {
    Seq::new(ws.len(), |k: int| number_of(ws[k])->0)
}

/// The fleet that `s` writes: the numbers of its words, where each word writes one.
pub open spec fn fleet_of(s: Seq<char>) -> Option<Seq<usize>> {
    if all_numbers(words(s)) {
        Some(numbers_of(words(s)))
    } else {
        None
    }
}

/// The side of the board that the text gives: the number it writes, or the default
/// where there is no text, where it writes no number, or where the number is zero.
pub open spec fn grid_size_of(text: Option<Seq<char>>) -> usize {
    match text {
        Some(s) => match number_of(s) {
            Some(n) => if n == 0 {
                DEFAULT_GRID_SIZE
            } else {
                n
            },
            None => DEFAULT_GRID_SIZE,
        },
        None => DEFAULT_GRID_SIZE,
    }
}

/// The fleet that the text gives: the numbers it writes, or the default fleet where
/// there is no text, where a word of it writes no number, or where it has no word.
pub open spec fn ships_of(text: Option<Seq<char>>) -> Seq<usize> {
    match text {
        Some(s) => match fleet_of(s) {
            Some(fleet) => if fleet.len() == 0 {
                default_fleet()
            } else {
                fleet
            },
            None => default_fleet(),
        },
        None => default_fleet(),
    }
}

/// The characters of a text, where there is one.
pub open spec fn chars_of(text: Option<&str>) -> Option<Seq<char>> {
    match text {
        Some(t) => Some(t@),
        None => None,
    }
}

/// More digits never write a smaller number.
pub proof fn lemma_digits_value_grows(s: Seq<char>, k: int)
    requires
        0 <= k <= s.len(),
    ensures
        digits_value(s.take(k)) <= digits_value(s),
    decreases s.len(),
{
    if k == s.len() {
        assert(s.take(k) =~= s);
    } else {
        lemma_digits_value_grows(s.drop_last(), k);
        assert(s.drop_last().take(k) =~= s.take(k));
    }
}

/// The words that a blank follows in the first `k` characters of a text are the first
/// such words of the whole text.
pub proof fn lemma_closed_words_prefix(s: Seq<char>, k: int)
    requires
        0 <= k <= s.len(),
    ensures
        closed_words(s.take(k)).len() <= closed_words(s).len(),
        forall|w: int|
            0 <= w < closed_words(s.take(k)).len() ==> closed_words(s)[w] == #[trigger] closed_words(
                s.take(k),
            )[w],
    decreases s.len(),
{
    if k == s.len() {
        assert(s.take(k) =~= s);
    } else {
        lemma_closed_words_prefix(s.drop_last(), k);
        assert(s.drop_last().take(k) =~= s.take(k));
    }
}

/// The number that the text writes, if it writes one.
pub fn parse_number(text: &str) -> (number: Option<usize>)
    ensures
        number == number_of(text@),
{
    let len: usize = text.unicode_len();
    let mut start: usize = 0;
    if len > 0 && text.get_char(0) == '+' {
        start = 1;
    }
    let ghost digits = without_plus(text@);
    proof {
        assert(digits =~= text@.subrange(start as int, len as int));
    }
    if start == len {
        return None;
    }
    let mut value: usize = 0;
    let mut i: usize = start;
    proof {
        assert(digits.take(0).len() == 0);
    }
    while i < len
        invariant
            start <= i <= len,
            len == text@.len(),
            digits == without_plus(text@),
            digits == text@.subrange(start as int, len as int),
            value == digits_value(digits.take(i - start)),
            all_digits(digits.take(i - start)),
        decreases len - i,
    {
        let c = text.get_char(i);
        let code: u32 = c as u32;
        proof {
            assert(digits[i - start] == c);
            assert(digits.take(i - start + 1).drop_last() =~= digits.take(i - start));
            assert(digits.take(i - start + 1).last() == c);
            lemma_digits_value_grows(digits, i - start + 1);
        }
        if code < 48 || code > 57 {
            proof {
                assert(!is_digit(digits[i - start]));
            }
            return None;
        }
        let digit: usize = (code - 48) as usize;
        if value > (usize::MAX - digit) / 10 {
            proof {
                assert(digits_value(digits.take(i - start + 1)) == value * 10 + digit);
                assert(digits_value(digits) > usize::MAX);
            }
            return None;
        }
        value = value * 10 + digit;
        i += 1;
    }
    proof {
        assert(digits.take(i - start) =~= digits);
    }
    Some(value)
}

/// Whether `c` is a blank.
fn is_blank_char(c: char) -> (blank: bool)
    ensures
        blank == is_blank(c),
{
    c == ' ' || c == '\t' || c == '\n' || c == '\x0C' || c == '\r'
}

/// The fleet that the text writes: the number of each of its words, if each word
/// writes one.
pub fn parse_fleet(text: &str) -> (fleet: Option<Vec<usize>>)
    ensures
        fleet is Some <==> fleet_of(text@) is Some,
        fleet matches Some(ships) ==> fleet_of(text@) == Some(ships@),
{
    let ghost s = text@;
    let len: usize = text.unicode_len();
    let mut ships: Vec<usize> = Vec::new();
    let mut start: usize = 0;
    let mut i: usize = 0;
    proof {
        assert(s.take(0).len() == 0);
        assert(ships@ =~= numbers_of(closed_words(s.take(0))));
        assert(open_word(s.take(0)) =~= s.subrange(0, 0));
    }
    while i < len
        invariant
            start <= i <= len,
            s == text@,
            len == s.len(),
            open_word(s.take(i as int)) == s.subrange(start as int, i as int),
            all_numbers(closed_words(s.take(i as int))),
            ships@ == numbers_of(closed_words(s.take(i as int))),
        decreases len - i,
    {
        let c = text.get_char(i);
        let ghost seen = s.take(i as int);
        let ghost next = s.take(i + 1);
        proof {
            assert(next.drop_last() =~= seen);
            assert(next.last() == c);
        }
        if is_blank_char(c) {
            if start < i {
                let word = text.substring_char(start, i);
                match parse_number(word) {
                    Some(n) => {
                        ships.push(n);
                        proof {
                            assert(closed_words(next) == closed_words(seen).push(word@));
                            assert(ships@ =~= numbers_of(closed_words(next)));
                        }
                    },
                    None => {
                        proof {
                            let at = closed_words(seen).len() as int;
                            assert(closed_words(next)[at] == word@);
                            lemma_closed_words_prefix(s, i + 1);
                            assert(closed_words(s)[at] == word@);
                            assert(words(s)[at] == word@);
                        }
                        return None;
                    },
                }
            }
            start = i + 1;
            proof {
                assert(open_word(next) =~= s.subrange(start as int, i + 1));
            }
        } else {
            proof {
                assert(open_word(next) =~= s.subrange(start as int, i + 1));
            }
        }
        i += 1;
    }
    proof {
        assert(s.take(i as int) =~= s);
    }
    if start < len {
        let word = text.substring_char(start, len);
        match parse_number(word) {
            Some(n) => {
                ships.push(n);
                proof {
                    assert(words(s) == closed_words(s).push(word@));
                    assert(ships@ =~= numbers_of(words(s)));
                }
            },
            None => {
                proof {
                    assert(words(s)[closed_words(s).len() as int] == word@);
                }
                return None;
            },
        }
    }
    Some(ships)
}

impl Inputs {
    /// The settings that a player's text gives, with the defaults where a text is
    /// missing or cannot be used.
    pub fn from_text(grid_size: Option<&str>, ships: Option<&str>) -> (inputs: Inputs)
        ensures
            inputs.grid_size == grid_size_of(chars_of(grid_size)),
            inputs.ships@ == ships_of(chars_of(ships)),
    {
        let side = match grid_size {
            Some(text) => match parse_number(text) {
                Some(n) => if n == 0 {
                    DEFAULT_GRID_SIZE
                } else {
                    n
                },
                None => DEFAULT_GRID_SIZE,
            },
            None => DEFAULT_GRID_SIZE,
        };
        let given = match ships {
            Some(text) => match parse_fleet(text) {
                Some(fleet) => fleet,
                None => Vec::new(),
            },
            None => Vec::new(),
        };
        let fleet = if given.len() == 0 {
            let mut fleet: Vec<usize> = Vec::new();
            fleet.push(4);
            fleet.push(3);
            fleet.push(3);
            fleet.push(2);
            fleet.push(2);
            fleet.push(2);
            assert(fleet@ =~= default_fleet());
            fleet
        } else {
            given
        };
        Inputs { grid_size: side, ships: fleet }
    }
}

} // verus!
