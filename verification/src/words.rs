//! The words of a text, and numbers among them.

use vstd::prelude::*;

verus! {

/// A character between words.
pub open spec fn is_space(c: char) -> bool {
    c == ' ' || c == '\n' || c == '\r' || c == '\t'
}

/// The words of a text.
pub open spec fn words(text: Seq<char>) -> Seq<Seq<char>>
    decreases text.len(),
{
    if text.len() == 0 {
        seq![]
    } else {
        let front = text.drop_last();
        let rest = words(front);
        if is_space(text.last()) {
            rest
        } else if front.len() == 0 || is_space(front.last()) {
            rest.push(seq![text.last()])
        } else {
            rest.drop_last().push(rest.last().push(text.last()))
        }
    }
}

/// The texts of a list.
pub open spec fn text_views(texts: Seq<String>) -> Seq<Seq<char>> {
    Seq::new(texts.len(), |i: int| texts[i]@)
}

/// `String::push`: the character comes last.
#[verifier::external_body]
fn push_char(text: &mut String, c: char)
    ensures
        final(text)@ == old(text)@.push(c),
{
    text.push(c)
}

/// Splits a text into words.
pub fn split_words(text: &str) -> (r: Vec<String>)
    ensures
        text_views(r@) == words(text@),
{
    let mut done: Vec<String> = Vec::new();
    let mut current = String::new();
    let mut inside = false;
    proof {
        assert(text_views(done@) =~= words(text@.take(0)));
    }
    for c in it: text.chars()
        invariant
            it.seq() == text@,
            inside == (it.index() > 0 && !is_space(text@[it.index() - 1])),
            inside ==> text_views(done@).push(current@) == words(text@.take(it.index() as int)),
            !inside ==> current@.len() == 0 && text_views(done@) == words(
                text@.take(it.index() as int),
            ),
    {
        let ghost seen = text@.take(it.index() as int);
        let ghost next = text@.take(it.index() + 1);
        assert(next.drop_last() =~= seen);
        if c == ' ' || c == '\n' || c == '\r' || c == '\t' {
            if inside {
                let ghost before = done@;
                let ghost word = current@;
                done.push(current);
                current = String::new();
                inside = false;
                assert(text_views(done@) =~= text_views(before).push(word));
            }
        } else {
            let ghost word = current@;
            push_char(&mut current, c);
            proof {
                if inside {
                    let all = text_views(done@).push(word);
                    assert(all.drop_last() =~= text_views(done@));
                } else {
                    assert(current@ =~= seq![c]);
                }
            }
            inside = true;
        }
    }
    assert(text@.take(text@.len() as int) =~= text@);
    if inside {
        let ghost before = done@;
        let ghost word = current@;
        done.push(current);
        assert(text_views(done@) =~= text_views(before).push(word));
    }
    done
}

/// The value of a digit.
pub open spec fn digit_value(c: char) -> Option<nat> {
    if c == '0' {
        Some(0)
    } else if c == '1' {
        Some(1)
    } else if c == '2' {
        Some(2)
    } else if c == '3' {
        Some(3)
    } else if c == '4' {
        Some(4)
    } else if c == '5' {
        Some(5)
    } else if c == '6' {
        Some(6)
    } else if c == '7' {
        Some(7)
    } else if c == '8' {
        Some(8)
    } else if c == '9' {
        Some(9)
    } else {
        None
    }
}

/// The number that decimal digits stand for.
pub open spec fn natural(word: Seq<char>) -> Option<nat>
    decreases word.len(),
{
    if word.len() == 0 {
        None
    } else if word.len() == 1 {
        digit_value(word.last())
    } else {
        match (natural(word.drop_last()), digit_value(word.last())) {
            (Some(front), Some(d)) => Some(10 * front + d),
            _ => None,
        }
    }
}

/// The number that decimal digits, with a minus sign before them or without, stand for.
pub open spec fn integer(word: Seq<char>) -> Option<int> {
    if word.len() > 0 && word[0] == '-' {
        match natural(word.skip(1)) {
            Some(n) => Some(-(n as int)),
            None => None,
        }
    } else {
        match natural(word) {
            Some(n) => Some(n as int),
            None => None,
        }
    }
}

/// Digits that are followed by digits stand for a number that is no larger.
proof fn natural_of_front(word: Seq<char>, k: int)
    requires
        1 <= k <= word.len(),
        natural(word) is Some,
    ensures
        natural(word.take(k)) is Some,
        natural(word.take(k))->0 <= natural(word)->0,
    decreases word.len(),
{
    if k == word.len() {
        assert(word.take(k) =~= word);
    } else {
        natural_of_front(word.drop_last(), k);
        assert(word.drop_last().take(k) =~= word.take(k));
    }
}

fn read_digit(c: char) -> (r: Option<u64>)
    ensures
        match r {
            Some(d) => digit_value(c) == Some(d as nat) && d < 10,
            None => digit_value(c) is None,
        },
{
    if c == '0' {
        Some(0)
    } else if c == '1' {
        Some(1)
    } else if c == '2' {
        Some(2)
    } else if c == '3' {
        Some(3)
    } else if c == '4' {
        Some(4)
    } else if c == '5' {
        Some(5)
    } else if c == '6' {
        Some(6)
    } else if c == '7' {
        Some(7)
    } else if c == '8' {
        Some(8)
    } else if c == '9' {
        Some(9)
    } else {
        None
    }
}

/// Reads the digits of a word from position `from` on as a number of at most `most`.
fn read_digits(word: &str, from: usize, most: u64) -> (r: Option<u64>)
    requires
        from <= word@.len(),
    ensures
        match r {
            Some(v) => natural(word@.skip(from as int)) == Some(v as nat) && v <= most,
            None => natural(word@.skip(from as int)) is None || natural(
                word@.skip(from as int),
            )->0 > most,
        },
{
    let ghost digits = word@.skip(from as int);
    let n = word.unicode_len();
    if from == n {
        return None;
    }
    let mut value: u128 = 0;
    let mut i: usize = from;
    while i < n
        invariant
            from <= i <= n,
            from < n,
            n == word@.len(),
            digits == word@.skip(from as int),
            value <= most,
            i > from ==> natural(digits.take(i - from)) == Some(value as nat),
            i == from ==> value == 0,
        decreases n - i,
    {
        let ghost k = i - from;
        let ghost front = digits.take(k + 1);
        proof {
            assert(front.drop_last() =~= digits.take(k));
            assert(front.last() == digits[k]);
            assert(digits[k] == word@[i as int]);
        }
        match read_digit(word.get_char(i)) {
            Some(d) => {
                value = 10 * value + d as u128;
                assert(natural(front) == Some(value as nat));
            },
            None => {
                proof {
                    assert(natural(front) is None);
                    if natural(digits) is Some {
                        natural_of_front(digits, k + 1);
                    }
                }
                return None;
            },
        }
        if value > most as u128 {
            proof {
                if natural(digits) is Some {
                    natural_of_front(digits, k + 1);
                }
            }
            return None;
        }
        i = i + 1;
    }
    assert(digits.take(n - from) =~= digits);
    Some(value as u64)
}

/// Reads a word as a number between `-most` and `most`.
pub fn read_number(word: &str, most: u64) -> (r: Option<i128>)
    ensures
        match r {
            Some(v) => integer(word@) == Some(v as int) && -most <= v <= most,
            None => integer(word@) is None || integer(word@)->0 < -most || integer(word@)->0 > most,
        },
{
    let n = word.unicode_len();
    if n > 0 && word.get_char(0) == '-' {
        match read_digits(word, 1, most) {
            Some(v) => Some(-(v as i128)),
            None => None,
        }
    } else {
        assert(word@.skip(0) =~= word@);
        match read_digits(word, 0, most) {
            Some(v) => Some(v as i128),
            None => None,
        }
    }
}

} // verus!
