//! Texts as sequences of characters: the vocabulary that the contracts share.

use vstd::prelude::*;
use vstd::string::*;

verus! {

/// The texts held by a list of owned strings.
pub open spec fn texts_of(strings: Seq<String>) -> Seq<Seq<char>> {
    Seq::new(strings.len(), |i: int| strings[i]@)
}

/// The texts held by a list of string slices.
pub open spec fn slice_texts(slices: Seq<&str>) -> Seq<Seq<char>> {
    Seq::new(slices.len(), |i: int| slices[i]@)
}

/// All of `parts`, one after the other.
pub open spec fn concat(parts: Seq<Seq<char>>) -> Seq<char>
    decreases parts.len(),
{
    if parts.len() == 0 {
        Seq::empty()
    } else {
        concat(parts.drop_last()) + parts.last()
    }
}

/// All of `parts`, with `separator` between each two neighbours.
pub open spec fn join(parts: Seq<Seq<char>>, separator: Seq<char>) -> Seq<char>
    decreases parts.len(),
{
    if parts.len() == 0 {
        Seq::empty()
    } else if parts.len() == 1 {
        parts[0]
    } else {
        join(parts.drop_last(), separator) + separator + parts.last()
    }
}

/// Whether `needle` occurs in `text` as a run of neighbouring characters.
pub open spec fn occurs_in(needle: Seq<char>, text: Seq<char>) -> bool {
    exists|at: int|
        0 <= at <= text.len() - needle.len() && #[trigger] text.subrange(
            at,
            at + needle.len(),
        ) == needle
}

/// The character that stands for the digit `d`, which is below ten.
pub open spec fn digit_char(d: nat) -> char {
    if d == 0 {
        '0'
    } else if d == 1 {
        '1'
    } else if d == 2 {
        '2'
    } else if d == 3 {
        '3'
    } else if d == 4 {
        '4'
    } else if d == 5 {
        '5'
    } else if d == 6 {
        '6'
    } else if d == 7 {
        '7'
    } else if d == 8 {
        '8'
    } else {
        '9'
    }
}

/// `n` in decimal digits, without leading zeros.
pub open spec fn decimal(n: nat) -> Seq<char>
    decreases n,
{
    if n < 10 {
        seq![digit_char(n)]
    } else {
        decimal(n / 10).push(digit_char(n % 10))
    }
}

/// The one-character text of a digit.
fn digit_text(d: u32) -> (text: &'static str)
    requires
        d < 10,
    ensures
        text@ == seq![digit_char(d as nat)],
{
    proof {
        reveal_strlit("0");
        reveal_strlit("1");
        reveal_strlit("2");
        reveal_strlit("3");
        reveal_strlit("4");
        reveal_strlit("5");
        reveal_strlit("6");
        reveal_strlit("7");
        reveal_strlit("8");
        reveal_strlit("9");
    }
    let text = if d == 0 {
        "0"
    } else if d == 1 {
        "1"
    } else if d == 2 {
        "2"
    } else if d == 3 {
        "3"
    } else if d == 4 {
        "4"
    } else if d == 5 {
        "5"
    } else if d == 6 {
        "6"
    } else if d == 7 {
        "7"
    } else if d == 8 {
        "8"
    } else {
        "9"
    };
    assert(text@ =~= seq![digit_char(d as nat)]);
    text
}

/// Writes `n` in decimal digits.
pub fn decimal_string(n: u32) -> (text: String)
    ensures
        text@ == decimal(n as nat),
    decreases n,
{
    if n < 10 {
        String::from_str(digit_text(n))
    } else {
        let mut text = decimal_string(n / 10);
        text.append(digit_text(n % 10));
        assert(text@ =~= decimal(n as nat));
        text
    }
}

/// Joins `parts` with `separator` between each two neighbours.
pub fn join_strings(parts: &[String], separator: &str) -> (joined: String)
    ensures
        joined@ == join(texts_of(parts@), separator@),
{
    let ghost texts = texts_of(parts@);
    let mut joined = String::new();
    let mut i: usize = 0;
    while i < parts.len()
        invariant
            i <= parts.len(),
            texts == texts_of(parts@),
            joined@ == join(texts.take(i as int), separator@),
        decreases parts.len() - i,
    {
        proof {
            assert(texts.take(i + 1).drop_last() == texts.take(i as int));
            assert(texts.take(i + 1).last() == parts@[i as int]@);
        }
        if i > 0 {
            joined.append(separator);
        }
        joined.append(parts[i].as_str());
        i += 1;
    }
    proof {
        assert(texts.take(i as int) == texts);
    }
    joined
}

/// A character of one of the parts is a character of them all.
pub proof fn lemma_piece_of_concat(parts: Seq<Seq<char>>, at: int, c: char)
    requires
        0 <= at < parts.len(),
        parts[at].contains(c),
    ensures
        concat(parts).contains(c),
    decreases parts.len(),
{
    let earlier = concat(parts.drop_last());
    if at == parts.len() - 1 {
        let k = choose|k: int| 0 <= k < parts[at].len() && parts[at][k] == c;
        assert(concat(parts)[earlier.len() + k] == c);
    } else {
        lemma_piece_of_concat(parts.drop_last(), at, c);
        let k = choose|k: int| 0 <= k < earlier.len() && earlier[k] == c;
        assert(concat(parts)[k] == c);
    }
}

/// Parts of which none is empty make an empty text only if there are none.
pub proof fn lemma_concat_of_nonempty(parts: Seq<Seq<char>>)
    requires
        forall|i: int| 0 <= i < parts.len() ==> (#[trigger] parts[i]).len() > 0,
        concat(parts).len() == 0,
    ensures
        parts.len() == 0,
{
    if parts.len() > 0 {
        assert(parts.last().len() > 0);
    }
}

} // verus!
