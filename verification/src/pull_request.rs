//! What the user is asked for when a pull request is opened: the list of
//! assignees that was typed in, and the labels of the repository in their own
//! colours.

use crate::paint::{paint, painted, Tint};
use vstd::prelude::*;
use vstd::string::*;

verus! {

/// What a new pull request is opened with.
#[derive(Debug, Clone, PartialEq, Eq)]
pub struct PRCreationMetadata {
    /// The title.
    pub title: String,
    /// The description.
    pub body: String,
    /// Whether the pull request is a draft.
    pub is_draft: bool,
    /// The labels to put on it, if any were chosen.
    pub labels: Option<Vec<String>>,
    /// The users to assign it to, if any were named.
    pub assignees: Option<Vec<String>>,
}

/// A label of the repository, to choose from.
#[derive(Debug, Clone, PartialEq, Eq)]
pub struct SelectLabel {
    /// The name of the label.
    pub name: String,
    /// The name in the colour of the label, for the terminal.
    pub formatted: String,
}

/// `s` without its spaces.
pub open spec fn without_spaces(s: Seq<char>) -> Seq<char>
    decreases s.len(),
{
    if s.len() == 0 {
        Seq::empty()
    } else if s.last() == ' ' {
        without_spaces(s.drop_last())
    } else {
        without_spaces(s.drop_last()).push(s.last())
    }
}

/// The parts of `s` between its commas: one more than it has commas.
pub open spec fn comma_separated(s: Seq<char>) -> Seq<Seq<char>>
    decreases s.len(),
{
    if s.len() == 0 {
        seq![Seq::empty()]
    } else {
        let before = comma_separated(s.drop_last());
        if s.last() == ',' {
            before.push(Seq::empty())
        } else {
            before.drop_last().push(before.last().push(s.last()))
        }
    }
}

/// The assignees that an answer names: the parts between its commas, spaces
/// left out.
pub open spec fn assignees_of(answer: Seq<char>) -> Seq<Seq<char>> {
    comma_separated(without_spaces(answer))
}

/// The strings of a list, in its order.
pub open spec fn texts(v: Seq<String>) -> Seq<Seq<char>> {
    Seq::new(v.len(), |i: int| v[i]@)
}

/// The assignees that `answer` names, separated by commas; spaces do not count.
pub fn parse_assignees(answer: &str) -> (r: Vec<String>)
    ensures
        texts(r@) == assignees_of(answer@),
{
    let n: usize = answer.unicode_len();
    let mut done: Vec<String> = Vec::new();
    let mut current = String::new();
    let mut i: usize = 0;
    proof {
        assert(answer@.take(0) =~= Seq::<char>::empty());
        assert(texts(done@).push(current@) =~= seq![Seq::<char>::empty()]);
    }
    while i < n
        invariant
            n == answer@.len(),
            i <= n,
            texts(done@).push(current@) == assignees_of(answer@.take(i as int)),
        decreases n - i,
    {
        let c = answer.get_char(i);
        let ghost before = answer@.take(i as int);
        let ghost upto = answer@.take(i + 1);
        let ghost parts = assignees_of(before);
        proof {
            assert(upto.drop_last() =~= before);
            assert(upto.last() == c);
            assert(parts.last() == current@);
            assert(parts.drop_last() =~= texts(done@));
            if c != ' ' {
                assert(without_spaces(upto).drop_last() =~= without_spaces(before));
            }
        }
        if c == ',' {
            done.push(current);
            current = String::new();
            proof {
                assert(texts(done@) =~= parts);
                assert(texts(done@).push(current@) =~= parts.push(Seq::empty()));
            }
        } else if c != ' ' {
            let ghost sofar = current@;
            current.append(answer.substring_char(i, i + 1));
            proof {
                assert(answer@.subrange(i as int, i + 1) =~= seq![c]);
                assert(current@ =~= sofar.push(c));
                assert(texts(done@).push(current@) =~= parts.drop_last().push(parts.last().push(c)));
            }
        }
        i += 1;
    }
    proof {
        assert(answer@.take(n as int) =~= answer@);
    }
    let ghost whole = texts(done@).push(current@);
    done.push(current);
    assert(texts(done@) =~= whole);
    done
}

/// The value of a hexadecimal digit.
pub open spec fn hex_digit(c: char) -> Option<nat> {
    if '0' <= c <= '9' {
        Some((c as nat - '0' as nat) as nat)
    } else if 'a' <= c <= 'f' {
        Some((c as nat - 'a' as nat + 10) as nat)
    } else if 'A' <= c <= 'F' {
        Some((c as nat - 'A' as nat + 10) as nat)
    } else {
        None
    }
}

/// The number that hexadecimal digits stand for; `None` if there is no digit,
/// or a character that is none.
pub open spec fn hex_value(s: Seq<char>) -> Option<nat>
    decreases s.len(),
{
    if s.len() == 0 {
        None
    } else if s.len() == 1 {
        hex_digit(s[0])
    } else {
        match (hex_value(s.drop_last()), hex_digit(s.last())) {
            (Some(v), Some(d)) => Some(v * 16 + d),
            _ => None,
        }
    }
}

/// The number below 2^32 that a text stands for in hexadecimal digits, which
/// a plus sign may precede.
pub open spec fn parse_hex(s: Seq<char>) -> Option<u32> {
    let digits = if s.len() > 0 && s[0] == '+' {
        s.skip(1)
    } else {
        s
    };
    match hex_value(digits) {
        Some(v) => if v <= u32::MAX {
            Some(v as u32)
        } else {
            None
        },
        None => None,
    }
}

/// The red, green and blue part of a colour that is given by its number: the
/// three lowest bytes, the highest of them first.
pub open spec fn rgb_of(value: u32) -> (u8, u8, u8) {
    (((value / 65536) % 256) as u8, ((value / 256) % 256) as u8, (value % 256) as u8)
}

/// The value of a hexadecimal digit.
fn hex_digit_value(c: char) -> (r: Option<u64>)
    ensures
        match r {
            Some(d) => hex_digit(c) == Some(d as nat) && d < 16,
            None => hex_digit(c) is None,
        },
{
    if c >= '0' && c <= '9' {
        Some((c as u64) - ('0' as u64))
    } else if c >= 'a' && c <= 'f' {
        Some((c as u64) - ('a' as u64) + 10)
    } else if c >= 'A' && c <= 'F' {
        Some((c as u64) - ('A' as u64) + 10)
    } else {
        None
    }
}

/// More digits make a number no smaller.
pub proof fn lemma_hex_value_grows(s: Seq<char>, upto: int)
    requires
        1 <= upto <= s.len(),
        hex_value(s) is Some,
    ensures
        hex_value(s.take(upto)) is Some,
        hex_value(s.take(upto)).unwrap() <= hex_value(s).unwrap(),
    decreases s.len(),
{
    if upto == s.len() {
        assert(s.take(upto) =~= s);
    } else {
        assert(s.drop_last().take(upto) =~= s.take(upto));
        lemma_hex_value_grows(s.drop_last(), upto);
    }
}

/// The colour that the hexadecimal number `color` gives, as its red, green and
/// blue part; `None` if `color` is no such number below 2^32.
pub fn label_rgb(color: &str) -> (r: Option<(u8, u8, u8)>)
    ensures
        r == match parse_hex(color@) {
            Some(value) => Some(rgb_of(value)),
            None => None,
        },
{
    let n: usize = color.unicode_len();
    let start: usize = if n > 0 && color.get_char(0) == '+' {
        1
    } else {
        0
    };
    let ghost digits = if color@.len() > 0 && color@[0] == '+' {
        color@.skip(1)
    } else {
        color@
    };
    proof {
        assert(digits =~= color@.skip(start as int));
    }
    if start == n {
        assert(digits.len() == 0);
        return None;
    }
    let mut value: u64 = 0;
    let mut i: usize = start;
    while i < n
        invariant
            n == color@.len(),
            start <= i <= n,
            start < n,
            digits == color@.skip(start as int),
            digits == (if color@.len() > 0 && color@[0] == '+' {
                color@.skip(1)
            } else {
                color@
            }),
            value <= u32::MAX,
            i == start ==> value == 0,
            i > start ==> hex_value(digits.take(i - start)) == Some(value as nat),
        decreases n - i,
    {
        let c = color.get_char(i);
        let ghost sofar = digits.take(i - start);
        let ghost next = digits.take(i + 1 - start);
        proof {
            assert(next.drop_last() =~= sofar);
            assert(next.last() == c);
            assert(next.len() == i + 1 - start);
            if i == start {
                assert(next[0] == c);
            }
        }
        match hex_digit_value(c) {
            None => {
                proof {
                    assert(hex_value(next) is None);
                    if hex_value(digits) is Some {
                        lemma_hex_value_grows(digits, i + 1 - start);
                    }
                }
                return None;
            },
            Some(d) => {
                let more: u64 = value * 16 + d;
                assert(hex_value(next) == Some(more as nat));
                if more > 0xffff_ffff {
                    proof {
                        if hex_value(digits) is Some {
                            lemma_hex_value_grows(digits, i + 1 - start);
                        }
                    }
                    return None;
                }
                value = more;
            },
        }
        i += 1;
    }
    assert(digits.take(n - start) =~= digits);
    assert(parse_hex(color@) == Some(value as u32));
    let red: u8 = ((value / 65536) % 256) as u8;
    let green: u8 = ((value / 256) % 256) as u8;
    let blue: u8 = (value % 256) as u8;
    Some((red, green, blue))
}

/// The label `name` to choose from, shown in the colour that the hexadecimal
/// number `color` gives; `None` if `color` is no such number.
pub fn select_label(name: &str, color: &str) -> (r: Option<SelectLabel>)
    ensures
        r is Some <==> parse_hex(color@) is Some,
        r matches Some(label) ==> {
            let (red, green, blue) = rgb_of(parse_hex(color@).unwrap());
            &&& label.name@ == name@
            &&& label.formatted@ == painted(Tint::Rgb(red, green, blue), name@)
        },
{
    match label_rgb(color) {
        Some((red, green, blue)) => Some(
            SelectLabel { name: name.to_owned(), formatted: paint(Tint::Rgb(red, green, blue), name) },
        ),
        None => None,
    }
}

} // verus!
