//! The operator console's command language: `grow <n>`, `shrink <n>`,
//! `print`, `help`.
use vstd::prelude::*;

use crate::text::{lower_of, lowercase, trim_of, trim_str};

verus! {

/// What `str::split_whitespace` makes of a string.
pub uninterp spec fn words_of(s: Seq<char>) -> Seq<Seq<char>>;

/// Relies on `str::split_whitespace`: the words depend on the characters
/// alone, and an empty string has none.
#[verifier::external_body]
fn words(s: &str) -> (r: Vec<String>)
    ensures
        r@.map_values(|w: String| w@) == words_of(s@),
        s@.len() == 0 ==> r@.len() == 0,
{
    s.split_whitespace().map(|w| w.to_string()).collect()
}

#[derive(Debug, PartialEq, Eq, Structural)]
pub enum Command {
    Help,
    Print,
    Unknown,
    Grow(usize),
    Shrink(usize),
}

/// The command named `method` (already case-folded), with `count`.
pub open spec fn command_of(method: Seq<char>, count: usize) -> Command {
    if method == "grow"@ {
        Command::Grow(count)
    } else if method == "shrink"@ {
        Command::Shrink(count)
    } else if method == "print"@ {
        Command::Print
    } else if method == "help"@ {
        Command::Help
    } else {
        Command::Unknown
    }
}

pub open spec fn is_digit(c: char) -> bool {
    '0' <= c <= '9'
}

/// The number written by decimal digits `s`.
pub open spec fn digits_value(s: Seq<char>) -> nat
    decreases s.len(),
{
    if s.len() == 0 {
        0
    } else {
        digits_value(s.drop_last()) * 10 + (s.last() as nat - '0' as nat) as nat
    }
}

/// The count written in `s`: an optional `+` and at least one digit, with a
/// value that fits `usize`; anything else counts as zero.
pub open spec fn count_of(s: Seq<char>) -> usize {
    let d = unsigned_part(s);
    if d.len() > 0 && all_digits(d) && digits_value(d) <= usize::MAX {
        digits_value(d) as usize
    } else {
        0
    }
}

/// `s` without one leading `+`.
pub open spec fn unsigned_part(s: Seq<char>) -> Seq<char> {
    if s.len() > 0 && s[0] == '+' {
        s.drop_first()
    } else {
        s
    }
}

pub open spec fn all_digits(d: Seq<char>) -> bool {
    forall|i: int| 0 <= i < d.len() ==> is_digit(#[trigger] d[i])
}

/// The command given by the words of a console line: the first word names
/// it, the second, if any, is the count.
pub open spec fn words_command(ws: Seq<Seq<char>>) -> Command {
    if ws.len() == 0 {
        Command::Unknown
    } else {
        command_of(
            lower_of(ws[0]),
            if ws.len() > 1 {
                count_of(ws[1])
            } else {
                0
            },
        )
    }
}

/// The command of a console line.
pub open spec fn parse_spec(line: Seq<char>) -> Command {
    words_command(words_of(trim_of(line)))
}

proof fn lemma_digits_prefix(s: Seq<char>, k: int)
    requires
        0 <= k <= s.len(),
        forall|i: int| 0 <= i < s.len() ==> is_digit(#[trigger] s[i]),
    ensures
        digits_value(s.take(k)) <= digits_value(s),
    decreases s.len(),
{
    if k < s.len() {
        assert(s.drop_last().take(k) =~= s.take(k));
        assert forall|i: int| 0 <= i < s.drop_last().len() implies is_digit(
            #[trigger] s.drop_last()[i],
        ) by {
            assert(s.drop_last()[i] == s[i]);
        }
        lemma_digits_prefix(s.drop_last(), k);
    } else {
        assert(s.take(k) =~= s);
    }
}

impl Command {
    /// The command named `method` in any case, with `count`.
    pub fn from(method: &str, count: usize) -> (r: Command)
        ensures
            r == command_of(lower_of(method@), count),
    {
        let m = lowercase(method);
        if m == String::from_str("grow") {
            Command::Grow(count)
        } else if m == String::from_str("shrink") {
            Command::Shrink(count)
        } else if m == String::from_str("print") {
            Command::Print
        } else if m == String::from_str("help") {
            Command::Help
        } else {
            Command::Unknown
        }
    }
}

/// The count written in `s`, as `str::parse::<usize>` reads it, or zero.
pub fn parse_count(s: &str) -> (r: usize)
    ensures
        r == count_of(s@),
{
    let cs = crate::text::chars_of(s);
    let mut i: usize = 0;
    if cs.len() > 0 && cs[0] == '+' {
        i = 1;
    }
    let ghost d = unsigned_part(s@);
    let start = i;
    assert(d =~= s@.subrange(start as int, s@.len() as int));
    if i == cs.len() {
        return 0;
    }
    let mut v: usize = 0;
    assert(d.take(0) =~= Seq::<char>::empty());
    while i < cs.len()
        invariant
            cs@ == s@,
            start <= i <= cs@.len(),
            d == s@.subrange(start as int, s@.len() as int),
            d == unsigned_part(s@),
            forall|j: int| 0 <= j < i - start ==> is_digit(#[trigger] d[j]),
            v == digits_value(d.take(i - start)),
        decreases cs@.len() - i,
    {
        let c = cs[i];
        assert(c == d[i - start]);
        if c < '0' || c > '9' {
            assert(!is_digit(d[i - start]));
            assert(!all_digits(d));
            return 0;
        }
        let digit = (c as u32 - '0' as u32) as usize;
        assert(d.take(i - start + 1).drop_last() =~= d.take(i - start));
        assert(d.take(i - start + 1).last() == c);
        assert(digits_value(d.take(i - start + 1)) == v * 10 + digit);
        if v > (usize::MAX - digit) / 10 {
            proof {
                assert forall|j: int| 0 <= j < i - start + 1 implies is_digit(
                    #[trigger] d.take(i - start + 1)[j],
                ) by {
                    assert(d.take(i - start + 1)[j] == d[j]);
                }
                assert(digits_value(d.take(i - start + 1)) > usize::MAX) by (nonlinear_arith)
                    requires
                        v > (usize::MAX - digit) / 10,
                        digits_value(d.take(i - start + 1)) == v * 10 + digit,
                        digit <= 9,
                ;
                if all_digits(d) {
                    lemma_digits_prefix(d, i - start + 1);
                    assert(digits_value(d) > usize::MAX);
                }
            }
            return 0;
        }
        v = v * 10 + digit;
        i = i + 1;
    }
    assert(d.take(i - start) =~= d);
    v
}

/// The command given by the words of a console line.
pub fn command_from_words(ws: &Vec<String>) -> (r: Command)
    ensures
        r == words_command(ws@.map_values(|w: String| w@)),
{
    let ghost vs = ws@.map_values(|w: String| w@);
    if ws.len() == 0 {
        return Command::Unknown;
    }
    assert(ws@[0]@ == vs[0]);
    let count = if ws.len() > 1 {
        assert(ws@[1]@ == vs[1]);
        parse_count(ws[1].as_str())
    } else {
        0
    };
    Command::from(ws[0].as_str(), count)
}

/// The command of one console line.
pub fn parse_command(cmd: &str) -> (r: Command)
    ensures
        r == parse_spec(cmd@),
{
    command_from_words(&words(trim_str(cmd)))
}

} // verus!
