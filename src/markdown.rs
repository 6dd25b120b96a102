//! Text for Telegram's MarkdownV2: escaping and grouped numbers.

use vstd::prelude::*;
use crate::text::{chars_of, string_of, decimal, decimal_of};

verus! {

/// The characters that MarkdownV2 reserves.
pub open spec fn md_special(c: char) -> bool {
    c == '_' || c == '*' || c == '[' || c == ']' || c == '(' || c == ')' || c == '~' || c == '`'
        || c == '>' || c == '#' || c == '+' || c == '-' || c == '=' || c == '|' || c == '{'
        || c == '}' || c == '.' || c == '!'
}

/// `s` with a backslash before every reserved character.
pub open spec fn escaped(s: Seq<char>) -> Seq<char>
    decreases s.len(),
{
    if s.len() == 0 {
        Seq::empty()
    } else {
        escaped(s.drop_last()) + if md_special(s.last()) {
            seq!['\\', s.last()]
        } else {
            seq![s.last()]
        }
    }
}

/// `s` with a backslash before every character that MarkdownV2 reserves.
pub fn escape(s: &str) -> (r: String)
    ensures
        r@ == escaped(s@),
{
    let cs = chars_of(s);
    let mut out: Vec<char> = Vec::new();
    let mut i: usize = 0;
    while i < cs.len()
        invariant
            i <= cs@.len(),
            cs@ == s@,
            out@ == escaped(cs@.subrange(0, i as int)),
        decreases cs@.len() - i,
    {
        let c = cs[i];
        let special = c == '_' || c == '*' || c == '[' || c == ']' || c == '(' || c == ')' || c
            == '~' || c == '`' || c == '>' || c == '#' || c == '+' || c == '-' || c == '=' || c
            == '|' || c == '{' || c == '}' || c == '.' || c == '!';
        if special {
            out.push('\\');
        }
        out.push(c);
        proof {
            assert(cs@.subrange(0, i + 1).drop_last() =~= cs@.subrange(0, i as int));
            assert(out@ =~= escaped(cs@.subrange(0, i + 1)));
        }
        i = i + 1;
    }
    proof {
        assert(cs@.subrange(0, cs@.len() as int) =~= cs@);
    }
    string_of(&out)
}

/// The first `k` digits of `d`, with a dot before each digit that starts a group
/// of three counted from the right.
pub open spec fn dotted(d: Seq<char>, k: nat) -> Seq<char>
    decreases k,
{
    if k == 0 {
        Seq::empty()
    } else {
        let i = (k - 1) as nat;
        dotted(d, i) + if i > 0 && (d.len() - i) % 3 == 0 {
            seq!['.', d[i as int]]
        } else {
            seq![d[i as int]]
        }
    }
}

/// The decimal notation of `n` with its digits in groups of three separated by dots.
pub open spec fn with_dots(n: nat) -> Seq<char> {
    dotted(decimal(n), decimal(n).len())
}

/// `number` with its digits grouped in threes by dots: 1234567 reads "1.234.567".
pub fn format_with_dots(number: usize) -> (r: String)
    ensures
        r@ == with_dots(number as nat),
{
    let digits = decimal_of(number as u64);
    let length = digits.len();
    let mut out: Vec<char> = Vec::new();
    let mut size: usize = 0;
    while size < length
        invariant
            size <= length,
            length == digits@.len(),
            digits@ == decimal(number as nat),
            out@ == dotted(digits@, size as nat),
        decreases length - size,
    {
        let rem = length - size;
        if size > 0 && rem % 3 == 0 {
            out.push('.');
        }
        out.push(digits[size]);
        proof {
            assert(out@ =~= dotted(digits@, (size + 1) as nat));
        }
        size = size + 1;
    }
    string_of(&out)
}

} // verus!
