//! Small text helpers: character-level string building and decimal rendering.

use vstd::prelude::*;
use vstd::utf8;

verus! {

/// Relies on char::from_u32: `Some` exactly on Unicode scalar values, and the
/// returned character casts back to the argument.
pub assume_specification[ char::from_u32 ](i: u32) -> (r: Option<char>)
    ensures
        match r {
            Some(c) => utf8::is_scalar(i) && c as u32 == i,
            None => !utf8::is_scalar(i),
        },
;

/// Relies on String::push: appends one character at the end of the string.
#[verifier::external_body]
pub fn push_char(s: &mut String, c: char)
    ensures
        final(s)@ == old(s)@.push(c),
{
    s.push(c);
}

/// The decimal digit character for `d`.
pub open spec fn digit_char(d: nat) -> char {
    if d == 0 {
        '0'
    } else if d == 1 {
        '1'
    } else if d == 2 {
        '2'
    } else if d == 3 {
        '3'
    } else if d == 4 {
        '4'
    } else if d == 5 {
        '5'
    } else if d == 6 {
        '6'
    } else if d == 7 {
        '7'
    } else if d == 8 {
        '8'
    } else {
        '9'
    }
}

/// The usual decimal rendering of `n`, most significant digit first.
pub open spec fn dec_rep(n: nat) -> Seq<char>
    decreases n,
{
    if n < 10 {
        seq![digit_char(n)]
    } else {
        dec_rep(n / 10).push(digit_char(n % 10))
    }
}

/// One decimal digit as a character.
fn digit_to_char(d: usize) -> (c: char)
    requires
        d < 10,
    ensures
        c == digit_char(d as nat),
{
    match d {
        0 => '0',
        1 => '1',
        2 => '2',
        3 => '3',
        4 => '4',
        5 => '5',
        6 => '6',
        7 => '7',
        8 => '8',
        _ => '9',
    }
}

/// Renders `n` in decimal.
pub fn usize_to_string(n: usize) -> (r: String)
    ensures
        r@ == dec_rep(n as nat),
{
    let mut rev: Vec<char> = Vec::new();
    rev.push(digit_to_char(n % 10));
    let mut m = n / 10;
    proof {
        assert(rev@.reverse() =~= seq![digit_char((n as nat) % 10)]);
        if m > 0 {
            assert(dec_rep(n as nat) == dec_rep((n as nat) / 10).push(digit_char((n as nat) % 10)));
            assert(dec_rep((n as nat) / 10) + rev@.reverse() =~= dec_rep(n as nat));
        } else {
            assert(dec_rep(n as nat) =~= rev@.reverse());
        }
    }
    while m > 0
        invariant
            rev@.len() >= 1,
            m > 0 ==> dec_rep(n as nat) =~= dec_rep(m as nat) + rev@.reverse(),
            m == 0 ==> dec_rep(n as nat) =~= rev@.reverse(),
        decreases m,
    {
        let ghost m0 = m as nat;
        let ghost rev0 = rev@;
        rev.push(digit_to_char(m % 10));
        m = m / 10;
        proof {
            assert(rev@.reverse() =~= seq![digit_char(m0 % 10)] + rev0.reverse());
            if m > 0 {
                assert(dec_rep(m0) == dec_rep(m0 / 10).push(digit_char(m0 % 10)));
                assert(dec_rep(m0 / 10) + rev@.reverse() =~= dec_rep(m0) + rev0.reverse());
            } else {
                assert(dec_rep(m0) =~= seq![digit_char(m0)]);
                assert(dec_rep(n as nat) =~= rev@.reverse());
            }
        }
    }
    let mut out = String::new();
    let ghost full = rev@.reverse();
    proof {
        assert(dec_rep(n as nat) =~= full);
    }
    let mut i = rev.len();
    while i > 0
        invariant
            i <= rev@.len(),
            full == rev@.reverse(),
            out@ =~= full.take(rev@.len() - i),
        decreases i,
    {
        i = i - 1;
        push_char(&mut out, rev[i]);
        proof {
            assert(rev@.reverse()[rev@.len() - i - 1] == rev@[i as int]);
            assert(out@ =~= full.take(rev@.len() - i));
        }
    }
    proof {
        assert(full.take(rev@.len() as int) =~= full);
    }
    out
}

/// The characters that trimming removes: the Unicode white-space set.
pub open spec fn is_space_char(c: char) -> bool {
    let u = c as u32;
    ||| u == 9
    ||| u == 10
    ||| u == 11
    ||| u == 12
    ||| u == 13
    ||| u == 32
    ||| u == 0x85
    ||| u == 0xa0
    ||| u == 0x1680
    ||| (0x2000 <= u <= 0x200a)
    ||| u == 0x2028
    ||| u == 0x2029
    ||| u == 0x202f
    ||| u == 0x205f
    ||| u == 0x3000
}

/// The first index at or after `i` holding no white space.
pub open spec fn first_non_ws(s: Seq<char>, i: int) -> int
    decreases s.len() - i,
    when 0 <= i <= s.len()
{
    if i == s.len() || !is_space_char(s[i]) {
        i
    } else {
        first_non_ws(s, i + 1)
    }
}

/// The end of the trimmed text: the least index at or below `j` such that
/// everything from it on is white space.
pub open spec fn end_non_ws(s: Seq<char>, j: int) -> int
    decreases j,
    when 0 <= j <= s.len()
{
    if j == 0 || !is_space_char(s[j - 1]) {
        j
    } else {
        end_non_ws(s, j - 1)
    }
}

/// The text with leading and trailing white space removed.
pub open spec fn trim_spec(s: Seq<char>) -> Seq<char> {
    let a = first_non_ws(s, 0);
    let b = end_non_ws(s, s.len() as int);
    if a >= b {
        Seq::empty()
    } else {
        s.subrange(a, b)
    }
}

/// Whether trimming removes this character.
fn is_space_char_exec(c: char) -> (b: bool)
    ensures
        b == is_space_char(c),
{
    let u = c as u32;
    u == 9 || u == 10 || u == 11 || u == 12 || u == 13 || u == 32 || u == 0x85 || u == 0xa0 || u
        == 0x1680 || (0x2000 <= u && u <= 0x200a) || u == 0x2028 || u == 0x2029 || u == 0x202f || u
        == 0x205f || u == 0x3000
}

/// Removes leading and trailing white space.
pub fn trim_string(s: &String) -> (r: String)
    ensures
        r@ == trim_spec(s@),
{
    let st = s.as_str();
    let n = st.unicode_len();
    let mut a: usize = 0;
    while a < n && is_space_char_exec(st.get_char(a))
        invariant
            st@ == s@,
            n == s@.len(),
            0 <= a <= n,
            first_non_ws(s@, 0) == first_non_ws(s@, a as int),
        decreases n - a,
    {
        a = a + 1;
    }
    let mut b: usize = n;
    while b > 0 && is_space_char_exec(st.get_char(b - 1))
        invariant
            st@ == s@,
            n == s@.len(),
            0 <= b <= n,
            end_non_ws(s@, n as int) == end_non_ws(s@, b as int),
        decreases b,
    {
        b = b - 1;
    }
    proof {
        assert(first_non_ws(s@, a as int) == a);
        assert(end_non_ws(s@, b as int) == b);
    }
    if a >= b {
        String::new()
    } else {
        String::from_str(st.substring_char(a, b))
    }
}

} // verus!
