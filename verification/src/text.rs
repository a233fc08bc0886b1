//! Executable work on characters and strings: reading a `u32` from a
//! string, splitting an expression on `d`, and rendering numbers.

use crate::notation::{
    dec_digits, digit_char, digit_value, digits_value, int_string, is_digit,
    lemma_digits_value_prefix_le, parsed_u32, parses_as_u32, segments, split_state, unsigned_body,
};
use vstd::prelude::*;

verus! {

/// Relies on `String::push`: it appends exactly the given character.
#[verifier::external_body]
pub(crate) fn push_char(s: &mut String, c: char)
    ensures
        final(s)@ == old(s)@.push(c),
{
    s.push(c)
}

/// The value of one digit character, or `None` for any other character.
fn digit_of(c: char) -> (r: Option<u32>)
    ensures
        r is Some <==> is_digit(c),
        r is Some ==> r->0 < 10 && r->0 == digit_value(c),
{
    match c {
        '0' => Some(0u32),
        '1' => Some(1u32),
        '2' => Some(2u32),
        '3' => Some(3u32),
        '4' => Some(4u32),
        '5' => Some(5u32),
        '6' => Some(6u32),
        '7' => Some(7u32),
        '8' => Some(8u32),
        '9' => Some(9u32),
        _ => None,
    }
}

/// The character of one digit value.
fn digit_char_of(d: u32) -> (c: char)
    requires
        d < 10,
    ensures
        c == digit_char(d as int),
{
    if d == 0 {
        '0'
    } else if d == 1 {
        '1'
    } else if d == 2 {
        '2'
    } else if d == 3 {
        '3'
    } else if d == 4 {
        '4'
    } else if d == 5 {
        '5'
    } else if d == 6 {
        '6'
    } else if d == 7 {
        '7'
    } else if d == 8 {
        '8'
    } else {
        '9'
    }
}

/// Reads `s` as a `u32`, as the dice notation understands one: an
/// optional `+` sign, then decimal digits, within range. Any other
/// string gives `None`.
pub fn parse_u32(s: &str) -> (r: Option<u32>)
    ensures
        r is Some <==> parses_as_u32(s@),
        r is Some ==> r->0 == parsed_u32(s@),
{
    let len: usize = s.unicode_len();
    let start: usize = if len > 0 && s.get_char(0) == '+' {
        1
    } else {
        0
    };
    let ghost b = unsigned_body(s@);
    proof {
        assert(b =~= s@.subrange(start as int, len as int));
    }
    if start >= len {
        return None;
    }
    let mut acc: u32 = 0;
    let mut i: usize = start;
    while i < len
        invariant
            start <= i <= len,
            len == s@.len(),
            b == unsigned_body(s@),
            b =~= s@.subrange(start as int, len as int),
            forall|k: int| start <= k < i ==> is_digit(#[trigger] s@[k]),
            acc as int == digits_value(s@.subrange(start as int, i as int)),
        decreases len - i,
    {
        let c = s.get_char(i);
        match digit_of(c) {
            None => {
                proof {
                    assert(b[i - start] == s@[i as int]);
                }
                return None;
            },
            Some(d) => {
                let ghost prefix = s@.subrange(start as int, i as int);
                let ghost extended = s@.subrange(start as int, i as int + 1);
                proof {
                    assert(extended.drop_last() =~= prefix);
                    assert(extended.last() == s@[i as int]);
                    assert(digits_value(extended) == acc * 10 + d);
                }
                if acc > (u32::MAX - d) / 10 {
                    proof {
                        assert(acc * 10 + d > u32::MAX) by {
                            let m = (u32::MAX - d) as int;
                            assert(m == (m / 10) * 10 + m % 10) by {
                                vstd::arithmetic::div_mod::lemma_fundamental_div_mod(m, 10);
                            }
                            assert(acc * 10 >= (m / 10) * 10 + 10) by (nonlinear_arith)
                                requires
                                    acc as int >= m / 10 + 1,
                            ;
                        }
                        if forall|k: int| 0 <= k < b.len() ==> is_digit(#[trigger] b[k]) {
                            assert(extended =~= b.take(i as int + 1 - start));
                            lemma_digits_value_prefix_le(b, i as int + 1 - start);
                        }
                    }
                    return None;
                }
                acc = acc * 10 + d;
                i = i + 1;
                proof {
                    assert(acc as int == digits_value(extended));
                }
            },
        }
    }
    proof {
        assert(b =~= s@.subrange(start as int, i as int));
        assert(forall|k: int| 0 <= k < b.len() ==> is_digit(#[trigger] b[k]));
        assert(parses_as_u32(s@));
    }
    Some(acc)
}

/// Splits `s` on the letter `d` and keeps the non-empty pieces, in
/// order: leading, trailing and repeated `d` characters collapse.
pub fn split_on_d(s: &str) -> (segs: Vec<String>)
    ensures
        segs.deep_view() == segments(s@),
{
    let len: usize = s.unicode_len();
    let mut segs: Vec<String> = Vec::new();
    let mut cur: String = String::new();
    let mut i: usize = 0;
    while i < len
        invariant
            i <= len,
            len == s@.len(),
            segs.deep_view() == split_state(s@.take(i as int)).0,
            cur@ == split_state(s@.take(i as int)).1,
        decreases len - i,
    {
        let ghost pre = s@.take(i as int);
        let ghost post = s@.take(i as int + 1);
        proof {
            assert(post.drop_last() =~= pre);
            assert(post.last() == s@[i as int]);
        }
        let c = s.get_char(i);
        if c == 'd' {
            if cur.as_str().unicode_len() > 0 {
                let ghost old_segs = segs.deep_view();
                let ghost done = cur@;
                segs.push(cur);
                cur = String::new();
                proof {
                    assert(segs.deep_view() =~= old_segs.push(done));
                }
            }
        } else {
            push_char(&mut cur, c);
        }
        i = i + 1;
    }
    proof {
        assert(s@.take(len as int) =~= s@);
    }
    if cur.as_str().unicode_len() > 0 {
        let ghost old_segs = segs.deep_view();
        let ghost done = cur@;
        segs.push(cur);
        proof {
            assert(segs.deep_view() =~= old_segs.push(done));
        }
    }
    segs
}

/// The canonical decimal rendering of `n`.
pub(crate) fn u32_to_string(n: u32) -> (s: String)
    ensures
        s@ == dec_digits(n as nat),
    decreases n,
{
    if n < 10 {
        let mut s = String::new();
        push_char(&mut s, digit_char_of(n));
        proof {
            assert(s@ =~= dec_digits(n as nat));
        }
        s
    } else {
        let mut s = u32_to_string(n / 10);
        push_char(&mut s, digit_char_of(n % 10));
        s
    }
}

/// The decimal rendering of `x`, minus sign first.
pub(crate) fn i32_to_string(x: i32) -> (s: String)
    requires
        x > i32::MIN,
    ensures
        s@ == int_string(x as int),
{
    if x < 0 {
        let mut s = String::new();
        push_char(&mut s, '-');
        let digits = u32_to_string((-x) as u32);
        s.append(digits.as_str());
        proof {
            assert(s@ =~= int_string(x as int));
        }
        s
    } else {
        u32_to_string(x as u32)
    }
}

} // verus!
