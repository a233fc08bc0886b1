//! The mathematical reading of dice notation: how an expression splits
//! into segments, how a segment reads as a number, what a die of a given
//! kind may roll, and how results render and sum.

use vstd::prelude::*;

verus! {

/// A decimal digit character.
pub open spec fn is_digit(c: char) -> bool {
    c == '0' || c == '1' || c == '2' || c == '3' || c == '4' || c == '5' || c == '6' || c == '7'
        || c == '8' || c == '9'
}

/// The numeric value of a decimal digit character.
pub open spec fn digit_value(c: char) -> int {
    if c == '0' {
        0
    } else if c == '1' {
        1
    } else if c == '2' {
        2
    } else if c == '3' {
        3
    } else if c == '4' {
        4
    } else if c == '5' {
        5
    } else if c == '6' {
        6
    } else if c == '7' {
        7
    } else if c == '8' {
        8
    } else {
        9
    }
}

/// The character of a single decimal digit value.
pub open spec fn digit_char(d: int) -> char {
    if d == 0 {
        '0'
    } else if d == 1 {
        '1'
    } else if d == 2 {
        '2'
    } else if d == 3 {
        '3'
    } else if d == 4 {
        '4'
    } else if d == 5 {
        '5'
    } else if d == 6 {
        '6'
    } else if d == 7 {
        '7'
    } else if d == 8 {
        '8'
    } else {
        '9'
    }
}

/// The number that a sequence of digit characters denotes, most
/// significant digit first; the empty sequence denotes 0.
pub open spec fn digits_value(s: Seq<char>) -> int
    decreases s.len(),
{
    if s.len() == 0 {
        0
    } else {
        digits_value(s.drop_last()) * 10 + digit_value(s.last())
    }
}

/// A sequence of digit characters denotes a non-negative number.
pub proof fn lemma_digits_value_nonneg(s: Seq<char>)
    requires
        forall|i: int| 0 <= i < s.len() ==> is_digit(#[trigger] s[i]),
    ensures
        digits_value(s) >= 0,
    decreases s.len(),
{
    if s.len() > 0 {
        assert(forall|i: int| 0 <= i < s.drop_last().len() ==> is_digit(#[trigger] s.drop_last()[i]));
        lemma_digits_value_nonneg(s.drop_last());
    }
}

/// Reading further digits never shrinks the value already read.
pub proof fn lemma_digits_value_prefix_le(s: Seq<char>, n: int)
    requires
        0 <= n <= s.len(),
        forall|i: int| 0 <= i < s.len() ==> is_digit(#[trigger] s[i]),
    ensures
        digits_value(s.take(n)) <= digits_value(s),
    decreases s.len() - n,
{
    if n == s.len() {
        assert(s.take(n) =~= s);
    } else {
        assert(forall|i: int| 0 <= i < s.drop_last().len() ==> is_digit(#[trigger] s.drop_last()[i]));
        assert(s.take(n) =~= s.drop_last().take(n));
        lemma_digits_value_prefix_le(s.drop_last(), n);
        lemma_digits_value_nonneg(s.drop_last());
    }
}

/// The characters that carry the value of an unsigned decimal string:
/// one optional leading `+` sign is stripped, as `u32` parsing does.
pub open spec fn unsigned_body(s: Seq<char>) -> Seq<char> {
    if s.len() > 0 && s[0] == '+' {
        s.drop_first()
    } else {
        s
    }
}

/// Whether `s` reads as a `u32`: after the optional sign at least one
/// character, all of them digits, and the value within range.
pub open spec fn parses_as_u32(s: Seq<char>) -> bool {
    let b = unsigned_body(s);
    &&& b.len() > 0
    &&& forall|i: int| 0 <= i < b.len() ==> is_digit(#[trigger] b[i])
    &&& digits_value(b) <= u32::MAX
}

/// The value of a string that reads as a `u32`.
pub open spec fn parsed_u32(s: Seq<char>) -> int {
    digits_value(unsigned_body(s))
}

/// The canonical decimal rendering of a non-negative number: no sign,
/// no leading zeros (except for 0 itself).
pub open spec fn dec_digits(n: nat) -> Seq<char>
    decreases n,
{
    if n < 10 {
        seq![digit_char(n as int)]
    } else {
        dec_digits(n / 10).push(digit_char((n % 10) as int))
    }
}

/// The decimal rendering of a signed result, minus sign first.
pub open spec fn int_string(x: int) -> Seq<char> {
    if x < 0 {
        seq!['-'] + dec_digits((-x) as nat)
    } else {
        dec_digits(x as nat)
    }
}

/// `parts` joined with `sep` between each adjacent pair.
pub open spec fn join(parts: Seq<Seq<char>>, sep: Seq<char>) -> Seq<char>
    decreases parts.len(),
{
    if parts.len() == 0 {
        Seq::empty()
    } else if parts.len() == 1 {
        parts[0]
    } else {
        parts[0] + sep + join(parts.drop_first(), sep)
    }
}

/// The state of a split on `d` after reading a prefix of the input:
/// the finished non-empty segments, and the segment still being read
/// (possibly empty).
pub open spec fn split_state(s: Seq<char>) -> (Seq<Seq<char>>, Seq<char>)
    decreases s.len(),
{
    if s.len() == 0 {
        (seq![], seq![])
    } else {
        let prev = split_state(s.drop_last());
        if s.last() == 'd' {
            if prev.1.len() > 0 {
                (prev.0.push(prev.1), seq![])
            } else {
                prev
            }
        } else {
            (prev.0, prev.1.push(s.last()))
        }
    }
}

/// The non-empty segments of `s` between `d` characters, in order.
pub open spec fn segments(s: Seq<char>) -> Seq<Seq<char>> {
    let st = split_state(s);
    if st.1.len() > 0 {
        st.0.push(st.1)
    } else {
        st.0
    }
}

/// The reading of a die descriptor: the kind string (a face count in
/// decimal, or `F` for a fate die) and how many dice to roll.
#[verifier::ext_equal]
pub ghost struct DiceView {
    pub kind: Seq<char>,
    pub quantity: nat,
}

/// What an expression parses to. Two segments give quantity and kind
/// (a quantity that does not read as a `u32` falls back to 1); one
/// segment is a bare kind rolled once; any other segment count falls
/// back to one six-sided die. No expression is rejected.
pub open spec fn spec_parse(s: Seq<char>) -> DiceView {
    let segs = segments(s);
    if segs.len() == 2 {
        if parses_as_u32(segs[0]) {
            DiceView { kind: segs[1], quantity: parsed_u32(segs[0]) as nat }
        } else {
            DiceView { kind: segs[1], quantity: 1 }
        }
    } else if segs.len() == 1 {
        DiceView { kind: segs[0], quantity: 1 }
    } else {
        DiceView { kind: seq!['6'], quantity: 1 }
    }
}

/// What one die of kind `kind` may roll. A numeric kind whose face
/// count lies in [1, i32::MAX] rolls a value in [1, count]; a face
/// count of 0, or one beyond i32::MAX, rolls 0 (a degenerate die); the
/// fate kind `F` rolls a value in [-1, 1]; any other kind rolls 0.
pub open spec fn kind_result_ok(kind: Seq<char>, r: int) -> bool {
    if parses_as_u32(kind) {
        let size = parsed_u32(kind);
        if 1 <= size <= i32::MAX {
            1 <= r <= size
        } else {
            r == 0
        }
    } else if kind == seq!['F'] {
        -1 <= r <= 1
    } else {
        r == 0
    }
}

/// Whether `results` is a possible outcome of rolling the dice that
/// `d` describes: one result per die, each within the kind's range.
pub open spec fn roll_matches(d: DiceView, results: Seq<i32>) -> bool {
    &&& results.len() == d.quantity
    &&& forall|i: int|
        0 <= i < results.len() ==> #[trigger] kind_result_ok(d.kind, results[i] as int)
}

/// The sum of a sequence of results.
pub open spec fn sum_of(s: Seq<i32>) -> int
    decreases s.len(),
{
    if s.len() == 0 {
        0
    } else {
        sum_of(s.drop_last()) + s.last()
    }
}

/// The sum of every result across a group of rolls.
pub open spec fn group_sum(rolls: Seq<Seq<i32>>) -> int
    decreases rolls.len(),
{
    if rolls.len() == 0 {
        0
    } else {
        group_sum(rolls.drop_last()) + sum_of(rolls.last())
    }
}

/// Sums split over concatenation.
pub proof fn lemma_sum_of_append(a: Seq<i32>, b: Seq<i32>)
    ensures
        sum_of(a + b) == sum_of(a) + sum_of(b),
    decreases b.len(),
{
    if b.len() == 0 {
        assert(a + b =~= a);
    } else {
        assert((a + b).drop_last() =~= a + b.drop_last());
        assert((a + b).last() == b.last());
        lemma_sum_of_append(a, b.drop_last());
    }
}

/// The canonical decimal rendering of `n` is non-empty, consists of
/// digits, and reads back as `n`.
pub proof fn lemma_dec_digits(n: nat)
    ensures
        dec_digits(n).len() >= 1,
        forall|i: int| 0 <= i < dec_digits(n).len() ==> is_digit(#[trigger] dec_digits(n)[i]),
        digits_value(dec_digits(n)) == n,
    decreases n,
{
    if n < 10 {
        assert(dec_digits(n).drop_last() =~= Seq::<char>::empty());
        assert(digits_value(Seq::<char>::empty()) == 0);
        assert(dec_digits(n).last() == digit_char(n as int));
        assert(digits_value(dec_digits(n)) == digit_value(digit_char(n as int)));
    } else {
        lemma_dec_digits(n / 10);
        let s = dec_digits(n);
        let p = dec_digits(n / 10);
        assert(s == p.push(digit_char((n % 10) as int)));
        assert(s.drop_last() =~= p);
        assert(s.last() == digit_char((n % 10) as int));
        assert(digit_value(digit_char((n % 10) as int)) == n % 10);
        assert(digits_value(s) == (n / 10) * 10 + n % 10);
        assert(n == (n / 10) * 10 + n % 10) by {
            vstd::arithmetic::div_mod::lemma_fundamental_div_mod(n as int, 10);
        }
    }
}

/// The canonical decimal rendering of a `u32` reads as one.
pub proof fn lemma_dec_digits_parse(n: nat)
    requires
        n <= u32::MAX,
    ensures
        parses_as_u32(dec_digits(n)),
        parsed_u32(dec_digits(n)) == n,
{
    lemma_dec_digits(n);
    assert(is_digit(dec_digits(n)[0]));
    assert(dec_digits(n)[0] != '+');
    assert(unsigned_body(dec_digits(n)) == dec_digits(n));
}

/// A string without `d` splits into a single pending segment.
pub proof fn lemma_split_no_d(s: Seq<char>)
    requires
        forall|i: int| 0 <= i < s.len() ==> s[i] != 'd',
    ensures
        split_state(s).0 == Seq::<Seq<char>>::empty(),
        split_state(s).1 == s,
    decreases s.len(),
{
    if s.len() > 0 {
        lemma_split_no_d(s.drop_last());
        assert(split_state(s).1 =~= s);
    }
}

/// Characters other than `d` only grow the pending segment.
pub proof fn lemma_split_append_no_d(x: Seq<char>, y: Seq<char>)
    requires
        forall|i: int| 0 <= i < y.len() ==> y[i] != 'd',
    ensures
        split_state(x + y).0 == split_state(x).0,
        split_state(x + y).1 == split_state(x).1 + y,
    decreases y.len(),
{
    if y.len() == 0 {
        assert(x + y =~= x);
        assert(split_state(x).1 + y =~= split_state(x).1);
    } else {
        lemma_split_append_no_d(x, y.drop_last());
        assert((x + y).drop_last() =~= x + y.drop_last());
        assert((x + y).last() == y.last());
        assert((split_state(x).1 + y.drop_last()).push(y.last()) =~= split_state(x).1 + y);
    }
}

/// A non-empty string without `d` is its own single segment.
pub proof fn lemma_segments_one(s: Seq<char>)
    requires
        s.len() > 0,
        forall|i: int| 0 <= i < s.len() ==> s[i] != 'd',
    ensures
        segments(s) == seq![s],
{
    lemma_split_no_d(s);
    assert(segments(s) =~= seq![s]);
}

/// Two non-empty `d`-free strings joined by one `d` are exactly the
/// two segments of the result.
pub proof fn lemma_segments_two(a: Seq<char>, b: Seq<char>)
    requires
        a.len() > 0,
        b.len() > 0,
        forall|i: int| 0 <= i < a.len() ==> a[i] != 'd',
        forall|i: int| 0 <= i < b.len() ==> b[i] != 'd',
    ensures
        segments(a + seq!['d'] + b) == seq![a, b],
{
    let ad = a + seq!['d'];
    lemma_split_no_d(a);
    assert(ad.drop_last() =~= a);
    assert(ad.last() == 'd');
    assert(split_state(ad).0 =~= seq![a]);
    assert(split_state(ad).1 =~= Seq::<char>::empty());
    lemma_split_append_no_d(ad, b);
    assert(ad + b =~= a + seq!['d'] + b);
    assert(split_state(a + seq!['d'] + b).1 =~= b);
    assert(segments(a + seq!['d'] + b) =~= seq![a, b]);
}

/// The decimal forms of each result of one roll.
pub open spec fn roll_parts(results: Seq<i32>) -> Seq<Seq<char>> {
    results.map_values(|x: i32| int_string(x as int))
}

/// How one roll renders: the results' decimal forms joined by `, `.
pub open spec fn roll_string(results: Seq<i32>) -> Seq<char> {
    join(roll_parts(results), seq![',', ' '])
}

/// The renderings of each roll of a group.
pub open spec fn group_parts(rolls: Seq<Seq<i32>>) -> Seq<Seq<char>> {
    rolls.map_values(|r: Seq<i32>| roll_string(r))
}

/// How a group renders: each roll bracketed on a line of its own.
pub open spec fn group_string(rolls: Seq<Seq<i32>>) -> Seq<char> {
    seq!['['] + join(group_parts(rolls), seq![']', '\n', '[']) + seq![']']
}

/// Joining one more part appends a separator first, unless nothing
/// was joined yet.
pub proof fn lemma_join_push(parts: Seq<Seq<char>>, sep: Seq<char>, part: Seq<char>)
    ensures
        parts.len() == 0 ==> join(parts.push(part), sep) == part,
        parts.len() > 0 ==> join(parts.push(part), sep) == join(parts, sep) + sep + part,
    decreases parts.len(),
{
    let pp = parts.push(part);
    if parts.len() == 0 {
        assert(join(pp, sep) =~= part);
    } else if parts.len() == 1 {
        assert(pp.drop_first() =~= seq![part]);
        assert(join(pp, sep) == pp[0] + sep + join(pp.drop_first(), sep));
        assert(join(seq![part], sep) == part);
    } else {
        assert(pp.drop_first() =~= parts.drop_first().push(part));
        lemma_join_push(parts.drop_first(), sep, part);
        assert((parts[0] + sep + (join(parts.drop_first(), sep) + sep + part)) =~= ((parts[0]
            + sep + join(parts.drop_first(), sep)) + sep + part));
    }
}

/// A sequence of results bounded below by -1 sums to a value within
/// linear bounds of its length.
pub proof fn lemma_sum_of_bounds(s: Seq<i32>)
    requires
        forall|i: int| 0 <= i < s.len() ==> -1 <= #[trigger] s[i],
    ensures
        -(s.len() as int) <= sum_of(s) <= s.len() as int * (i32::MAX as int),
    decreases s.len(),
{
    if s.len() > 0 {
        assert(forall|i: int| 0 <= i < s.drop_last().len() ==> -1 <= #[trigger] s.drop_last()[i]);
        lemma_sum_of_bounds(s.drop_last());
    }
}

} // verus!
