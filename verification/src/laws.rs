//! The general properties of the notation, stated and proved once and
//! for all: what well-formed expressions parse to, what their rolls
//! may contain, and how a group's sum relates to its results.

use crate::notation::{
    dec_digits, group_string, group_sum, is_digit, kind_result_ok, lemma_dec_digits,
    lemma_dec_digits_parse, lemma_segments_one, lemma_segments_two, lemma_sum_of_append,
    parses_as_u32, roll_matches, segments, spec_parse, sum_of, DiceView,
};
use vstd::prelude::*;

verus! {

/// For any quantity `q` and any face count `n` in [1, i32::MAX], a
/// roll of the expression `{q}d{n}` holds exactly `q` results, each
/// in [1, n].
pub proof fn lemma_numeric_expression_rolls(q: u32, n: u32, results: Seq<i32>)
    requires
        1 <= n <= i32::MAX,
        roll_matches(
            spec_parse(dec_digits(q as nat) + seq!['d'] + dec_digits(n as nat)),
            results,
        ),
    ensures
        results.len() == q,
        forall|i: int| 0 <= i < results.len() ==> 1 <= #[trigger] results[i] <= n,
{
    let qs = dec_digits(q as nat);
    let ns = dec_digits(n as nat);
    lemma_dec_digits_parse(q as nat);
    lemma_dec_digits_parse(n as nat);
    lemma_dec_digits(q as nat);
    lemma_dec_digits(n as nat);
    assert forall|i: int| 0 <= i < qs.len() implies qs[i] != 'd' by {
        assert(is_digit(qs[i]));
    }
    assert forall|i: int| 0 <= i < ns.len() implies ns[i] != 'd' by {
        assert(is_digit(ns[i]));
    }
    lemma_segments_two(qs, ns);
    let d = spec_parse(qs + seq!['d'] + ns);
    assert(d.quantity == q && d.kind == ns);
    assert forall|i: int| 0 <= i < results.len() implies 1 <= #[trigger] results[i] <= n by {
        assert(kind_result_ok(ns, results[i] as int));
    }
}

/// For any quantity `q`, a roll of the fate expression `{q}dF` holds
/// exactly `q` results, each one of -1, 0 or 1.
pub proof fn lemma_fate_expression_rolls(q: u32, results: Seq<i32>)
    requires
        roll_matches(spec_parse(dec_digits(q as nat) + seq!['d', 'F']), results),
    ensures
        results.len() == q,
        forall|i: int| 0 <= i < results.len() ==> -1 <= #[trigger] results[i] <= 1,
{
    let qs = dec_digits(q as nat);
    let fs = seq!['F'];
    lemma_dec_digits_parse(q as nat);
    lemma_dec_digits(q as nat);
    assert forall|i: int| 0 <= i < qs.len() implies qs[i] != 'd' by {
        assert(is_digit(qs[i]));
    }
    assert(fs[0] != 'd');
    lemma_segments_two(qs, fs);
    assert(qs + seq!['d', 'F'] =~= qs + seq!['d'] + fs);
    let d = spec_parse(qs + seq!['d'] + fs);
    assert(!parses_as_u32(fs)) by {
        assert(!is_digit(fs[0]));
    }
    assert(d.quantity == q && d.kind == fs);
    assert forall|i: int| 0 <= i < results.len() implies -1 <= #[trigger] results[i] <= 1 by {
        assert(kind_result_ok(fs, results[i] as int));
    }
}

/// A bare kind expression, one with no `d` anywhere, describes a
/// single die of that kind: quantity 1, the whole string as the kind.
pub proof fn lemma_bare_kind(s: Seq<char>)
    requires
        s.len() > 0,
        forall|i: int| 0 <= i < s.len() ==> s[i] != 'd',
    ensures
        spec_parse(s) == (DiceView { kind: s, quantity: 1 }),
{
    lemma_segments_one(s);
    assert(spec_parse(s) =~= (DiceView { kind: s, quantity: 1 }));
}

/// A malformed expression, one whose segment count is neither 1 nor
/// 2, is not rejected: it falls back to a single six-sided die.
pub proof fn lemma_fallback_default(s: Seq<char>)
    requires
        segments(s).len() == 0 || segments(s).len() >= 3,
    ensures
        spec_parse(s) == (DiceView { kind: seq!['6'], quantity: 1 }),
{
    assert(spec_parse(s) =~= (DiceView { kind: seq!['6'], quantity: 1 }));
}

/// A group's sum is the arithmetic sum of every individual result
/// across all its rolls, in any grouping: summing each roll and adding
/// the roll sums equals summing the flattened results.
pub proof fn lemma_group_sum_flat(rolls: Seq<Seq<i32>>)
    ensures
        group_sum(rolls) == sum_of(rolls.flatten()),
    decreases rolls.len(),
{
    rolls.lemma_flatten_and_flatten_alt_are_equivalent();
    if rolls.len() == 0 {
        assert(sum_of(rolls.flatten_alt()) == 0);
    } else {
        lemma_group_sum_flat(rolls.drop_last());
        rolls.drop_last().lemma_flatten_and_flatten_alt_are_equivalent();
        lemma_sum_of_append(rolls.drop_last().flatten_alt(), rolls.last());
    }
}

/// An empty group sums to 0 and renders as `[]`.
pub proof fn lemma_empty_group()
    ensures
        group_sum(Seq::<Seq<i32>>::empty()) == 0,
        group_string(Seq::<Seq<i32>>::empty()) == seq!['[', ']'],
{
    assert(group_string(Seq::<Seq<i32>>::empty()) =~= seq!['[', ']']);
}

} // verus!
