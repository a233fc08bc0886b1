//! The dice themselves: a parsed die descriptor, the roll of one
//! expression, and a group of rolls with its rendering and sum.

use crate::notation::{
    group_parts, group_string, group_sum, join, kind_result_ok, lemma_join_push,
    lemma_sum_of_bounds, roll_matches, roll_parts, roll_string, spec_parse, sum_of, DiceView,
};
use crate::rng::rand_in_range;
use crate::text::{i32_to_string, parse_u32, split_on_d};
use vstd::prelude::*;

verus! {

/// A die descriptor: how many dice of which kind. The kind is the
/// decimal face count, or `F` for a fate die; any other string names
/// a die that always rolls 0.
pub struct Dice {
    pub kind: String,
    pub quantity: u32,
}

impl View for Dice {
    type V = DiceView;

    open spec fn view(&self) -> DiceView {
        DiceView { kind: self.kind@, quantity: self.quantity as nat }
    }
}

/// The results of rolling one expression, in generation order.
pub struct Roll {
    results: Vec<i32>,
}

impl View for Roll {
    type V = Seq<i32>;

    closed spec fn view(&self) -> Seq<i32> {
        self.results@
    }
}

impl Roll {
    /// Every roll this library produces keeps each result within
    /// [-1, i32::MAX] and holds at most u32::MAX results, so sums
    /// stay representable.
    #[verifier::type_invariant]
    spec fn wf(self) -> bool {
        &&& self.results@.len() <= u32::MAX
        &&& forall|i: int| 0 <= i < self.results@.len() ==> -1 <= #[trigger] self.results@[i]
    }

    /// The individual results, first rolled first.
    pub fn results(&self) -> (r: &Vec<i32>)
        ensures
            r@ == self@,
    {
        &self.results
    }

    /// The sum of this roll's results; an empty roll sums to 0.
    pub fn sum(&self) -> (s: i64)
        ensures
            s as int == sum_of(self@),
    {
        proof {
            use_type_invariant(&*self);
        }
        let mut s: i64 = 0;
        let mut i: usize = 0;
        while i < self.results.len()
            invariant
                self.wf(),
                i <= self.results@.len(),
                s as int == sum_of(self.results@.take(i as int)),
                -(i as int) <= s as int <= i as int * (i32::MAX as int),
            decreases self.results@.len() - i,
        {
            proof {
                assert(self.results@.take(i as int + 1).drop_last() =~= self.results@.take(
                    i as int,
                ));
            }
            s = s + self.results[i] as i64;
            i = i + 1;
        }
        proof {
            assert(self.results@.take(self.results@.len() as int) =~= self.results@);
        }
        s
    }

    /// Renders the results joined by `, `; an empty roll renders as
    /// the empty string.
    pub fn to_string(&self) -> (out: String)
        ensures
            out@ == roll_string(self@),
    {
        proof {
            use_type_invariant(&*self);
        }
        let ghost parts = roll_parts(self.results@);
        let mut out = String::new();
        let mut i: usize = 0;
        while i < self.results.len()
            invariant
                self.wf(),
                i <= self.results@.len(),
                parts == roll_parts(self.results@),
                out@ == join(parts.take(i as int), seq![',', ' ']),
            decreases self.results@.len() - i,
        {
            if i > 0 {
                proof {
                    reveal_strlit(", ");
                    assert(", "@ =~= seq![',', ' ']);
                }
                out.append(", ");
            }
            let piece = i32_to_string(self.results[i]);
            out.append(piece.as_str());
            proof {
                lemma_join_push(parts.take(i as int), seq![',', ' '], parts[i as int]);
                assert(parts.take(i as int).push(parts[i as int]) =~= parts.take(i as int + 1));
            }
            i = i + 1;
        }
        proof {
            assert(parts.take(self.results@.len() as int) =~= parts);
        }
        out
    }
}

/// The rolls of a list of expressions, in input order.
pub struct RollGroup {
    rolls: Vec<Roll>,
}

impl View for RollGroup {
    type V = Seq<Seq<i32>>;

    closed spec fn view(&self) -> Seq<Seq<i32>> {
        self.rolls@.map_values(|r: Roll| r@)
    }
}

impl RollGroup {
    /// The rolls, one per input expression.
    pub fn rolls(&self) -> (r: &Vec<Roll>)
        ensures
            r@.len() == self@.len(),
            forall|i: int| 0 <= i < r@.len() ==> #[trigger] r@[i]@ == self@[i],
    {
        &self.rolls
    }

    /// The sum of every result across all rolls; an empty group sums
    /// to 0.
    pub fn sum(&self) -> (s: i128)
        ensures
            s as int == group_sum(self@),
    {
        let mut s: i128 = 0;
        let mut i: usize = 0;
        while i < self.rolls.len()
            invariant
                i <= self.rolls@.len(),
                self@.len() == self.rolls@.len(),
                s as int == group_sum(self@.take(i as int)),
                -(i as int) * (u32::MAX as int) <= s as int <= i as int * ((u32::MAX as int) * (
                i32::MAX as int)),
            decreases self.rolls@.len() - i,
        {
            let r = &self.rolls[i];
            proof {
                use_type_invariant(&*r);
                lemma_sum_of_bounds(r@);
                assert(self@[i as int] == r@);
                assert(self@.take(i as int + 1).drop_last() =~= self@.take(i as int));
            }
            let rs = r.sum();
            s = s + rs as i128;
            i = i + 1;
        }
        proof {
            assert(self@.take(self@.len() as int) =~= self@);
        }
        s
    }

    /// Renders the group: each roll's rendering bracketed, one roll
    /// per line. An empty group renders as `[]`.
    pub fn to_string(&self) -> (out: String)
        ensures
            out@ == group_string(self@),
    {
        let ghost parts = group_parts(self@);
        let ghost sep = seq![']', '\n', '['];
        let mut out = String::from_str("[");
        proof {
            reveal_strlit("[");
            assert(out@ =~= seq!['[']);
        }
        let mut i: usize = 0;
        while i < self.rolls.len()
            invariant
                i <= self.rolls@.len(),
                self@.len() == self.rolls@.len(),
                parts == group_parts(self@),
                sep == seq![']', '\n', '['],
                out@ == seq!['['] + join(parts.take(i as int), sep),
            decreases self.rolls@.len() - i,
        {
            if i > 0 {
                proof {
                    reveal_strlit("]\n[");
                    assert("]\n["@ =~= sep);
                }
                out.append("]\n[");
            }
            let r = &self.rolls[i];
            proof {
                assert(self@[i as int] == r@);
            }
            let piece = r.to_string();
            out.append(piece.as_str());
            proof {
                lemma_join_push(parts.take(i as int), sep, parts[i as int]);
                assert(parts.take(i as int).push(parts[i as int]) =~= parts.take(i as int + 1));
                assert((seq!['['] + join(parts.take(i as int), sep)) + sep + parts[i as int]
                    =~= seq!['['] + (join(parts.take(i as int), sep) + sep + parts[i as int]));
                assert((seq!['['] + join(parts.take(i as int), sep)) + parts[i as int] =~= seq![
                    '[',
                ] + (join(parts.take(i as int), sep) + parts[i as int]));
            }
            i = i + 1;
        }
        proof {
            assert(parts.take(self@.len() as int) =~= parts);
            reveal_strlit("]");
            assert("]"@ =~= seq![']']);
        }
        out.append("]");
        out
    }
}

/// Rolls one die of the given kind: a value in [1, count] for a face
/// count in [1, i32::MAX], a value in [-1, 1] for the fate kind `F`,
/// and 0 for every other kind, degenerate face counts included.
pub fn roll_kind(kind: &String) -> (r: i32)
    ensures
        kind_result_ok(kind@, r as int),
{
    match parse_u32(kind.as_str()) {
        Some(size) => {
            if 1 <= size && size <= i32::MAX as u32 {
                rand_in_range(1, size as i32)
            } else {
                0
            }
        },
        None => {
            let k = kind.as_str();
            if k.unicode_len() == 1 && k.get_char(0) == 'F' {
                proof {
                    assert(kind@ =~= seq!['F']);
                }
                rand_in_range(-1, 1)
            } else {
                proof {
                    if kind@ == seq!['F'] {
                        assert(kind@.len() == 1 && kind@[0] == 'F');
                    }
                }
                0
            }
        },
    }
}

impl Dice {
    /// Rolls the described dice: one result per die, in order, each
    /// within the kind's range.
    pub fn roll(&self) -> (r: Roll)
        ensures
            roll_matches(self@, r@),
    {
        let mut results: Vec<i32> = Vec::new();
        let mut i: u32 = 0;
        while i < self.quantity
            invariant
                i <= self.quantity,
                results@.len() == i as int,
                forall|k: int|
                    0 <= k < results@.len() ==> #[trigger] kind_result_ok(
                        self.kind@,
                        results@[k] as int,
                    ),
            decreases self.quantity - i,
        {
            let x = roll_kind(&self.kind);
            results.push(x);
            i = i + 1;
        }
        proof {
            assert forall|k: int| 0 <= k < results@.len() implies -1 <= #[trigger] results@[k] by {
                assert(kind_result_ok(self.kind@, results@[k] as int));
            }
        }
        Roll { results }
    }
}

/// Parses one expression into a die descriptor. Two segments give
/// quantity and kind, one segment is a bare kind rolled once, and any
/// other segment count falls back to one six-sided die: no expression
/// is rejected.
pub fn parse(expression: &str) -> (d: Dice)
    ensures
        d@ == spec_parse(expression@),
{
    let segs = split_on_d(expression);
    if segs.len() == 2 {
        let kind = segs[1].clone();
        let quantity: u32 = match parse_u32(segs[0].as_str()) {
            Some(q) => q,
            None => 1,
        };
        let d = Dice { kind, quantity };
        proof {
            assert(segs.deep_view()[0] == segs@[0]@);
            assert(segs.deep_view()[1] == segs@[1]@);
            assert(d@ =~= spec_parse(expression@));
        }
        d
    } else if segs.len() == 1 {
        let d = Dice { kind: segs[0].clone(), quantity: 1 };
        proof {
            assert(segs.deep_view()[0] == segs@[0]@);
            assert(d@ =~= spec_parse(expression@));
        }
        d
    } else {
        let d = Dice { kind: String::from_str("6"), quantity: 1 };
        proof {
            reveal_strlit("6");
            assert(d@.kind =~= seq!['6']);
            assert(d@ =~= spec_parse(expression@));
        }
        d
    }
}

/// Parses `expression` and rolls what it describes.
pub fn roll(expression: &String) -> (r: Roll)
    ensures
        roll_matches(spec_parse(expression@), r@),
{
    let d = parse(expression.as_str());
    d.roll()
}

/// Rolls every expression, collecting the rolls in input order.
pub fn roll_expressions(expressions: Vec<String>) -> (g: RollGroup)
    ensures
        g@.len() == expressions@.len(),
        forall|i: int|
            0 <= i < expressions@.len() ==> roll_matches(
                spec_parse(expressions@[i]@),
                #[trigger] g@[i],
            ),
{
    let mut rolls: Vec<Roll> = Vec::new();
    let mut i: usize = 0;
    while i < expressions.len()
        invariant
            i <= expressions@.len(),
            rolls@.len() == i as int,
            forall|k: int|
                0 <= k < i as int ==> roll_matches(
                    spec_parse(expressions@[k]@),
                    #[trigger] rolls@[k]@,
                ),
        decreases expressions@.len() - i,
    {
        let r = roll(&expressions[i]);
        rolls.push(r);
        i = i + 1;
    }
    let g = RollGroup { rolls };
    proof {
        assert(forall|k: int| 0 <= k < g@.len() ==> #[trigger] g@[k] == rolls@[k]@);
    }
    g
}

} // verus!
