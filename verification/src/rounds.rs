//! The rounds of generation written out.

use vstd::prelude::*;
use crate::array::{shows, Array};
use crate::error::ModelError;
use crate::generation::{
    last_scores_of, outcome_of, run_goes, Action, Event, GenerationView, Phase,
};
use crate::model::{forward_of, forward_sure, model_after, ModelView};
use crate::shape::{addressable, in_bounds};
use crate::view::{ArrayView, ElementKind, Scalar};

verus! {

/// The scores that a token is chosen by are those at the last position of each sequence, one
/// sequence after the other, in single precision. There are some wherever there is a position.
pub proof fn law_last_scores_written_out(y: ArrayView)
    ensures
        last_scores_of(y) is Some <==> y.rank() == 3 && y.shape[1] > 0 && addressable(
            seq![y.shape[0], 1usize, y.shape[2]],
        ),
        last_scores_of(y) matches Some(z) ==> {
            let (n, last) = (y.shape[2] as int, y.shape[1] - 1);
            &&& z.shape == seq![(y.shape[0] * y.shape[2]) as usize]
            &&& z.kind == ElementKind::F32
            &&& z.cpu == y.cpu
            &&& forall|i: int|
                0 <= i < z.shape[0] ==> #[trigger] z.at(Seq::empty().push(i)) == if y.kind
                    == ElementKind::F32 {
                    y.at(seq![i / n, last, i % n])
                } else {
                    Scalar::Cast(ElementKind::F32, Box::new(y.at(seq![i / n, last, i % n])))
                }
        },
{
    if last_scores_of(y) is Some {
        let z = last_scores_of(y)->Some_0;
        let (n, last) = (y.shape[2] as int, y.shape[1] - 1);
        assert forall|i: int| 0 <= i < z.shape[0] implies #[trigger] z.at(Seq::empty().push(i))
            == if y.kind == ElementKind::F32 {
            y.at(seq![i / n, last, i % n])
        } else {
            Scalar::Cast(ElementKind::F32, Box::new(y.at(seq![i / n, last, i % n])))
        } by {
            let j = Seq::empty().push(i);
            assert(in_bounds(z.shape, j)) by {
                assert forall|d: int| 0 <= d < 1 implies 0 <= #[trigger] j[d] < z.shape[d] by {}
            }
        }
    }
}

/// The outcome of a run is a single row of the tokens that were chosen, in their order. Without
/// a token there is none.
pub proof fn law_outcome_written_out(tokens: Seq<usize>, cpu: bool)
    ensures
        outcome_of(tokens, cpu) is None <==> tokens.len() == 0,
        outcome_of(tokens, cpu) matches Some(y) ==> {
            &&& y.shape == seq![1usize, tokens.len() as usize]
            &&& y.kind == ElementKind::I64
            &&& y.cpu == cpu
            &&& tokens.len() <= usize::MAX ==> forall|i: int|
                0 <= i < tokens.len() ==> #[trigger] y.at(Seq::empty().push(0int).push(i))
                    == Scalar::Index(tokens[i] as i64 as int)
        },
{
    if outcome_of(tokens, cpu) is Some {
        let y = outcome_of(tokens, cpu)->Some_0;
        assert(y.shape =~= seq![1usize, tokens.len() as usize]);
        if tokens.len() <= usize::MAX {
            assert forall|i: int| 0 <= i < tokens.len() implies #[trigger] y.at(
                Seq::empty().push(0int).push(i),
            ) == Scalar::Index(tokens[i] as i64 as int) by {
                let j = Seq::empty().push(0int).push(i);
                assert(in_bounds(y.shape, j)) by {
                    assert forall|d: int| 0 <= d < 2 implies 0 <= #[trigger] j[d] < y.shape[d] by {
                        if d == 0 {
                        } else {
                        }
                    }
                }
                assert(j.remove(0) =~= seq![i]);
                assert(in_bounds(seq![tokens.len() as usize], seq![i])) by {
                    let k = seq![i];
                    assert forall|d: int| 0 <= d < 1 implies 0 <= #[trigger] k[d] < seq![
                        tokens.len() as usize,
                    ][d] by {}
                }
            }
        }
    }
}

/// A run, written out. A round takes one of the rounds that are left, scores the tokens that may
/// follow the sequences as they stand, and asks for one by these scores; the tokens, the sequences
/// and the table stay as they are. A round that fails ends the run, and so does the end of the
/// rounds, with the tokens as the outcome.
pub proof fn law_round_written_out(
    m0: ModelView,
    cached_packed: bool,
    g0: GenerationView,
    event: Event,
    m1: ModelView,
    g1: GenerationView,
    action: Action,
)
    requires
        run_goes(m0, cached_packed, g0, event, m1, g1, action),
        (g0.phase == Phase::Starting && event == Event::Begin) || (g0.phase == Phase::Judging
            && event == Event::Judged(false)),
    ensures
        g1.tokens == g0.tokens,
        g1.input_ids == g0.input_ids,
        g1.pos == g0.pos,
        !(action is Judge),
        g0.left == 0 ==> {
            &&& m1 == m0
            &&& g1.left == 0
            &&& g1.phase == Phase::Ended
            &&& action matches Action::Done(r)
            &&& match r {
                Ok(x) => outcome_of(g0.tokens, g0.input_ids.cpu) == Some(x@),
                Err(e) => e is Tensor && (g0.tokens.len() == 0 || !g0.input_ids.cpu),
            }
        },
        g0.left > 0 ==> g1.left == g0.left - 1,
        g0.left > 0 && action is Done ==> g1.phase == Phase::Ended && action->Done_0 is Err,
        g0.left > 0 && action is Done ==> {
            ||| forward_of(m0, g0.input_ids, g0.pos) is None
            ||| !forward_sure(m0, g0.input_ids, g0.pos, cached_packed)
            ||| {
                let y = forward_of(m0, g0.input_ids, g0.pos)->Some_0;
                !(y.rank() == 3 && y.shape[1] > 0 && addressable(
                    seq![y.shape[0], 1usize, y.shape[2]],
                ))
            }
        },
        action matches Action::Sample(bits) ==> {
            &&& g0.left > 0
            &&& g1.phase == Phase::Sampling
            &&& m1 == model_after(m0, g0.input_ids, g0.pos)
            &&& forward_of(m0, g0.input_ids, g0.pos) matches Some(y)
            &&& last_scores_of(y) matches Some(z)
            &&& shows(z, bits@)
            &&& exists|x: Array| #[trigger] x.bits() == bits@ && x@ == z
        },
{
    law_outcome_written_out(g0.tokens, g0.input_ids.cpu);
}

/// The choice of a token, written out. Without a token nothing changes, and whether to stop is
/// asked after the last token, or zero where there is none. A token is added to the tokens, and
/// ends the run, since the sequences have two axes and it has one.
pub proof fn law_token_written_out(
    m0: ModelView,
    cached_packed: bool,
    g0: GenerationView,
    token: Option<usize>,
    m1: ModelView,
    g1: GenerationView,
    action: Action,
)
    requires
        run_goes(m0, cached_packed, g0, Event::Sampled(token), m1, g1, action),
        g0.phase == Phase::Sampling,
    ensures
        m1 == m0,
        g1.pos == g0.pos,
        g1.left == g0.left,
        g1.input_ids == g0.input_ids,
        token is None ==> {
            &&& g1.tokens == g0.tokens
            &&& g1.phase == Phase::Judging
            &&& action == Action::Judge(
                if g0.tokens.len() == 0 {
                    0
                } else {
                    g0.tokens[g0.tokens.len() - 1]
                },
            )
        },
        token matches Some(t) ==> {
            &&& g1.tokens == g0.tokens.push(t)
            &&& g1.phase == Phase::Ended
            &&& action matches Action::Done(r) && r matches Err(e) && e is Tensor
        },
{
}

/// The end of a run, written out. Where a run is stopped, the tokens are the outcome and nothing
/// else changes. An answer to what was not asked ends the run.
pub proof fn law_end_written_out(
    m0: ModelView,
    cached_packed: bool,
    g0: GenerationView,
    event: Event,
    m1: ModelView,
    g1: GenerationView,
    action: Action,
)
    requires
        run_goes(m0, cached_packed, g0, event, m1, g1, action),
        !(g0.phase == Phase::Starting && event == Event::Begin),
        !(g0.phase == Phase::Judging && event == Event::Judged(false)),
        !(g0.phase == Phase::Sampling && event is Sampled),
    ensures
        m1 == m0,
        g1 == (GenerationView { phase: Phase::Ended, ..g0 }),
        action matches Action::Done(r) && if g0.phase == Phase::Judging && event is Judged {
            match r {
                Ok(x) => outcome_of(g0.tokens, g0.input_ids.cpu) == Some(x@),
                Err(e) => e is Tensor && (g0.tokens.len() == 0 || !g0.input_ids.cpu),
            }
        } else {
            r == Err::<Array, _>(ModelError::Protocol)
        },
{
    law_outcome_written_out(g0.tokens, g0.input_ids.cpu);
}

} // verus!
