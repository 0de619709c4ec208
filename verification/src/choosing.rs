//! What a choice of a token comes to: the order of numbers, the candidates, what is cut off, and
//! that what is drawn belongs to the token that is chosen.

use vstd::prelude::*;
use vstd::arithmetic::power2::{lemma_pow2_pos, lemma_pow2_unfold, pow2};
use crate::error::ModelError;
use crate::ranking::{
    exceeds, is_number, law_leading_exists, leads, magnitude_of, not_positive, place_of,
};
use crate::sampling::{
    candidates_of, chosen, first_of, kept_of, law_kept_within_limit, leading_of, next_of,
    ProcessorView, ReplyView, SamplingView, StageView, WorkView,
};

verus! {

/// Whether the bits `x` belong to no number: all bits of the exponent are set, and one of the
/// fraction is.
pub open spec fn is_nan(x: u32) -> bool {
    (x as int / 0x80_0000) % 0x100 == 0xff && x as int % 0x80_0000 != 0
}

/// The size of the number with the bits `x`, as a multiple of the smallest positive number:
/// the fraction, with a leading one unless the exponent is zero, times a power of two.
pub open spec fn size_of_number(x: u32) -> int {
    let exponent = (x as int / 0x80_0000) % 0x100;
    let fraction = x as int % 0x80_0000;
    if exponent == 0 {
        fraction
    } else {
        (0x80_0000 + fraction) * pow2((exponent - 1) as nat)
    }
}

/// The number with the bits `x`, as a multiple of the smallest positive number. (Infinity comes
/// out greater than every finite number.)
pub open spec fn number_of(x: u32) -> int {
    if x >= 0x8000_0000 {
        -size_of_number(x)
    } else {
        size_of_number(x)
    }
}

/// The number with the bits `x`, from its sign, its exponent and its fraction.
pub proof fn law_numbers_written_out(x: u32)
    ensures
        ({
            let (rest, exponent, fraction) = (
                x as int % 0x8000_0000,
                (x as int % 0x8000_0000) / 0x80_0000,
                x as int % 0x80_0000,
            );
            let size = if exponent == 0 {
                fraction
            } else {
                (0x80_0000 + fraction) * pow2((exponent - 1) as nat)
            };
            &&& rest == exponent * 0x80_0000 + fraction
            &&& is_nan(x) <==> rest > 0x7f80_0000
            &&& number_of(x) == if x < 0x8000_0000 {
                size
            } else {
                -size
            }
        }),
{
    let rest = x as int % 0x8000_0000;
    assert(rest / 0x80_0000 == (x as int / 0x80_0000) % 0x100);
    assert(rest % 0x80_0000 == x as int % 0x80_0000);
}

/// The size that belongs to a magnitude.
spec fn size_at(m: int) -> int {
    if m / 0x80_0000 == 0 {
        m % 0x80_0000
    } else {
        (0x80_0000 + m % 0x80_0000) * pow2((m / 0x80_0000 - 1) as nat)
    }
}

/// A greater magnitude has a greater size.
proof fn lemma_size_grows(m: int, n: int)
    requires
        0 <= m < n,
    ensures
        size_at(m) < size_at(n),
    decreases n - m,
{
    if n - m > 1 {
        lemma_size_grows(m, n - 1);
    }
    let k = n - 1;
    let (e, f) = (k / 0x80_0000, k % 0x80_0000);
    if f + 1 < 0x80_0000 {
        assert(n / 0x80_0000 == e && n % 0x80_0000 == f + 1);
        if e > 0 {
            let p = pow2((e - 1) as nat) as int;
            lemma_pow2_pos((e - 1) as nat);
            assert((0x80_0000 + f) * p < (0x80_0000 + (f + 1)) * p) by (nonlinear_arith)
                requires
                    p > 0,
            ;
        }
    } else {
        assert(n / 0x80_0000 == e + 1 && n % 0x80_0000 == 0);
        if e > 0 {
            let p = pow2((e - 1) as nat) as int;
            lemma_pow2_pos((e - 1) as nat);
            lemma_pow2_unfold(e as nat);
            assert((0x80_0000 + f) * p < 0x80_0000 * (2 * p)) by (nonlinear_arith)
                requires
                    p > 0,
                    f < 0x80_0000,
            ;
        } else {
            vstd::arithmetic::power2::lemma2_to64();
        }
    }
}

/// The number with the bits `x` comes from its magnitude.
proof fn lemma_number_at(x: u32)
    ensures
        number_of(x) == if x >= 0x8000_0000 {
            -size_at(magnitude_of(x))
        } else {
            size_at(magnitude_of(x))
        },
        size_at(magnitude_of(x)) >= 0,
        is_number(x) == !is_nan(x),
{
    let m = magnitude_of(x);
    assert(0 <= m < 0x8000_0000);
    assert(m / 0x80_0000 == (x as int / 0x80_0000) % 0x100);
    assert(m % 0x80_0000 == x as int % 0x80_0000);
    if m > 0 {
        lemma_size_grows(0, m);
    }
}

/// Numbers are ordered by what their bits stand for.
proof fn lemma_places(x: u32, y: u32)
    ensures
        place_of(x) > place_of(y) <==> number_of(x) > number_of(y),
        place_of(x) == place_of(y) <==> number_of(x) == number_of(y),
{
    lemma_number_at(x);
    lemma_number_at(y);
    let (m, n) = (magnitude_of(x), magnitude_of(y));
    if m > 0 {
        lemma_size_grows(0, m);
    }
    if n > 0 {
        lemma_size_grows(0, n);
    }
    if m < n {
        lemma_size_grows(m, n);
    } else if n < m {
        lemma_size_grows(n, m);
    }
}

/// One number exceeds another where it is greater; what is no number exceeds nothing and is
/// exceeded by nothing. A number is not positive where it is at most zero.
pub proof fn law_numbers_ordered(x: u32, y: u32)
    ensures
        exceeds(x, y) <==> !is_nan(x) && !is_nan(y) && number_of(x) > number_of(y),
        not_positive(x) <==> !is_nan(x) && number_of(x) <= 0,
        place_of(x) > place_of(y) <==> number_of(x) > number_of(y),
        place_of(x) == place_of(y) <==> number_of(x) == number_of(y),
{
    lemma_number_at(x);
    lemma_number_at(y);
    lemma_places(x, y);
    lemma_number_at(0);
    lemma_places(x, 0);
}

/// Leading positions stand in the order of their numbers, equal ones in the order of their
/// positions, each once, and no position that is left out has a greater number.
pub proof fn law_leading_in_order(scores: Seq<u32>, order: Seq<usize>)
    requires
        leads(scores, order),
    ensures
        forall|p: int| 0 <= p < order.len() ==> (#[trigger] order[p] as int) < scores.len(),
        forall|p: int, q: int|
            0 <= p < q < order.len() ==> {
                let (i, j) = (#[trigger] order[p] as int, #[trigger] order[q] as int);
                &&& number_of(scores[i]) >= number_of(scores[j])
                &&& number_of(scores[i]) == number_of(scores[j]) ==> i < j
            },
        forall|p: int, j: usize|
            0 <= p < order.len() && (j as int) < scores.len() && !#[trigger] order.contains(j) ==> {
                let i = #[trigger] order[p] as int;
                &&& number_of(scores[i]) >= number_of(scores[j as int])
                &&& number_of(scores[i]) == number_of(scores[j as int]) ==> i < j
            },
{
    assert forall|p: int, q: int| 0 <= p < q < order.len() implies {
        let (i, j) = (#[trigger] order[p] as int, #[trigger] order[q] as int);
        &&& number_of(scores[i]) >= number_of(scores[j])
        &&& number_of(scores[i]) == number_of(scores[j]) ==> i < j
    } by {
        lemma_places(scores[order[p] as int], scores[order[q] as int]);
    }
    assert forall|p: int, j: usize|
        0 <= p < order.len() && (j as int) < scores.len() && !#[trigger] order.contains(j) implies {
        let i = #[trigger] order[p] as int;
        &&& number_of(scores[i]) >= number_of(scores[j as int])
        &&& number_of(scores[i]) == number_of(scores[j as int]) ==> i < j
    } by {
        lemma_places(scores[order[p] as int], scores[j as int]);
    }
}

/// The candidates are tokens, each once. Where neither their number nor their weight is limited
/// they are all tokens as they stand; otherwise as many as the limit allows, those with the
/// greatest numbers, the greatest first, and equal ones as they stand.
pub proof fn law_candidates_in_order(scores: Seq<u32>, top_k: Option<usize>, top_p: Option<u32>)
    requires
        scores.len() <= usize::MAX,
    ensures
        ({
            let c = candidates_of(scores, top_k, top_p);
            &&& top_k is None ==> c.len() == scores.len()
            &&& top_k matches Some(k) ==> c.len() == if k <= scores.len() {
                k as int
            } else {
                scores.len() as int
            }
            &&& forall|p: int| 0 <= p < c.len() ==> (#[trigger] c[p] as int) < scores.len()
            &&& forall|p: int, q: int|
                0 <= p < q < c.len() ==> #[trigger] c[p] != #[trigger] c[q]
            &&& top_k is None && top_p is None ==> forall|p: int|
                0 <= p < c.len() ==> #[trigger] c[p] == p
            &&& top_k is Some || top_p is Some ==> forall|p: int, q: int|
                0 <= p < q < c.len() ==> {
                    let (i, j) = (#[trigger] c[p] as int, #[trigger] c[q] as int);
                    &&& number_of(scores[i]) >= number_of(scores[j])
                    &&& number_of(scores[i]) == number_of(scores[j]) ==> i < j
                }
            &&& forall|p: int, j: usize|
                0 <= p < c.len() && (j as int) < scores.len() && !#[trigger] c.contains(j) ==> {
                    let i = #[trigger] c[p] as int;
                    &&& number_of(scores[i]) >= number_of(scores[j as int])
                    &&& number_of(scores[i]) == number_of(scores[j as int]) ==> i < j
                }
        }),
{
    let c = candidates_of(scores, top_k, top_p);
    if top_k is None && top_p is None {
        assert forall|j: usize| (j as int) < scores.len() implies #[trigger] c.contains(j) by {
            assert(c[j as int] == j);
        }
    } else {
        let n: nat = match top_k {
            Some(k) => if k <= scores.len() {
                k as nat
            } else {
                scores.len()
            },
            None => scores.len(),
        };
        law_leading_exists(scores, n);
        assert(c == leading_of(scores, n));
        law_leading_in_order(scores, c);
    }
}

/// A choice begins with the division of all scores where there is a temperature. Otherwise the
/// candidates among the tokens and the score of each of them are taken, and the weights of these
/// are asked for: as running sums where the weight is limited, and added up where it is not.
pub proof fn law_choice_begins(p: ProcessorView, logits: Seq<u32>)
    requires
        logits.len() <= usize::MAX,
    ensures
        ({
            let (stage, work) = first_of(p, logits);
            let indices = candidates_of(logits, p.top_k, p.top_p);
            match p.temperature {
                Some(by) => {
                    &&& stage == (StageView::Scaling { count: logits.len() })
                    &&& work == (WorkView::Divide { logits, by })
                },
                None => exists|own: Seq<u32>|
                    {
                        &&& #[trigger] own.len() == indices.len()
                        &&& forall|q: int|
                            0 <= q < indices.len() ==> (#[trigger] indices[q] as int)
                                < logits.len() && own[q] == logits[indices[q] as int]
                        &&& p.top_p is Some ==> stage == (StageView::Cutting {
                            indices,
                            logits: own,
                        }) && work == (WorkView::RunningSums { logits: own })
                        &&& p.top_p is None ==> stage == (StageView::Weighing {
                            indices,
                            logits: own,
                        }) && work == (WorkView::Sum { logits: own })
                    },
            }
        }),
{
    let indices = candidates_of(logits, p.top_k, p.top_p);
    law_candidates_in_order(logits, p.top_k, p.top_p);
    if p.temperature is None {
        let taken = chosen(logits, indices);
        assert(taken.len() == indices.len());
    }
}

/// Scores that come back divided, one for each token, take the place of the scores that the
/// choice began with.
pub proof fn law_divided_scores_are_taken(s: SamplingView, count: nat, scores: Seq<u32>)
    requires
        s.stage == (StageView::Scaling { count }),
        count <= usize::MAX,
    ensures
        ({
            let (stage, work) = next_of(s, ReplyView::Numbers(scores));
            let indices = candidates_of(scores, s.top_k, s.top_p);
            if scores.len() != count {
                stage == StageView::Ended && work == WorkView::Finish(Err(ModelError::Protocol))
            } else {
                exists|own: Seq<u32>|
                    {
                        &&& #[trigger] own.len() == indices.len()
                        &&& forall|q: int|
                            0 <= q < indices.len() ==> (#[trigger] indices[q] as int)
                                < scores.len() && own[q] == scores[indices[q] as int]
                        &&& s.top_p is Some ==> stage == (StageView::Cutting {
                            indices,
                            logits: own,
                        }) && work == (WorkView::RunningSums { logits: own })
                        &&& s.top_p is None ==> stage == (StageView::Weighing {
                            indices,
                            logits: own,
                        }) && work == (WorkView::Sum { logits: own })
                    }
            }
        }),
{
    let indices = candidates_of(scores, s.top_k, s.top_p);
    if scores.len() == count {
        law_candidates_in_order(scores, s.top_k, s.top_p);
    }
    let taken = chosen(scores, indices);
    assert(taken.len() == indices.len());
}

/// Where the weight of the candidates is limited, those that remain are the first ones. No
/// running sum up to one that remains exceeds the limit, and the sum up to the first one that is
/// cut off does. The weights of those that remain are asked for.
pub proof fn law_excess_is_cut_off(
    s: SamplingView,
    indices: Seq<usize>,
    logits: Seq<u32>,
    limit: u32,
    sums: Seq<u32>,
)
    requires
        s.stage == (StageView::Cutting { indices, logits }),
        s.top_p == Some(limit),
        indices.len() == logits.len(),
    ensures
        ({
            let (stage, work) = next_of(s, ReplyView::Numbers(sums));
            if sums.len() != indices.len() {
                stage == StageView::Ended && work == WorkView::Finish(Err(ModelError::Protocol))
            } else {
                &&& stage matches StageView::Weighing { indices: kept, logits: scores }
                &&& work == (WorkView::Sum { logits: scores })
                &&& kept.len() == scores.len() <= indices.len()
                &&& forall|q: int|
                    0 <= q < kept.len() ==> #[trigger] kept[q] == indices[q] && scores[q]
                        == logits[q]
                &&& forall|q: int|
                    0 <= q < kept.len() ==> is_nan(#[trigger] sums[q]) || is_nan(limit)
                        || number_of(sums[q]) <= number_of(limit)
                &&& kept.len() < indices.len() ==> {
                    let first = sums[kept.len() as int];
                    !is_nan(first) && !is_nan(limit) && number_of(first) > number_of(limit)
                }
            }
        }),
{
    if sums.len() == indices.len() {
        law_kept_within_limit(sums, limit);
        assert forall|q: int| 0 <= q < kept_of(sums, limit) implies is_nan(
            #[trigger] sums[q],
        ) || is_nan(limit) || number_of(sums[q]) <= number_of(limit) by {
            law_numbers_ordered(sums[q], limit);
        }
        if kept_of(sums, limit) < sums.len() {
            law_numbers_ordered(sums[kept_of(sums, limit) as int], limit);
        }
    }
}

/// A choice fails where the weights add up to nothing positive. Otherwise one of the candidates
/// is to be drawn by the scores that they have.
pub proof fn law_weighed_candidates_are_drawn(
    s: SamplingView,
    indices: Seq<usize>,
    logits: Seq<u32>,
    sum: u32,
)
    requires
        s.stage == (StageView::Weighing { indices, logits }),
    ensures
        ({
            let (stage, work) = next_of(s, ReplyView::Number(sum));
            if !is_nan(sum) && number_of(sum) <= 0 {
                stage == StageView::Ended && work == WorkView::Finish(Err(ModelError::NoMass))
            } else {
                stage == (StageView::Drawing { indices }) && work == (WorkView::Draw {
                    logits,
                    sum,
                })
            }
        }),
{
    law_numbers_ordered(sum, sum);
}

/// The candidate that is drawn is chosen. Where the weights are refused, or no candidate is
/// drawn, the choice fails.
pub proof fn law_drawn_candidate_is_chosen(
    s: SamplingView,
    indices: Seq<usize>,
    drawn: Option<usize>,
)
    requires
        s.stage == (StageView::Drawing { indices }),
    ensures
        next_of(s, ReplyView::Drawn(drawn)).0 == StageView::Ended,
        next_of(s, ReplyView::Drawn(drawn)).1 == WorkView::Finish(
            match drawn {
                None => Err(ModelError::Weights),
                Some(i) => if (i as int) < indices.len() {
                    Ok(indices[i as int])
                } else {
                    Err(ModelError::Protocol)
                },
            },
        ),
{
}

/// A reply of another kind than what was asked for ends the choice.
pub proof fn law_strange_replies_end_the_choice(s: SamplingView, reply: ReplyView)
    requires
        match s.stage {
            StageView::Scaling { .. } => !(reply is Numbers),
            StageView::Cutting { .. } => !(reply is Numbers),
            StageView::Weighing { .. } => !(reply is Number),
            StageView::Drawing { .. } => !(reply is Drawn),
            StageView::Ended => true,
        },
    ensures
        next_of(s, reply).0 == StageView::Ended,
        next_of(s, reply).1 == WorkView::Finish(Err(ModelError::Protocol)),
{
}

/// Whether `stages` and `works` are how the choice of a token by the scores `logits` goes on the
/// replies `replies`.
pub open spec fn is_choice(
    p: ProcessorView,
    logits: Seq<u32>,
    replies: Seq<ReplyView>,
    stages: Seq<StageView>,
    works: Seq<WorkView>,
) -> bool {
    &&& stages.len() == replies.len() + 1
    &&& works.len() == replies.len() + 1
    &&& (stages[0], works[0]) == first_of(p, logits)
    &&& forall|n: int|
        0 <= n < replies.len() ==> (stages[n + 1], works[n + 1]) == #[trigger] next_of(
            SamplingView { top_p: p.top_p, top_k: p.top_k, stage: stages[n] },
            replies[n],
        )
}

/// The scores that a choice goes by: those that it began with, or those that came back divided.
pub open spec fn scores_of_choice(
    p: ProcessorView,
    logits: Seq<u32>,
    replies: Seq<ReplyView>,
) -> Seq<u32> {
    match p.temperature {
        None => logits,
        Some(_) => replies[0]->Numbers_0,
    }
}

/// Whether `indices` are tokens and `logits` their scores.
spec fn belong(scores: Seq<u32>, indices: Seq<usize>, logits: Seq<u32>) -> bool {
    &&& indices.len() == logits.len()
    &&& forall|q: int|
        0 <= q < indices.len() ==> (#[trigger] indices[q] as int) < scores.len() && logits[q]
            == scores[indices[q] as int]
}

/// What holds after each reply of a choice.
spec fn goes_by_scores(
    p: ProcessorView,
    scores: Seq<u32>,
    stage: StageView,
    work: WorkView,
) -> bool {
    match stage {
        StageView::Scaling { .. } => false,
        StageView::Cutting { indices, logits } => p.top_p is Some && belong(
            scores,
            indices,
            logits,
        ) && work == (WorkView::RunningSums { logits }),
        StageView::Weighing { indices, logits } => belong(scores, indices, logits) && work == (
        WorkView::Sum { logits }),
        StageView::Drawing { indices } => work matches WorkView::Draw { logits, .. } && belong(
            scores,
            indices,
            logits,
        ),
        StageView::Ended => work is Finish,
    }
}

proof fn lemma_goes_by_scores(
    p: ProcessorView,
    logits: Seq<u32>,
    replies: Seq<ReplyView>,
    stages: Seq<StageView>,
    works: Seq<WorkView>,
    n: int,
)
    requires
        is_choice(p, logits, replies, stages, works),
        logits.len() <= usize::MAX,
        0 <= n < works.len(),
        n > 0 || p.temperature is None,
    ensures
        goes_by_scores(p, scores_of_choice(p, logits, replies), stages[n], works[n]) || (stages[n]
            == StageView::Ended && works[n] matches WorkView::Finish(Err(_))),
    decreases n,
{
    let scores = scores_of_choice(p, logits, replies);
    if n == 0 {
        law_choice_begins(p, logits);
    } else {
        let s = SamplingView { top_p: p.top_p, top_k: p.top_k, stage: stages[n - 1] };
        let reply = replies[n - 1];
        assert((stages[n - 1 + 1], works[n - 1 + 1]) == next_of(s, reply));
        if n == 1 && p.temperature is Some {
            law_choice_begins(p, logits);
            if reply is Numbers {
                law_divided_scores_are_taken(s, logits.len(), reply->Numbers_0);
            } else {
                law_strange_replies_end_the_choice(s, reply);
            }
        } else {
            lemma_goes_by_scores(p, logits, replies, stages, works, n - 1);
            match (s.stage, reply) {
                (StageView::Cutting { indices, logits }, ReplyView::Numbers(sums)) => {
                    law_excess_is_cut_off(s, indices, logits, p.top_p->Some_0, sums);
                },
                (StageView::Weighing { indices, logits }, ReplyView::Number(sum)) => {
                    law_weighed_candidates_are_drawn(s, indices, logits, sum);
                },
                (StageView::Drawing { indices }, ReplyView::Drawn(drawn)) => {
                    law_drawn_candidate_is_chosen(s, indices, drawn);
                },
                _ => {
                    law_strange_replies_end_the_choice(s, reply);
                },
            }
        }
    }
}

/// Whenever weights are asked for or a draw is, and whatever was replied before, the numbers that
/// are handed out are scores of tokens, position by position: where position `q` is drawn, the
/// token is chosen whose score is number `q`.
pub proof fn law_draw_belongs_to_tokens(
    p: ProcessorView,
    logits: Seq<u32>,
    replies: Seq<ReplyView>,
    stages: Seq<StageView>,
    works: Seq<WorkView>,
    n: int,
    sum: u32,
    drawn: Seq<u32>,
)
    requires
        is_choice(p, logits, replies, stages, works),
        logits.len() <= usize::MAX,
        0 <= n < works.len(),
        works[n] == (WorkView::Draw { logits: drawn, sum }),
    ensures
        ({
            let scores = scores_of_choice(p, logits, replies);
            let s = SamplingView { top_p: p.top_p, top_k: p.top_k, stage: stages[n] };
            &&& n > 0
            &&& forall|q: usize|
                q < drawn.len() ==> {
                    &&& #[trigger] next_of(s, ReplyView::Drawn(Some(q))).1 matches WorkView::Finish(
                        Ok(token),
                    )
                    &&& (token as int) < scores.len()
                    &&& drawn[q as int] == scores[token as int]
                }
        }),
{
    if n == 0 {
        law_choice_begins(p, logits);
    } else {
        lemma_goes_by_scores(p, logits, replies, stages, works, n);
        let s = SamplingView { top_p: p.top_p, top_k: p.top_k, stage: stages[n] };
        let indices = stages[n]->Drawing_indices;
        assert forall|q: usize| q < drawn.len() implies {
            &&& #[trigger] next_of(s, ReplyView::Drawn(Some(q))).1 matches WorkView::Finish(
                Ok(token),
            )
            &&& (token as int) < scores_of_choice(p, logits, replies).len()
            &&& drawn[q as int] == scores_of_choice(p, logits, replies)[token as int]
        } by {
            law_drawn_candidate_is_chosen(s, indices, Some(q));
            assert((indices[q as int] as int) < scores_of_choice(p, logits, replies).len());
        }
    }
}

/// A token is chosen only where it was drawn: the reply before is a position, what was asked for
/// is a draw, and the number at the position is the score of the token.
pub proof fn law_chosen_token_was_drawn(
    p: ProcessorView,
    logits: Seq<u32>,
    replies: Seq<ReplyView>,
    stages: Seq<StageView>,
    works: Seq<WorkView>,
    n: int,
    token: usize,
)
    requires
        is_choice(p, logits, replies, stages, works),
        logits.len() <= usize::MAX,
        0 <= n < works.len(),
        works[n] == WorkView::Finish(Ok(token)),
    ensures
        ({
            let scores = scores_of_choice(p, logits, replies);
            &&& n > 0
            &&& replies[n - 1] matches ReplyView::Drawn(Some(q))
            &&& works[n - 1] matches WorkView::Draw { logits: drawn, .. }
            &&& q < drawn.len()
            &&& (token as int) < scores.len()
            &&& drawn[q as int] == scores[token as int]
        }),
{
    if n == 0 {
        law_choice_begins(p, logits);
    } else {
        let s = SamplingView { top_p: p.top_p, top_k: p.top_k, stage: stages[n - 1] };
        let reply = replies[n - 1];
        assert((stages[n - 1 + 1], works[n - 1 + 1]) == next_of(s, reply));
        if n == 1 && p.temperature is Some {
            law_choice_begins(p, logits);
            if reply is Numbers {
                law_divided_scores_are_taken(s, logits.len(), reply->Numbers_0);
            } else {
                law_strange_replies_end_the_choice(s, reply);
            }
        } else {
            lemma_goes_by_scores(p, logits, replies, stages, works, n - 1);
            match (s.stage, reply) {
                (StageView::Cutting { indices, logits }, ReplyView::Numbers(sums)) => {
                    law_excess_is_cut_off(s, indices, logits, p.top_p->Some_0, sums);
                },
                (StageView::Weighing { indices, logits }, ReplyView::Number(sum)) => {
                    law_weighed_candidates_are_drawn(s, indices, logits, sum);
                },
                (StageView::Drawing { indices }, ReplyView::Drawn(drawn)) => {
                    law_drawn_candidate_is_chosen(s, indices, drawn);
                },
                _ => {
                    law_strange_replies_end_the_choice(s, reply);
                },
            }
        }
    }
}

} // verus!
