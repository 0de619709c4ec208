//! The choice of a token by its score.
//!
//! The steps of a choice are decided here. What each step needs from floating-point
//! arithmetic, and the draw itself, is asked of the caller ([`Work`]), who hands the
//! outcome back ([`Reply`]). Numbers are in single precision and given by their bits.

use vstd::prelude::*;
use rand::SeedableRng;
use crate::error::ModelError;
use crate::ranking::{
    exceeds, is_greater, is_not_positive, law_leading_exists, law_leading_unique, leading, leads,
    not_positive,
};

verus! {

/// A generator of random numbers.
#[verifier::external_type_specification]
#[verifier::external_body]
pub struct ExStdRng(rand::rngs::StdRng);

/// `StdRng::clone`: a generator in the same state.
pub assume_specification[ <rand::rngs::StdRng as Clone>::clone ](g: &rand::rngs::StdRng) -> (r:
    rand::rngs::StdRng)
    ensures
        r == *g,
;

/// The generator that `StdRng::seed_from_u64` makes of `seed`.
pub uninterp spec fn seeded_rng(seed: u64) -> rand::rngs::StdRng;

/// `StdRng::seed_from_u64`: a generator whose state depends on the seed alone.
#[verifier::external_body]
fn rng_from_seed(seed: u64) -> (r: rand::rngs::StdRng)
    ensures
        r == seeded_rng(seed),
{
    rand::rngs::StdRng::seed_from_u64(seed)
}

/// How tokens are chosen, and the state of the generator.
pub struct ProcessorView {
    pub rng: rand::rngs::StdRng,
    /// The number that scores are divided by.
    pub temperature: Option<u32>,
    /// The weight that the candidates may have together, the greatest first.
    pub top_p: Option<u32>,
    /// The number of candidates.
    pub top_k: Option<usize>,
}

/// How far a choice has come.
pub enum StageView {
    /// The scores of `count` tokens are being divided.
    Scaling { count: nat },
    /// The running sums of the weights of the candidates are being added up.
    Cutting { indices: Seq<usize>, logits: Seq<u32> },
    /// The weights of the remaining candidates are being added up.
    Weighing { indices: Seq<usize>, logits: Seq<u32> },
    /// One of the candidates is being drawn.
    Drawing { indices: Seq<usize> },
    /// The choice is made or has failed.
    Ended,
}

/// What is asked of the caller.
pub enum WorkView {
    Divide { logits: Seq<u32>, by: u32 },
    RunningSums { logits: Seq<u32> },
    Sum { logits: Seq<u32> },
    Draw { logits: Seq<u32>, sum: u32 },
    Finish(Result<usize, ModelError>),
}

/// What the caller hands back.
pub enum ReplyView {
    Numbers(Seq<u32>),
    Number(u32),
    Drawn(Option<usize>),
}

/// A choice.
pub struct SamplingView {
    pub top_p: Option<u32>,
    pub top_k: Option<usize>,
    pub stage: StageView,
}

/// The positions of the `n` greatest scores in the order of their ranks.
pub open spec fn leading_of(scores: Seq<u32>, n: nat) -> Seq<usize> {
    choose|order: Seq<usize>| #[trigger] leads(scores, order) && order.len() == n
}

/// The smaller of two numbers.
pub open spec fn at_most(k: nat, n: nat) -> nat {
    if k <= n {
        k
    } else {
        n
    }
}

/// The tokens that can be chosen: those with the greatest scores, the greatest first, if
/// their number or weight is limited, and otherwise all of them.
pub open spec fn candidates_of(
    scores: Seq<u32>,
    top_k: Option<usize>,
    top_p: Option<u32>,
) -> Seq<usize> {
    match (top_k, top_p) {
        (Some(k), _) => leading_of(scores, at_most(k as nat, scores.len())),
        (None, Some(_)) => leading_of(scores, scores.len()),
        (None, None) => Seq::new(scores.len(), |i: int| i as usize),
    }
}

/// The scores of the tokens in `indices`.
pub open spec fn chosen(scores: Seq<u32>, indices: Seq<usize>) -> Seq<u32> {
    indices.map_values(|i: usize| scores[i as int])
}

/// How many of the sums come before the first one that exceeds `limit`.
pub open spec fn kept_of(sums: Seq<u32>, limit: u32) -> nat
    decreases sums.len(),
{
    if sums.len() == 0 || exceeds(sums[0], limit) {
        0
    } else {
        1 + kept_of(sums.subrange(1, sums.len() as int), limit)
    }
}

/// What follows once the scores are divided.
pub open spec fn scaled_next(
    top_k: Option<usize>,
    top_p: Option<u32>,
    scores: Seq<u32>,
) -> (StageView, WorkView) {
    let indices = candidates_of(scores, top_k, top_p);
    let logits = chosen(scores, indices);
    match top_p {
        Some(_) => (StageView::Cutting { indices, logits }, WorkView::RunningSums { logits }),
        None => (StageView::Weighing { indices, logits }, WorkView::Sum { logits }),
    }
}

/// How the choice of a token by the scores `logits` begins.
pub open spec fn first_of(p: ProcessorView, logits: Seq<u32>) -> (StageView, WorkView) {
    match p.temperature {
        Some(by) => (StageView::Scaling { count: logits.len() }, WorkView::Divide { logits, by }),
        None => scaled_next(p.top_k, p.top_p, logits),
    }
}

/// The end of a choice.
pub open spec fn end(r: Result<usize, ModelError>) -> (StageView, WorkView) {
    (StageView::Ended, WorkView::Finish(r))
}

/// What follows on a reply. One that does not belong to what was asked ends the choice.
pub open spec fn next_of(s: SamplingView, reply: ReplyView) -> (StageView, WorkView) {
    match (s.stage, reply) {
        (StageView::Scaling { count }, ReplyView::Numbers(scores)) => if scores.len() == count {
            scaled_next(s.top_k, s.top_p, scores)
        } else {
            end(Err(ModelError::Protocol))
        },
        (StageView::Cutting { indices, logits }, ReplyView::Numbers(sums)) => if sums.len()
            == indices.len() {
            let n = kept_of(sums, s.top_p->Some_0) as int;
            let kept = logits.subrange(0, n);
            (
                StageView::Weighing { indices: indices.subrange(0, n), logits: kept },
                WorkView::Sum { logits: kept },
            )
        } else {
            end(Err(ModelError::Protocol))
        },
        (StageView::Weighing { indices, logits }, ReplyView::Number(sum)) => if not_positive(sum) {
            end(Err(ModelError::NoMass))
        } else {
            (StageView::Drawing { indices }, WorkView::Draw { logits, sum })
        },
        (StageView::Drawing { indices }, ReplyView::Drawn(None)) => end(Err(ModelError::Weights)),
        (StageView::Drawing { indices }, ReplyView::Drawn(Some(i))) => if (i as int)
            < indices.len() {
            end(Ok(indices[i as int]))
        } else {
            end(Err(ModelError::Protocol))
        },
        _ => end(Err(ModelError::Protocol)),
    }
}

/// How tokens are chosen.
#[derive(Debug)]
pub struct LogitsProcessor {
    rng: rand::rngs::StdRng,
    temperature: Option<u32>,
    top_p: Option<u32>,
    top_k: Option<usize>,
}

impl View for LogitsProcessor {
    type V = ProcessorView;

    closed spec fn view(&self) -> ProcessorView {
        ProcessorView {
            rng: self.rng,
            temperature: self.temperature,
            top_p: self.top_p,
            top_k: self.top_k,
        }
    }
}

impl Clone for LogitsProcessor {
    fn clone(&self) -> (r: Self)
        ensures
            r == *self,
    {
        LogitsProcessor {
            rng: self.rng.clone(),
            temperature: self.temperature,
            top_p: self.top_p,
            top_k: self.top_k,
        }
    }
}

/// How far a choice has come.
#[derive(Debug)]
pub enum Stage {
    Scaling { count: usize },
    Cutting { indices: Vec<usize>, logits: Vec<u32> },
    Weighing { indices: Vec<usize>, logits: Vec<u32> },
    Drawing { indices: Vec<usize> },
    Ended,
}

impl View for Stage {
    type V = StageView;

    open spec fn view(&self) -> StageView {
        match self {
            Stage::Scaling { count } => StageView::Scaling { count: *count as nat },
            Stage::Cutting { indices, logits } => StageView::Cutting {
                indices: indices@,
                logits: logits@,
            },
            Stage::Weighing { indices, logits } => StageView::Weighing {
                indices: indices@,
                logits: logits@,
            },
            Stage::Drawing { indices } => StageView::Drawing { indices: indices@ },
            Stage::Ended => StageView::Ended,
        }
    }
}

/// What is asked of the caller.
#[derive(Debug)]
pub enum Work {
    /// Each of the numbers divided by `by`, to be handed back as [`Reply::Numbers`].
    Divide { logits: Vec<u32>, by: u32 },
    /// The sums of the exponentials of the numbers from the first one up to each of them,
    /// added up in this order, to be handed back as [`Reply::Numbers`].
    RunningSums { logits: Vec<u32> },
    /// The sum of the exponentials of the numbers, to be handed back as [`Reply::Number`].
    Sum { logits: Vec<u32> },
    /// A position, drawn with the exponentials of the numbers, divided by `sum`, as its
    /// probabilities, to be handed back as [`Reply::Drawn`].
    Draw { logits: Vec<u32>, sum: u32 },
    /// Nothing: the token that was chosen, or why there is none.
    Finish(Result<usize, ModelError>),
}

impl View for Work {
    type V = WorkView;

    open spec fn view(&self) -> WorkView {
        match self {
            Work::Divide { logits, by } => WorkView::Divide { logits: logits@, by: *by },
            Work::RunningSums { logits } => WorkView::RunningSums { logits: logits@ },
            Work::Sum { logits } => WorkView::Sum { logits: logits@ },
            Work::Draw { logits, sum } => WorkView::Draw { logits: logits@, sum: *sum },
            Work::Finish(r) => WorkView::Finish(*r),
        }
    }
}

/// What the caller hands back.
#[derive(Debug)]
pub enum Reply {
    Numbers(Vec<u32>),
    Number(u32),
    /// The position that was drawn, or none where the weights are no probabilities.
    Drawn(Option<usize>),
}

impl View for Reply {
    type V = ReplyView;

    open spec fn view(&self) -> ReplyView {
        match self {
            Reply::Numbers(v) => ReplyView::Numbers(v@),
            Reply::Number(x) => ReplyView::Number(*x),
            Reply::Drawn(i) => ReplyView::Drawn(*i),
        }
    }
}

/// The choice of a token.
#[derive(Debug)]
pub struct Sampling {
    top_p: Option<u32>,
    top_k: Option<usize>,
    stage: Stage,
}

impl View for Sampling {
    type V = SamplingView;

    closed spec fn view(&self) -> SamplingView {
        SamplingView { top_p: self.top_p, top_k: self.top_k, stage: self.stage@ }
    }
}

impl SamplingView {
    /// Whether the candidates are limited by weight where they are being cut, and each has a
    /// score.
    pub open spec fn well_formed(self) -> bool {
        match self.stage {
            StageView::Cutting { indices, logits } => self.top_p is Some && indices.len()
                == logits.len(),
            StageView::Weighing { indices, logits } => indices.len() == logits.len(),
            _ => true,
        }
    }
}

/// The candidates among the tokens with the scores `scores`.
pub fn candidates(scores: &Vec<u32>, top_k: Option<usize>, top_p: Option<u32>) -> (r: Vec<usize>)
    ensures
        r@ == candidates_of(scores@, top_k, top_p),
        forall|p: int| 0 <= p < r@.len() ==> (#[trigger] r@[p] as int) < scores@.len(),
{
    let n: usize = match (top_k, top_p) {
        (Some(k), _) => k,
        (None, Some(_)) => scores.len(),
        (None, None) => {
            let mut all: Vec<usize> = Vec::new();
            for i in 0..scores.len()
                invariant
                    all@ == Seq::new(i as nat, |j: int| j as usize),
            {
                all.push(i);
                proof {
                    assert(all@ =~= Seq::new((i + 1) as nat, |j: int| j as usize));
                }
            }
            return all;
        },
    };
    let r = leading(scores, n);
    proof {
        assert(leads(scores@, r@) && r@.len() == at_most(n as nat, scores@.len()));
        law_leading_unique(scores@, r@, leading_of(scores@, at_most(n as nat, scores@.len())));
    }
    r
}

/// The scores of the tokens in `indices`.
fn select(scores: &Vec<u32>, indices: &Vec<usize>) -> (r: Vec<u32>)
    requires
        forall|p: int| 0 <= p < indices@.len() ==> (#[trigger] indices@[p] as int) < scores@.len(),
    ensures
        r@ == chosen(scores@, indices@),
{
    let mut r: Vec<u32> = Vec::new();
    for p in 0..indices.len()
        invariant
            forall|p: int|
                0 <= p < indices@.len() ==> (#[trigger] indices@[p] as int) < scores@.len(),
            r@ == chosen(scores@, indices@.subrange(0, p as int)),
    {
        r.push(scores[indices[p]]);
        proof {
            assert(r@ =~= chosen(scores@, indices@.subrange(0, p + 1)));
        }
    }
    proof {
        assert(indices@.subrange(0, indices@.len() as int) =~= indices@);
    }
    r
}

/// How many of the sums come before the first one that exceeds `limit`.
pub fn count_kept(sums: &Vec<u32>, limit: u32) -> (r: usize)
    ensures
        r == kept_of(sums@, limit),
        r <= sums@.len(),
{
    let mut n: usize = 0;
    proof {
        assert(sums@.subrange(0, sums@.len() as int) =~= sums@);
    }
    while n < sums.len() && !is_greater(sums[n], limit)
        invariant
            n <= sums@.len(),
            kept_of(sums@, limit) == n + kept_of(sums@.subrange(n as int, sums@.len() as int), limit),
        decreases sums@.len() - n,
    {
        proof {
            let rest = sums@.subrange(n as int, sums@.len() as int);
            assert(rest.subrange(1, rest.len() as int) =~= sums@.subrange(
                n + 1,
                sums@.len() as int,
            ));
            assert(rest[0] == sums@[n as int]);
        }
        n = n + 1;
    }
    proof {
        let rest = sums@.subrange(n as int, sums@.len() as int);
        if n < sums@.len() {
            assert(rest[0] == sums@[n as int]);
        }
    }
    n
}

/// Another vector with the same numbers.
fn copy(v: &Vec<u32>) -> (r: Vec<u32>)
    ensures
        r@ == v@,
{
    let mut r: Vec<u32> = Vec::new();
    for i in 0..v.len()
        invariant
            r@ == v@.subrange(0, i as int),
    {
        r.push(v[i]);
        proof {
            assert(r@ =~= v@.subrange(0, i + 1));
        }
    }
    proof {
        assert(v@.subrange(0, v@.len() as int) =~= v@);
    }
    r
}

/// What follows once the scores are divided.
fn after_scaling(top_k: Option<usize>, top_p: Option<u32>, scores: &Vec<u32>) -> (r: (Stage, Work))
    ensures
        (r.0@, r.1@) == scaled_next(top_k, top_p, scores@),
        r.0 matches Stage::Cutting { indices, logits } ==> top_p is Some && indices@.len()
            == logits@.len(),
        r.0 matches Stage::Weighing { indices, logits } ==> indices@.len() == logits@.len(),
{
    let indices = candidates(scores, top_k, top_p);
    let logits = select(scores, &indices);
    let asked = copy(&logits);
    match top_p {
        Some(_) => (Stage::Cutting { indices, logits }, Work::RunningSums { logits: asked }),
        None => (Stage::Weighing { indices, logits }, Work::Sum { logits: asked }),
    }
}

impl LogitsProcessor {
    /// Choices that depend on `seed`, among tokens whose scores are divided by
    /// `temperature` and which are limited by weight (`top_p`) and number (`top_k`).
    pub fn new(
        seed: u64,
        temperature: Option<u32>,
        top_p: Option<u32>,
        top_k: Option<usize>,
    ) -> (r: Self)
        ensures
            r@ == (ProcessorView { rng: seeded_rng(seed), temperature, top_p, top_k }),
    {
        let rng = rng_from_seed(seed);
        LogitsProcessor { rng, temperature, top_p, top_k }
    }

    /// The generator that draws go by.
    pub fn rng(&mut self) -> (r: &mut rand::rngs::StdRng)
        ensures
            *r == old(self)@.rng,
            final(self)@ == (ProcessorView { rng: *final(r), ..old(self)@ }),
    {
        &mut self.rng
    }

    /// Begins the choice of a token by the scores `logits`.
    pub fn sample(&self, logits: &Vec<u32>) -> (r: (Sampling, Work))
        ensures
            (r.0@.stage, r.1@) == first_of(self@, logits@),
            r.0@.top_k == self@.top_k,
            r.0@.top_p == self@.top_p,
            r.0@.well_formed(),
    {
        let (stage, work) = match self.temperature {
            Some(by) => (
                Stage::Scaling { count: logits.len() },
                Work::Divide { logits: copy(logits), by },
            ),
            None => after_scaling(self.top_k, self.top_p, logits),
        };
        (Sampling { top_p: self.top_p, top_k: self.top_k, stage }, work)
    }
}

impl Sampling {
    /// Goes on with a reply.
    pub fn step(&mut self, reply: Reply) -> (r: Work)
        requires
            old(self)@.well_formed(),
        ensures
            (final(self)@.stage, r@) == next_of(old(self)@, reply@),
            final(self)@.top_k == old(self)@.top_k,
            final(self)@.top_p == old(self)@.top_p,
            final(self)@.well_formed(),
    {
        let mut stage = Stage::Ended;
        std::mem::swap(&mut stage, &mut self.stage);
        match (stage, reply) {
            (Stage::Scaling { count }, Reply::Numbers(scores)) => {
                if scores.len() != count {
                    return Work::Finish(Err(ModelError::Protocol));
                }
                let (next, work) = after_scaling(self.top_k, self.top_p, &scores);
                self.stage = next;
                work
            },
            (Stage::Cutting { mut indices, mut logits }, Reply::Numbers(sums)) => {
                if sums.len() != indices.len() {
                    return Work::Finish(Err(ModelError::Protocol));
                }
                match self.top_p {
                    None => Work::Finish(Err(ModelError::Protocol)),
                    Some(limit) => {
                        let n: usize = count_kept(&sums, limit);
                        indices.truncate(n);
                        logits.truncate(n);
                        let asked = copy(&logits);
                        self.stage = Stage::Weighing { indices, logits };
                        Work::Sum { logits: asked }
                    },
                }
            },
            (Stage::Weighing { indices, logits }, Reply::Number(sum)) => {
                if is_not_positive(sum) {
                    Work::Finish(Err(ModelError::NoMass))
                } else {
                    self.stage = Stage::Drawing { indices };
                    Work::Draw { logits, sum }
                }
            },
            (Stage::Drawing { indices }, Reply::Drawn(drawn)) => {
                match drawn {
                    None => Work::Finish(Err(ModelError::Weights)),
                    Some(i) => {
                        if i < indices.len() {
                            Work::Finish(Ok(indices[i]))
                        } else {
                            Work::Finish(Err(ModelError::Protocol))
                        }
                    },
                }
            },
            _ => Work::Finish(Err(ModelError::Protocol)),
        }
    }
}

/// Every candidate is a token. Where the number or the weight of the candidates is limited
/// they are the tokens with the greatest scores, no more than the limit.
pub proof fn law_candidates_lead(scores: Seq<u32>, top_k: Option<usize>, top_p: Option<u32>)
    requires
        scores.len() <= usize::MAX,
    ensures
        ({
            let c = candidates_of(scores, top_k, top_p);
            &&& forall|p: int| 0 <= p < c.len() ==> (#[trigger] c[p] as int) < scores.len()
            &&& top_k is Some || top_p is Some ==> leads(scores, c)
            &&& top_k matches Some(k) ==> c.len() == at_most(k as nat, scores.len())
            &&& top_k is None ==> c.len() == scores.len()
        }),
{
    match (top_k, top_p) {
        (Some(k), _) => {
            law_leading_exists(scores, at_most(k as nat, scores.len()));
        },
        (None, Some(_)) => {
            law_leading_exists(scores, scores.len());
        },
        (None, None) => {},
    }
}

/// The candidates that are kept are those ahead of the first whose running sum exceeds the
/// limit.
pub proof fn law_kept_within_limit(sums: Seq<u32>, limit: u32)
    ensures
        kept_of(sums, limit) <= sums.len(),
        forall|i: int|
            0 <= i < kept_of(sums, limit) ==> !exceeds(#[trigger] sums[i], limit),
        kept_of(sums, limit) < sums.len() ==> exceeds(sums[kept_of(sums, limit) as int], limit),
    decreases sums.len(),
{
    if sums.len() > 0 && !exceeds(sums[0], limit) {
        let rest = sums.subrange(1, sums.len() as int);
        law_kept_within_limit(rest, limit);
        assert forall|i: int| 0 <= i < kept_of(sums, limit) implies !exceeds(
            #[trigger] sums[i],
            limit,
        ) by {
            if i > 0 {
                assert(sums[i] == rest[i - 1]);
            }
        }
    }
}

impl SamplingView {
    /// Whether the choice is among the first `n` tokens.
    pub open spec fn among(self, n: nat) -> bool {
        match self.stage {
            StageView::Scaling { count } => count == n,
            StageView::Cutting { indices, .. } => below(indices, n),
            StageView::Weighing { indices, .. } => below(indices, n),
            StageView::Drawing { indices } => below(indices, n),
            StageView::Ended => true,
        }
    }
}

/// Whether all of the tokens are among the first `n`.
pub open spec fn below(indices: Seq<usize>, n: nat) -> bool {
    forall|p: int| 0 <= p < indices.len() ==> (#[trigger] indices[p] as int) < n
}

/// A choice begins among the tokens that have scores.
pub proof fn law_choice_begins_among_tokens(p: ProcessorView, logits: Seq<u32>)
    requires
        logits.len() <= usize::MAX,
    ensures
        ({
            let stage = first_of(p, logits).0;
            (SamplingView { top_p: p.top_p, top_k: p.top_k, stage }).among(logits.len())
        }),
{
    law_candidates_lead(logits, p.top_k, p.top_p);
}

/// Whatever is replied, a choice stays among the tokens that have scores, and so does the
/// token that it ends with.
pub proof fn law_choice_stays_among_tokens(s: SamplingView, reply: ReplyView, n: nat)
    requires
        s.well_formed(),
        s.among(n),
        n <= usize::MAX,
    ensures
        ({
            let (stage, work) = next_of(s, reply);
            &&& (SamplingView { stage, ..s }).well_formed()
            &&& (SamplingView { stage, ..s }).among(n)
            &&& work matches WorkView::Finish(Ok(token)) ==> (token as int) < n
        }),
{
    match (s.stage, reply) {
        (StageView::Scaling { count }, ReplyView::Numbers(scores)) => {
            if scores.len() == count {
                law_candidates_lead(scores, s.top_k, s.top_p);
            }
        },
        (StageView::Cutting { indices, logits }, ReplyView::Numbers(sums)) => {
            law_kept_within_limit(sums, s.top_p->Some_0);
        },
        _ => {},
    }
}

} // verus!
