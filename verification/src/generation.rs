//! Generation: rounds of scoring the next token and having it chosen.
//!
//! The model scores tokens and keeps the sequence. Who chooses a token and who decides
//! when to stop is the caller's business: both are asked for ([`Action`]) and answered
//! ([`Event`]).

use vstd::prelude::*;
use crate::array::{
    blames, first_why, integer_array, refuses, shows, unless_addressable, yields, Array,
};
use crate::config::Config;
use crate::error::ModelError;
use crate::layers::WeightsView;
use crate::model::{
    embeds, forward_of, forward_sure, forward_why, model_after, model_during, model_keeps,
    ModelView, ParlerTts,
};
use crate::shape::{
    addressable, in_bounds, lemma_offset1, lemma_offset3, lemma_unravel_offset, numel,
};
use crate::view::{
    cast_of, cat_of, narrow_of, reshape_of, tabulate, unsqueeze_of, ArrayView, ElementKind,
};

verus! {

/// What a run waits for.
#[derive(Clone, Copy, Debug, PartialEq, Eq, Structural)]
pub enum Phase {
    /// The start.
    Starting,
    /// The choice of a token.
    Sampling,
    /// Whether to stop.
    Judging,
    /// Nothing.
    Ended,
}

/// The state of a run.
pub struct GenerationView {
    /// The sequences so far.
    pub input_ids: ArrayView,
    /// The table of rotations.
    pub pos: ArrayView,
    /// The tokens that were chosen.
    pub tokens: Seq<usize>,
    /// The number of rounds to come.
    pub left: nat,
    pub phase: Phase,
}

impl GenerationView {
    /// How many tokens the run can come to.
    pub open spec fn budget(self) -> nat {
        self.tokens.len() + self.left + if self.phase == Phase::Sampling {
            1nat
        } else {
            0
        }
    }
}

/// The scores at the last position of each sequence, in single precision, one sequence
/// after the other.
pub open spec fn last_scores_of(y: ArrayView) -> Option<ArrayView> {
    let (b, s, v) = (y.shape[0], y.shape[1], y.shape[2]);
    if y.rank() == 3 && s > 0 && addressable(seq![b, 1usize, v]) {
        Some(
            cast_of(
                tabulate(
                    seq![(b * v) as usize],
                    y.kind,
                    y.cpu,
                    |i: Seq<int>| y.at(seq![i[0] / (v as int), s - 1, i[0] % (v as int)]),
                ),
                ElementKind::F32,
            ),
        )
    } else {
        None
    }
}

/// The reason to refuse to take the scores at the last positions.
pub open spec fn last_scores_why(y: ArrayView) -> Option<ModelError> {
    if y.rank() != 3 {
        Some(ModelError::Rank)
    } else if y.shape[1] == 0 {
        Some(ModelError::EmptyArray)
    } else {
        unless_addressable(seq![y.shape[0], 1usize, y.shape[2]])
    }
}

/// The sequences `ids` with `token` joined to them along axis 1. The token is an array with
/// a single axis, which has no axis 1, so that the tensor library refuses to join it.
pub open spec fn appended_of(ids: ArrayView, token: usize) -> Option<ArrayView> {
    cat_of(ids, integer_array(seq![token as i64], ids.cpu), 1)
}

/// The tokens `tokens` as integers.
pub open spec fn integers(tokens: Seq<usize>) -> Seq<i64> {
    tokens.map_values(|t: usize| t as i64)
}

/// The outcome of a run: the tokens as a single row. There is no array without tokens.
pub open spec fn outcome_of(tokens: Seq<usize>, cpu: bool) -> Option<ArrayView> {
    if tokens.len() == 0 {
        None
    } else {
        unsqueeze_of(integer_array(integers(tokens), cpu), 0)
    }
}

/// The last of the tokens, or zero where there is none.
pub open spec fn last_token(tokens: Seq<usize>) -> usize {
    if tokens.len() == 0 {
        0
    } else {
        tokens.last()
    }
}

/// What is asked of the caller.
#[derive(Debug)]
pub enum Action {
    /// The choice of a token by these scores (bits of single-precision numbers), or none,
    /// to be answered by [`Event::Sampled`].
    Sample(Vec<u32>),
    /// Whether to stop, after this token was noted as the last one, to be answered by
    /// [`Event::Judged`].
    Judge(usize),
    /// Nothing: the outcome of the run.
    Done(Result<Array, ModelError>),
}

/// What the caller answers.
#[derive(Clone, Copy, Debug)]
pub enum Event {
    /// The run begins.
    Begin,
    /// The token that was chosen, or none.
    Sampled(Option<usize>),
    /// Whether to stop.
    Judged(bool),
}

/// A run.
#[derive(Debug)]
pub struct Generation {
    input_ids: Array,
    pos: Array,
    tokens: Vec<usize>,
    left: usize,
    phase: Phase,
}

impl View for Generation {
    type V = GenerationView;

    closed spec fn view(&self) -> GenerationView {
        GenerationView {
            input_ids: self.input_ids@,
            pos: self.pos@,
            tokens: self.tokens@,
            left: self.left as nat,
            phase: self.phase,
        }
    }
}

proof fn lemma_last_scores(y: ArrayView)
    requires
        last_scores_of(y) is Some,
    ensures
        ({
            let x = narrow_of(y, 1, y.shape[1] - 1, 1);
            let z = reshape_of(x->Some_0, seq![x->Some_0.count() as usize]);
            &&& x is Some
            &&& addressable(x->Some_0.shape)
            &&& z is Some
            &&& last_scores_of(y) == Some(cast_of(z->Some_0, ElementKind::F32))
        }),
{
    let (b, s, v) = (y.shape[0], y.shape[1], y.shape[2]);
    let s3 = seq![b, 1usize, v];
    let x = narrow_of(y, 1, s - 1, 1)->Some_0;
    assert(x.shape =~= s3);
    let zero3 = seq![0int, 0, 0];
    lemma_offset3(s3, zero3);
    let (ib, iv) = (b as int, v as int);
    assert(ib * 1 * iv == ib * iv) by (nonlinear_arith);
    assert(numel(s3) == b * v);
    let n = numel(s3) as usize;
    assert(numel(s3) <= usize::MAX) by {
        let (pb, pv) = (
            crate::shape::at_least_one(b) as int,
            crate::shape::at_least_one(v) as int,
        );
        assert(ib * iv <= pb * 1 * pv) by (nonlinear_arith)
            requires
                0 <= ib <= pb,
                0 <= iv <= pv,
        ;
    }
    let s1 = seq![n];
    lemma_offset1(s1, seq![0int]);
    let z = reshape_of(x, s1)->Some_0;
    let out = tabulate(
        s1,
        y.kind,
        y.cpu,
        |i: Seq<int>| y.at(seq![i[0] / (v as int), s - 1, i[0] % (v as int)]),
    );
    assert forall|i: Seq<int>| in_bounds(s1, i) implies #[trigger] z.elems[i] == out.elems[i] by {
        assert(0 <= i[0] < n);
        let o = i[0];
        assert(iv > 0) by (nonlinear_arith)
            requires
                0 <= o < ib * iv,
                iv >= 0,
        ;
        vstd::arithmetic::div_mod::lemma_fundamental_div_mod(o, iv);
        vstd::arithmetic::div_mod::lemma_mod_bound(o, iv);
        let (q, r) = (o / iv, o % iv);
        assert(0 <= q < ib) by (nonlinear_arith)
            requires
                o == iv * q + r,
                0 <= r < iv,
                0 <= o < ib * iv,
        ;
        let j = seq![q, 0, r];
        assert(in_bounds(s3, j)) by {
            assert forall|d: int| 0 <= d < 3 implies 0 <= #[trigger] j[d] < s3[d] by {
                if d == 0 {
                } else if d == 1 {
                } else {
                }
            }
        }
        lemma_offset3(s3, j);
        lemma_offset1(s1, i);
        assert((q * 1 + 0) * iv + r == o) by (nonlinear_arith)
            requires
                o == iv * q + r,
        ;
        lemma_unravel_offset(s3, j);
        assert(j.update(1, j[1] + (s - 1)) =~= seq![q, s - 1, r]);
    }
    assert(z.elems =~= out.elems);
    assert(z =~= out);
}

/// The scores at the last position of each sequence, in single precision.
pub fn last_scores(y: &Array) -> (r: Result<Array, ModelError>)
    ensures
        yields(r, last_scores_of(y@), y@.cpu),
        refuses(r, last_scores_why(y@)),
        r matches Ok(x) ==> x@.kind == ElementKind::F32 && addressable(x@.shape) && x@.cpu
            == y@.cpu,
{
    let (_, s, _) = y.dims3()?;
    if s == 0 {
        return Err(ModelError::EmptyArray);
    }
    proof {
        let x = narrow_of(y@, 1, s - 1, 1)->Some_0;
        assert(x.shape =~= seq![y@.shape[0], 1usize, y@.shape[2]]);
        if last_scores_of(y@) is Some {
            lemma_last_scores(y@);
        }
    }
    let x = y.narrow(1, s - 1, 1)?;
    let x = x.flatten_all()?;
    x.to_single()
}

/// What one round shows of the model before it and of the run: the bits of the scores of
/// the last positions.
pub open spec fn scored(
    m: ModelView,
    ids: ArrayView,
    pos: ArrayView,
    bits: Seq<u32>,
) -> bool {
    &&& forward_of(m, ids, pos) matches Some(y)
    &&& last_scores_of(y) matches Some(z)
    &&& shows(z, bits)
    &&& exists|x: Array| #[trigger] x.bits() == bits && x@ == z
}

/// The reason to refuse to score the tokens that may follow the sequences of a run.
pub open spec fn scores_why(m: ModelView, ids: ArrayView, pos: ArrayView) -> Option<ModelError> {
    first_why(
        forward_why(m, ids, pos),
        forward_of(m, ids, pos),
        |y: ArrayView| last_scores_why(y),
    )
}

/// Whether the scores of the tokens that may follow the sequences of a run cannot fail to
/// be computed.
pub open spec fn scores_sure(
    m: ModelView,
    ids: ArrayView,
    pos: ArrayView,
    cached_packed: bool,
) -> bool {
    &&& forward_sure(m, ids, pos, cached_packed)
    &&& forward_of(m, ids, pos) matches Some(y) && last_scores_of(y) is Some
}

/// How a round goes: from the model `m0` and the run `g0` to `m1` and `g1`. `cached_packed`
/// tells whether what the caches of the model hold is packed.
pub open spec fn round_goes(
    m0: ModelView,
    cached_packed: bool,
    g0: GenerationView,
    m1: ModelView,
    g1: GenerationView,
    action: Action,
) -> bool {
    if g0.left == 0 {
        &&& m1 == m0
        &&& g1 == (GenerationView { phase: Phase::Ended, ..g0 })
        &&& action matches Action::Done(r)
        &&& yields(r, outcome_of(g0.tokens, g0.input_ids.cpu), g0.input_ids.cpu)
        &&& refuses(r, None)
    } else {
        let left = (g0.left - 1) as nat;
        match action {
            Action::Sample(bits) => {
                &&& scored(m0, g0.input_ids, g0.pos, bits@)
                &&& m1 == model_after(m0, g0.input_ids, g0.pos)
                &&& g1 == (GenerationView { left, phase: Phase::Sampling, ..g0 })
            },
            Action::Judge(_) => false,
            Action::Done(r) => {
                &&& r is Err
                &&& blames(r, scores_why(m0, g0.input_ids, g0.pos))
                &&& !scores_sure(m0, g0.input_ids, g0.pos, cached_packed)
                &&& model_keeps(m0, m1, g0.input_ids, g0.pos, cached_packed)
                &&& !embeds(m0, g0.input_ids) ==> m1 == m0
                &&& model_during(m0, m1, g0.input_ids, g0.pos) || m1 == model_after(
                    m0,
                    g0.input_ids,
                    g0.pos,
                )
                &&& g1 == (GenerationView { left, phase: Phase::Ended, ..g0 })
            },
        }
    }
}

/// How a run takes the choice of a token: it is added to the sequences, and the last token
/// is handed on.
pub open spec fn choice_goes(
    g0: GenerationView,
    token: Option<usize>,
    g1: GenerationView,
    action: Action,
) -> bool {
    match token {
        None => {
            &&& g1 == (GenerationView { phase: Phase::Judging, ..g0 })
            &&& action == Action::Judge(last_token(g0.tokens))
        },
        Some(token) => {
            let tokens = g0.tokens.push(token);
            match action {
                Action::Sample(_) => false,
                Action::Judge(last) => {
                    &&& appended_of(g0.input_ids, token) matches Some(input_ids)
                    &&& g1 == (GenerationView { tokens, input_ids, phase: Phase::Judging, ..g0 })
                    &&& last == token
                },
                Action::Done(r) => {
                    &&& r matches Err(e)
                    &&& e is Tensor
                    &&& appended_of(g0.input_ids, token) is None || !g0.input_ids.cpu
                    &&& g1 == (GenerationView { tokens, phase: Phase::Ended, ..g0 })
                },
            }
        },
    }
}

/// How a run goes on with an answer.
pub open spec fn run_goes(
    m0: ModelView,
    cached_packed: bool,
    g0: GenerationView,
    event: Event,
    m1: ModelView,
    g1: GenerationView,
    action: Action,
) -> bool {
    match (g0.phase, event) {
        (Phase::Starting, Event::Begin) => round_goes(m0, cached_packed, g0, m1, g1, action),
        (Phase::Sampling, Event::Sampled(token)) => m1 == m0 && choice_goes(g0, token, g1, action),
        (Phase::Judging, Event::Judged(true)) => {
            &&& m1 == m0
            &&& g1 == (GenerationView { phase: Phase::Ended, ..g0 })
            &&& action matches Action::Done(r)
            &&& yields(r, outcome_of(g0.tokens, g0.input_ids.cpu), g0.input_ids.cpu)
            &&& refuses(r, None)
        },
        (Phase::Judging, Event::Judged(false)) => round_goes(m0, cached_packed, g0, m1, g1, action),
        _ => {
            &&& m1 == m0
            &&& g1 == (GenerationView { phase: Phase::Ended, ..g0 })
            &&& action == Action::Done(Err(ModelError::Protocol))
        },
    }
}

/// No answer lets a run come to more tokens than it could before.
pub proof fn law_budget_kept(
    m0: ModelView,
    cached_packed: bool,
    g0: GenerationView,
    event: Event,
    m1: ModelView,
    g1: GenerationView,
    action: Action,
)
    requires
        run_goes(m0, cached_packed, g0, event, m1, g1, action),
    ensures
        g1.budget() <= g0.budget(),
        g1.tokens.len() <= g0.budget(),
{
}

/// A run ends with the first token that is chosen, since it cannot be joined to the
/// sequences.
pub proof fn law_choice_ends_run(
    g0: GenerationView,
    token: usize,
    g1: GenerationView,
    action: Action,
)
    requires
        choice_goes(g0, Some(token), g1, action),
    ensures
        appended_of(g0.input_ids, token) is None,
        action matches Action::Done(r) && r is Err,
        g1.phase == Phase::Ended,
{
}

impl Generation {
    /// The tokens that were chosen so far.
    pub fn tokens(&self) -> (r: &Vec<usize>)
        ensures
            r@ == self@.tokens,
    {
        &self.tokens
    }

    /// The outcome of the run.
    fn outcome(&self) -> (r: Result<Array, ModelError>)
        ensures
            yields(r, outcome_of(self@.tokens, self@.input_ids.cpu), self@.input_ids.cpu),
            refuses(r, None),
    {
        let mut ids: Vec<i64> = Vec::new();
        for i in 0..self.tokens.len()
            invariant
                ids@ == integers(self.tokens@.subrange(0, i as int)),
        {
            ids.push(#[verifier::truncate] (self.tokens[i] as i64));
            proof {
                assert(ids@ =~= integers(self.tokens@.subrange(0, i + 1)));
            }
        }
        proof {
            assert(self.tokens@.subrange(0, self.tokens@.len() as int) =~= self.tokens@);
        }
        Array::from_ids(&ids, &self.input_ids)?.unsqueeze(0)
    }

    /// Adds a token that was chosen.
    fn append(&mut self, token: usize) -> (r: Result<(), ModelError>)
        ensures
            match r {
                Ok(_) => appended_of(old(self)@.input_ids, token) == Some(final(self)@.input_ids),
                Err(e) => e is Tensor && final(self)@.input_ids == old(self)@.input_ids && (
                appended_of(old(self)@.input_ids, token) is None || !old(self)@.input_ids.cpu),
            },
            final(self)@ == (GenerationView {
                tokens: old(self)@.tokens.push(token),
                input_ids: final(self)@.input_ids,
                ..old(self)@
            }),
    {
        self.tokens.push(token);
        let mut ids: Vec<i64> = Vec::new();
        ids.push(#[verifier::truncate] (token as i64));
        proof {
            assert(ids@ =~= seq![token as i64]);
        }
        let new_input = Array::from_ids(&ids, &self.input_ids)?;
        self.input_ids = self.input_ids.cat(&new_input, 1)?;
        Ok(())
    }

    /// Takes the scores of a round, or the error that it ended with: the scores are to be
    /// chosen by, the error is the outcome of the run.
    pub fn receive(&mut self, scores: Result<Vec<u32>, ModelError>) -> (r: Action)
        ensures
            match scores {
                Ok(bits) => {
                    &&& r == Action::Sample(bits)
                    &&& final(self)@ == (GenerationView { phase: Phase::Sampling, ..old(self)@ })
                },
                Err(e) => {
                    &&& r == Action::Done(Err(e))
                    &&& final(self)@ == (GenerationView { phase: Phase::Ended, ..old(self)@ })
                },
            },
    {
        match scores {
            Ok(bits) => {
                self.phase = Phase::Sampling;
                Action::Sample(bits)
            },
            Err(error) => {
                self.phase = Phase::Ended;
                Action::Done(Err(error))
            },
        }
    }
}

impl ParlerTts {
    /// A run that continues the sequences `input_ids` by at most `max_new_tokens` tokens.
    pub fn begin(&self, input_ids: Array, max_new_tokens: usize) -> (r: Generation)
        ensures
            r@ == (GenerationView {
                input_ids: input_ids@,
                pos: self@.pos_emb,
                tokens: Seq::empty(),
                left: max_new_tokens as nat,
                phase: Phase::Starting,
            }),
    {
        Generation {
            input_ids,
            pos: self.pos_emb(),
            tokens: Vec::new(),
            left: max_new_tokens,
            phase: Phase::Starting,
        }
    }

    /// The scores of the tokens that may follow the sequences of the run.
    fn score(&mut self, run: &Generation) -> (r: Result<Vec<u32>, ModelError>)
        requires
            old(self)@.shaped(),
            embeds(old(self)@, run@.input_ids) ==> old(self)@.proper(),
        ensures
            !embeds(old(self)@, run@.input_ids) ==> r is Err && final(self)@ == old(self)@,
            blames(r, scores_why(old(self)@, run@.input_ids, run@.pos)),
            match r {
                Ok(bits) => {
                    &&& scored(old(self)@, run@.input_ids, run@.pos, bits@)
                    &&& final(self)@ == model_after(old(self)@, run@.input_ids, run@.pos)
                },
                Err(_) => {
                    &&& !scores_sure(
                        old(self)@,
                        run@.input_ids,
                        run@.pos,
                        old(self).cached_packed(),
                    )
                    &&& model_keeps(
                        old(self)@,
                        final(self)@,
                        run@.input_ids,
                        run@.pos,
                        old(self).cached_packed(),
                    )
                    &&& model_during(old(self)@, final(self)@, run@.input_ids, run@.pos)
                        || final(self)@ == model_after(old(self)@, run@.input_ids, run@.pos)
                },
            },
            final(self)@.shaped(),
            old(self)@.proper() ==> final(self)@.proper(),
            forall|c: Config, w: WeightsView| #[trigger]
                final(self).stored(c, w) == old(self).stored(c, w),
    {
        let y = self.forward(&run.input_ids, &run.pos)?;
        let x = last_scores(&y)?;
        x.to_bits()
    }

    /// Goes on with a run.
    pub fn generate(&mut self, run: &mut Generation, event: Event) -> (r: Action)
        requires
            old(self)@.shaped(),
            old(run)@.left > 0 && embeds(old(self)@, old(run)@.input_ids) ==> old(self)@.proper(),
        ensures
            run_goes(
                old(self)@,
                old(self).cached_packed(),
                old(run)@,
                event,
                final(self)@,
                final(run)@,
                r,
            ),
            forall|c: Config, w: WeightsView| #[trigger]
                final(self).stored(c, w) == old(self).stored(c, w),
            final(self)@.shaped(),
            old(self)@.proper() ==> final(self)@.proper(),
    {
        match (run.phase, event) {
            (Phase::Starting, Event::Begin) => self.round(run),
            (Phase::Sampling, Event::Sampled(token)) => {
                match token {
                    None => {},
                    Some(token) => {
                        match run.append(token) {
                            Ok(_) => {},
                            Err(error) => {
                                run.phase = Phase::Ended;
                                return Action::Done(Err(error));
                            },
                        }
                    },
                }
                run.phase = Phase::Judging;
                let n: usize = run.tokens.len();
                Action::Judge(if n == 0 { 0 } else { run.tokens[n - 1] })
            },
            (Phase::Judging, Event::Judged(stop)) => {
                if stop {
                    run.phase = Phase::Ended;
                    Action::Done(run.outcome())
                } else {
                    self.round(run)
                }
            },
            _ => {
                run.phase = Phase::Ended;
                Action::Done(Err(ModelError::Protocol))
            },
        }
    }

    /// Begins a round, or ends the run where no round is left.
    fn round(&mut self, run: &mut Generation) -> (r: Action)
        requires
            old(self)@.shaped(),
            old(run)@.left > 0 && embeds(old(self)@, old(run)@.input_ids) ==> old(self)@.proper(),
        ensures
            round_goes(
                old(self)@,
                old(self).cached_packed(),
                old(run)@,
                final(self)@,
                final(run)@,
                r,
            ),
            forall|c: Config, w: WeightsView| #[trigger]
                final(self).stored(c, w) == old(self).stored(c, w),
            final(self)@.shaped(),
            old(self)@.proper() ==> final(self)@.proper(),
    {
        if run.left == 0 {
            run.phase = Phase::Ended;
            return Action::Done(run.outcome());
        }
        run.left = run.left - 1;
        let scores = self.score(run);
        run.receive(scores)
    }
}

} // verus!
