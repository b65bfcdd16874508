//! Generation: the prompt goes through the model token by token, and then each token is drawn from
//! the scores of the one before it.
use vstd::prelude::*;
use vstd::slice::slice_to_vec;

use crate::float::Float32;
use crate::forward::{forward, RunState};
use crate::forward::{passed, runs, State};
use crate::model::{Config, Weights};
use crate::sampler::Sampler;
use crate::sampler::{draw_steps, drawn, is_argmax, law_drawn_token_exists, no_nan, xorshift};
use crate::scalar::total;
use crate::scalar::Term;
use crate::tokenizer::EOS;

verus! {

/// How far a text has come.
pub struct Generation {
    prompt: Vec<u32>,
    token: u32,
    pos: usize,
    steps: usize,
    stopped: bool,
}

/// What a step of a generation leads to.
#[derive(Clone, Copy, PartialEq, Eq, Debug, Structural)]
pub enum Step {
    /// The text goes on: `next` follows `prev`.
    Token { prev: u32, next: u32 },
    /// The mark of the end was chosen, so the text is over.
    Stopped,
    /// No token can be chosen from the scores.
    Stuck,
}

impl Generation {
    /// The tokens that the text begins with.
    pub closed spec fn prompt(self) -> Seq<u32> {
        self.prompt@
    }

    /// The token that goes through the model next.
    pub closed spec fn token(self) -> u32 {
        self.token
    }

    /// The position of that token.
    pub closed spec fn pos(self) -> usize {
        self.pos
    }

    /// The number of positions that are run at most.
    pub closed spec fn steps(self) -> usize {
        self.steps
    }

    /// The text is over before its last position.
    pub closed spec fn stopped(self) -> bool {
        self.stopped
    }

    /// There is a prompt, its tokens go through the model in order, and no position is past the
    /// last.
    pub closed spec fn wf(self) -> bool {
        &&& self.prompt@.len() > 0
        &&& self.pos <= self.steps
        &&& !self.stopped && self.pos < self.prompt@.len() ==> self.token
            == self.prompt@[self.pos as int]
    }

    /// A token is still to go through the model.
    pub open spec fn goes_on(self) -> bool {
        !self.stopped() && self.pos() < self.steps()
    }

    /// The token that the prompt has next, while it lasts.
    pub open spec fn forced(self) -> Option<u32> {
        if self.pos() + 1 < self.prompt().len() {
            Some(self.prompt()[self.pos() + 1])
        } else {
            None
        }
    }

    /// This is `before` after `next` has been chosen: one position on, with that token, or over
    /// where it marks the end of the text.
    pub open spec fn follows(self, before: Generation, next: u32) -> bool {
        &&& self.prompt() == before.prompt()
        &&& self.steps() == before.steps()
        &&& self.pos() == before.pos() + 1
        &&& self.stopped() == (next == EOS)
        &&& self.token() == if next == EOS {
            before.token()
        } else {
            next
        }
    }

    /// A text that begins with `prompt` and runs for `steps` positions, as far as `seq_len` allows.
    pub fn new(prompt: Vec<u32>, steps: usize, seq_len: usize) -> (r: Generation)
        requires
            prompt@.len() > 0,
        ensures
            r.wf(),
            r.prompt() == prompt@,
            r.token() == prompt@[0],
            r.pos() == 0,
            r.steps() == if steps <= seq_len {
                steps
            } else {
                seq_len
            },
            !r.stopped(),
    {
        let token: u32 = prompt[0];
        let steps: usize = if steps <= seq_len {
            steps
        } else {
            seq_len
        };
        Generation { prompt, token, pos: 0, steps, stopped: false }
    }

    /// The token that goes through the model next.
    pub fn current(&self) -> (r: u32)
        ensures
            r == self.token(),
    {
        self.token
    }

    /// Its position: the number of tokens that have gone through the model.
    pub fn position(&self) -> (r: usize)
        ensures
            r == self.pos(),
    {
        self.pos
    }

    /// Whether a token is still to go through the model.
    pub fn is_going_on(&self) -> (r: bool)
        ensures
            r == self.goes_on(),
    {
        !self.stopped && self.pos < self.steps
    }

    /// Chooses the token that follows: the prompt's, while it lasts, else one that the sampler
    /// finds in the scores. There is none where the scores have no order or there are none.
    pub fn choose_next<F: Fn(Term<Float32>) -> Float32>(
        &self,
        f: &F,
        sampler: &mut Sampler,
        logits: &[Float32],
    ) -> (r: Option<u32>)
        requires
            total(*f),
            self.wf(),
            self.goes_on(),
        ensures
            next_chosen(*f, self.forced(), *old(sampler), logits@, *final(sampler), r),
    {
        if self.pos + 1 < self.prompt.len() {
            return Some(self.prompt[self.pos + 1]);
        }
        let mut scores = slice_to_vec(logits);
        if !has_choice(sampler, logits) {
            return None;
        }
        Some(sampler.sample(f, &mut scores))
    }

    /// Takes the token that follows. The result says how the text goes on.
    pub fn advance(&mut self, next: u32) -> (r: Step)
        requires
            old(self).wf(),
            old(self).goes_on(),
            old(self).forced() matches Some(token) ==> next == token,
        ensures
            final(self).wf(),
            final(self).follows(*old(self), next),
            r == if next == EOS {
                Step::Stopped
            } else {
                (Step::Token { prev: old(self).token(), next })
            },
    {
        let prev: u32 = self.token;
        self.pos += 1;
        if next == EOS {
            self.stopped = true;
            return Step::Stopped;
        }
        self.token = next;
        Step::Token { prev, next }
    }

    /// One step: the current token goes through the model, and the token that follows is chosen.
    pub fn step<F: Fn(Term<Float32>) -> Float32>(
        &mut self,
        f: &F,
        cfg: &Config,
        weights: &Weights<Float32>,
        state: &mut RunState<Float32>,
        sampler: &mut Sampler,
    ) -> (r: Step)
        requires
            total(*f),
            old(self).wf(),
            old(self).goes_on(),
            old(state)@.sized(*cfg),
            runs(*cfg, *weights, old(self).token() as int, old(self).pos() as int),
        ensures
            final(self).wf(),
            final(state)@.sized(*cfg),
            stepped(
                *f,
                *cfg,
                *weights,
                *old(self),
                old(state)@,
                *old(sampler),
                *final(self),
                final(state)@,
                *final(sampler),
                r,
            ),
    {
        let logits = forward(f, cfg, weights, state, self.token, self.pos);
        match self.choose_next(f, sampler, logits) {
            Some(next) => self.advance(next),
            None => Step::Stuck,
        }
    }
}

/// The scores allow a choice: where the best is taken, they have an order, and where one is drawn,
/// there is one.
pub open spec fn choosable(sampler: Sampler, logits: Seq<Float32>) -> bool {
    if sampler.greedy() {
        logits.len() >= 2 ==> no_nan(logits)
    } else {
        logits.len() > 0
    }
}

/// The sampler's choice from scores.
pub open spec fn sampled<F: Fn(Term<Float32>) -> Float32>(
    f: F,
    before: Sampler,
    logits: Seq<Float32>,
    after: Sampler,
    r: u32,
) -> bool {
    &&& after.same_settings(before)
    &&& before.greedy() ==> {
        &&& after.rng_state() == before.rng_state()
        &&& exists|i: usize| #[trigger] is_argmax(logits, i as int) && r == i as u32
    }
    &&& !before.greedy() ==> {
        &&& after.rng_state() == xorshift(before.rng_state())
        &&& exists|scaled: Seq<Float32>, probs: Seq<Float32>, coin: Float32, i: usize|
            {
                &&& #[trigger] draw_steps(f, before, logits, scaled, probs, coin, i)
                &&& r == i as u32
            }
    }
}

/// The choice of the token that follows.
pub open spec fn next_chosen<F: Fn(Term<Float32>) -> Float32>(
    f: F,
    forced: Option<u32>,
    before: Sampler,
    logits: Seq<Float32>,
    after: Sampler,
    r: Option<u32>,
) -> bool {
    match forced {
        Some(token) => r == Some(token) && after == before,
        None => if choosable(before, logits) {
            r is Some && sampled(f, before, logits, after, r->0)
        } else {
            r is None && after == before
        },
    }
}

/// A step of a generation: a forward pass of its token at its position, and a choice from the
/// scores.
pub open spec fn stepped<F: Fn(Term<Float32>) -> Float32>(
    f: F,
    c: Config,
    w: Weights<Float32>,
    g: Generation,
    s: State<Float32>,
    sampler: Sampler,
    g_after: Generation,
    s_after: State<Float32>,
    sampler_after: Sampler,
    r: Step,
) -> bool {
    &&& passed(f, c, w, g.token() as int, g.pos() as int, s, s_after)
    &&& exists|next: Option<u32>|
        {
            &&& #[trigger] next_chosen(f, g.forced(), sampler, s_after.logits, sampler_after, next)
            &&& match next {
                Some(next) => {
                    &&& g_after.follows(g, next)
                    &&& r == if next == EOS {
                        Step::Stopped
                    } else {
                        (Step::Token { prev: g.token(), next })
                    }
                },
                None => g_after == g && r == Step::Stuck,
            }
        }
}

fn has_choice(sampler: &Sampler, logits: &[Float32]) -> (r: bool)
    ensures
        r == choosable(*sampler, logits@),
{
    if !sampler.is_greedy() {
        return logits.len() > 0;
    }
    if logits.len() < 2 {
        return true;
    }
    let mut i: usize = 0;
    while i < logits.len()
        invariant
            sampler.greedy(),
            2 <= logits@.len(),
            i <= logits@.len(),
            forall|k: int| 0 <= k < i ==> !(#[trigger] logits@[k]).nan(),
        decreases logits@.len() - i,
    {
        if logits[i].is_nan() {
            assert(logits@[i as int].nan());
            return false;
        }
        i += 1;
    }
    true
}

/// While the prompt lasts, its tokens go through the model in order, each at its own position.
pub proof fn law_prompt_is_fed_in_order(g: Generation)
    requires
        g.wf(),
        !g.stopped(),
        g.pos() < g.prompt().len(),
    ensures
        g.token() == g.prompt()[g.pos() as int],
{
}

/// No position past the last is reached.
pub proof fn law_positions_stay_within_steps(g: Generation)
    requires
        g.wf(),
    ensures
        g.pos() <= g.steps(),
{
}

/// A step that chooses a token leaves one position less to go, so that a generation ends.
pub proof fn law_generation_ends<F: Fn(Term<Float32>) -> Float32>(
    f: F,
    c: Config,
    w: Weights<Float32>,
    g: Generation,
    s: State<Float32>,
    sampler: Sampler,
    g_after: Generation,
    s_after: State<Float32>,
    sampler_after: Sampler,
    r: Step,
)
    requires
        g.goes_on(),
        stepped(f, c, w, g, s, sampler, g_after, s_after, sampler_after, r),
        r != Step::Stuck,
    ensures
        g_after.steps() - g_after.pos() == g.steps() - g.pos() - 1,
        r == Step::Stopped <==> g_after.stopped(),
{
}

/// A token that is drawn has a score.
pub proof fn law_chosen_token_has_score<F: Fn(Term<Float32>) -> Float32>(
    f: F,
    before: Sampler,
    logits: Seq<Float32>,
    after: Sampler,
    r: u32,
)
    requires
        0 < logits.len() <= u32::MAX,
        sampled(f, before, logits, after, r),
    ensures
        r < logits.len(),
{
    if before.greedy() {
        let i = choose|i: usize| #[trigger] is_argmax(logits, i as int) && r == i as u32;
    } else {
        let (scaled, probs, coin, i) = choose|
            scaled: Seq<Float32>,
            probs: Seq<Float32>,
            coin: Float32,
            i: usize,
        |
            {
                &&& #[trigger] draw_steps(f, before, logits, scaled, probs, coin, i)
                &&& r == i as u32
            };
        assert(drawn(f, probs, before.topp(), coin, i));
        law_drawn_token_exists(f, probs, before.topp(), coin, i);
    }
}

/// While the prompt lasts, a step leads to its next token, whatever the scores, and leaves the
/// sampler alone. Token 2 ends the text even there.
pub proof fn law_prompt_is_not_sampled<F: Fn(Term<Float32>) -> Float32>(
    f: F,
    c: Config,
    w: Weights<Float32>,
    g: Generation,
    s: State<Float32>,
    sampler: Sampler,
    g_after: Generation,
    s_after: State<Float32>,
    sampler_after: Sampler,
    r: Step,
)
    requires
        stepped(f, c, w, g, s, sampler, g_after, s_after, sampler_after, r),
        g.pos() + 1 < g.prompt().len(),
    ensures
        ({
            let next = g.prompt()[g.pos() + 1];
            &&& next == 2 ==> r == Step::Stopped
            &&& next != 2 ==> r == Step::Token { prev: g.token(), next }
            &&& next != 2 ==> g_after.token() == next
        }),
        g_after.pos() == g.pos() + 1,
        sampler_after == sampler,
{
}

/// After the prompt, a step leads to the token that the sampler chooses from the scores of the
/// current token at its position, and this token goes through the model next, one position on.
/// Token 2 ends the text, and no other token does.
pub proof fn law_text_goes_on_with_sampled_tokens<F: Fn(Term<Float32>) -> Float32>(
    f: F,
    c: Config,
    w: Weights<Float32>,
    g: Generation,
    s: State<Float32>,
    sampler: Sampler,
    g_after: Generation,
    s_after: State<Float32>,
    sampler_after: Sampler,
    r: Step,
)
    requires
        stepped(f, c, w, g, s, sampler, g_after, s_after, sampler_after, r),
        g.pos() + 1 >= g.prompt().len(),
    ensures
        passed(f, c, w, g.token() as int, g.pos() as int, s, s_after),
        match r {
            Step::Token { prev, next } => {
                &&& prev == g.token()
                &&& next != 2
                &&& sampled(f, sampler, s_after.logits, sampler_after, next)
                &&& g_after.token() == next
                &&& g_after.pos() == g.pos() + 1
                &&& g_after.goes_on() <==> g.pos() + 1 < g.steps()
            },
            Step::Stopped => {
                &&& sampled(f, sampler, s_after.logits, sampler_after, 2)
                &&& !g_after.goes_on()
            },
            Step::Stuck => {
                &&& s_after.logits.len() == 0 || !no_nan(s_after.logits)
                &&& sampler_after == sampler
                &&& g_after == g
            },
        },
{
    let next = choose|next: Option<u32>|
        {
            &&& #[trigger] next_chosen(f, g.forced(), sampler, s_after.logits, sampler_after, next)
            &&& match next {
                Some(next) => {
                    &&& g_after.follows(g, next)
                    &&& r == if next == EOS {
                        Step::Stopped
                    } else {
                        (Step::Token { prev: g.token(), next })
                    }
                },
                None => g_after == g && r == Step::Stuck,
            }
        };
}

/// A token can be drawn wherever there are scores. The best can be taken wherever they are
/// numbers, and not where one of two or more is none.
pub proof fn law_when_a_token_can_be_chosen(sampler: Sampler, logits: Seq<Float32>, i: int)
    requires
        0 <= i < logits.len(),
    ensures
        !sampler.greedy() ==> choosable(sampler, logits),
        (forall|j: int| 0 <= j < logits.len() ==> !(#[trigger] logits[j]).nan()) ==> choosable(
            sampler,
            logits,
        ),
        sampler.greedy() && logits.len() >= 2 && logits[i].nan() ==> !choosable(sampler, logits),
        !sampler.greedy() ==> !choosable(sampler, Seq::empty()),
{
}

} // verus!
