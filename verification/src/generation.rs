//! The bookkeeping of text generation: which tokens the model is fed at each
//! step, which recent tokens the repeat penalty looks at, and when generation
//! stops. The model, the sampler and the tokenizer run outside; they hand
//! each sampled token back to [`Generation::accept`].
use vstd::prelude::*;

verus! {

/// `a - b`, or 0 where `b` is larger.
pub open spec fn saturating_sub(a: nat, b: nat) -> nat {
    if a >= b {
        (a - b) as nat
    } else {
        0
    }
}

/// The state of a generation, as a value of the specification.
pub struct GenerationState {
    /// The prompt's tokens, then every token sampled so far.
    pub tokens: Seq<u32>,
    /// How many tokens have been sampled.
    pub steps: nat,
    /// How many tokens may be sampled at most.
    pub sample_len: nat,
    /// How many recent tokens the repeat penalty looks at.
    pub repeat_last_n: nat,
    /// The token that ends the text.
    pub eos_token: u32,
    /// Whether the end-of-text token has been sampled.
    pub finished: bool,
}

/// One step of generation: the model is fed `tokens[start_pos..]`, and the
/// repeat penalty looks at `tokens[penalty_start..]`.
#[derive(Debug, Clone, Copy, PartialEq, Eq, Structural)]
pub struct Step {
    pub start_pos: usize,
    pub penalty_start: usize,
}

impl GenerationState {
    /// Whether another token is to be sampled.
    pub open spec fn goes_on(self) -> bool {
        !self.finished && self.steps < self.sample_len
    }

    /// The step that comes next: the first step feeds the whole prompt; each
    /// later one feeds only the token sampled last, since the model keeps
    /// what it was fed before.
    pub open spec fn next_step(self) -> Option<(nat, nat)> {
        if self.goes_on() {
            let n = self.tokens.len();
            let context = if self.steps > 0 {
                1
            } else {
                n
            };
            Some((saturating_sub(n, context), saturating_sub(n, self.repeat_last_n)))
        } else {
            None
        }
    }

    /// The state after `token` has been sampled.
    pub open spec fn after(self, token: u32) -> GenerationState {
        GenerationState {
            tokens: self.tokens.push(token),
            steps: self.steps + 1,
            finished: token == self.eos_token,
            ..self
        }
    }
}

/// The generation of a text from a prompt.
pub struct Generation {
    tokens: Vec<u32>,
    steps: usize,
    sample_len: usize,
    repeat_last_n: usize,
    eos_token: u32,
    finished: bool,
}

impl View for Generation {
    type V = GenerationState;

    closed spec fn view(&self) -> GenerationState {
        GenerationState {
            tokens: self.tokens@,
            steps: self.steps as nat,
            sample_len: self.sample_len as nat,
            repeat_last_n: self.repeat_last_n as nat,
            eos_token: self.eos_token,
            finished: self.finished,
        }
    }
}

impl Generation {
    /// A generation that starts from the prompt's tokens.
    pub fn new(prompt: Vec<u32>, eos_token: u32, sample_len: usize, repeat_last_n: usize) -> (g:
        Generation)
        ensures
            g@ == (GenerationState {
                tokens: prompt@,
                steps: 0,
                sample_len: sample_len as nat,
                repeat_last_n: repeat_last_n as nat,
                eos_token,
                finished: false,
            }),
    {
        Generation { tokens: prompt, steps: 0, sample_len, repeat_last_n, eos_token, finished: false }
    }

    /// The prompt's tokens, then every token sampled so far.
    pub fn tokens(&self) -> (t: &Vec<u32>)
        ensures
            t@ == self@.tokens,
    {
        &self.tokens
    }

    /// How many tokens have been sampled.
    pub fn generated(&self) -> (n: usize)
        ensures
            n == self@.steps,
    {
        self.steps
    }

    /// The next step, or `None` once the end-of-text token has been sampled or
    /// `sample_len` tokens have.
    pub fn next_step(&self) -> (r: Option<Step>)
        ensures
            match self@.next_step() {
                Some((start, penalty)) => r == Some(
                    Step { start_pos: start as usize, penalty_start: penalty as usize },
                ),
                None => r is None,
            },
            r matches Some(st) ==> st.start_pos <= self@.tokens.len() && st.penalty_start
                <= self@.tokens.len(),
            r is Some <==> self@.goes_on(),
            self@.steps == 0 ==> (r matches Some(st) ==> st.start_pos == 0),
            self@.steps > 0 && self@.tokens.len() > 0 ==> (r matches Some(st) ==> st.start_pos
                == self@.tokens.len() - 1),
            r matches Some(st) ==> self@.tokens.len() - st.penalty_start == if self@.tokens.len()
                <= self@.repeat_last_n {
                self@.tokens.len() as int
            } else {
                self@.repeat_last_n as int
            },
    {
        if self.finished || self.steps >= self.sample_len {
            return None;
        }
        let n = self.tokens.len();
        let context = if self.steps > 0 {
            1
        } else {
            n
        };
        Some(Step { start_pos: n.saturating_sub(context), penalty_start: n.saturating_sub(self.repeat_last_n) })
    }

    /// Record the token sampled at the step just taken. Returns whether the
    /// token is text to decode, that is, not the end-of-text token.
    pub fn accept(&mut self, token: u32) -> (decode: bool)
        requires
            old(self)@.goes_on(),
        ensures
            final(self)@ == old(self)@.after(token),
            decode == (token != old(self)@.eos_token),
    {
        self.tokens.push(token);
        self.steps = self.steps + 1;
        self.finished = token == self.eos_token;
        !self.finished
    }
}

/// Each token is fed to the model exactly once and in order: after a token
/// has been sampled, the next step starts right where the tokens ended
/// before it, so that it feeds the new token alone.
pub proof fn lemma_each_token_fed_once(g: GenerationState, token: u32)
    requires
        g.goes_on(),
        g.after(token).goes_on(),
    ensures
        g.after(token).next_step() matches Some((start, _)) && start == g.tokens.len()
            && g.after(token).tokens.len() - start == 1,
{
}

/// The first step feeds the whole prompt, whatever its length: the model
/// is fed from position 0.
pub proof fn lemma_first_step_feeds_whole_prompt(g: GenerationState)
    requires
        g.goes_on(),
        g.steps == 0,
    ensures
        g.next_step() matches Some((start, _)) && start == 0,
{
}

/// Every later step feeds exactly one token, the one sampled last.
pub proof fn lemma_later_steps_feed_one_token(g: GenerationState)
    requires
        g.goes_on(),
        g.steps > 0,
        g.tokens.len() > 0,
    ensures
        g.next_step() matches Some((start, _)) && start == g.tokens.len() - 1,
{
}

/// The repeat penalty looks at the last `repeat_last_n` tokens, or at all of
/// them where there are fewer.
pub proof fn lemma_penalty_window(g: GenerationState)
    requires
        g.goes_on(),
    ensures
        g.next_step() matches Some((_, penalty)) && penalty <= g.tokens.len() && g.tokens.len()
            - penalty == if g.tokens.len() <= g.repeat_last_n {
            g.tokens.len() as int
        } else {
            g.repeat_last_n as int
        },
{
}

/// Generation stops: no step is offered once `sample_len` tokens have been
/// sampled or the end-of-text token has.
pub proof fn lemma_generation_stops(g: GenerationState, token: u32)
    requires
        g.goes_on(),
        token == g.eos_token || g.steps + 1 >= g.sample_len,
    ensures
        g.after(token).next_step() is None,
{
}

} // verus!
