//! Token bookkeeping of autoregressive generation: the sliding context window
//! fed to the model at each step, where each step's input sits in the
//! sequence, and when generation stops.

use vstd::prelude::*;

verus! {

/// The last `max` tokens of `all` (all of them when there are fewer).
pub open spec fn window(all: Seq<u32>, max: nat) -> Seq<u32> {
    if all.len() > max { all.subrange(all.len() - max, all.len() as int) } else { all }
}

/// The window holds at most `max` tokens, the newest ones, and after a token
/// is appended it ends with that token.
pub proof fn lemma_window_keeps_newest(all: Seq<u32>, max: nat, t: u32)
    requires
        max > 0,
    ensures
        window(all, max).len() <= max || window(all, max) == all,
        window(all, max).len() == if all.len() > max { max } else { all.len() },
        forall|i: int| 0 <= i < window(all, max).len() ==> #[trigger] window(all, max)[i] == all[all.len() - window(all, max).len() + i],
        window(all.push(t), max).last() == t,
{
    assert(all.push(t).last() == t);
}

/// Model of a generation in progress: every token so far (prompt first),
/// the prompt's length, the context limit, and how many tokens may be
/// generated at most.
pub struct WindowView {
    pub tokens: Seq<u32>,
    pub prompt_len: nat,
    pub max_context: nat,
    pub max_new: nat,
}

/// The tokens of a generation with the context window the model sees.
#[derive(Debug)]
pub struct TokenWindow {
    all_tokens: Vec<u32>,
    context_tokens: Vec<u32>,
    prompt_len: usize,
    max_context: usize,
    max_new: usize,
}

impl View for TokenWindow {
    type V = WindowView;

    closed spec fn view(&self) -> WindowView {
        WindowView {
            tokens: self.all_tokens@,
            prompt_len: self.prompt_len as nat,
            max_context: self.max_context as nat,
            max_new: self.max_new as nat,
        }
    }
}

impl TokenWindow {
    #[verifier::type_invariant]
    spec fn well_formed(self) -> bool {
        &&& self.max_context > 0
        &&& 0 < self.prompt_len <= self.all_tokens@.len()
        &&& self.context_tokens@ == window(self.all_tokens@, self.max_context as nat)
    }

    /// Starts a generation from the prompt's tokens, with at most
    /// `max_context` tokens of context and at most `max_new` generated tokens.
    pub fn new(prompt_tokens: Vec<u32>, max_context: usize, max_new: usize) -> (w: Self)
        requires
            prompt_tokens@.len() > 0,
            max_context > 0,
        ensures
            w@ == (WindowView {
                tokens: prompt_tokens@,
                prompt_len: prompt_tokens@.len(),
                max_context: max_context as nat,
                max_new: max_new as nat,
            }),
    {
        let n = prompt_tokens.len();
        let mut context: Vec<u32> = Vec::new();
        let from = if n > max_context { n - max_context } else { 0 };
        let mut i = from;
        while i < n
            invariant
                from <= i <= n,
                n == prompt_tokens@.len(),
                context@ == prompt_tokens@.subrange(from as int, i as int),
            decreases n - i,
        {
            context.push(prompt_tokens[i]);
            i += 1;
            assert(context@ =~= prompt_tokens@.subrange(from as int, i as int));
        }
        assert(context@ =~= window(prompt_tokens@, max_context as nat));
        TokenWindow { all_tokens: prompt_tokens, context_tokens: context, prompt_len: n, max_context, max_new }
    }

    /// What the model reads at step `step`, and where that input starts in
    /// the sequence: the whole window first, then only the newest token.
    pub fn step_input(&self, step: usize) -> (r: (Vec<u32>, usize))
        ensures
            step == 0 ==> r.0@ == window(self@.tokens, self@.max_context)
                && r.1 == self@.tokens.len() - window(self@.tokens, self@.max_context).len(),
            step > 0 ==> r.0@ == seq![self@.tokens.last()] && r.1 == self@.tokens.len() - 1,
    {
        proof {
            use_type_invariant(self);
        }
        if step == 0 {
            let mut input: Vec<u32> = Vec::new();
            let mut i: usize = 0;
            while i < self.context_tokens.len()
                invariant
                    i <= self.context_tokens@.len(),
                    input@ == self.context_tokens@.subrange(0, i as int),
                decreases self.context_tokens.len() - i,
            {
                input.push(self.context_tokens[i]);
                i += 1;
                assert(input@ =~= self.context_tokens@.subrange(0, i as int));
            }
            assert(self.context_tokens@.subrange(0, self.context_tokens@.len() as int) =~= self.context_tokens@);
            (input, self.all_tokens.len() - self.context_tokens.len())
        } else {
            let last = self.all_tokens[self.all_tokens.len() - 1];
            let mut input: Vec<u32> = Vec::new();
            input.push(last);
            assert(input@ =~= seq![last]);
            (input, self.all_tokens.len() - 1)
        }
    }

    /// Takes the sampled token: the end-of-sequence token stops generation and
    /// changes nothing; any other is appended and the window slides to keep
    /// at most `max_context` tokens.
    pub fn accept(&mut self, next: u32, eos: Option<u32>) -> (go_on: bool)
        ensures
            go_on == (eos != Some(next)),
            go_on ==> final(self)@ == (WindowView { tokens: old(self)@.tokens.push(next), ..old(self)@ }),
            !go_on ==> final(self)@ == old(self)@,
    {
        proof {
            use_type_invariant(&*self);
        }
        let stop = match eos {
            Some(e) => e == next,
            None => false,
        };
        if stop {
            return false;
        }
        let ghost before = self.all_tokens@;
        let mut all = self.all_tokens.clone();
        let mut context = self.context_tokens.clone();
        assert(all@ =~= self.all_tokens@);
        assert(context@ =~= self.context_tokens@);
        all.push(next);
        context.push(next);
        if context.len() > self.max_context {
            context.remove(0);
        }
        proof {
            let max = self.max_context as nat;
            assert(context@ =~= window(before.push(next), max));
        }
        *self = TokenWindow {
            all_tokens: all,
            context_tokens: context,
            prompt_len: self.prompt_len,
            max_context: self.max_context,
            max_new: self.max_new,
        };
        true
    }

    /// Whether another token may still be generated: fewer than `max_new`
    /// have been so far.
    pub fn has_room(&self) -> (b: bool)
        ensures
            b == (self@.tokens.len() - self@.prompt_len < self@.max_new),
    {
        proof {
            use_type_invariant(self);
        }
        self.all_tokens.len() - self.prompt_len < self.max_new
    }

    /// The tokens generated after the prompt.
    pub fn generated(&self) -> (g: Vec<u32>)
        ensures
            g@ == self@.tokens.subrange(self@.prompt_len as int, self@.tokens.len() as int),
    {
        proof {
            use_type_invariant(self);
        }
        let mut g: Vec<u32> = Vec::new();
        let mut i = self.prompt_len;
        while i < self.all_tokens.len()
            invariant
                self.prompt_len <= i <= self.all_tokens@.len(),
                g@ == self.all_tokens@.subrange(self.prompt_len as int, i as int),
            decreases self.all_tokens.len() - i,
        {
            g.push(self.all_tokens[i]);
            i += 1;
            assert(g@ =~= self.all_tokens@.subrange(self.prompt_len as int, i as int));
        }
        g
    }
}

} // verus!
