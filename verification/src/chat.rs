//! Conversations: what is asked of a model, and how its reply is drawn.
use vstd::prelude::*;

use crate::dtype::{embedding_row, stored_size, token_row};
use crate::tensor::{dtype_size, DType};
use crate::text::{
    chars_of, concat3, concat4, eq_ignore_case, find_from, lemma_width_grows, occurs_at,
    same_ignoring_case, text_width, trim, trimmed, width, width_of,
};

verus! {

/// A message of a conversation.
#[derive(Debug)]
pub struct Message {
    /// Who speaks: the user, the assistant or the system.
    pub role: String,
    /// What is said.
    pub content: String,
}

// ── Drawing a reply ─────────────────────────────────────────────────
/// What is to be done next.
#[derive(Clone, Copy, Debug, PartialEq, Eq, Structural)]
pub enum Action {
    /// The model is to see a token, of the prompt or drawn, at a position.
    Evaluate { token: usize, pos: usize, prompt: bool },
    /// The next token is to be drawn.
    Draw,
    /// The reply is complete.
    Finish,
}

/// The lower half of a number: a token as a reply keeps it.
pub open spec fn low_word(n: usize) -> u32 {
    (n as u64 % 0x1_0000_0000) as u32
}

/// A reply that is being drawn.
#[verifier::ext_equal]
pub struct Reply {
    /// The tokens of the prompt.
    pub prompt: Seq<u32>,
    /// How many tokens the model has seen.
    pub seen: int,
    /// The tokens of the reply so far.
    pub generated: Seq<u32>,
    /// The token that was drawn last.
    pub last: usize,
    /// Whether the reply ended before its greatest length.
    pub stopped: bool,
    /// The greatest length of the reply.
    pub limit: int,
    /// The token that ends a reply.
    pub eos: u32,
}

impl Reply {
    /// The model has seen no token that does not exist, and at most the last one
    /// is still to be seen once the prompt was.
    pub open spec fn wf(self) -> bool {
        &&& self.prompt.len() > 0
        &&& 0 <= self.seen <= self.prompt.len() + self.generated.len()
        &&& self.seen + 1 >= self.prompt.len() + self.generated.len() || self.generated.len() == 0
        &&& self.generated.len() <= self.limit
    }

    /// What is to be done next: the prompt is seen token by token, then every
    /// drawn token is seen before the next is drawn.
    pub open spec fn action(self) -> Action {
        if self.seen < self.prompt.len() {
            Action::Evaluate {
                token: self.prompt[self.seen] as usize,
                pos: self.seen as usize,
                prompt: true,
            }
        } else if self.seen < self.prompt.len() + self.generated.len() {
            Action::Evaluate { token: self.last, pos: self.seen as usize, prompt: false }
        } else if !self.stopped && self.generated.len() < self.limit {
            Action::Draw
        } else {
            Action::Finish
        }
    }

    /// The model has seen one more token.
    pub open spec fn after_seen(self) -> Reply {
        Reply { seen: self.seen + 1, ..self }
    }

    /// A token was drawn. The one that ends a reply is not part of it.
    pub open spec fn after_drawn(self, token: usize) -> Reply {
        if token == self.eos {
            self.after_stop()
        } else {
            Reply {
                generated: self.generated.push(low_word(token)),
                last: token,
                ..self
            }
        }
    }

    /// No token could be drawn.
    pub open spec fn after_stop(self) -> Reply {
        Reply { stopped: true, ..self }
    }
}

/// A reply to a prompt before anything was done.
pub open spec fn new_reply(prompt: Seq<u32>, limit: int, eos: u32) -> Reply {
    Reply {
        prompt,
        seen: 0,
        generated: Seq::empty(),
        last: 0,
        stopped: false,
        limit,
        eos,
    }
}

/// The tokens before the first that ends a reply, no more than the limit.
pub open spec fn kept(draws: Seq<usize>, eos: u32, limit: int) -> Seq<u32>
    decreases draws.len(),
{
    if draws.len() == 0 || limit <= 0 || draws[0] == eos {
        Seq::empty()
    } else {
        seq![low_word(draws[0])] + kept(draws.drop_first(), eos, limit - 1)
    }
}

/// The reply in the end, where the model would draw these tokens one after the
/// other, and none behind them.
pub open spec fn finished(r: Reply, draws: Seq<usize>) -> Reply
    decreases
            (if r.stopped {
                0int
            } else {
                1
            }) + 2 * (r.limit - r.generated.len()) + (r.prompt.len() + r.generated.len() - r.seen),
    when r.wf()
{
    match r.action() {
        Action::Evaluate { .. } => finished(r.after_seen(), draws),
        Action::Draw => if draws.len() == 0 {
            finished(r.after_stop(), draws)
        } else {
            finished(r.after_drawn(draws[0]), draws.drop_first())
        },
        Action::Finish => r,
    }
}

/// However the tokens fall, the reply is what was drawn before the first token
/// that ends a reply, no more than the limit, and the model has seen the prompt
/// and the whole reply.
pub proof fn lemma_finished(r: Reply, draws: Seq<usize>)
    requires
        r.wf(),
    ensures
        finished(r, draws).wf(),
        finished(r, draws).action() == Action::Finish,
        finished(r, draws).generated == r.generated + (if r.stopped {
            Seq::empty()
        } else {
            kept(draws, r.eos, r.limit - r.generated.len())
        }),
        finished(r, draws).seen == finished(r, draws).prompt.len() + finished(
            r,
            draws,
        ).generated.len(),
        finished(r, draws).prompt == r.prompt,
    decreases
            (if r.stopped {
                0int
            } else {
                1
            }) + 2 * (r.limit - r.generated.len()) + (r.prompt.len() + r.generated.len() - r.seen),
{
    match r.action() {
        Action::Evaluate { .. } => {
            lemma_finished(r.after_seen(), draws);
        },
        Action::Draw => {
            if draws.len() == 0 {
                lemma_finished(r.after_stop(), draws);
            } else {
                lemma_finished(r.after_drawn(draws[0]), draws.drop_first());
                if draws[0] != r.eos {
                    let t = low_word(draws[0]);
                    assert(r.generated.push(t) + kept(
                        draws.drop_first(),
                        r.eos,
                        r.limit - r.generated.len() - 1,
                    ) =~= r.generated + kept(draws, r.eos, r.limit - r.generated.len()));
                }
            }
        },
        Action::Finish => {},
    }
}

/// What is kept of the same draws under a smaller limit is the beginning of what is
/// kept under a greater one. It is no longer than the limit, and no token in it ends
/// a reply.
pub proof fn lemma_kept_prefix(draws: Seq<usize>, eos: u32, a: int, b: int)
    requires
        0 <= a <= b,
    ensures
        kept(draws, eos, a).len() <= a,
        kept(draws, eos, a) == kept(draws, eos, b).take(
            if a < kept(draws, eos, b).len() {
                a
            } else {
                kept(draws, eos, b).len() as int
            },
        ),
        (forall|i: int| 0 <= i < draws.len() ==> (#[trigger] draws[i]) as u64 <= 0xffff_ffff) ==> (
        forall|i: int|
            0 <= i < kept(draws, eos, a).len() ==> #[trigger] kept(draws, eos, a)[i] != eos),
    decreases draws.len(),
{
    let (x, y) = (kept(draws, eos, a), kept(draws, eos, b));
    if draws.len() == 0 || a <= 0 || draws[0] == eos {
        assert(y.take(0) =~= Seq::empty());
        assert(x =~= Seq::empty());
    } else {
        let rest = draws.drop_first();
        lemma_kept_prefix(rest, eos, a - 1, b - 1);
        let (p, q) = (kept(rest, eos, a - 1), kept(rest, eos, b - 1));
        let t = low_word(draws[0]);
        let n = if a - 1 < q.len() {
            a - 1
        } else {
            q.len() as int
        };
        assert(x == seq![t] + p);
        assert(y == seq![t] + q);
        assert(y.take(n + 1) =~= seq![t] + q.take(n));
        if forall|i: int| 0 <= i < draws.len() ==> (#[trigger] draws[i]) as u64 <= 0xffff_ffff {
            assert forall|i: int| 0 <= i < rest.len() implies (#[trigger] rest[i]) as u64
                <= 0xffff_ffff by {
                assert(rest[i] == draws[i + 1]);
            }
            assert(draws[0] as u64 <= 0xffff_ffff);
            assert(t == draws[0]);
            assert forall|i: int| 0 <= i < x.len() implies #[trigger] x[i] != eos by {
                if i > 0 {
                    assert(x[i] == p[i - 1]);
                }
            }
        }
    }
}

/// With the same draws, a reply of a smaller length is the beginning of a longer
/// one.
pub proof fn lemma_shorter_reply(prompt: Seq<u32>, eos: u32, draws: Seq<usize>, a: int, b: int)
    requires
        prompt.len() > 0,
        0 <= a <= b,
    ensures
        ({
            let x = finished(new_reply(prompt, a, eos), draws).generated;
            let y = finished(new_reply(prompt, b, eos), draws).generated;
            &&& x.len() <= a
            &&& x == y.take(
                if a < y.len() {
                    a
                } else {
                    y.len() as int
                },
            )
        }),
{
    lemma_finished(new_reply(prompt, a, eos), draws);
    lemma_finished(new_reply(prompt, b, eos), draws);
    lemma_kept_prefix(draws, eos, a, b);
    assert(Seq::<u32>::empty() + kept(draws, eos, a) =~= kept(draws, eos, a));
    assert(Seq::<u32>::empty() + kept(draws, eos, b) =~= kept(draws, eos, b));
}

/// A reply that is being drawn.
#[derive(Debug)]
pub struct Generation {
    prompt: Vec<u32>,
    seen: usize,
    generated: Vec<u32>,
    last: usize,
    stopped: bool,
    limit: usize,
    eos: u32,
}

impl View for Generation {
    type V = Reply;

    closed spec fn view(&self) -> Reply {
        Reply {
            prompt: self.prompt@,
            seen: self.seen as int,
            generated: self.generated@,
            last: self.last,
            stopped: self.stopped,
            limit: self.limit as int,
            eos: self.eos,
        }
    }
}

impl Generation {
    /// The reply is well formed, and its positions can be written down.
    pub open spec fn wf(self) -> bool {
        self@.wf() && self@.prompt.len() + self@.limit <= usize::MAX
    }

    /// Begins a reply of at most `max_tokens` tokens, and of no more than there
    /// are positions behind the prompt. A prompt without tokens is refused.
    pub fn start(prompt_tokens: Vec<u32>, max_tokens: usize, eos: u32) -> (r: Result<
        Generation,
        String,
    >)
        ensures
            match r {
                Ok(g) => prompt_tokens@.len() > 0 && g.wf() && g@ == new_reply(
                    prompt_tokens@,
                    if prompt_tokens@.len() + max_tokens <= usize::MAX {
                        max_tokens as int
                    } else {
                        usize::MAX - prompt_tokens@.len()
                    },
                    eos,
                ),
                Err(e) => prompt_tokens@.len() == 0 && e@ == "empty prompt"@,
            },
    {
        if prompt_tokens.len() == 0 {
            return Err("empty prompt".to_owned());
        }
        let room = usize::MAX - prompt_tokens.len();
        let limit = if max_tokens <= room {
            max_tokens
        } else {
            room
        };
        let g = Generation {
            prompt: prompt_tokens,
            seen: 0,
            generated: Vec::new(),
            last: 0,
            stopped: false,
            limit,
            eos,
        };
        assert(g@ =~= new_reply(prompt_tokens@, limit as int, eos));
        Ok(g)
    }

    /// What is to be done next.
    pub fn next_action(&self) -> (r: Action)
        requires
            self.wf(),
        ensures
            r == self@.action(),
    {
        if self.seen < self.prompt.len() {
            Action::Evaluate {
                token: self.prompt[self.seen] as usize,
                pos: self.seen,
                prompt: true,
            }
        } else if self.seen - self.prompt.len() < self.generated.len() {
            Action::Evaluate { token: self.last, pos: self.seen, prompt: false }
        } else if !self.stopped && self.generated.len() < self.limit {
            Action::Draw
        } else {
            Action::Finish
        }
    }

    /// The model has seen the token that it was to see.
    pub fn evaluated(&mut self)
        requires
            old(self).wf(),
            old(self)@.action() is Evaluate,
        ensures
            final(self).wf(),
            final(self)@ == old(self)@.after_seen(),
    {
        assert(self.seen < self.prompt@.len() + self.generated@.len());
        self.seen = self.seen + 1;
        assert(self@ =~= old(self)@.after_seen());
    }

    /// A token was drawn.
    pub fn drawn(&mut self, token: usize)
        requires
            old(self).wf(),
            old(self)@.action() is Draw,
        ensures
            final(self).wf(),
            final(self)@ == old(self)@.after_drawn(token),
    {
        if token as u64 == self.eos as u64 {
            self.stopped = true;
        } else {
            self.generated.push((token as u64 % 0x1_0000_0000) as u32);
            self.last = token;
        }
        assert(self@ =~= old(self)@.after_drawn(token));
    }

    /// No token could be drawn.
    pub fn stop(&mut self)
        requires
            old(self).wf(),
        ensures
            final(self).wf(),
            final(self)@ == old(self)@.after_stop(),
    {
        self.stopped = true;
        assert(self@ =~= old(self)@.after_stop());
    }

    /// The number of tokens of the prompt.
    pub fn prompt_len(&self) -> (r: usize)
        ensures
            r == self@.prompt.len(),
    {
        self.prompt.len()
    }

    /// The tokens of the reply so far.
    pub fn tokens(&self) -> (r: &Vec<u32>)
        ensures
            r@ == self@.generated,
    {
        &self.generated
    }
}

// ── Embeddings ──────────────────────────────────────────────────────
/// Where the state of a token comes from.
#[derive(Clone, Copy, Debug, PartialEq, Eq, Structural)]
pub enum EmbeddingSource {
    /// From the loaded numbers between two places.
    Numbers { start: usize, end: usize },
    /// From the stored bytes between two places.
    Bytes { start: usize, end: usize },
    /// It is all zeros.
    Zeros,
    /// It stays as it is.
    Unchanged,
}

/// The loaded numbers of a token, or zeros where there are not so many.
pub open spec fn loaded_row(token: int, dim: int, loaded: int) -> EmbeddingSource {
    if token * dim + dim <= loaded {
        EmbeddingSource::Numbers {
            start: (token * dim) as usize,
            end: (token * dim + dim) as usize,
        }
    } else {
        EmbeddingSource::Zeros
    }
}

/// Where the state of a token of the prompt comes from. Tables of single or half
/// precision are loaded. Of any other the row is read from the stored bytes, and
/// where they do not have it the state is left as it is.
pub open spec fn prompt_source(
    token: int,
    dim: int,
    dtype: DType,
    loaded: int,
    stored: Option<int>,
) -> EmbeddingSource {
    if dtype == DType::F32 || dtype == DType::F16 {
        loaded_row(token, dim, loaded)
    } else {
        match stored {
            None => EmbeddingSource::Zeros,
            Some(len) => match token_row(token, dim, dtype, len) {
                Some((a, b)) => EmbeddingSource::Bytes { start: a as usize, end: b as usize },
                None => EmbeddingSource::Unchanged,
            },
        }
    }
}

/// Where the state of a drawn token comes from.
pub fn drawn_embedding(token: usize, dim: usize, loaded: usize) -> (r: EmbeddingSource)
    ensures
        r == loaded_row(token as int, dim as int, loaded as int),
{
    proof {
        let (t, w) = (token as int, dim as int);
        assert(0 <= t * w <= 0xffff_ffff_ffff_ffff * 0xffff_ffff_ffff_ffff) by (nonlinear_arith)
            requires
                0 <= t <= 0xffff_ffff_ffff_ffff,
                0 <= w <= 0xffff_ffff_ffff_ffff,
        ;
    }
    let start = token as u128 * dim as u128;
    let end = start + dim as u128;
    if end <= loaded as u128 {
        EmbeddingSource::Numbers { start: start as usize, end: end as usize }
    } else {
        EmbeddingSource::Zeros
    }
}

/// Where the state of a token of the prompt comes from.
pub fn prompt_embedding(
    token: usize,
    dim: usize,
    dtype: DType,
    loaded: usize,
    stored: Option<usize>,
) -> (r: EmbeddingSource)
    requires
        stored_size(dim as int, dtype) <= usize::MAX,
    ensures
        r == prompt_source(
            token as int,
            dim as int,
            dtype,
            loaded as int,
            match stored {
                Some(n) => Some(n as int),
                None => None,
            },
        ),
{
    if dtype == DType::F32 || dtype == DType::F16 {
        drawn_embedding(token, dim, loaded)
    } else {
        match stored {
            None => EmbeddingSource::Zeros,
            Some(len) => match embedding_row(token, dim, dtype, len) {
                Some((start, end)) => EmbeddingSource::Bytes { start, end },
                None => EmbeddingSource::Unchanged,
            },
        }
    }
}

// ── The conversation ────────────────────────────────────────────────
/// What a line of the user asks for.
#[derive(Debug)]
pub enum ChatInput {
    /// The conversation is to end.
    Leave,
    /// Nothing was said.
    Nothing,
    /// This was said.
    Say(String),
}

/// The words that end a conversation.
pub open spec fn leaves(t: Seq<char>, slash: bool) -> bool {
    same_ignoring_case(t, "exit"@) || same_ignoring_case(t, "quit"@) || (slash
        && same_ignoring_case(t, "/exit"@))
}

/// Reads a line of the user. White space around it does not count. `slash` says
/// whether the word that ends a conversation may have a slash before it.
pub fn read_input(line: &str, slash: bool) -> (r: ChatInput)
    ensures
        match r {
            ChatInput::Leave => leaves(trimmed(line@), slash),
            ChatInput::Nothing => trimmed(line@).len() == 0,
            ChatInput::Say(t) => t@ == trimmed(line@) && t@.len() > 0 && !leaves(t@, slash),
        },
{
    let t = trim(line);
    proof {
        reveal_strlit("exit");
        reveal_strlit("quit");
        reveal_strlit("/exit");
    }
    if eq_ignore_case(t, "exit") || eq_ignore_case(t, "quit") || slash && eq_ignore_case(
        t,
        "/exit",
    ) {
        return ChatInput::Leave;
    }
    if t.unicode_len() == 0 {
        return ChatInput::Nothing;
    }
    ChatInput::Say(t.to_owned())
}

/// The opening of a conversation that has a system prompt.
pub open spec fn system_text(system: Seq<char>) -> Seq<char> {
    "<|system|>\n"@ + system + "\n<|end|>\n"@
}

/// The prompt for a reply to what the user says.
pub open spec fn prompt_text(history: Seq<char>, input: Seq<char>) -> Seq<char> {
    history + "<|user|>\n"@ + input + "\n<|end|>\n<|assistant|>\n"@
}

/// The conversation behind a reply.
pub open spec fn turn_text(history: Seq<char>, input: Seq<char>, response: Seq<char>) -> Seq<char> {
    prompt_text(history, input) + response + "\n<|end|>\n"@
}

/// A turn of the user begins at `i`, behind the first half of the bytes.
pub open spec fn turn_at(s: Seq<char>, i: int) -> bool {
    occurs_at(s, "<|user|>"@, i) && text_width(s.take(i)) >= text_width(s) / 2
}

/// `t` is what is left of the conversation `s` where it has grown longer than four
/// bytes for every token of the context: all from the first turn of the user in the
/// second half on. Without such a turn nothing is left out.
pub open spec fn is_shortened(s: Seq<char>, t: Seq<char>, ctx_len: int) -> bool {
    if text_width(s) > ctx_len * 4 && exists|i: int| turn_at(s, i) {
        exists|i: int|
            #[trigger] turn_at(s, i) && (forall|j: int| j < i ==> !#[trigger] turn_at(s, j)) && t
                == s.skip(i)
    } else {
        t == s
    }
}

/// The conversation so far.
#[derive(Debug)]
pub struct History {
    text: String,
}

impl View for History {
    type V = Seq<char>;

    closed spec fn view(&self) -> Seq<char> {
        self.text@
    }
}

/// The number of characters of the shortest beginning that takes at least `half`
/// bytes.
fn reach(c: &Vec<char>, half: u128) -> (r: usize)
    requires
        half <= text_width(c@),
    ensures
        r <= c@.len(),
        forall|i: int|
            0 <= i <= c@.len() ==> (r <= i <==> #[trigger] text_width(c@.take(i)) >= half),
{
    let mut i: usize = 0;
    let mut at: u128 = 0;
    assert(c@.take(c@.len() as int) =~= c@);
    while i < c.len() && at < half
        invariant
            i <= c@.len(),
            half <= text_width(c@),
            at == text_width(c@.take(i as int)),
            at <= 4 * i,
            i > 0 ==> text_width(c@.take(i - 1)) < half,
        decreases c@.len() - i,
    {
        assert(c@.take(i + 1).drop_last() =~= c@.take(i as int));
        at = at + width_of(c[i]);
        i += 1;
    }
    assert(at >= half);
    assert forall|k: int| 0 <= k <= c@.len() implies (i <= k <==> #[trigger] text_width(c@.take(k))
        >= half) by {
        if i <= k {
            lemma_width_grows(c@, i as int, k);
        } else {
            lemma_width_grows(c@, k, i - 1);
        }
    }
    i
}

impl History {
    /// Begins a conversation, with a system prompt where there is one.
    pub fn new(system: Option<&str>) -> (r: History)
        ensures
            r@ == (match system {
                Some(s) => system_text(s@),
                None => Seq::empty(),
            }),
    {
        let text = match system {
            Some(s) => concat3("<|system|>\n", s, "\n<|end|>\n"),
            None => String::new(),
        };
        History { text }
    }

    /// The prompt for a reply to what the user says.
    pub fn prompt(&self, input: &str) -> (r: String)
        ensures
            r@ == prompt_text(self@, input@),
    {
        concat4(
            self.text.as_str(),
            "<|user|>\n",
            input,
            "\n<|end|>\n<|assistant|>\n",
        )
    }

    /// Adds what the user said and the reply.
    pub fn record(&mut self, input: &str, response: &str)
        ensures
            final(self)@ == turn_text(old(self)@, input@, response@),
    {
        self.text = concat3(self.prompt(input).as_str(), response, "\n<|end|>\n");
    }

    /// Leaves out the oldest turns where the conversation has grown too long for
    /// the context.
    pub fn shorten(&mut self, ctx_len: u64)
        ensures
            is_shortened(old(self)@, final(self)@, ctx_len as int),
    {
        let c = chars_of(self.text.as_str());
        let ghost s = self.text@;
        let n = width(&c);
        if n > ctx_len as u128 * 4 {
            let from = reach(&c, n / 2);
            match find_from(self.text.as_str(), "<|user|>", from) {
                Some(i) => {
                    assert(text_width(s.take(i as int)) >= n / 2);
                    assert(turn_at(s, i as int));
                    assert forall|j: int| j < i implies !#[trigger] turn_at(s, j) by {
                        if turn_at(s, j) {
                            assert(text_width(s.take(j)) >= n / 2);
                        }
                    }
                    let rest = self.text.as_str().substring_char(i, c.len());
                    assert(rest@ =~= s.skip(i as int));
                    self.text = rest.to_owned();
                },
                None => {
                    assert forall|j: int| !#[trigger] turn_at(s, j) by {
                        if turn_at(s, j) {
                            assert(text_width(s.take(j)) >= n / 2);
                        }
                    }
                },
            }
        }
    }

    /// The conversation as a text.
    pub fn as_str(&self) -> (r: &str)
        ensures
            r@ == self@,
    {
        self.text.as_str()
    }
}

/// Leaving out turns never makes a conversation longer, and what is left begins
/// with a turn of the user where anything was left out.
pub proof fn lemma_shortened(s: Seq<char>, t: Seq<char>, ctx_len: int)
    requires
        is_shortened(s, t, ctx_len),
    ensures
        t.len() <= s.len(),
        t == s || "<|user|>"@.is_prefix_of(t),
{
    if text_width(s) > ctx_len * 4 && exists|i: int| turn_at(s, i) {
        let i = choose|i: int|
            #[trigger] turn_at(s, i) && (forall|j: int| j < i ==> !#[trigger] turn_at(s, j)) && t
                == s.skip(i);
        let n = "<|user|>"@.len() as int;
        assert(t.take(n) =~= s.subrange(i, i + n));
    }
}

// ── Laws ────────────────────────────────────────────────────────────
/// A conversation of no more than four bytes for every token of the context stays
/// whole. Of a longer one with a turn of the user in its second half, no more than the
/// half is left, and it begins with the first such turn.
pub proof fn lemma_when_shortened(s: Seq<char>, t: Seq<char>, ctx_len: int, i: int)
    requires
        is_shortened(s, t, ctx_len),
    ensures
        text_width(s) <= 4 * ctx_len ==> t == s,
        text_width(s) > 4 * ctx_len && occurs_at(s, "<|user|>"@, i) && text_width(s.take(i))
            >= text_width(s) / 2 ==> t.len() >= s.len() - i && t == s.skip(s.len() - t.len())
            && text_width(s.take(s.len() - t.len())) >= text_width(s) / 2,
{
    if text_width(s) > ctx_len * 4 && turn_at(s, i) {
        let k = choose|k: int|
            #[trigger] turn_at(s, k) && (forall|j: int| j < k ==> !#[trigger] turn_at(s, j)) && t
                == s.skip(k);
        assert(!(i < k));
    }
}

/// The rows of a loaded table stand one behind the other, each as wide as the state.
pub proof fn lemma_loaded_rows(token: int, dim: int, loaded: int)
    requires
        0 <= token,
        0 <= dim,
        0 <= loaded <= usize::MAX,
    ensures
        match loaded_row(token, dim, loaded) {
            EmbeddingSource::Numbers { start, end } => start == token * dim && end == (token + 1)
                * dim && end <= loaded,
            EmbeddingSource::Zeros => (token + 1) * dim > loaded,
            _ => false,
        },
{
    assert((token + 1) * dim == token * dim + dim && 0 <= token * dim) by (nonlinear_arith)
        requires
            0 <= token,
            0 <= dim,
    ;
}

/// The tokens that the model is shown until the reply is complete, each with its
/// place, where it would draw these tokens one after the other.
pub open spec fn shown(r: Reply, draws: Seq<usize>) -> Seq<(usize, int)>
    decreases
            (if r.stopped {
                0int
            } else {
                1
            }) + 2 * (r.limit - r.generated.len()) + (r.prompt.len() + r.generated.len() - r.seen),
    when r.wf()
{
    match r.action() {
        Action::Evaluate { token, pos, .. } => seq![(token, pos as int)] + shown(
            r.after_seen(),
            draws,
        ),
        Action::Draw => if draws.len() == 0 {
            shown(r.after_stop(), draws)
        } else {
            shown(r.after_drawn(draws[0]), draws.drop_first())
        },
        Action::Finish => Seq::empty(),
    }
}

/// The model is shown the tokens of the prompt and then those of the reply, each once
/// and in their order, at the places from the first on. A token is shown as it was
/// drawn; the reply keeps its lower half.
pub proof fn lemma_shown_in_order(prompt: Seq<u32>, limit: int, eos: u32, draws: Seq<usize>)
    requires
        prompt.len() > 0,
        0 <= limit,
        prompt.len() + limit <= usize::MAX,
    ensures
        ({
            let s = shown(new_reply(prompt, limit, eos), draws);
            let reply = finished(new_reply(prompt, limit, eos), draws).generated;
            let n = prompt.len() as int;
            &&& s.len() == n + reply.len()
            &&& reply.len() <= draws.len()
            &&& forall|i: int| 0 <= i < n ==> #[trigger] s[i] == (prompt[i] as usize, i)
            &&& forall|i: int|
                n <= i < s.len() ==> {
                    &&& #[trigger] s[i] == (draws[i - n], i)
                    &&& draws[i - n] != eos
                    &&& draws[i - n] as u64 % 0x1_0000_0000 == reply[i - n]
                }
            &&& reply.len() < limit ==> reply.len() == draws.len() || draws[reply.len() as int]
                == eos
        }),
{
    lemma_shown(new_reply(prompt, limit, eos), draws);
    lemma_finished(new_reply(prompt, limit, eos), draws);
    lemma_kept_draws(draws, eos, limit);
    assert(Seq::<u32>::empty() + kept(draws, eos, limit) =~= kept(draws, eos, limit));
}

proof fn lemma_kept_draws(draws: Seq<usize>, eos: u32, limit: int)
    ensures
        ({
            let k = kept(draws, eos, limit);
            &&& k.len() <= draws.len()
            &&& forall|i: int| 0 <= i < k.len() ==> #[trigger] draws[i] != eos
            &&& forall|i: int|
                0 <= i < k.len() ==> draws[i] as u64 % 0x1_0000_0000 == #[trigger] k[i]
            &&& k.len() < limit ==> k.len() == draws.len() || draws[k.len() as int] == eos
        }),
    decreases draws.len(),
{
    if draws.len() == 0 || limit <= 0 || draws[0] == eos {
    } else {
        let rest = draws.drop_first();
        lemma_kept_draws(rest, eos, limit - 1);
        let (k, j) = (kept(draws, eos, limit), kept(rest, eos, limit - 1));
        assert(k == seq![low_word(draws[0])] + j);
        assert forall|i: int| 0 <= i < k.len() implies #[trigger] draws[i] != eos by {
            if i > 0 {
                assert(draws[i] == rest[i - 1]);
            }
        }
        assert forall|i: int| 0 <= i < k.len() implies draws[i] as u64 % 0x1_0000_0000
            == #[trigger] k[i] by {
            if i > 0 {
                assert(k[i] == j[i - 1] && draws[i] == rest[i - 1]);
            }
        }
        if k.len() < limit && k.len() != draws.len() {
            assert(draws[k.len() as int] == rest[j.len() as int]);
        }
    }
}

proof fn lemma_shown(r: Reply, draws: Seq<usize>)
    requires
        r.wf(),
        r.prompt.len() + r.limit <= usize::MAX,
    ensures
        ({
            let s = shown(r, draws);
            let (n, g) = (r.prompt.len() as int, r.generated.len() as int);
            let more = if r.stopped {
                0int
            } else {
                kept(draws, r.eos, r.limit - g).len() as int
            };
            &&& s.len() == n + g + more - r.seen
            &&& forall|i: int|
                0 <= i < s.len() ==> #[trigger] s[i] == (
                    if r.seen + i < n {
                        r.prompt[r.seen + i] as usize
                    } else if r.seen + i < n + g {
                        r.last
                    } else {
                        draws[r.seen + i - n - g]
                    },
                    r.seen + i,
                )
        }),
    decreases
            (if r.stopped {
                0int
            } else {
                1
            }) + 2 * (r.limit - r.generated.len()) + (r.prompt.len() + r.generated.len() - r.seen),
{
    let s = shown(r, draws);
    match r.action() {
        Action::Evaluate { token, pos, .. } => {
            let next = shown(r.after_seen(), draws);
            lemma_shown(r.after_seen(), draws);
            assert(s == seq![(token, pos as int)] + next);
            assert forall|i: int| 0 < i < s.len() implies #[trigger] s[i] == next[i - 1] by {}
        },
        Action::Draw => {
            if draws.len() == 0 {
                lemma_shown(r.after_stop(), draws);
            } else {
                lemma_shown(r.after_drawn(draws[0]), draws.drop_first());
                lemma_kept_draws(draws, r.eos, r.limit - r.generated.len());
                if draws[0] != r.eos {
                    let rest = draws.drop_first();
                    assert forall|i: int| 0 <= i < s.len() implies #[trigger] s[i] == (
                        draws[i],
                        r.seen + i,
                    ) by {
                        if i > 0 {
                            assert(rest[i - 1] == draws[i]);
                        }
                    }
                }
            }
        },
        Action::Finish => {},
    }
}

/// A table of single or half precision is the only kind whose rows come from the loaded
/// numbers. The rows of every other come from the stored bytes.
pub proof fn lemma_prompt_rows(
    token: int,
    dim: int,
    dtype: DType,
    loaded: int,
    stored: Option<int>,
)
    requires
        0 <= token,
        0 <= dim,
        stored matches Some(n) ==> 0 <= n <= usize::MAX,
    ensures
        ({
            let r = prompt_source(token, dim, dtype, loaded, stored);
            let is_loaded = dtype_size(dtype) == 4 && dtype != DType::I32 || dtype_size(dtype) == 2
                && dtype != DType::BF16 && dtype != DType::I16;
            let row = stored_size(dim, dtype);
            &&& is_loaded ==> r == loaded_row(token, dim, loaded)
            &&& !is_loaded && stored is None ==> r == EmbeddingSource::Zeros
            &&& !is_loaded && stored is Some && (token + 1) * row > stored->0 ==> r
                == EmbeddingSource::Unchanged
            &&& !is_loaded && stored is Some && (token + 1) * row <= stored->0 ==> {
                &&& r is Bytes
                &&& r->Bytes_start == token * row
                &&& r->Bytes_end == (token + 1) * row
            }
        }),
{
    let row = stored_size(dim, dtype);
    assert(0 <= row) by {
        if dtype != DType::Q4 && dtype != DType::Q8 {
            assert(0 <= dim * dtype_size(dtype)) by (nonlinear_arith)
                requires
                    0 <= dim,
            ;
        }
    }
    assert((token + 1) * row == token * row + row && 0 <= token * row) by (nonlinear_arith)
        requires
            0 <= token,
            0 <= row,
    ;
}

} // verus!
