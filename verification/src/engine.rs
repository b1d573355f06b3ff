//! The generation loop: prefill the KV cache with the prompt, then decode one
//! token per forward pass, streaming each sampled token to a callback.

use std::time::Instant;

use vstd::prelude::*;

use crate::arith;
use crate::arith::Arith;
use crate::bits;
use crate::error::{ErrorView, MinqError, ModelErrorOf};
use crate::evaluation::WideRing;
use crate::model;
use crate::model::{KVCache, KVCacheView, LayerCacheView, Model, ModelView};
use crate::rng;
use crate::sampler::{argmax_of, law_picked_is_in_range, Sampler, Settings};
use crate::tensor;

verus! {

/// A point in time.
#[verifier::external_type_specification]
#[verifier::external_body]
pub struct ExInstant(Instant);

/// The current time.
///
/// Calls `std::time::Instant::now`. Nothing is stated of the time.
#[verifier::external_body]
fn now() -> (t: Instant) {
    Instant::now()
}

/// The seconds since a point in time, as a binary64 bit pattern.
///
/// Calls `std::time::Instant::elapsed` and converts the duration. Nothing is
/// stated of the time that has passed.
#[verifier::external_body]
fn seconds_since(t: &Instant) -> (secs: u64) {
    t.elapsed().as_secs_f64().to_bits()
}

/// `1e-9` in double precision: the shortest time that a rate is computed for.
pub const SHORTEST: u64 = 0x3E11_2E0B_E826_D695;

/// Timing and token-count statistics for one generation run. Seconds are
/// binary64 bit patterns.
#[derive(Clone, Copy, Debug, Default)]
pub struct GenStats {
    pub prompt_tokens: usize,
    pub gen_tokens: usize,
    pub prefill_secs: u64,
    pub decode_secs: u64,
}

/// A number of tokens per second, over no less than the shortest time.
pub open spec fn rate_of<A: Arith>(tokens: usize, secs: u64) -> u64 {
    arith::div64_of::<A>(arith::count64_of::<A>(tokens), bits::max_64_of(secs, SHORTEST))
}

fn rate<A: Arith>(tokens: usize, secs: u64) -> (r: u64)
    ensures
        arith::deterministic::<A>() ==> r == rate_of::<A>(tokens, secs),
{
    A::div64(A::count64(tokens), bits::larger_64(secs, SHORTEST))
}

impl GenStats {
    /// Prompt tokens per second of prefill.
    pub fn prefill_tokens_per_sec<A: Arith>(&self) -> (r: u64)
        ensures
            arith::deterministic::<A>() ==> r == rate_of::<A>(self.prompt_tokens, self.prefill_secs),
    {
        rate::<A>(self.prompt_tokens, self.prefill_secs)
    }

    /// Generated tokens per second of decoding.
    pub fn decode_tokens_per_sec<A: Arith>(&self) -> (r: u64)
        ensures
            arith::deterministic::<A>() ==> r == rate_of::<A>(self.gen_tokens, self.decode_secs),
    {
        rate::<A>(self.gen_tokens, self.decode_secs)
    }
}

/// Model, sampler and stop conditions, with the prefill/decode loop.
pub struct Engine {
    pub model: Model,
    pub sampler: Sampler,
    pub stop_tokens: Vec<u32>,
}

/// What a decoding run comes to when every token is accepted.
pub struct Run {
    /// The tokens that were sampled.
    pub tokens: Seq<u32>,
    /// Why the run broke off.
    pub error: Option<ErrorView>,
    /// The random words that are left.
    pub words: Map<int, u32>,
}

/// The decoding of up to `max` tokens.
pub open spec fn run_of<A: Arith>(
    m: ModelView,
    s: Settings,
    stops: Seq<u32>,
    logits: Seq<u32>,
    words: Map<int, u32>,
    cache: KVCacheView,
    max: int,
) -> Run
    decreases max,
{
    if max <= 0 {
        Run { tokens: Seq::empty(), error: None, words }
    } else {
        let token = s.picked::<A>(logits, words[0]);
        let left = if s.words_used(logits) == 0 {
            words
        } else {
            rng::skip_words(words, 1)
        };
        if stops.contains(token) {
            Run { tokens: seq![token], error: None, words: left }
        } else if m.forward_error(seq![token], cache.len as int) is Some {
            Run {
                tokens: seq![token],
                error: m.forward_error(seq![token], cache.len as int),
                words: left,
            }
        } else {
            let (next, after) = m.forwarded::<A>(seq![token], cache);
            let rest = run_of::<A>(m, s, stops, next, left, after, max - 1);
            Run { tokens: seq![token] + rest.tokens, ..rest }
        }
    }
}

/// The whole generation after a prompt.
pub open spec fn generation_of<A: Arith>(
    m: ModelView,
    s: Settings,
    stops: Seq<u32>,
    prompt: Seq<u32>,
    words: Map<int, u32>,
    max: int,
) -> Run {
    let (logits, cache) = m.forwarded::<A>(prompt, model::empty_cache(m.config.n_layers as int));
    run_of::<A>(m, s, stops, logits, words, cache, max)
}

/// Why the prompt cannot be taken in.
pub open spec fn prompt_error(m: ModelView, prompt: Seq<u32>) -> Option<ErrorView> {
    if prompt.len() == 0 {
        Some(ErrorView::Model(ModelErrorOf::EmptyPrompt))
    } else {
        m.forward_error(prompt, 0)
    }
}

/// The random words that are left after `n` tokens were sampled, each from `rows`
/// logits.
pub open spec fn words_left(s: Settings, rows: int, words: Map<int, u32>, n: int) -> Map<int, u32> {
    if n <= 0 || rows == 0 || s.is_greedy() {
        words
    } else {
        rng::skip_words(words, n)
    }
}

/// Sampling one more token takes one more word, if it takes any.
proof fn lemma_words_left(s: Settings, logits: Seq<u32>, words: Map<int, u32>, n: int)
    requires
        0 <= n,
    ensures
        words_left(s, logits.len() as int, words, n + 1) == (if s.words_used(logits) == 0 {
            words_left(s, logits.len() as int, words, n)
        } else {
            rng::skip_words(words_left(s, logits.len() as int, words, n), 1)
        }),
{
    if n > 0 {
        assert(rng::skip_words(rng::skip_words(words, n), 1) =~= rng::skip_words(words, n + 1));
    }
}

/// Whether a callback accepts every token.
pub open spec fn accepts_all<F: FnMut(u32) -> Result<(), MinqError>>(f: F) -> bool {
    forall|x: u32, r: Result<(), MinqError>| #[trigger] call_ensures(f, (x,), r) ==> r is Ok
}

/// Whether a callback was handed a token and accepted it.
pub open spec fn taken<F: FnMut(u32) -> Result<(), MinqError>>(f: F, token: u32) -> bool {
    exists|r: Result<(), MinqError>| #[trigger] call_ensures(f, (token,), r) && r is Ok
}

/// Whether a callback was handed tokens and accepted all of them.
pub open spec fn all_taken<F: FnMut(u32) -> Result<(), MinqError>>(f: F, tokens: Seq<u32>) -> bool {
    forall|i: int| 0 <= i < tokens.len() ==> taken(f, #[trigger] tokens[i])
}

/// Whether a callback accepted the tokens before token `i` and answered that one
/// with the error `e`.
pub open spec fn refused_at<F: FnMut(u32) -> Result<(), MinqError>>(
    f: F,
    tokens: Seq<u32>,
    i: int,
    e: MinqError,
) -> bool {
    &&& all_taken(f, tokens.subrange(0, i))
    &&& call_ensures(f, (tokens[i],), Err::<(), MinqError>(e))
}

/// Whether every token that can be sampled has an embedding, so that only the
/// length limit can end a run.
pub open spec fn closed_vocabulary(m: ModelView) -> bool {
    &&& m.embed.shape.len() == 2
    &&& m.fault() is None
    &&& 0 < m.lm_head.rows() <= m.embed.shape[0]
    &&& m.lm_head.rows() <= 0x1_0000_0000
}

fn contains(tokens: &Vec<u32>, token: u32) -> (r: bool)
    ensures
        r == tokens@.contains(token),
{
    let mut i: usize = 0;
    while i < tokens.len()
        invariant
            i <= tokens@.len(),
            forall|j: int| 0 <= j < i ==> tokens@[j] != token,
        decreases tokens@.len() - i,
    {
        if tokens[i] == token {
            assert(tokens@[i as int] == token);
            return true;
        }
        i += 1;
    }
    false
}

impl Engine {
    /// An engine without stop tokens.
    pub fn new(model: Model, sampler: Sampler) -> (e: Engine)
        ensures
            e.model == model,
            e.sampler == sampler,
            e.stop_tokens@ == Seq::<u32>::empty(),
    {
        Engine { model, sampler, stop_tokens: Vec::new() }
    }

    /// Whether a generation of up to `max` tokens after `prompt` may hand `token` to
    /// its callback: the prompt can be taken in, tokens are asked for, the token has
    /// a logit, and it is one of those that are sampled.
    pub open spec fn may_report<A: Arith>(self, prompt: Seq<u32>, max: int, token: u32) -> bool {
        &&& prompt_error(self.model@, prompt) is None
        &&& max > 0
        &&& self.model@.lm_head.rows() == 0 ==> token == 0
        &&& 0 < self.model@.lm_head.rows() <= 0x1_0000_0000 ==> token < self.model@.lm_head.rows()
        &&& arith::deterministic::<A>() ==> generation_of::<A>(
            self.model@,
            self.sampler.settings(),
            self.stop_tokens@,
            prompt,
            self.sampler.words(),
            max,
        ).tokens.contains(token)
    }

    /// What follows after a token was reported: an error of the callback ends
    /// the run, a stop token ends it well, and any other token is run through
    /// the model.
    pub fn after_report<A: Arith>(
        &self,
        token: u32,
        reported: Result<(), MinqError>,
        cache: &mut KVCache,
    ) -> (r: Result<Option<Vec<u32>>, MinqError>)
        requires
            self.model@.runs(),
            self.model@.holds(old(cache)@.layers, old(cache)@.len as int),
        ensures
            match reported {
                Err(e) => r is Err && r->Err_0 == e && final(cache)@ == old(cache)@,
                Ok(()) => if self.stop_tokens@.contains(token) {
                    r is Ok && r->Ok_0 is None && final(cache)@ == old(cache)@
                } else {
                    match self.model@.forward_error(seq![token], old(cache)@.len as int) {
                        Some(e) => r is Err && r->Err_0@ == e,
                        None => {
                            &&& r is Ok && r->Ok_0 is Some
                            &&& r->Ok_0->Some_0@.len() == self.model@.lm_head.rows()
                            &&& final(cache)@.len == old(cache)@.len + 1
                            &&& self.model@.holds(final(cache)@.layers, final(cache)@.len as int)
                            &&& arith::deterministic::<A>() ==> (
                                r->Ok_0->Some_0@,
                                final(cache)@,
                            ) == self.model@.forwarded::<A>(seq![token], old(cache)@)
                        },
                    }
                },
            },
    {
        match reported {
            Err(e) => {
                return Err(e);
            },
            Ok(()) => {},
        }
        if contains(&self.stop_tokens, token) {
            return Ok(None);
        }
        let mut tokens: Vec<u32> = Vec::new();
        tokens.push(token);
        assert(tokens@ =~= seq![token]);
        match self.model.forward::<A>(&tokens, cache) {
            Err(e) => Err(e),
            Ok(logits) => Ok(Some(logits)),
        }
    }

    /// Generates up to `max_tokens` tokens after `prompt`.
    ///
    /// `on_token` is invoked synchronously for every generated token (the
    /// streaming interface); its errors propagate, aborting generation.
    /// Generation stops early if a token in `stop_tokens` is produced; that stop
    /// token is still reported to the callback and counted. Nothing but sampled
    /// tokens is reported, and nothing at all where the prompt is refused.
    pub fn generate<A: Arith, F: FnMut(u32) -> Result<(), MinqError>>(
        &mut self,
        prompt: &[u32],
        max_tokens: usize,
        on_token: F,
    ) -> (r: Result<GenStats, MinqError>)
        requires
            prompt@.len() > 0 ==> {
                &&& old(self).model@.runs()
                &&& old(self).model@.depth() <= old(self).model.config.n_layers
            },
            forall|x: u32|
                old(self).may_report::<A>(prompt@, max_tokens as int, x) ==> #[trigger] call_requires(
                    on_token,
                    (x,),
                ),
        ensures
            final(self).model == old(self).model,
            final(self).stop_tokens == old(self).stop_tokens,
            final(self).sampler.settings() == old(self).sampler.settings(),
            prompt_error(old(self).model@, prompt@) matches Some(e) ==> r is Err && r->Err_0@ == e
                && final(self).sampler.words() == old(self).sampler.words(),
            r matches Ok(stats) ==> {
                &&& stats.prompt_tokens == prompt@.len()
                &&& stats.gen_tokens <= max_tokens
                &&& final(self).sampler.words() == words_left(
                    old(self).sampler.settings(),
                    old(self).model@.lm_head.rows(),
                    old(self).sampler.words(),
                    stats.gen_tokens as int,
                )
            },
            prompt_error(old(self).model@, prompt@) is None && accepts_all(on_token)
                && closed_vocabulary(old(self).model@) && prompt@.len() + max_tokens <= old(
                self,
            ).model@.config.max_seq_len ==> r is Ok,
            prompt_error(old(self).model@, prompt@) is None ==> (r matches Err(e) ==> {
                ||| exists|x: u32|
                    old(self).may_report::<A>(prompt@, max_tokens as int, x)
                        && #[trigger] call_ensures(on_token, (x,), Err::<(), MinqError>(e))
                ||| exists|x: u32, pos: int|
                    old(self).may_report::<A>(prompt@, max_tokens as int, x)
                        && #[trigger] old(self).model@.forward_error(seq![x], pos) == Some(e@)
            }),
            prompt_error(old(self).model@, prompt@) is None && r is Err ==> exists|n: int|
                1 <= n <= max_tokens && final(self).sampler.words() == #[trigger] words_left(
                    old(self).sampler.settings(),
                    old(self).model@.lm_head.rows(),
                    old(self).sampler.words(),
                    n,
                ),
            arith::deterministic::<A>() && prompt_error(old(self).model@, prompt@) is None ==> {
                let run = generation_of::<A>(
                    old(self).model@,
                    old(self).sampler.settings(),
                    old(self).stop_tokens@,
                    prompt@,
                    old(self).sampler.words(),
                    max_tokens as int,
                );
                &&& match r {
                    Ok(stats) => {
                        &&& run.error is None
                        &&& stats.gen_tokens == run.tokens.len()
                        &&& final(self).sampler.words() == run.words
                        &&& all_taken(on_token, run.tokens)
                    },
                    Err(e) => {
                        ||| {
                            &&& run.error == Some(e@)
                            &&& final(self).sampler.words() == run.words
                            &&& all_taken(on_token, run.tokens)
                        }
                        ||| exists|i: int|
                            0 <= i < run.tokens.len() && #[trigger] refused_at(
                                on_token,
                                run.tokens,
                                i,
                                e,
                            ) && final(self).sampler.words() == words_left(
                                old(self).sampler.settings(),
                                old(self).model@.lm_head.rows(),
                                old(self).sampler.words(),
                                i + 1,
                            )
                    },
                }
                &&& accepts_all(on_token) ==> match run.error {
                    Some(e) => r is Err && r->Err_0@ == e,
                    None => r is Ok,
                }
            },
    {
        let ghost m = self.model@;
        let ghost s = self.sampler.settings();
        let ghost stops = self.stop_tokens@;
        let mut report = on_token;
        if prompt.len() == 0 {
            return Err(MinqError::Model(ModelErrorOf::EmptyPrompt));
        }
        let mut cache = KVCache::new(&self.model.config);
        proof {
            assert(m.holds(cache@.layers, 0)) by {
                assert(0 * m.config.heads.kv_dim() == 0);
            }
        }
        // Prefill: one forward pass over the whole prompt fills the cache.
        let t0 = now();
        let mut logits = match self.model.forward::<A>(prompt, &mut cache) {
            Err(e) => {
                return Err(e);
            },
            Ok(l) => l,
        };
        let prefill_secs: u64 = seconds_since(&t0);
        // Decode: one token per step.
        let t1 = now();
        let mut gen: usize = 0;
        let mut stopped: bool = false;
        let ghost mut reported: Seq<u32> = Seq::empty();
        let ghost all = generation_of::<A>(
            m,
            s,
            stops,
            prompt@,
            self.sampler.words(),
            max_tokens as int,
        );
        assert(reported + all.tokens =~= all.tokens);
        while gen < max_tokens && !stopped
            invariant
                gen <= max_tokens,
                self.model == old(self).model,
                self.stop_tokens == old(self).stop_tokens,
                m == self.model@,
                m.runs(),
                stops == self.stop_tokens@,
                s == self.sampler.settings(),
                s == old(self).sampler.settings(),
                self.sampler.words() == words_left(
                    s,
                    m.lm_head.rows(),
                    old(self).sampler.words(),
                    gen as int,
                ),
                prompt_error(m, prompt@) is None,
                report == on_token,
                forall|x: u32|
                    old(self).may_report::<A>(prompt@, max_tokens as int, x)
                        ==> #[trigger] call_requires(on_token, (x,)),
                logits@.len() == m.lm_head.rows(),
                m.holds(cache@.layers, cache@.len as int),
                cache@.len <= prompt@.len() + gen,
                reported.len() == gen,
                forall|i: int| 0 <= i < gen ==> taken(on_token, #[trigger] reported[i]),
                all == generation_of::<A>(
                    m,
                    s,
                    stops,
                    prompt@,
                    old(self).sampler.words(),
                    max_tokens as int,
                ),
                arith::deterministic::<A>() && !stopped ==> {
                    let rest = run_of::<A>(
                        m,
                        s,
                        stops,
                        logits@,
                        self.sampler.words(),
                        cache@,
                        max_tokens - gen,
                    );
                    &&& all.tokens == reported + rest.tokens
                    &&& all.error == rest.error
                    &&& all.words == rest.words
                },
                arith::deterministic::<A>() && stopped ==> all == (Run {
                    tokens: reported,
                    error: None,
                    words: self.sampler.words(),
                }),
            decreases max_tokens - gen,
        {
            let ghost words = self.sampler.words();
            let ghost before = cache@;
            let ghost rest = run_of::<A>(
                m,
                s,
                stops,
                logits@,
                words,
                before,
                max_tokens - gen,
            );
            let token: u32 = self.sampler.sample::<A>(&logits);
            proof {
                lemma_words_left(s, logits@, old(self).sampler.words(), gen as int);
                if arith::deterministic::<A>() {
                    assert(rest.tokens[0] == token);
                    assert(all.tokens[gen as int] == token);
                }
                assert(old(self).may_report::<A>(prompt@, max_tokens as int, token));
            }
            let answer = report(token);
            let ghost accepted = answer is Ok;
            proof {
                assert(call_ensures(on_token, (token,), answer));
                if closed_vocabulary(m) {
                    assert(token < m.embed.shape[0]);
                    assert(m.token_fault(token) is None);
                    assert(seq![token][0] == token);
                    assert(m.first_error(seq![token], before.len as int, 1) is None);
                }
            }
            let outcome = self.after_report::<A>(token, answer, &mut cache);
            proof {
                if accepted {
                    assert(taken(on_token, token));
                    reported = reported.push(token);
                }
            }
            match outcome {
                Err(e) => {
                    proof {
                        if accepted {
                            assert(m.forward_error(seq![token], before.len as int) == Some(e@));
                        } else {
                            assert(call_ensures(on_token, (token,), Err::<(), MinqError>(e)));
                        }
                        if arith::deterministic::<A>() {
                            if accepted {
                                assert(rest.tokens == seq![token]);
                                assert(all.tokens =~= reported);
                            } else {
                                assert(all.tokens.subrange(0, gen as int) =~= reported);
                                assert(refused_at(on_token, all.tokens, gen as int, e));
                            }
                        }
                    }
                    return Err(e);
                },
                Ok(None) => {
                    proof {
                        if arith::deterministic::<A>() {
                            assert(rest.tokens == seq![token]);
                            assert(all.tokens =~= reported);
                        }
                    }
                    gen += 1;
                    stopped = true;
                },
                Ok(Some(next)) => {
                    proof {
                        if arith::deterministic::<A>() {
                            let more = run_of::<A>(
                                m,
                                s,
                                stops,
                                next@,
                                self.sampler.words(),
                                cache@,
                                max_tokens - gen - 1,
                            );
                            assert(rest.tokens == seq![token] + more.tokens);
                            assert(all.tokens =~= reported + more.tokens);
                        }
                    }
                    gen += 1;
                    logits = next;
                },
            }
        }
        proof {
            if arith::deterministic::<A>() && !stopped {
                assert(reported + Seq::<u32>::empty() =~= reported);
            }
        }
        let decode_secs: u64 = seconds_since(&t1);
        Ok(GenStats { prompt_tokens: prompt.len(), gen_tokens: gen, prefill_secs, decode_secs })
    }
}

/// A run has no more tokens than asked for. A stop token is reported and then
/// ends the run: only the last token can be one, and a run that breaks off
/// neither by a stop token nor by an error has as many tokens as asked for.
pub proof fn law_stop_tokens<A: Arith>(
    m: ModelView,
    s: Settings,
    stops: Seq<u32>,
    logits: Seq<u32>,
    words: Map<int, u32>,
    cache: KVCacheView,
    max: int,
)
    requires
        0 <= max,
    ensures
        ({
            let run = run_of::<A>(m, s, stops, logits, words, cache, max);
            &&& run.tokens.len() <= max
            &&& forall|i: int|
                0 <= i < run.tokens.len() - 1 ==> !stops.contains(#[trigger] run.tokens[i])
            &&& run.tokens.len() < max && run.error is None ==> run.tokens.len() > 0
                && stops.contains(run.tokens.last())
        }),
    decreases max,
{
    if max > 0 {
        let token = s.picked::<A>(logits, words[0]);
        let left = if s.words_used(logits) == 0 {
            words
        } else {
            rng::skip_words(words, 1)
        };
        if !stops.contains(token) && m.forward_error(seq![token], cache.len as int) is None {
            let (next, after) = m.forwarded::<A>(seq![token], cache);
            law_stop_tokens::<A>(m, s, stops, next, left, after, max - 1);
            let rest = run_of::<A>(m, s, stops, next, left, after, max - 1);
            let run = run_of::<A>(m, s, stops, logits, words, cache, max);
            assert(run.tokens == seq![token] + rest.tokens);
            assert forall|i: int| 0 <= i < run.tokens.len() - 1 implies !stops.contains(
                #[trigger] run.tokens[i],
            ) by {
                if i > 0 {
                    assert(run.tokens[i] == rest.tokens[i - 1]);
                }
            }
        }
    }
}

/// A layer does not change the width of a hidden state.
proof fn lemma_through_width<A: Arith>(
    m: ModelView,
    x: Seq<u32>,
    pos: int,
    caches: Seq<LayerCacheView>,
    n: int,
)
    ensures
        m.through::<A>(x, pos, caches, n).0.len() == x.len(),
    decreases n,
{
    if n > 0 {
        lemma_through_width::<A>(m, x, pos, caches, n - 1);
    }
}

/// What a single token leaves behind.
proof fn lemma_one_forwarded<A: Arith>(m: ModelView, token: u32, cache: KVCacheView)
    requires
        m.runs(),
        m.forward_error(seq![token], cache.len as int) is None,
    ensures
        m.forwarded::<A>(seq![token], cache).0.len() == m.lm_head.rows(),
        m.forwarded::<A>(seq![token], cache).1.len == cache.len + 1,
        cache.len < m.config.max_seq_len,
{
    reveal_with_fuel(ModelView::forwarded_from, 2);
    let tokens = seq![token];
    assert(tokens[0] == token);
    assert(m.token_error(token, cache.len as int) is None);
    let x = m.embedding(token);
    tensor::lemma_numel_2(m.embed.shape);
    crate::attention::lemma_head_within(token as int, m.embed.shape[0] as int, m.width());
    assert(x.len() == m.width());
    lemma_through_width::<A>(m, x, cache.len as int, cache.layers, m.depth());
    let y = m.through::<A>(x, cache.len as int, cache.layers, m.depth()).0;
    model::law_matvec_rows::<A>(
        m.lm_head,
        tensor::rmsnorm_of::<A>(y, m.final_norm, m.config.rms_norm_eps),
    );
}

/// Where no stop token comes up, and every token that can be sampled has an
/// embedding, only the length limit ends a run early. With `len` positions taken,
/// a run that the limit leaves room for has as many tokens as asked for. Any
/// other run samples one token more than there are positions left, and breaks
/// off because that one has no position.
pub proof fn law_length_limit<A: Arith>(
    m: ModelView,
    s: Settings,
    stops: Seq<u32>,
    logits: Seq<u32>,
    words: Map<int, u32>,
    cache: KVCacheView,
    max: int,
)
    requires
        m.runs(),
        closed_vocabulary(m),
        logits.len() == m.lm_head.rows(),
        cache.len <= m.config.max_seq_len,
        0 <= max,
        ({
            let run = run_of::<A>(m, s, stops, logits, words, cache, max);
            forall|i: int| 0 <= i < run.tokens.len() ==> !stops.contains(#[trigger] run.tokens[i])
        }),
    ensures
        ({
            let run = run_of::<A>(m, s, stops, logits, words, cache, max);
            let limit = m.config.max_seq_len;
            if cache.len + max <= limit {
                run.error is None && run.tokens.len() == max
            } else {
                &&& run.error == Some(
                    ErrorView::Model(ModelErrorOf::SequenceTooLong { max_seq_len: limit }),
                )
                &&& run.tokens.len() == limit - cache.len + 1
            }
        }),
    decreases max,
{
    if max > 0 {
        reveal_with_fuel(ModelView::first_error, 2);
        let run = run_of::<A>(m, s, stops, logits, words, cache, max);
        let token = s.picked::<A>(logits, words[0]);
        let left = if s.words_used(logits) == 0 {
            words
        } else {
            rng::skip_words(words, 1)
        };
        law_picked_is_in_range::<A>(s, logits, words[0]);
        assert(m.token_fault(token) is None);
        assert(run.tokens[0] == token);
        assert(seq![token][0] == token);
        assert(!stops.contains(token));
        if m.forward_error(seq![token], cache.len as int) is None {
            lemma_one_forwarded::<A>(m, token, cache);
            let (next, after) = m.forwarded::<A>(seq![token], cache);
            let rest = run_of::<A>(m, s, stops, next, left, after, max - 1);
            assert(run.tokens == seq![token] + rest.tokens);
            assert forall|i: int| 0 <= i < rest.tokens.len() implies !stops.contains(
                #[trigger] rest.tokens[i],
            ) by {
                assert(run.tokens[i + 1] == rest.tokens[i]);
            }
            law_length_limit::<A>(m, s, stops, next, left, after, max - 1);
        }
    }
}

/// A prompt that can be taken in leaves a cache of its length and a logit for
/// every row of the head.
proof fn lemma_prompt_forwarded<A: Arith>(
    m: ModelView,
    prompt: Seq<u32>,
    i: int,
    logits: Seq<u32>,
    cache: KVCacheView,
)
    requires
        m.runs(),
        0 <= i <= prompt.len(),
        cache.len == i,
        i > 0 ==> logits.len() == m.lm_head.rows(),
        prompt.len() > 0,
        m.first_error(prompt, 0, i) is None,
    ensures
        m.forwarded_from::<A>(prompt, i, logits, cache).0.len() == m.lm_head.rows(),
        m.forwarded_from::<A>(prompt, i, logits, cache).1.len == prompt.len(),
        prompt.len() > i ==> prompt.len() <= m.config.max_seq_len,
    decreases prompt.len() - i,
{
    if i < prompt.len() {
        let token = prompt[i];
        assert(m.token_error(token, i) is None);
        let x = m.embedding(token);
        tensor::lemma_numel_2(m.embed.shape);
        crate::attention::lemma_head_within(token as int, m.embed.shape[0] as int, m.width());
        lemma_through_width::<A>(m, x, i, cache.layers, m.depth());
        let y = m.through::<A>(x, i, cache.layers, m.depth()).0;
        model::law_matvec_rows::<A>(
            m.lm_head,
            tensor::rmsnorm_of::<A>(y, m.final_norm, m.config.rms_norm_eps),
        );
        let layers = m.histories::<A>(token, i, cache.layers);
        lemma_prompt_forwarded::<A>(
            m,
            prompt,
            i + 1,
            m.token_logits::<A>(token, i, cache.layers),
            KVCacheView { layers, len: (cache.len + 1) as usize },
        );
    }
}

/// Where no stop token comes up, and every token that can be sampled has an
/// embedding, a generation after a prompt that can be taken in succeeds exactly
/// if the prompt and the tokens asked for fit the context. If they do not, one
/// token more than there is room for is sampled before the error.
pub proof fn law_generation_limit<A: Arith>(
    m: ModelView,
    s: Settings,
    stops: Seq<u32>,
    prompt: Seq<u32>,
    words: Map<int, u32>,
    max: int,
)
    requires
        m.runs(),
        closed_vocabulary(m),
        prompt_error(m, prompt) is None,
        0 <= max,
        ({
            let run = generation_of::<A>(m, s, stops, prompt, words, max);
            forall|i: int| 0 <= i < run.tokens.len() ==> !stops.contains(#[trigger] run.tokens[i])
        }),
    ensures
        ({
            let run = generation_of::<A>(m, s, stops, prompt, words, max);
            let limit = m.config.max_seq_len;
            if prompt.len() + max <= limit {
                run.error is None && run.tokens.len() == max
            } else {
                &&& run.error == Some(
                    ErrorView::Model(ModelErrorOf::SequenceTooLong { max_seq_len: limit }),
                )
                &&& run.tokens.len() == limit - prompt.len() + 1
            }
        }),
{
    let empty = model::empty_cache(m.config.n_layers as int);
    lemma_prompt_forwarded::<A>(m, prompt, 0, Seq::empty(), empty);
    let (logits, cache) = m.forwarded::<A>(prompt, empty);
    law_length_limit::<A>(m, s, stops, logits, words, cache, max);
}

/// A token of a run is the one picked from the logits of what was seen before the
/// run and the tokens sampled before it, by the next random word.
proof fn lemma_run_follows<A: Arith>(
    m: ModelView,
    s: Settings,
    stops: Seq<u32>,
    seen: Seq<u32>,
    words: Map<int, u32>,
    max: int,
    i: int,
)
    requires
        m.runs(),
        m.forward_error(seen, 0) is None,
        ({
            let (logits, cache) = m.forwarded::<A>(
                seen,
                model::empty_cache(m.config.n_layers as int),
            );
            &&& logits.len() == m.lm_head.rows()
            &&& 0 <= i < run_of::<A>(m, s, stops, logits, words, cache, max).tokens.len()
        }),
    ensures
        ({
            let empty = model::empty_cache(m.config.n_layers as int);
            let (logits, cache) = m.forwarded::<A>(seen, empty);
            let tokens = run_of::<A>(m, s, stops, logits, words, cache, max).tokens;
            let before = seen + tokens.subrange(0, i);
            &&& m.forward_error(before, 0) is None
            &&& tokens[i] == s.picked::<A>(
                m.forwarded::<A>(before, empty).0,
                words_left(s, m.lm_head.rows(), words, i)[0],
            )
        }),
    decreases max,
{
    let empty = model::empty_cache(m.config.n_layers as int);
    let (logits, cache) = m.forwarded::<A>(seen, empty);
    let run = run_of::<A>(m, s, stops, logits, words, cache, max);
    if i == 0 {
        assert(seen + run.tokens.subrange(0, 0) =~= seen);
    } else {
        let token = s.picked::<A>(logits, words[0]);
        let left = if s.words_used(logits) == 0 {
            words
        } else {
            rng::skip_words(words, 1)
        };
        crate::causality::law_prefill_then_decode::<A>(m, seen, seq![token], empty);
        lemma_one_forwarded::<A>(m, token, cache);
        let (next, after) = m.forwarded::<A>(seq![token], cache);
        let rest = run_of::<A>(m, s, stops, next, left, after, max - 1);
        assert(run.tokens == seq![token] + rest.tokens);
        lemma_run_follows::<A>(m, s, stops, seen + seq![token], left, max - 1, i - 1);
        assert(seen + seq![token] + rest.tokens.subrange(0, i - 1) =~= seen + run.tokens.subrange(
            0,
            i,
        ));
        if s.words_used(logits) == 1 && i > 1 {
            assert(rng::skip_words(left, i - 1) =~= rng::skip_words(words, i));
        }
    }
}

/// Token `i` of a generation is the one picked from the logits of the prompt and
/// the `i` tokens before it, by the random word that `i` draws leave next.
pub proof fn law_tokens_follow_the_text<A: Arith>(
    m: ModelView,
    s: Settings,
    stops: Seq<u32>,
    prompt: Seq<u32>,
    words: Map<int, u32>,
    max: int,
    i: int,
)
    requires
        m.runs(),
        prompt_error(m, prompt) is None,
        0 <= i < generation_of::<A>(m, s, stops, prompt, words, max).tokens.len(),
    ensures
        ({
            let tokens = generation_of::<A>(m, s, stops, prompt, words, max).tokens;
            let before = prompt + tokens.subrange(0, i);
            &&& m.forward_error(before, 0) is None
            &&& tokens[i] == s.picked::<A>(
                m.forwarded::<A>(before, model::empty_cache(m.config.n_layers as int)).0,
                words_left(s, m.lm_head.rows(), words, i)[0],
            )
        }),
{
    lemma_prompt_forwarded::<A>(
        m,
        prompt,
        0,
        Seq::empty(),
        model::empty_cache(m.config.n_layers as int),
    );
    lemma_run_follows::<A>(m, s, stops, prompt, words, max, i);
}

/// Token `i` of a greedy generation is the largest logit of the prompt and the
/// `i` tokens before it.
pub proof fn law_greedy_takes_the_largest<A: Arith>(
    m: ModelView,
    s: Settings,
    stops: Seq<u32>,
    prompt: Seq<u32>,
    words: Map<int, u32>,
    max: int,
    i: int,
)
    requires
        m.runs(),
        s.is_greedy(),
        prompt_error(m, prompt) is None,
        0 <= i < generation_of::<A>(m, s, stops, prompt, words, max).tokens.len(),
    ensures
        ({
            let tokens = generation_of::<A>(m, s, stops, prompt, words, max).tokens;
            let before = prompt + tokens.subrange(0, i);
            &&& m.forward_error(before, 0) is None
            &&& tokens[i] == argmax_of(
                m.forwarded::<A>(before, model::empty_cache(m.config.n_layers as int)).0,
            ) as u32
        }),
{
    law_tokens_follow_the_text::<A>(m, s, stops, prompt, words, max, i);
}

/// Greedy generation is deterministic: the random words do not matter.
pub proof fn law_greedy_is_deterministic<A: Arith>(
    m: ModelView,
    s: Settings,
    stops: Seq<u32>,
    logits: Seq<u32>,
    a: Map<int, u32>,
    b: Map<int, u32>,
    cache: KVCacheView,
    max: int,
)
    requires
        s.is_greedy(),
    ensures
        run_of::<A>(m, s, stops, logits, a, cache, max).tokens == run_of::<A>(
            m,
            s,
            stops,
            logits,
            b,
            cache,
            max,
        ).tokens,
        run_of::<A>(m, s, stops, logits, a, cache, max).error == run_of::<A>(
            m,
            s,
            stops,
            logits,
            b,
            cache,
            max,
        ).error,
    decreases max,
{
    if max > 0 {
        let token = s.picked::<A>(logits, a[0]);
        if !stops.contains(token) && m.forward_error(seq![token], cache.len as int) is None {
            let (next, after) = m.forwarded::<A>(seq![token], cache);
            law_greedy_is_deterministic::<A>(m, s, stops, next, a, b, after, max - 1);
        }
    }
}

/// Two greedy generations after the same prompt give the same tokens and break off
/// for the same reason, whatever their random words are.
pub proof fn law_greedy_generation_is_deterministic<A: Arith>(
    m: ModelView,
    s: Settings,
    stops: Seq<u32>,
    prompt: Seq<u32>,
    a: Map<int, u32>,
    b: Map<int, u32>,
    max: int,
)
    requires
        s.is_greedy(),
    ensures
        generation_of::<A>(m, s, stops, prompt, a, max).tokens == generation_of::<A>(
            m,
            s,
            stops,
            prompt,
            b,
            max,
        ).tokens,
        generation_of::<A>(m, s, stops, prompt, a, max).error == generation_of::<A>(
            m,
            s,
            stops,
            prompt,
            b,
            max,
        ).error,
{
    let (logits, cache) = m.forwarded::<A>(prompt, model::empty_cache(m.config.n_layers as int));
    law_greedy_is_deterministic::<A>(m, s, stops, logits, a, b, cache, max);
}

/// Engines with the same model, settings, stop tokens and words to come generate
/// the same tokens after the same prompt.
pub proof fn law_generation_is_reproducible<A: Arith>(a: Engine, b: Engine, prompt: Seq<u32>, max: int)
    requires
        a.model@ == b.model@,
        a.sampler.settings() == b.sampler.settings(),
        a.sampler.words() == b.sampler.words(),
        a.stop_tokens@ == b.stop_tokens@,
    ensures
        generation_of::<A>(
            a.model@,
            a.sampler.settings(),
            a.stop_tokens@,
            prompt,
            a.sampler.words(),
            max,
        ) == generation_of::<A>(
            b.model@,
            b.sampler.settings(),
            b.stop_tokens@,
            prompt,
            b.sampler.words(),
            max,
        ),
{
}

/// Without rounding, a number of tokens per second, times the seconds (or a billionth
/// of one, if there were fewer), is the number of tokens.
pub proof fn law_rate<A: Arith>(w: WideRing, tokens: usize, secs: u64)
    requires
        w.of::<A>(),
        ({
            let t = if bits::nan_64(secs) || bits::rank_64(secs) < bits::rank_64(SHORTEST) {
                SHORTEST
            } else {
                secs
            };
            w.ring.unit(w.val(t))
        }),
    ensures
        ({
            let t = if bits::nan_64(secs) || bits::rank_64(secs) < bits::rank_64(SHORTEST) {
                SHORTEST
            } else {
                secs
            };
            w.eq(w.val(rate_of::<A>(tokens, secs)) * w.val(t), tokens as int)
        }),
{
    let t = bits::max_64_of(secs, SHORTEST);
    let n = arith::count64_of::<A>(tokens);
    assert(w.eq(w.val(n), tokens as int));
    w.ring.trans(w.val(rate_of::<A>(tokens, secs)) * w.val(t), w.val(n), tokens as int);
}

} // verus!
