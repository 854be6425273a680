//! Generation: a prompt is passed through the model, and then one sampled token after another until
//! the end of the text, or until enough tokens were produced.

use vstd::prelude::*;
use crate::config::HypnoConfig;
use crate::float::FloatUnit;
use crate::loader::HypnoModel;
use crate::sampling::{is_sample, sample_token, XorShift64};
use crate::tokenizer::{decoded, encoded, law_decoding_is_piecewise, HypnoTokenizer};
use crate::transformer::{
    has_token, is_forward, model_fits, model_forward, token_fits, BuffersModel, ForwardBuffers,
};

verus! {

/// How to generate. Temperature and `top_p` are 32-bit patterns.
#[derive(Debug, Clone, Copy)]
pub struct GenParams {
    pub max_tokens: usize,
    pub temperature: u32,
    pub top_p: u32,
    pub top_k: usize,
    pub seed: u64,
    /// Whether nothing is generated behind a prompt without tokens.
    pub needs_prompt: bool,
}

/// The state of a generation: the scores of the tokens to come next, the generator of random
/// numbers, and how many tokens were produced.
pub struct Generator {
    pub logits: Vec<u32>,
    pub rng: XorShift64,
    pub produced: usize,
}

/// What one step of a generation brings.
#[derive(Debug, Clone, Copy, PartialEq, Eq, Structural)]
pub enum Step {
    /// A token, which was passed through the model.
    Token(u32),
    /// The end.
    Stop,
    /// A token that cannot be passed through the model.
    Blocked(u32),
}

/// Whether a token can be passed through the model: it has an embedding, and the cache has room.
pub open spec fn takes(
    model: HypnoModel<'_>,
    config: HypnoConfig,
    by_columns: bool,
    buffers: ForwardBuffers,
    token: u32,
) -> bool {
    token_fits(model, config, by_columns, token) && buffers.kv_cache.cache_pos
        < config.max_position_embeddings
}

/// What a sampled token leads to.
pub open spec fn is_taken<U: FloatUnit>(
    u: &U,
    model: HypnoModel<'_>,
    config: HypnoConfig,
    eos: Option<u32>,
    by_columns: bool,
    before: (Generator, ForwardBuffers),
    after: (Generator, ForwardBuffers),
    token: u32,
    step: Step,
) -> bool {
    if eos != Some(token) && takes(model, config, by_columns, before.1, token) {
        &&& step == Step::Token(token)
        &&& after.0.produced == before.0.produced + 1
        &&& is_forward(
            u,
            model,
            config,
            token,
            true,
            by_columns,
            before.1@,
            after.1@,
            after.0.logits@,
        )
    } else {
        &&& step == if eos == Some(token) {
            Step::Stop
        } else {
            Step::Blocked(token)
        }
        &&& after.0.produced == before.0.produced
        &&& after.0.logits@ == before.0.logits@
        &&& after.1 == before.1
    }
}

/// Whether a generation is over before a token is sampled.
pub open spec fn is_over(params: GenParams, gen: Generator) -> bool {
    gen.produced >= params.max_tokens || (params.needs_prompt && gen.logits@.len() == 0)
}

/// `step` can be the next step of a generation, and `after` what it then is.
pub open spec fn is_step<U: FloatUnit>(
    u: &U,
    model: HypnoModel<'_>,
    config: HypnoConfig,
    eos: Option<u32>,
    params: GenParams,
    by_columns: bool,
    before: (Generator, ForwardBuffers),
    after: (Generator, ForwardBuffers),
    step: Step,
) -> bool {
    if is_over(params, before.0) {
        step == Step::Stop && after == before
    } else {
        exists|token: u32|
            {
                &&& #[trigger] is_sample(
                    u,
                    before.0.logits@,
                    params.temperature,
                    params.top_p,
                    params.top_k as int,
                    before.0.rng.state,
                    after.0.rng.state,
                    token,
                )
                &&& is_taken(u, model, config, eos, by_columns, before, after, token, step)
            }
    }
}

impl Generator {
    /// A generation that goes on behind these scores.
    pub fn new(logits: Vec<u32>, seed: u64) -> (r: Generator)
        ensures
            r.logits@ == logits@,
            r.produced == 0,
            r.rng.state == if seed == 0 {
                1
            } else {
                seed
            },
    {
        Generator { logits, rng: XorShift64::new(seed), produced: 0 }
    }

    /// Samples the next token and passes it through the model.
    pub fn step<U: FloatUnit>(
        &mut self,
        model: &HypnoModel<'_>,
        config: &HypnoConfig,
        eos: Option<u32>,
        params: &GenParams,
        buffers: &mut ForwardBuffers,
        col_major: bool,
        unit: &U,
    ) -> (step: Step)
        requires
            model_fits(*model, *config),
            old(buffers).wf(*config),
            old(self).logits@.len() <= u32::MAX,
            config.vocab_size <= u32::MAX,
        ensures
            final(buffers).wf(*config),
            final(self).logits@.len() <= u32::MAX,
            is_step(
                unit,
                *model,
                *config,
                eos,
                *params,
                col_major,
                (*old(self), *old(buffers)),
                (*final(self), *final(buffers)),
                step,
            ),
            step is Token ==> final(self).produced == old(self).produced + 1
                && final(self).produced <= params.max_tokens,
    {
        if self.produced >= params.max_tokens || (params.needs_prompt && self.logits.len() == 0) {
            return Step::Stop;
        }
        let ghost before = (*self, *buffers);
        let token: u32 = sample_token(
            self.logits.as_slice(),
            params.temperature,
            params.top_p,
            params.top_k,
            &mut self.rng,
            unit,
        );
        assert(is_sample(
            unit,
            before.0.logits@,
            params.temperature,
            params.top_p,
            params.top_k as int,
            before.0.rng.state,
            self.rng.state,
            token,
        ));
        if let Some(end) = eos {
            if end == token {
                assert(is_taken(
                    unit,
                    *model,
                    *config,
                    eos,
                    col_major,
                    before,
                    (*self, *buffers),
                    token,
                    Step::Stop,
                ));
                return Step::Stop;
            }
        }
        if !has_token(model, config, token, col_major) || buffers.kv_cache.seq_len()
            >= config.max_position_embeddings {
            assert(is_taken(
                unit,
                *model,
                *config,
                eos,
                col_major,
                before,
                (*self, *buffers),
                token,
                Step::Blocked(token),
            ));
            return Step::Blocked(token);
        }
        self.produced = self.produced + 1;
        self.logits = model_forward(model, config, token, buffers, true, col_major, unit);
        assert(is_taken(
            unit,
            *model,
            *config,
            eos,
            col_major,
            before,
            (*self, *buffers),
            token,
            Step::Token(token),
        ));
        assert(is_sample(
            unit,
            before.0.logits@,
            params.temperature,
            params.top_p,
            params.top_k as int,
            before.0.rng.state,
            (*self, *buffers).0.rng.state,
            token,
        ));
        Step::Token(token)
    }
}

/// Why a generation ended: enough tokens were produced, or something else stopped it.
pub open spec fn ending(produced: nat, max_tokens: nat) -> Seq<char> {
    if produced == max_tokens && max_tokens > 0 {
        "length"@
    } else {
        "stop"@
    }
}

/// Why a generation ended.
pub fn finish_reason(produced: usize, max_tokens: usize) -> (r: &'static str)
    ensures
        r@ == ending(produced as nat, max_tokens as nat),
{
    if produced == max_tokens && max_tokens > 0 {
        "length"
    } else {
        "stop"
    }
}

/// Whether all tokens can be passed through the model, from position `start` on.
pub open spec fn takes_all(
    model: HypnoModel<'_>,
    config: HypnoConfig,
    by_columns: bool,
    start: nat,
    tokens: Seq<u32>,
) -> bool {
    &&& start + tokens.len() <= config.max_position_embeddings
    &&& forall|i: int| 0 <= i < tokens.len() ==> token_fits(
            model,
            config,
            by_columns,
            #[trigger] tokens[i],
        )
}

fn check_tokens(
    model: &HypnoModel<'_>,
    config: &HypnoConfig,
    start: usize,
    tokens: &[u32],
    col_major: bool,
) -> (r: bool)
    ensures
        r == takes_all(*model, *config, col_major, start as nat, tokens@),
{
    if start > config.max_position_embeddings || tokens.len() > config.max_position_embeddings
        - start {
        return false;
    }
    let mut i: usize = 0;
    while i < tokens.len()
        invariant
            i <= tokens@.len(),
            forall|k: int| 0 <= k < i ==> token_fits(
                *model,
                *config,
                col_major,
                #[trigger] tokens@[k],
            ),
        decreases tokens@.len() - i,
    {
        if !has_token(model, config, tokens[i], col_major) {
            assert(!token_fits(*model, *config, col_major, tokens@[i as int]));
            return false;
        }
        i = i + 1;
    }
    true
}

/// Token `i` of a prompt can make state `i + 1` of state `i`.
pub open spec fn is_prompt_step<U: FloatUnit>(
    u: &U,
    model: HypnoModel<'_>,
    config: HypnoConfig,
    tokens: Seq<u32>,
    by_columns: bool,
    states: Seq<(BuffersModel, Seq<u32>)>,
    i: int,
) -> bool {
    is_forward(
        u,
        model,
        config,
        tokens[i],
        true,
        by_columns,
        states[i].0,
        states[i + 1].0,
        states[i + 1].1,
    )
}

/// `states` can be the values and scores of a prompt, before its first token and after each token.
pub open spec fn is_prompt_pass<U: FloatUnit>(
    u: &U,
    model: HypnoModel<'_>,
    config: HypnoConfig,
    tokens: Seq<u32>,
    by_columns: bool,
    states: Seq<(BuffersModel, Seq<u32>)>,
) -> bool {
    forall|i: int|
        0 <= i < states.len() - 1 ==> #[trigger] is_prompt_step(
            u,
            model,
            config,
            tokens,
            by_columns,
            states,
            i,
        )
}

/// `after` and `logits` can be what tokens lead to.
pub open spec fn is_fed<U: FloatUnit>(
    u: &U,
    model: HypnoModel<'_>,
    config: HypnoConfig,
    tokens: Seq<u32>,
    by_columns: bool,
    before: BuffersModel,
    after: BuffersModel,
    logits: Seq<u32>,
) -> bool {
    exists|states: Seq<(BuffersModel, Seq<u32>)>|
        {
            &&& #[trigger] is_prompt_pass(u, model, config, tokens, by_columns, states)
            &&& states.len() == tokens.len() + 1
            &&& states[0] == (before, Seq::<u32>::empty())
            &&& states.last() == (after, logits)
        }
}

/// Passes tokens through the model one by one, behind those in the cache. Returns the scores of the
/// tokens to come next, none where there are no tokens. `None` where not all tokens can be passed
/// through; nothing is then done.
pub fn feed<U: FloatUnit>(
    model: &HypnoModel<'_>,
    config: &HypnoConfig,
    tokens: &[u32],
    buffers: &mut ForwardBuffers,
    col_major: bool,
    unit: &U,
) -> (r: Option<Vec<u32>>)
    requires
        model_fits(*model, *config),
        old(buffers).wf(*config),
    ensures
        final(buffers).wf(*config),
        r is Some <==> takes_all(
            *model,
            *config,
            col_major,
            old(buffers).kv_cache.cache_pos as nat,
            tokens@,
        ),
        r matches Some(logits) ==> is_fed(
            unit,
            *model,
            *config,
            tokens@,
            col_major,
            old(buffers)@,
            final(buffers)@,
            logits@,
        ) && logits@.len() == if tokens@.len() == 0 {
            0
        } else {
            config.vocab_size as nat
        },
        r is None ==> *final(buffers) == *old(buffers),
{
    let start: usize = buffers.kv_cache.seq_len();
    if !check_tokens(model, config, start, tokens, col_major) {
        return None;
    }
    let mut logits: Vec<u32> = Vec::new();
    let ghost first = buffers@;
    let ghost mut states: Seq<(BuffersModel, Seq<u32>)> = seq![(buffers@, logits@)];
    assert(logits@ =~= Seq::<u32>::empty());
    let mut i: usize = 0;
    while i < tokens.len()
        invariant
            i <= tokens@.len(),
            model_fits(*model, *config),
            takes_all(*model, *config, col_major, start as nat, tokens@),
            buffers.wf(*config),
            buffers.kv_cache.cache_pos == start + i,
            states.len() == i + 1,
            states[0] == (first, Seq::<u32>::empty()),
            states.last() == (buffers@, logits@),
            is_prompt_pass(unit, *model, *config, tokens@, col_major, states),
            logits@.len() == if i == 0 {
                0
            } else {
                config.vocab_size as nat
            },
        decreases tokens@.len() - i,
    {
        let ghost old_states = states;
        logits = model_forward(model, config, tokens[i], buffers, true, col_major, unit);
        proof {
            states = old_states.push((buffers@, logits@));
            assert forall|k: int| 0 <= k < states.len() - 1 implies #[trigger] is_prompt_step(
                unit,
                *model,
                *config,
                tokens@,
                col_major,
                states,
                k,
            ) by {
                if k < i {
                    assert(is_prompt_step(
                        unit,
                        *model,
                        *config,
                        tokens@,
                        col_major,
                        old_states,
                        k,
                    ));
                }
            }
        }
        i = i + 1;
    }
    Some(logits)
}

/// The values of before, with an empty cache.
pub open spec fn cleared(b: BuffersModel) -> BuffersModel {
    BuffersModel { cache: b.cache.at(0), ..b }
}

/// Passes a prompt through the model, from an empty cache on. Returns the scores of the tokens to
/// come next, none where the prompt is empty. `None` where not all tokens can be passed through;
/// nothing is then done.
pub fn prefill<U: FloatUnit>(
    model: &HypnoModel<'_>,
    config: &HypnoConfig,
    tokens: &[u32],
    buffers: &mut ForwardBuffers,
    col_major: bool,
    unit: &U,
) -> (r: Option<Vec<u32>>)
    requires
        model_fits(*model, *config),
        old(buffers).wf(*config),
    ensures
        final(buffers).wf(*config),
        r is Some <==> takes_all(*model, *config, col_major, 0, tokens@),
        r matches Some(logits) ==> is_fed(
            unit,
            *model,
            *config,
            tokens@,
            col_major,
            cleared(old(buffers)@),
            final(buffers)@,
            logits@,
        ) && logits@.len() == if tokens@.len() == 0 {
            0
        } else {
            config.vocab_size as nat
        },
        r is None ==> *final(buffers) == *old(buffers),
{
    if !check_tokens(model, config, 0, tokens, col_major) {
        return None;
    }
    buffers.reset_cache();
    feed(model, config, tokens, buffers, col_major, unit)
}

/// Token `i` can bring a generation from state `i` to state `i + 1`.
pub open spec fn is_step_at<U: FloatUnit>(
    u: &U,
    model: HypnoModel<'_>,
    config: HypnoConfig,
    eos: Option<u32>,
    params: GenParams,
    by_columns: bool,
    states: Seq<(Generator, ForwardBuffers)>,
    tokens: Seq<u32>,
    i: int,
) -> bool {
    is_step(
        u,
        model,
        config,
        eos,
        params,
        by_columns,
        states[i],
        states[i + 1],
        Step::Token(tokens[i]),
    )
}

/// `tokens` can be produced one after another, with `states` before the first and after each.
pub open spec fn is_trace<U: FloatUnit>(
    u: &U,
    model: HypnoModel<'_>,
    config: HypnoConfig,
    eos: Option<u32>,
    params: GenParams,
    by_columns: bool,
    states: Seq<(Generator, ForwardBuffers)>,
    tokens: Seq<u32>,
) -> bool {
    &&& states.len() == tokens.len() + 1
    &&& forall|i: int|
        0 <= i < tokens.len() ==> #[trigger] is_step_at(
            u,
            model,
            config,
            eos,
            params,
            by_columns,
            states,
            tokens,
            i,
        )
}

/// A generation from values `before` on can produce `tokens` and then end with `last`.
pub open spec fn is_generated<U: FloatUnit>(
    u: &U,
    model: HypnoModel<'_>,
    config: HypnoConfig,
    eos: Option<u32>,
    params: GenParams,
    by_columns: bool,
    prompt: Seq<u32>,
    before: ForwardBuffers,
    after: ForwardBuffers,
    tokens: Seq<u32>,
    last: Step,
) -> bool {
    exists|states: Seq<(Generator, ForwardBuffers)>, end: (Generator, ForwardBuffers)|
        {
            &&& #[trigger] is_trace(
                u,
                model,
                config,
                eos,
                params,
                by_columns,
                states,
                tokens,
            )
            &&& is_fed(
                u,
                model,
                config,
                prompt,
                by_columns,
                cleared(before@),
                states[0].1@,
                states[0].0.logits@,
            )
            &&& states[0].0.produced == 0
            &&& states[0].0.rng.state == if params.seed == 0 {
                1
            } else {
                params.seed
            }
            &&& #[trigger] is_step(
                u,
                model,
                config,
                eos,
                params,
                by_columns,
                states.last(),
                end,
                last,
            )
            &&& end.1 == after
        }
}

/// The outcome of a generation.
pub struct Generation {
    pub text: String,
    pub prompt_tokens: usize,
    pub completion_tokens: usize,
    pub finish_reason: &'static str,
}

/// Why a generation failed.
#[derive(Debug, Clone, Copy, PartialEq, Eq, Structural)]
pub enum GenerateError {
    /// Not all tokens of the prompt can be passed through the model.
    Prompt,
    /// A sampled token cannot be passed through the model.
    Token(u32),
}

/// Generates the text behind a prompt.
pub fn generate_completion<U: FloatUnit>(
    model: &HypnoModel<'_>,
    config: &HypnoConfig,
    tokenizer: &HypnoTokenizer,
    prompt: &str,
    params: &GenParams,
    buffers: &mut ForwardBuffers,
    col_major: bool,
    unit: &U,
) -> (r: Result<Generation, GenerateError>)
    requires
        model_fits(*model, *config),
        old(buffers).wf(*config),
        config.vocab_size <= u32::MAX,
    ensures
        final(buffers).wf(*config),
        r == Err::<Generation, GenerateError>(GenerateError::Prompt) <==> !takes_all(
            *model,
            *config,
            col_major,
            0,
            encoded(tokenizer@, prompt@),
        ),
        r matches Ok(g) ==> {
            &&& g.prompt_tokens == encoded(tokenizer@, prompt@).len()
            &&& g.finish_reason@ == ending(g.completion_tokens as nat, params.max_tokens as nat)
            &&& exists|tokens: Seq<u32>|
                {
                    &&& #[trigger] is_generated(
                        unit,
                        *model,
                        *config,
                        tokenizer@.eos,
                        *params,
                        col_major,
                        encoded(tokenizer@, prompt@),
                        *old(buffers),
                        *final(buffers),
                        tokens,
                        Step::Stop,
                    )
                    &&& g.completion_tokens == tokens.len() <= params.max_tokens
                    &&& g.text@ == decoded(tokenizer@, tokens)
                }
        },
        (r is Err && r->Err_0 is Token) ==> exists|tokens: Seq<u32>|
            #[trigger] is_generated(
                unit,
                *model,
                *config,
                tokenizer@.eos,
                *params,
                col_major,
                encoded(tokenizer@, prompt@),
                *old(buffers),
                *final(buffers),
                tokens,
                Step::Blocked(r->Err_0->0),
            ),
{
    let ids = tokenizer.encode(prompt);
    let logits = match prefill(model, config, ids.as_slice(), buffers, col_major, unit) {
        Some(l) => l,
        None => {
            return Err(GenerateError::Prompt);
        },
    };
    let eos = tokenizer.eos_token_id();
    let mut gen = Generator::new(logits, params.seed);
    let mut text: String = String::new();
    let ghost mut tokens: Seq<u32> = Seq::empty();
    let ghost mut states: Seq<(Generator, ForwardBuffers)> = seq![(gen, *buffers)];
    assert(text@ =~= decoded(tokenizer@, tokens));
    let ghost begin = states[0];
    loop
        invariant
            model_fits(*model, *config),
            takes_all(*model, *config, col_major, 0, encoded(tokenizer@, prompt@)),
            buffers.wf(*config),
            config.vocab_size <= u32::MAX,
            gen.logits@.len() <= u32::MAX,
            gen.produced == tokens.len() <= params.max_tokens,
            eos == tokenizer@.eos,
            ids@ == encoded(tokenizer@, prompt@),
            text@ == decoded(tokenizer@, tokens),
            states.len() == tokens.len() + 1,
            states[0] == begin,
            states.last() == (gen, *buffers),
            begin.0.produced == 0,
            begin.0.rng.state == if params.seed == 0 {
                1
            } else {
                params.seed
            },
            is_fed(
                unit,
                *model,
                *config,
                ids@,
                col_major,
                cleared(old(buffers)@),
                begin.1@,
                begin.0.logits@,
            ),
            is_trace(unit, *model, *config, eos, *params, col_major, states, tokens),
        decreases params.max_tokens - gen.produced,
    {
        let step = gen.step(model, config, eos, params, buffers, col_major, unit);
        assert(is_step(
            unit,
            *model,
            *config,
            eos,
            *params,
            col_major,
            states.last(),
            (gen, *buffers),
            step,
        ));
        match step {
            Step::Token(t) => {
                let mut one: Vec<u32> = Vec::new();
                one.push(t);
                text.append(tokenizer.decode(one.as_slice()).as_str());
                proof {
                    let old_tokens = tokens;
                    let old_states = states;
                    tokens = old_tokens.push(t);
                    states = old_states.push((gen, *buffers));
                    assert(tokens =~= old_tokens + one@);
                    law_decoding_is_piecewise(tokenizer@, old_tokens, one@);
                    assert forall|k: int| 0 <= k < tokens.len() implies #[trigger] is_step_at(
                        unit,
                        *model,
                        *config,
                        eos,
                        *params,
                        col_major,
                        states,
                        tokens,
                        k,
                    ) by {
                        if k < old_tokens.len() {
                            assert(is_step_at(
                                unit,
                                *model,
                                *config,
                                eos,
                                *params,
                                col_major,
                                old_states,
                                old_tokens,
                                k,
                            ));
                        }
                    }
                }
            },
            Step::Stop => {
                assert(is_generated(
                    unit,
                    *model,
                    *config,
                    eos,
                    *params,
                    col_major,
                    ids@,
                    *old(buffers),
                    *buffers,
                    tokens,
                    Step::Stop,
                ));
                return Ok(
                    Generation {
                        text,
                        prompt_tokens: ids.len(),
                        completion_tokens: gen.produced,
                        finish_reason: finish_reason(gen.produced, params.max_tokens),
                    },
                );
            },
            Step::Blocked(t) => {
                let e = GenerateError::Token(t);
                assert(is_generated(
                    unit,
                    *model,
                    *config,
                    tokenizer@.eos,
                    *params,
                    col_major,
                    encoded(tokenizer@, prompt@),
                    *old(buffers),
                    *buffers,
                    tokens,
                    Step::Blocked(e->0),
                ));
                return Err(e);
            },
        }
    }
}

/// A generation never shows the token of the end, and never more tokens than it may produce.
pub proof fn law_end_is_never_shown<U: FloatUnit>(
    u: &U,
    model: HypnoModel<'_>,
    config: HypnoConfig,
    eos: Option<u32>,
    params: GenParams,
    by_columns: bool,
    prompt: Seq<u32>,
    before: ForwardBuffers,
    after: ForwardBuffers,
    tokens: Seq<u32>,
    last: Step,
    i: int,
)
    requires
        is_generated(
            u,
            model,
            config,
            eos,
            params,
            by_columns,
            prompt,
            before,
            after,
            tokens,
            last,
        ),
        0 <= i < tokens.len(),
    ensures
        eos != Some(tokens[i]),
        tokens.len() <= params.max_tokens,
{
    let (states, end) = choose|
        states: Seq<(Generator, ForwardBuffers)>,
        end: (Generator, ForwardBuffers),
    |
        {
            &&& #[trigger] is_trace(u, model, config, eos, params, by_columns, states, tokens)
            &&& is_fed(
                u,
                model,
                config,
                prompt,
                by_columns,
                cleared(before@),
                states[0].1@,
                states[0].0.logits@,
            )
            &&& states[0].0.produced == 0
            &&& #[trigger] is_step(
                u,
                model,
                config,
                eos,
                params,
                by_columns,
                states.last(),
                end,
                last,
            )
        };
    lemma_produced(u, model, config, eos, params, by_columns, states, tokens, i + 1);
    let n = tokens.len() as int;
    lemma_produced(u, model, config, eos, params, by_columns, states, tokens, n);
    assert(is_step_at(u, model, config, eos, params, by_columns, states, tokens, i));
    assert(is_step_at(u, model, config, eos, params, by_columns, states, tokens, n - 1));
}

proof fn lemma_produced<U: FloatUnit>(
    u: &U,
    model: HypnoModel<'_>,
    config: HypnoConfig,
    eos: Option<u32>,
    params: GenParams,
    by_columns: bool,
    states: Seq<(Generator, ForwardBuffers)>,
    tokens: Seq<u32>,
    i: int,
)
    requires
        is_trace(u, model, config, eos, params, by_columns, states, tokens),
        states[0].0.produced == 0,
        0 <= i <= tokens.len(),
    ensures
        states[i].0.produced == i,
        i <= params.max_tokens,
    decreases i,
{
    if i > 0 {
        lemma_produced(u, model, config, eos, params, by_columns, states, tokens, i - 1);
        assert(is_step_at(u, model, config, eos, params, by_columns, states, tokens, i - 1));
    }
}

/// A generation that stops before it has produced all tokens that it may, behind a prompt with tokens,
/// has sampled the token of the end.
pub proof fn law_early_stop_is_at_the_end<U: FloatUnit>(
    u: &U,
    model: HypnoModel<'_>,
    config: HypnoConfig,
    eos: Option<u32>,
    params: GenParams,
    by_columns: bool,
    before: (Generator, ForwardBuffers),
    after: (Generator, ForwardBuffers),
)
    requires
        is_step(u, model, config, eos, params, by_columns, before, after, Step::Stop),
        before.0.produced < params.max_tokens,
        before.0.logits@.len() > 0,
    ensures
        eos is Some,
        is_sample(
            u,
            before.0.logits@,
            params.temperature,
            params.top_p,
            params.top_k as int,
            before.0.rng.state,
            after.0.rng.state,
            eos->Some_0,
        ),
        after.1 == before.1,
{
}

/// The token that is sampled is the one that is passed through the model, and the scores that it leads to
/// are those that the next token is sampled from.
pub proof fn law_next_token_follows_the_last<U: FloatUnit>(
    u: &U,
    model: HypnoModel<'_>,
    config: HypnoConfig,
    eos: Option<u32>,
    params: GenParams,
    by_columns: bool,
    states: Seq<(Generator, ForwardBuffers)>,
    tokens: Seq<u32>,
    i: int,
)
    requires
        is_trace(u, model, config, eos, params, by_columns, states, tokens),
        0 <= i < tokens.len() - 1,
    ensures
        is_forward(
            u,
            model,
            config,
            tokens[i],
            true,
            by_columns,
            states[i].1@,
            states[i + 1].1@,
            states[i + 1].0.logits@,
        ),
        is_sample(
            u,
            states[i + 1].0.logits@,
            params.temperature,
            params.top_p,
            params.top_k as int,
            states[i + 1].0.rng.state,
            states[i + 2].0.rng.state,
            tokens[i + 1],
        ),
{
    assert(is_step_at(u, model, config, eos, params, by_columns, states, tokens, i));
    assert(is_step_at(u, model, config, eos, params, by_columns, states, tokens, i + 1));
}

/// A prompt is passed through the model token by token: that of the first tokens, and then the next one.
pub proof fn law_prompt_is_fed_in_order<U: FloatUnit>(
    u: &U,
    model: HypnoModel<'_>,
    config: HypnoConfig,
    tokens: Seq<u32>,
    token: u32,
    by_columns: bool,
    before: BuffersModel,
    after: BuffersModel,
    logits: Seq<u32>,
)
    requires
        is_fed(u, model, config, tokens.push(token), by_columns, before, after, logits),
    ensures
        exists|middle: BuffersModel, scores: Seq<u32>|
            {
                &&& #[trigger] is_fed(
                    u,
                    model,
                    config,
                    tokens,
                    by_columns,
                    before,
                    middle,
                    scores,
                )
                &&& is_forward(u, model, config, token, true, by_columns, middle, after, logits)
            },
{
    let all = tokens.push(token);
    let states = choose|states: Seq<(BuffersModel, Seq<u32>)>|
        {
            &&& #[trigger] is_prompt_pass(u, model, config, all, by_columns, states)
            &&& states.len() == all.len() + 1
            &&& states[0] == (before, Seq::<u32>::empty())
            &&& states.last() == (after, logits)
        };
    let n = tokens.len() as int;
    let front = states.drop_last();
    assert forall|i: int| 0 <= i < front.len() - 1 implies #[trigger] is_prompt_step(
        u,
        model,
        config,
        tokens,
        by_columns,
        front,
        i,
    ) by {
        assert(is_prompt_step(u, model, config, all, by_columns, states, i));
    }
    assert(is_prompt_pass(u, model, config, tokens, by_columns, front));
    assert(is_prompt_step(u, model, config, all, by_columns, states, n));
    assert(is_fed(u, model, config, tokens, by_columns, before, front.last().0, front.last().1));
}

/// A generation is said to have ended by its length only where it has produced all tokens that it may.
pub proof fn law_length_means_the_limit(produced: nat, max_tokens: nat)
    requires
        produced <= max_tokens,
    ensures
        produced < max_tokens ==> ending(produced, max_tokens) == "stop"@,
        0 < produced == max_tokens ==> ending(produced, max_tokens) == "length"@,
{
}

} // verus!
