use batch_scheduler::backend_init::{LlamaCppBackend, LlamaCppBackendError};
use batch_scheduler::bench::benchmark_batch;
use batch_scheduler::chat::ChatTemplate;
use batch_scheduler::chat::Message;
use batch_scheduler::client::{
    FinishReason, GeneratedText, Generation, NextTokenChooserParameters,
    StoppingCriteriaParameters, Tokens,
};
use batch_scheduler::config::BatchingConfig;
use batch_scheduler::cost::{FlashBatch, PaddedBatch};
use batch_scheduler::entry::{Entry, InferStreamResponse, ResponseSender, ValidGenerateRequest};
use batch_scheduler::errors::InferError;
use batch_scheduler::fanout::filter_send_generations;
use batch_scheduler::infer::{ConcurrencyLimiter, ResponseAggregator};
use batch_scheduler::queue::State;
use batch_scheduler::scheduler::{apply_backend_failure, apply_backend_pass, CacheAction};
use batch_scheduler::MAX_WAITING_DURATION_MS;

type Rx = flume::Receiver<Result<InferStreamResponse, InferError>>;

fn params() -> NextTokenChooserParameters {
    NextTokenChooserParameters {
        temperature_bits: 0,
        top_k: 0,
        top_p_bits: 0,
        typical_p_bits: 0,
        do_sample: false,
        seed: 0,
        repetition_penalty_bits: 0,
        watermark: false,
    }
}

fn request(input_len: u32, max_new: u32) -> ValidGenerateRequest {
    ValidGenerateRequest {
        inputs: "a prompt".to_string(),
        input_length: input_len,
        truncate: input_len,
        parameters: params(),
        stopping_parameters: StoppingCriteriaParameters {
            max_new_tokens: max_new,
            stop_sequences: Vec::new(),
            ignore_eos_token: false,
        },
    }
}

fn entry(input_len: u32, max_new: u32, queue_time: u64) -> (Entry, Rx) {
    let (tx, rx) = flume::unbounded();
    let e = Entry::new(request(input_len, max_new), ResponseSender::new(tx), queue_time);
    (e, rx)
}

fn token_group(ids: &[u32]) -> Tokens {
    Tokens {
        ids: ids.to_vec(),
        logprob_bits: ids.iter().map(|_| 0u32).collect(),
        texts: ids.iter().map(|i| format!("t{i}")).collect(),
        is_special: ids.iter().map(|_| false).collect(),
    }
}

fn generation(id: u64, prefill: Option<&[u32]>, ids: &[u32], done: bool) -> Generation {
    Generation {
        request_id: id,
        prefill_tokens: prefill.map(token_group),
        tokens: Some(token_group(ids)),
        top_tokens: Vec::new(),
        generated_text: if done {
            Some(GeneratedText {
                text: "done".to_string(),
                generated_tokens: ids.len() as u32,
                finish_reason: FinishReason::Length,
                seed: None,
            })
        } else {
            None
        },
    }
}

fn kinds(rx: &Rx) -> Vec<&'static str> {
    let mut out = Vec::new();
    while let Ok(m) = rx.try_recv() {
        out.push(match m {
            Ok(InferStreamResponse::Prefill(_)) => "prefill",
            Ok(InferStreamResponse::Intermediate { .. }) => "intermediate",
            Ok(InferStreamResponse::End { .. }) => "end",
            Err(_) => "error",
        });
    }
    out
}

#[test]
fn single_small_request_streams_in_order() {
    let config = BatchingConfig::new(1, 1_000_000, 0);
    let mut state: State<FlashBatch> = State::new(config, FlashBatch {});
    let (e, rx) = entry(5, 3, 10);
    state.append(e);
    let (_, nb, _) = state.next_batch(None, 20);
    let nb = nb.expect("one request fits");
    assert_eq!(nb.batch.id, 0);
    assert_eq!(nb.batch.size, 1);
    assert_eq!(nb.batch.requests[0].truncate, 5);
    let mut entries = nb.entries;
    let id = nb.batch.requests[0].id;

    // Prefill produces the prompt tokens plus the first output token.
    let (a1, _) = apply_backend_pass(
        vec![generation(id, Some(&[1, 2, 3, 4, 5]), &[11], false)],
        Some(batch_scheduler::client::CachedBatch {
            id: 0,
            request_ids: vec![id],
            size: 1,
            max_tokens: 8,
        }),
        &mut entries,
    );
    assert!(matches!(a1, CacheAction::Retain(_)));
    // Two decode passes; the last one carries the finished text.
    apply_backend_pass(vec![generation(id, None, &[12], false)], None, &mut entries);
    apply_backend_pass(vec![generation(id, None, &[13], true)], None, &mut entries);
    assert_eq!(entries.len(), 0);

    let seen = kinds(&rx);
    assert_eq!(seen, vec!["prefill", "intermediate", "intermediate", "end"]);

    // Aggregation returns exactly the three generated tokens.
    let mut agg = ResponseAggregator::new();
    let mut agg2 = ResponseAggregator::new();
    agg2.absorb(InferStreamResponse::Prefill(token_group(&[1, 2, 3, 4, 5])));
    agg2.absorb(InferStreamResponse::Intermediate {
        token: batch_scheduler::client::Token {
            id: 11,
            text: "t11".to_string(),
            logprob_bits: 0,
            special: false,
        },
        top_tokens: Vec::new(),
    });
    agg2.absorb(InferStreamResponse::Intermediate {
        token: batch_scheduler::client::Token {
            id: 12,
            text: "t12".to_string(),
            logprob_bits: 0,
            special: false,
        },
        top_tokens: Vec::new(),
    });
    agg2.absorb(InferStreamResponse::End {
        token: batch_scheduler::client::Token {
            id: 13,
            text: "t13".to_string(),
            logprob_bits: 0,
            special: false,
        },
        top_tokens: Vec::new(),
        generated_text: GeneratedText {
            text: "done".to_string(),
            generated_tokens: 3,
            finish_reason: FinishReason::Length,
            seed: None,
        },
        queued: 10,
        start: 20,
    });
    let resp = agg2.finish(5, false).expect("saw the final message");
    assert_eq!(resp.tokens.len(), 3);
    agg.absorb(InferStreamResponse::Prefill(token_group(&[1])));
    assert!(agg.finish(1, false).is_err());
}

#[test]
fn two_requests_share_one_batch_and_start_together() {
    let config = BatchingConfig::new(2, 1_000_000, 0);
    let mut state: State<FlashBatch> = State::new(config, FlashBatch {});
    let (a, _rxa) = entry(4, 2, 10);
    let (b, _rxb) = entry(6, 2, 11);
    state.append(a);
    state.append(b);
    let (_, nb, _) = state.next_batch(None, 50);
    let nb = nb.expect("both fit");
    assert_eq!(nb.batch.size, 2);
    assert_eq!(nb.entries.items[0].1.batch_time, Some(50));
    assert_eq!(nb.entries.items[1].1.batch_time, Some(50));
    assert_ne!(nb.entries.items[0].0, nb.entries.items[1].0);
}

#[test]
fn big_request_is_bypassed_by_small_one() {
    // Weight budget excludes the giant: 1000 + 1000 tokens projected.
    let config = BatchingConfig::new(8, 100, 0);
    let mut state: State<FlashBatch> = State::new(config, FlashBatch {});
    let (a, _rxa) = entry(1000, 1000, 0);
    let (b, _rxb) = entry(10, 10, 500);
    state.append(a);
    state.append(b);
    let (_, nb, _) = state.next_batch(None, 600);
    let nb = nb.expect("the small request fits");
    assert_eq!(nb.batch.size, 1);
    assert_eq!(nb.batch.requests[0].truncate, 10);
    // The giant stays queued; asking again after its waiting bound passes
    // still yields nothing, but does not disturb it.
    let (_, again, _) = state.next_batch(None, 600 + MAX_WAITING_DURATION_MS + 1);
    assert!(again.is_none());
}

#[test]
fn cutoff_defers_requests_that_arrived_much_later() {
    let config = BatchingConfig::new(8, 100, 0);
    let mut state: State<FlashBatch> = State::new(config, FlashBatch {});
    // The giant never fits the budget; the small one arrived well past the
    // cutoff window after it.
    let (a, _rxa) = entry(1000, 1000, 0);
    let (b, _rxb) = entry(10, 10, 1500);
    state.append(a);
    state.append(b);
    let (_, nb, _) = state.next_batch(None, 1600);
    assert!(nb.is_none(), "no overtaking beyond the cutoff window within one scan");
    // A later scan resumes past the blocked giant and serves the newcomer.
    let (_, nb2, _) = state.next_batch(None, 1601);
    let nb2 = nb2.expect("the newcomer is served next");
    assert_eq!(nb2.batch.requests[0].truncate, 10);
}

#[test]
fn cancellation_is_pruned_from_the_cache_within_one_pass() {
    let config = BatchingConfig::new(2, 1_000_000, 0);
    let mut state: State<FlashBatch> = State::new(config, FlashBatch {});
    let (a, rxa) = entry(3, 4, 1);
    let (b, rxb) = entry(3, 4, 2);
    state.append(a);
    state.append(b);
    let (_, nb, _) = state.next_batch(None, 5);
    let nb = nb.expect("both admitted");
    let ida = nb.batch.requests[0].id;
    let idb = nb.batch.requests[1].id;
    let mut entries = nb.entries;

    // Two tokens for each, then the second client goes away.
    apply_backend_pass(
        vec![generation(ida, None, &[1], false), generation(idb, None, &[1], false)],
        None,
        &mut entries,
    );
    apply_backend_pass(
        vec![generation(ida, None, &[2], false), generation(idb, None, &[2], false)],
        None,
        &mut entries,
    );
    drop(rxb);
    let (action, _) = apply_backend_pass(
        vec![generation(ida, None, &[3], false), generation(idb, None, &[3], false)],
        Some(batch_scheduler::client::CachedBatch {
            id: 0,
            request_ids: vec![ida, idb],
            size: 2,
            max_tokens: 16,
        }),
        &mut entries,
    );
    match action {
        CacheAction::Filter { id, kept_ids } => {
            assert_eq!(id, 0);
            assert_eq!(kept_ids, vec![ida]);
        },
        _ => panic!("the cancelled request must be filtered out"),
    }
    // The survivor can still finish.
    apply_backend_pass(vec![generation(ida, None, &[4], true)], None, &mut entries);
    assert_eq!(entries.len(), 0);
    let seen = kinds(&rxa);
    assert_eq!(seen, vec!["intermediate", "intermediate", "intermediate", "end"]);
}

#[test]
fn backend_error_aborts_every_member() {
    let config = BatchingConfig::new(3, 1_000_000, 0);
    let mut state: State<FlashBatch> = State::new(config, FlashBatch {});
    let mut rxs = Vec::new();
    for t in 0..3u64 {
        let (e, rx) = entry(2, 2, t);
        state.append(e);
        rxs.push(rx);
    }
    let (_, nb, _) = state.next_batch(None, 10);
    let mut entries = nb.expect("all admitted").entries;
    apply_backend_failure(&"model crashed".to_string(), &mut entries);
    assert_eq!(entries.len(), 0);
    for rx in &rxs {
        match rx.try_recv().unwrap() {
            Err(InferError::GenerationError(m)) => assert_eq!(m, "model crashed"),
            _ => panic!("every member gets the backend error"),
        }
    }
    // The scheduler keeps going: a later request is admitted normally.
    let (e, _rx) = entry(2, 2, 20);
    state.append(e);
    let (_, next, _) = state.next_batch(None, 30);
    assert!(next.is_some());
}

#[test]
fn merging_an_extension_skips_duplicate_ids() {
    let config = BatchingConfig::new(4, 1_000_000, 0);
    let mut state: State<FlashBatch> = State::new(config, FlashBatch {});
    let (a, _rxa) = entry(2, 2, 0);
    let (b, _rxb) = entry(2, 2, 1);
    state.append(a);
    state.append(b);
    let (_, nb, _) = state.next_batch(None, 5);
    let mut running = nb.expect("both admitted").entries;
    let (c, _rxc) = entry(2, 2, 6);
    state.append(c);
    // The tiny extension passes the half-weight floor only once the queue
    // head has aged past the waiting bound.
    let (back, ext, _) = state.next_batch(Some(running), 6 + MAX_WAITING_DURATION_MS + 1);
    running = back.unwrap();
    let ext = ext.expect("the newcomer extends the batch");
    assert_eq!(ext.entries.items.len(), 1);
    let before = running.items.len();
    running.merge(ext.entries);
    assert_eq!(running.items.len(), before + 1);
    // Merging the same running batch into itself by id adds nothing.
    let (d, _rxd) = entry(2, 2, 11);
    let mut dup = batch_scheduler::queue::EntryMap::new();
    let first_id = running.items[0].0;
    dup.insert(first_id, d);
    running.merge(dup);
    assert_eq!(running.items.len(), before + 1);
}

#[test]
fn third_concurrent_request_fails_fast() {
    let mut limiter = ConcurrencyLimiter::new(2);
    assert!(limiter.try_acquire().is_ok());
    assert!(limiter.try_acquire().is_ok());
    match limiter.try_acquire() {
        Err(InferError::Overloaded) => {},
        _ => panic!("no permit is free"),
    }
    limiter.release();
    assert!(limiter.try_acquire().is_ok());
}

#[test]
fn flash_future_analysis_admits_beyond_the_naive_total() {
    // The projected totals sum to 120 > 100, yet no future step exceeds
    // 100: when the short-output member is still alive the long one holds
    // few tokens, and the short one leaves before the long one grows.
    let config = BatchingConfig::new(8, 100, 0);
    let mut state: State<FlashBatch> = State::new(config, FlashBatch {});
    let (a, _rxa) = entry(50, 10, 0);
    let (b, _rxb) = entry(10, 50, 1);
    state.append(a);
    state.append(b);
    let (_, nb, _) = state.next_batch(None, 10);
    let nb = nb.expect("the future-shape analysis admits both");
    assert_eq!(nb.batch.size, 2);
}

#[test]
fn padded_batch_weights_are_rectangular() {
    let config = BatchingConfig::new(2, 2 * 9 * 9, 2 * 8);
    let mut state: State<PaddedBatch> = State::new(config, PaddedBatch {});
    // Each request pads to (4 input + 5 output)^2 per member.
    let (a, _rxa) = entry(4, 5, 0);
    let (b, _rxb) = entry(4, 5, 1);
    state.append(a);
    state.append(b);
    // prefill weight of one member: isqrt(4^3) = 8 <= 16, of two: 16 <= 16.
    let (_, nb, _) = state.next_batch(None, 10);
    let nb = nb.expect("both fit the padded budget exactly");
    assert_eq!(nb.batch.size, 2);
}

#[test]
fn padded_prefill_budget_limits_the_batch() {
    // One member costs isqrt(4^3) = 8; two cost 16 > 15.
    let config = BatchingConfig::new(4, 1_000_000, 15);
    let mut state: State<PaddedBatch> = State::new(config, PaddedBatch {});
    let (a, _rxa) = entry(4, 5, 0);
    let (b, _rxb) = entry(4, 5, 1);
    state.append(a);
    state.append(b);
    let (_, nb, _) = state.next_batch(None, 10);
    let nb = nb.expect("one fits");
    assert_eq!(nb.batch.size, 1);
}

#[test]
fn flash_weight_limit_admits_exact_fit() {
    // 5 + 3 = 8 tokens projected: fits a budget of 8, not of 7.
    let tight = BatchingConfig::new(4, 7, 0);
    let mut state: State<FlashBatch> = State::new(tight, FlashBatch {});
    let (a, _rx) = entry(5, 3, 0);
    state.append(a);
    let (_, nb, _) = state.next_batch(None, 1);
    assert!(nb.is_none());

    let exact = BatchingConfig::new(4, 8, 0);
    let mut state2: State<FlashBatch> = State::new(exact, FlashBatch {});
    let (b, _rx2) = entry(5, 3, 0);
    state2.append(b);
    let (_, nb2, _) = state2.next_batch(None, 1);
    assert!(nb2.is_some());
}

#[test]
fn error_kinds_have_stable_labels() {
    assert_eq!(InferError::GenerationError("x".to_string()).error_type(), "generation");
    assert_eq!(InferError::Overloaded.error_type(), "overloaded");
    assert_eq!(InferError::ValidationError("x".to_string()).error_type(), "validation");
    assert_eq!(InferError::IncompleteGeneration.error_type(), "incomplete_generation");
    assert_eq!(
        InferError::TemplateError(batch_scheduler::errors::TemplateFailure {
            message: "m".to_string(),
            detail: None,
        })
        .error_type(),
        "template_error"
    );
}

#[test]
fn backend_initialization_outcomes() {
    match LlamaCppBackend::resolve_init("m.gguf".to_string(), false, Ok(())) {
        Err(LlamaCppBackendError::ModelFileDoesntExist(p)) => assert_eq!(p, "m.gguf"),
        _ => panic!("a missing file must be reported"),
    }
    match LlamaCppBackend::resolve_init("m.gguf".to_string(), true, Err("bad magic".to_string())) {
        Err(LlamaCppBackendError::ModelInitializationFailed(p, m)) => {
            assert_eq!(p, "m.gguf");
            assert_eq!(m, "bad magic");
        },
        _ => panic!("a loader failure must be reported"),
    }
    assert!(LlamaCppBackend::resolve_init("m.gguf".to_string(), true, Ok(())).is_ok());
}

#[test]
fn benchmark_batches_replicate_one_prompt() {
    let b = benchmark_batch(&"lorem ipsum".to_string(), 6, 3, 10, params());
    assert_eq!(b.id, 0);
    assert_eq!(b.size, 3);
    assert_eq!(b.requests.len(), 3);
    for (k, r) in b.requests.iter().enumerate() {
        assert_eq!(r.id, k as u64);
        assert_eq!(r.inputs, "lorem ipsum");
        assert_eq!(r.truncate, 6);
        assert_eq!(r.stopping_parameters.max_new_tokens, 10);
        assert!(r.stopping_parameters.ignore_eos_token);
    }
}

#[test]
fn chat_template_surfaces_failures_as_template_errors() {
    let t = ChatTemplate::new(
        "{{ raise_exception('nope') }}".to_string(),
        Some("<s>".to_string()),
        Some("</s>".to_string()),
    );
    match t.apply(vec![Message { role: "user".to_string(), content: "hi".to_string() }]) {
        Err(InferError::TemplateError(f)) => assert_eq!(f.detail.unwrap(), "nope"),
        _ => panic!("the raised message must surface as a template error"),
    }
    let ok = ChatTemplate::new(
        "{{ bos_token }}{% for message in messages %}{{ message.content }}{% endfor %}".to_string(),
        Some("<s>".to_string()),
        None,
    );
    let out = ok
        .apply(vec![Message { role: "user".to_string(), content: "hi".to_string() }])
        .unwrap();
    assert_eq!(out, "<s>hi");
}

#[test]
fn filtering_messages_after_a_drop_never_reaches_the_client() {
    // An entry whose receiver is gone gets nothing and leaves the batch.
    let (e, rx) = entry(2, 3, 0);
    let mut state: State<FlashBatch> = State::new(BatchingConfig::new(1, 100, 0), FlashBatch {});
    state.append(e);
    let (_, nb, _) = state.next_batch(None, 1);
    let mut entries = nb.unwrap().entries;
    let id = entries.items[0].0;
    drop(rx);
    filter_send_generations(&vec![generation(id, None, &[9], false)], &mut entries);
    assert_eq!(entries.len(), 0);
}
