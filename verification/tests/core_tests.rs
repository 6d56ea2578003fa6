use inference_core::dispatch::ChatRequest;
use inference_core::dispatch::Dispatcher;
use inference_core::http::ServeError;
use inference_core::state::Action;
use inference_core::state::Outcome;
use inference_core::state::Phase;

fn req(prompt: &str, path: &str) -> ChatRequest {
    ChatRequest { prompt: prompt.to_string(), model_path: path.to_string() }
}

#[test]
fn happy_path_yields_prefixed_response() {
    let mut d = Dispatcher::new();
    let (id, act) = d.submit(req("Hello", "/models/tiny.bin"));
    assert_eq!(id, 0);
    match act {
        Some(Action::StartLoad { path }) => assert_eq!(path, "/models/tiny.bin"),
        _ => panic!("expected a load to start"),
    }
    let acts = d.load_finished(&"/models/tiny.bin".to_string(), true);
    assert_eq!(acts.len(), 1);
    match &acts[0] {
        Action::StartInference { req_id, path, prompt, max_tokens } => {
            assert_eq!(*req_id, 0);
            assert_eq!(path, "/models/tiny.bin");
            assert_eq!(prompt, "Hello");
            assert_eq!(*max_tokens, 140);
        }
        _ => panic!("expected inference to start"),
    }
    let acts = d.inference_finished(id, Some("Hi there!".to_string()));
    assert_eq!(acts.len(), 1);
    match &acts[0] {
        Action::Respond { req_id, status, body } => {
            assert_eq!(*req_id, 0);
            assert_eq!(*status, 200);
            assert!(body.starts_with("Inference result: "));
            assert_eq!(body, "Inference result: Hi there!");
        }
        _ => panic!("expected a response"),
    }
}

#[test]
fn empty_prompt_rejected_before_registry() {
    let mut d = Dispatcher::new();
    let (id, act) = d.submit(req("", "/models/tiny.bin"));
    match act {
        Some(Action::Respond { req_id, status, body }) => {
            assert_eq!(req_id, id);
            assert_eq!(status, 400);
            assert_eq!(body, "");
        }
        _ => panic!("expected an immediate rejection"),
    }
    assert!(d.entries.is_empty());
    assert_eq!(d.loads, 0);
    assert!(matches!(
        d.slots[id].phase,
        Phase::Done(Outcome::Failed(ServeError::Validation))
    ));
}

#[test]
fn second_request_is_a_cache_hit() {
    let mut d = Dispatcher::new();
    let (id, _) = d.submit(req("one", "/models/a.bin"));
    d.load_finished(&"/models/a.bin".to_string(), true);
    d.inference_finished(id, Some("first".to_string()));
    assert_eq!(d.loads, 1);
    let (_, act) = d.submit(req("two", "/models/a.bin"));
    match act {
        Some(Action::StartInference { .. }) => {}
        _ => panic!("expected the cached model to serve at once"),
    }
    assert_eq!(d.loads, 1);
}

#[test]
fn reference_released_exactly_once_on_success() {
    let mut d = Dispatcher::new();
    let (id, _) = d.submit(req("p", "/m.bin"));
    assert_eq!(d.entries[0].refs, 1);
    d.load_finished(&"/m.bin".to_string(), true);
    assert_eq!(d.entries[0].refs, 1);
    d.inference_finished(id, Some("out".to_string()));
    assert_eq!(d.entries[0].refs, 0);
    assert!(d.entries[0].loaded);
}

#[test]
fn reference_released_exactly_once_on_engine_failure() {
    let mut d = Dispatcher::new();
    let (id, _) = d.submit(req("p", "/m.bin"));
    d.load_finished(&"/m.bin".to_string(), true);
    let acts = d.inference_finished(id, None);
    match &acts[0] {
        Action::Respond { status, body, .. } => {
            assert_eq!(*status, 500);
            assert_eq!(body, "");
        }
        _ => panic!("expected a failure response"),
    }
    assert_eq!(d.entries[0].refs, 0);
    assert!(matches!(
        d.slots[id].phase,
        Phase::Done(Outcome::Failed(ServeError::Inference))
    ));
}

#[test]
fn failed_load_answers_every_waiter_and_forgets_the_path() {
    let mut d = Dispatcher::new();
    let (a, _) = d.submit(req("one", "/does/not/exist"));
    let (b, act_b) = d.submit(req("two", "/does/not/exist"));
    assert!(act_b.is_none(), "the second request waits on the same load");
    assert_eq!(d.loads, 1);
    let acts = d.load_finished(&"/does/not/exist".to_string(), false);
    assert_eq!(acts.len(), 2);
    match (&acts[0], &acts[1]) {
        (
            Action::Respond { req_id: r0, status: s0, body: b0 },
            Action::Respond { req_id: r1, status: s1, body: b1 },
        ) => {
            assert_eq!((*r0, *r1), (a, b));
            assert_eq!((*s0, *s1), (500, 500));
            assert_eq!((b0.as_str(), b1.as_str()), ("", ""));
        }
        _ => panic!("expected two failure responses"),
    }
    assert!(matches!(
        d.slots[a].phase,
        Phase::Done(Outcome::Failed(ServeError::ModelLoad))
    ));
    assert!(d.entries.is_empty(), "a failed path is forgotten so it can be retried");
    let (_, act) = d.submit(req("three", "/does/not/exist"));
    assert!(matches!(act, Some(Action::StartLoad { .. })));
    assert_eq!(d.loads, 2);
}

#[test]
fn same_model_requests_are_serialized_fifo() {
    let mut d = Dispatcher::new();
    let (a, _) = d.submit(req("one", "/m.bin"));
    d.load_finished(&"/m.bin".to_string(), true);
    let (b, act_b) = d.submit(req("two", "/m.bin"));
    let (c, act_c) = d.submit(req("three", "/m.bin"));
    assert!(act_b.is_none() && act_c.is_none(), "waiters queue behind the session lock");
    assert!(d.is_executing(a));
    assert!(!d.is_executing(b) && !d.is_executing(c));
    let acts = d.inference_finished(a, Some("x".to_string()));
    assert_eq!(acts.len(), 2);
    match &acts[1] {
        Action::StartInference { req_id, prompt, .. } => {
            assert_eq!(*req_id, b, "the earliest waiter goes first");
            assert_eq!(prompt, "two");
        }
        _ => panic!("expected the lock to pass to the first waiter"),
    }
    assert!(d.is_executing(b));
    assert!(!d.is_executing(c));
    let acts = d.inference_finished(b, Some("y".to_string()));
    match &acts[1] {
        Action::StartInference { req_id, .. } => assert_eq!(*req_id, c),
        _ => panic!("expected the lock to pass on again"),
    }
}

#[test]
fn different_models_execute_in_parallel() {
    let mut d = Dispatcher::new();
    let (a, _) = d.submit(req("one", "/a.bin"));
    d.load_finished(&"/a.bin".to_string(), true);
    let (b, _) = d.submit(req("two", "/b.bin"));
    d.load_finished(&"/b.bin".to_string(), true);
    assert!(d.is_executing(a) && d.is_executing(b), "no global lock across models");
    assert_eq!(d.loads, 2);
}

#[test]
fn load_pending_tracks_the_outstanding_load() {
    let mut d = Dispatcher::new();
    assert!(!d.load_pending(&"/m.bin".to_string()));
    d.submit(req("p", "/m.bin"));
    assert!(d.load_pending(&"/m.bin".to_string()));
    d.load_finished(&"/m.bin".to_string(), true);
    assert!(!d.load_pending(&"/m.bin".to_string()));
}

#[test]
fn waiters_on_a_pending_load_start_in_arrival_order() {
    let mut d = Dispatcher::new();
    let (a, _) = d.submit(req("one", "/m.bin"));
    let (b, act_b) = d.submit(req("two", "/m.bin"));
    assert!(act_b.is_none());
    let acts = d.load_finished(&"/m.bin".to_string(), true);
    assert_eq!(acts.len(), 1);
    match &acts[0] {
        Action::StartInference { req_id, .. } => assert_eq!(*req_id, a),
        _ => panic!("expected the first arrival to execute"),
    }
    assert!(matches!(d.slots[b].phase, Phase::Queued));
}
