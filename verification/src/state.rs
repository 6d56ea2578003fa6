//! The mathematical model of the serving core.
//!
//! A [`StateV`] holds the registry of loaded models, every request the
//! dispatcher has ever accepted, and how many disk loads were started.  The
//! spec functions here say exactly how each event — a new request, a finished
//! model load, a finished generation — transforms that state and which
//! actions the outside shell is asked to perform.  The executable
//! [`crate::dispatch::Dispatcher`] is proved to follow these functions step
//! by step, and the laws in [`crate::laws`] are proved about them.

use vstd::prelude::*;
use crate::http::ServeError;
use crate::http::success_prefix;

verus! {

/// The fixed cap on generated tokens per request.
pub const MAX_TOKENS: u64 = 140;

/// How one request has fared so far.
pub enum Phase {
    /// Holding a registry reference, waiting for the model's weights.
    Loading,
    /// Model loaded; waiting its turn on the model's session lock.
    Queued,
    /// Holding the session lock; the engine is generating tokens for it.
    Executing,
    /// Terminal: the response has been decided.
    Done(Outcome),
}

/// The terminal result of a request.
pub enum Outcome {
    /// Generation finished; the payload is the generated text.
    Success(String),
    /// The request failed somewhere along the pipeline.
    Failed(ServeError),
}

/// One request accepted by the dispatcher.
pub struct RequestSlot {
    pub path: String,
    pub prompt: String,
    pub phase: Phase,
}

/// One registry entry: a model identified by its path, its reference count,
/// whether its weights have arrived, and its session lock.
pub struct ModelEntry {
    pub path: String,
    /// How many live requests hold this model.
    pub refs: usize,
    /// Whether the weights have been loaded; until then every holder waits.
    pub loaded: bool,
    /// The per-model session lock: true while one request is executing.
    pub session_busy: bool,
}

/// What the core asks the outside shell to do.
pub enum Action {
    /// Read and deserialize the weights at `path`; report with `load_finished`.
    StartLoad { path: String },
    /// Run the generation loop for `req_id`; report with `inference_finished`.
    StartInference { req_id: usize, path: String, prompt: String, max_tokens: u64 },
    /// Deliver this status and body to the client of `req_id`.
    Respond { req_id: usize, status: u16, body: String },
}

/// The ghost mirror of an [`Action`], over sequences and unbounded integers.
pub ghost enum ActionV {
    StartLoad { path: Seq<char> },
    StartInference { req_id: int, path: Seq<char>, prompt: Seq<char>, max_tokens: int },
    Respond { req_id: int, status: int, body: Seq<char> },
}

impl View for Action {
    type V = ActionV;

    open spec fn view(&self) -> ActionV {
        match self {
            Action::StartLoad { path } => ActionV::StartLoad { path: path@ },
            Action::StartInference { req_id, path, prompt, max_tokens } => ActionV::StartInference {
                req_id: *req_id as int,
                path: path@,
                prompt: prompt@,
                max_tokens: *max_tokens as int,
            },
            Action::Respond { req_id, status, body } => ActionV::Respond {
                req_id: *req_id as int,
                status: *status as int,
                body: body@,
            },
        }
    }
}

/// The whole state of the serving core.
pub ghost struct StateV {
    pub entries: Seq<ModelEntry>,
    pub slots: Seq<RequestSlot>,
    pub loads: int,
}

pub open spec fn opt_view(a: Option<Action>) -> Option<ActionV> {
    match a {
        Option::None => Option::None,
        Option::Some(x) => Option::Some(x@),
    }
}

pub open spec fn actions_view(v: Seq<Action>) -> Seq<ActionV> {
    v.map_values(|a: Action| a@)
}

/// A slot in a live phase counts against its model's reference count.
pub open spec fn holds_ref(s: RequestSlot, path: Seq<char>) -> bool {
    s.path@ == path && (s.phase is Loading || s.phase is Queued || s.phase is Executing)
}

pub open spec fn is_loading_on(s: RequestSlot, path: Seq<char>) -> bool {
    s.path@ == path && s.phase is Loading
}

pub open spec fn is_queued_on(s: RequestSlot, path: Seq<char>) -> bool {
    s.path@ == path && s.phase is Queued
}

pub open spec fn is_executing_on(s: RequestSlot, path: Seq<char>) -> bool {
    s.path@ == path && s.phase is Executing
}

/// How many live requests hold the model at `path`.
pub open spec fn count_holders(slots: Seq<RequestSlot>, path: Seq<char>) -> nat
    decreases slots.len(),
{
    if slots.len() == 0 {
        0
    } else {
        count_holders(slots.drop_last(), path) + (if holds_ref(slots.last(), path) {
            1nat
        } else {
            0nat
        })
    }
}

/// The index of the registry entry for `path`, if one exists.
pub open spec fn find_entry(entries: Seq<ModelEntry>, path: Seq<char>) -> Option<int>
    decreases entries.len(),
{
    if entries.len() == 0 {
        Option::None
    } else if entries[0].path@ == path {
        Option::Some(0int)
    } else {
        match find_entry(entries.drop_first(), path) {
            Option::None => Option::None,
            Option::Some(i) => Option::Some(i + 1),
        }
    }
}

/// The registry entry for `path`; meaningful only when one exists.
pub open spec fn entry_of(st: StateV, path: Seq<char>) -> ModelEntry
    recommends
        find_entry(st.entries, path) is Some,
{
    st.entries[find_entry(st.entries, path)->Some_0]
}

/// The first (lowest-index, hence first-arrived) slot satisfying `p`.
pub open spec fn first_where(slots: Seq<RequestSlot>, p: spec_fn(RequestSlot) -> bool) -> Option<
    int,
>
    decreases slots.len(),
{
    if slots.len() == 0 {
        Option::None
    } else if p(slots[0]) {
        Option::Some(0int)
    } else {
        match first_where(slots.drop_first(), p) {
            Option::None => Option::None,
            Option::Some(i) => Option::Some(i + 1),
        }
    }
}

pub open spec fn loading_pred(path: Seq<char>) -> spec_fn(RequestSlot) -> bool {
    |s: RequestSlot| is_loading_on(s, path)
}

pub open spec fn queued_pred(path: Seq<char>) -> spec_fn(RequestSlot) -> bool {
    |s: RequestSlot| is_queued_on(s, path)
}

/// Well-formedness of the core's state:
/// - registry paths are distinct (at most one live handle per path);
/// - every reference count equals the number of live holders (no leak, no
///   double release);
/// - a session lock is held exactly when some request is executing on it;
/// - live slots point at an existing entry, loading ones at an unloaded
///   entry, queued and executing ones at a loaded one;
/// - at most one request executes against a model at a time (single-flight);
/// - at most one load was started per accepted request.
pub open spec fn wf(st: StateV) -> bool {
    &&& forall|j1: int, j2: int|
        0 <= j1 < j2 < st.entries.len() ==> #[trigger] st.entries[j1].path@ != #[trigger] st.entries[j2].path@
    &&& forall|j: int|
        0 <= j < st.entries.len() ==> #[trigger] st.entries[j].refs == count_holders(
            st.slots,
            st.entries[j].path@,
        )
    &&& forall|j: int|
        0 <= j < st.entries.len() ==> (#[trigger] st.entries[j].session_busy <==> exists|i: int|
            0 <= i < st.slots.len() && is_executing_on(st.slots[i], st.entries[j].path@))
    &&& forall|i: int|
        0 <= i < st.slots.len() ==> ((#[trigger] st.slots[i].phase is Loading || st.slots[i].phase
            is Queued || st.slots[i].phase is Executing) ==> find_entry(
            st.entries,
            st.slots[i].path@,
        ) is Some)
    &&& forall|i: int|
        0 <= i < st.slots.len() ==> (#[trigger] st.slots[i].phase is Loading ==> !entry_of(
            st,
            st.slots[i].path@,
        ).loaded)
    &&& forall|i: int|
        0 <= i < st.slots.len() ==> ((#[trigger] st.slots[i].phase is Queued || st.slots[i].phase
            is Executing) ==> entry_of(st, st.slots[i].path@).loaded)
    &&& forall|i1: int, i2: int|
        0 <= i1 < st.slots.len() && 0 <= i2 < st.slots.len() && #[trigger] st.slots[i1].phase
            is Executing && #[trigger] st.slots[i2].phase is Executing && st.slots[i1].path@
            == st.slots[i2].path@ ==> i1 == i2
    &&& st.loads <= st.slots.len()
}

/// The state after the dispatcher accepts a request.
///
/// An empty prompt is rejected before the registry is read or written.  A
/// known path is a cache hit: its reference count rises and no load starts.
/// An unknown path gets a fresh entry and one load.  A request that finds
/// the model loaded and its session free starts executing at once; behind a
/// busy session it queues; behind a pending load it waits for the weights.
pub open spec fn spec_submit(st: StateV, prompt: String, path: String) -> StateV {
    if prompt@.len() == 0 {
        StateV {
            slots: st.slots.push(
                RequestSlot {
                    path,
                    prompt,
                    phase: Phase::Done(Outcome::Failed(ServeError::Validation)),
                },
            ),
            ..st
        }
    } else {
        match find_entry(st.entries, path@) {
            Option::Some(j) => {
                let e = st.entries[j];
                let phase = if !e.loaded {
                    Phase::Loading
                } else if e.session_busy {
                    Phase::Queued
                } else {
                    Phase::Executing
                };
                let e2 = ModelEntry {
                    refs: (e.refs + 1) as usize,
                    session_busy: if e.loaded {
                        true
                    } else {
                        e.session_busy
                    },
                    ..e
                };
                StateV {
                    entries: st.entries.update(j, e2),
                    slots: st.slots.push(RequestSlot { path, prompt, phase }),
                    loads: st.loads,
                }
            },
            Option::None => StateV {
                entries: st.entries.push(
                    ModelEntry { path, refs: 1, loaded: false, session_busy: false },
                ),
                slots: st.slots.push(RequestSlot { path, prompt, phase: Phase::Loading }),
                loads: st.loads + 1,
            },
        }
    }
}

/// The action accompanying [`spec_submit`].
pub open spec fn spec_submit_action(st: StateV, prompt: String, path: String) -> Option<ActionV> {
    let id = st.slots.len() as int;
    if prompt@.len() == 0 {
        Option::Some(ActionV::Respond { req_id: id, status: 400, body: Seq::empty() })
    } else {
        match find_entry(st.entries, path@) {
            Option::Some(j) => if st.entries[j].loaded && !st.entries[j].session_busy {
                Option::Some(
                    ActionV::StartInference {
                        req_id: id,
                        path: path@,
                        prompt: prompt@,
                        max_tokens: MAX_TOKENS as int,
                    },
                )
            } else {
                Option::None
            },
            Option::None => Option::Some(ActionV::StartLoad { path: path@ }),
        }
    }
}

/// How one slot changes when the load of `path` succeeds and `w` is the
/// index of the earliest waiter: the waiters move on, everyone else stays.
pub open spec fn load_ok_slot(s: RequestSlot, i: int, w: int, path: Seq<char>) -> RequestSlot {
    if is_loading_on(s, path) {
        RequestSlot {
            phase: if i == w {
                Phase::Executing
            } else {
                Phase::Queued
            },
            ..s
        }
    } else {
        s
    }
}

/// How one slot changes when the load of `path` fails: its waiters fail
/// with `ModelLoad`, everyone else stays.
pub open spec fn load_err_slot(s: RequestSlot, path: Seq<char>) -> RequestSlot {
    if is_loading_on(s, path) {
        RequestSlot { phase: Phase::Done(Outcome::Failed(ServeError::ModelLoad)), ..s }
    } else {
        s
    }
}

/// The state after a load completes successfully: the entry is marked
/// loaded, the earliest waiter (if any) takes the session lock and starts
/// executing, and every other waiter moves to the session queue.
pub open spec fn spec_load_ok(st: StateV, path: Seq<char>) -> StateV
    recommends
        find_entry(st.entries, path) is Some,
{
    let j = find_entry(st.entries, path)->Some_0;
    let e = st.entries[j];
    match first_where(st.slots, loading_pred(path)) {
        Option::None => StateV {
            entries: st.entries.update(j, ModelEntry { loaded: true, ..e }),
            ..st
        },
        Option::Some(w) => StateV {
            entries: st.entries.update(j, ModelEntry { loaded: true, session_busy: true, ..e }),
            slots: st.slots.map(|i: int, s: RequestSlot| load_ok_slot(s, i, w, path)),
            loads: st.loads,
        },
    }
}

/// The action accompanying [`spec_load_ok`].
pub open spec fn spec_load_ok_actions(st: StateV, path: Seq<char>) -> Seq<ActionV> {
    match first_where(st.slots, loading_pred(path)) {
        Option::None => Seq::empty(),
        Option::Some(w) => seq![
            ActionV::StartInference {
                req_id: w,
                path,
                prompt: st.slots[w].prompt@,
                max_tokens: MAX_TOKENS as int,
            },
        ],
    }
}

/// The state after a load fails: every waiter on that path fails with
/// `ModelLoad`, their references vanish with the entry, and the failed path
/// is forgotten so a later request may retry the load.
pub open spec fn spec_load_err(st: StateV, path: Seq<char>) -> StateV
    recommends
        find_entry(st.entries, path) is Some,
{
    let j = find_entry(st.entries, path)->Some_0;
    StateV {
        entries: st.entries.remove(j),
        slots: st.slots.map(|i: int, s: RequestSlot| load_err_slot(s, path)),
        loads: st.loads,
    }
}

/// The actions accompanying [`spec_load_err`]: a 500 with an empty body for
/// every waiter, in arrival order.
pub open spec fn spec_load_err_actions(slots: Seq<RequestSlot>, path: Seq<char>) -> Seq<ActionV>
    decreases slots.len(),
{
    if slots.len() == 0 {
        Seq::empty()
    } else {
        spec_load_err_actions(slots.drop_last(), path) + (if is_loading_on(slots.last(), path) {
            seq![
                ActionV::Respond {
                    req_id: slots.len() - 1,
                    status: 500,
                    body: Seq::empty(),
                },
            ]
        } else {
            Seq::empty()
        })
    }
}

/// The state after generation for `id` finishes, successfully or not: the
/// slot becomes terminal, its reference is released exactly once, and the
/// session lock passes to the earliest queued waiter or is freed.
pub open spec fn spec_infer_done(st: StateV, id: int, text: Option<String>) -> StateV
    recommends
        0 <= id < st.slots.len(),
        st.slots[id].phase is Executing,
        find_entry(st.entries, st.slots[id].path@) is Some,
{
    let path = st.slots[id].path@;
    let j = find_entry(st.entries, path)->Some_0;
    let e = st.entries[j];
    let outcome = match text {
        Option::Some(t) => Outcome::Success(t),
        Option::None => Outcome::Failed(ServeError::Inference),
    };
    let slots1 = st.slots.update(
        id,
        RequestSlot { phase: Phase::Done(outcome), ..st.slots[id] },
    );
    match first_where(st.slots, queued_pred(path)) {
        Option::Some(w) => StateV {
            entries: st.entries.update(j, ModelEntry { refs: (e.refs - 1) as usize, ..e }),
            slots: slots1.update(w, RequestSlot { phase: Phase::Executing, ..st.slots[w] }),
            loads: st.loads,
        },
        Option::None => StateV {
            entries: st.entries.update(
                j,
                ModelEntry { refs: (e.refs - 1) as usize, session_busy: false, ..e },
            ),
            slots: slots1,
            loads: st.loads,
        },
    }
}

/// The actions accompanying [`spec_infer_done`]: the response for `id`, and
/// the hand-off to the next queued waiter if there is one.
pub open spec fn spec_infer_actions(st: StateV, id: int, text: Option<String>) -> Seq<ActionV>
    recommends
        0 <= id < st.slots.len(),
{
    let path = st.slots[id].path@;
    let resp = match text {
        Option::Some(t) => ActionV::Respond {
            req_id: id,
            status: 200,
            body: success_prefix() + t@,
        },
        Option::None => ActionV::Respond { req_id: id, status: 500, body: Seq::empty() },
    };
    match first_where(st.slots, queued_pred(path)) {
        Option::Some(w) => seq![
            resp,
            ActionV::StartInference {
                req_id: w,
                path,
                prompt: st.slots[w].prompt@,
                max_tokens: MAX_TOKENS as int,
            },
        ],
        Option::None => seq![resp],
    }
}

/// What [`find_entry`] returns: the first index whose path matches, if any.
pub proof fn lemma_find_entry_props(entries: Seq<ModelEntry>, path: Seq<char>)
    ensures
        match find_entry(entries, path) {
            Option::None => forall|i: int|
                0 <= i < entries.len() ==> (#[trigger] entries[i].path@) != path,
            Option::Some(j) => 0 <= j < entries.len() && entries[j].path@ == path && forall|i: int|
                0 <= i < j ==> (#[trigger] entries[i].path@) != path,
        },
    decreases entries.len(),
{
    if entries.len() == 0 {
    } else if entries[0].path@ == path {
    } else {
        lemma_find_entry_props(entries.drop_first(), path);
        match find_entry(entries.drop_first(), path) {
            Option::None => {
                assert forall|i: int| 0 <= i < entries.len() implies (#[trigger] entries[i].path@)
                    != path by {
                    if i > 0 {
                        assert(entries[i] == entries.drop_first()[i - 1]);
                    }
                }
            },
            Option::Some(k) => {
                assert(entries[k + 1] == entries.drop_first()[k]);
                assert forall|i: int| 0 <= i < k + 1 implies (#[trigger] entries[i].path@)
                    != path by {
                    if i > 0 {
                        assert(entries[i] == entries.drop_first()[i - 1]);
                    }
                }
            },
        }
    }
}

/// What [`first_where`] returns: the first index satisfying `p`, if any.
pub proof fn lemma_first_where_props(slots: Seq<RequestSlot>, p: spec_fn(RequestSlot) -> bool)
    ensures
        match first_where(slots, p) {
            Option::None => forall|i: int| 0 <= i < slots.len() ==> !#[trigger] p(slots[i]),
            Option::Some(j) => 0 <= j < slots.len() && p(slots[j]) && forall|i: int|
                0 <= i < j ==> !#[trigger] p(slots[i]),
        },
    decreases slots.len(),
{
    if slots.len() == 0 {
    } else if p(slots[0]) {
    } else {
        lemma_first_where_props(slots.drop_first(), p);
        match first_where(slots.drop_first(), p) {
            Option::None => {
                assert forall|i: int| 0 <= i < slots.len() implies !#[trigger] p(slots[i]) by {
                    if i > 0 {
                        assert(slots[i] == slots.drop_first()[i - 1]);
                    }
                }
            },
            Option::Some(k) => {
                assert(slots[k + 1] == slots.drop_first()[k]);
                assert forall|i: int| 0 <= i < k + 1 implies !#[trigger] p(slots[i]) by {
                    if i > 0 {
                        assert(slots[i] == slots.drop_first()[i - 1]);
                    }
                }
            },
        }
    }
}

pub proof fn lemma_count_push(slots: Seq<RequestSlot>, s: RequestSlot, path: Seq<char>)
    ensures
        count_holders(slots.push(s), path) == count_holders(slots, path) + (if holds_ref(s, path) {
            1nat
        } else {
            0nat
        }),
{
    assert(slots.push(s).drop_last() =~= slots);
    assert(slots.push(s).last() == s);
}

pub proof fn lemma_count_le_len(slots: Seq<RequestSlot>, path: Seq<char>)
    ensures
        count_holders(slots, path) <= slots.len(),
    decreases slots.len(),
{
    if slots.len() > 0 {
        lemma_count_le_len(slots.drop_last(), path);
    }
}

pub proof fn lemma_count_pos(slots: Seq<RequestSlot>, path: Seq<char>, i: int)
    requires
        0 <= i < slots.len(),
        holds_ref(slots[i], path),
    ensures
        count_holders(slots, path) >= 1,
    decreases slots.len(),
{
    if i < slots.len() - 1 {
        assert(slots.drop_last()[i] == slots[i]);
        lemma_count_pos(slots.drop_last(), path, i);
    }
}

pub proof fn lemma_count_update(slots: Seq<RequestSlot>, i: int, s: RequestSlot, path: Seq<char>)
    requires
        0 <= i < slots.len(),
    ensures
        count_holders(slots.update(i, s), path) + (if holds_ref(slots[i], path) {
            1nat
        } else {
            0nat
        }) == count_holders(slots, path) + (if holds_ref(s, path) {
            1nat
        } else {
            0nat
        }),
    decreases slots.len(),
{
    let u = slots.update(i, s);
    if i == slots.len() - 1 {
        assert(u.drop_last() =~= slots.drop_last());
        assert(u.last() == s);
    } else {
        assert(u.drop_last() =~= slots.drop_last().update(i, s));
        assert(u.last() == slots.last());
        assert(slots.drop_last()[i] == slots[i]);
        lemma_count_update(slots.drop_last(), i, s, path);
    }
}

pub proof fn lemma_count_pointwise(s1: Seq<RequestSlot>, s2: Seq<RequestSlot>, path: Seq<char>)
    requires
        s1.len() == s2.len(),
        forall|i: int|
            0 <= i < s1.len() ==> (holds_ref(s1[i], path) == holds_ref(#[trigger] s2[i], path)),
    ensures
        count_holders(s1, path) == count_holders(s2, path),
    decreases s1.len(),
{
    if s1.len() > 0 {
        assert forall|i: int|
            0 <= i < s1.drop_last().len() implies (holds_ref(s1.drop_last()[i], path) == holds_ref(
            #[trigger] s2.drop_last()[i],
            path,
        )) by {
            assert(s1.drop_last()[i] == s1[i]);
            assert(s2.drop_last()[i] == s2[i]);
        }
        lemma_count_pointwise(s1.drop_last(), s2.drop_last(), path);
        assert(holds_ref(s2[s1.len() - 1], path) == holds_ref(s1[s1.len() - 1], path));
        assert(s1.last() == s1[s1.len() - 1]);
        assert(s2.last() == s2[s1.len() - 1]);
    }
}

pub proof fn lemma_count_zero(slots: Seq<RequestSlot>, path: Seq<char>)
    requires
        forall|i: int| 0 <= i < slots.len() ==> !holds_ref(#[trigger] slots[i], path),
    ensures
        count_holders(slots, path) == 0,
    decreases slots.len(),
{
    if slots.len() > 0 {
        assert forall|i: int| 0 <= i < slots.drop_last().len() implies !holds_ref(
            #[trigger] slots.drop_last()[i],
            path,
        ) by {
            assert(slots.drop_last()[i] == slots[i]);
        }
        lemma_count_zero(slots.drop_last(), path);
        assert(!holds_ref(slots[slots.len() - 1], path));
        assert(slots.last() == slots[slots.len() - 1]);
    }
}

/// Updating an entry without changing its path leaves every lookup alone.
pub proof fn lemma_find_entry_update_same_path(
    entries: Seq<ModelEntry>,
    j: int,
    e2: ModelEntry,
    path: Seq<char>,
)
    requires
        0 <= j < entries.len(),
        e2.path@ == entries[j].path@,
    ensures
        find_entry(entries.update(j, e2), path) == find_entry(entries, path),
    decreases entries.len(),
{
    let u = entries.update(j, e2);
    if j == 0 {
        assert(u[0].path@ == entries[0].path@);
        if entries[0].path@ != path {
            assert(u.drop_first() =~= entries.drop_first());
        }
    } else {
        assert(u[0] == entries[0]);
        if entries[0].path@ != path {
            assert(u.drop_first() =~= entries.drop_first().update(j - 1, e2));
            assert(entries.drop_first()[j - 1] == entries[j]);
            lemma_find_entry_update_same_path(entries.drop_first(), j - 1, e2, path);
        }
    }
}

pub proof fn lemma_find_entry_push(entries: Seq<ModelEntry>, e: ModelEntry, path: Seq<char>)
    ensures
        find_entry(entries.push(e), path) == (match find_entry(entries, path) {
            Option::Some(k) => Option::Some(k),
            Option::None => if e.path@ == path {
                Option::Some(entries.len() as int)
            } else {
                Option::<int>::None
            },
        }),
    decreases entries.len(),
{
    let u = entries.push(e);
    if entries.len() == 0 {
        assert(u[0] == e);
        if e.path@ != path {
            assert(u.drop_first() =~= Seq::<ModelEntry>::empty());
        }
    } else {
        assert(u[0] == entries[0]);
        if entries[0].path@ != path {
            assert(u.drop_first() =~= entries.drop_first().push(e));
            lemma_find_entry_push(entries.drop_first(), e, path);
        }
    }
}

pub proof fn lemma_find_entry_remove(entries: Seq<ModelEntry>, j: int, path: Seq<char>)
    requires
        0 <= j < entries.len(),
        entries[j].path@ != path,
    ensures
        match find_entry(entries, path) {
            Option::None => find_entry(entries.remove(j), path) is None,
            Option::Some(k) => find_entry(entries.remove(j), path) == Option::Some(
                if k < j {
                    k
                } else {
                    k - 1
                },
            ),
        },
    decreases entries.len(),
{
    let u = entries.remove(j);
    lemma_find_entry_props(entries.drop_first(), path);
    if j == 0 {
        assert(u =~= entries.drop_first());
    } else {
        assert(u[0] == entries[0]);
        if entries[0].path@ != path {
            assert(u.drop_first() =~= entries.drop_first().remove(j - 1));
            assert(entries.drop_first()[j - 1] == entries[j]);
            lemma_find_entry_remove(entries.drop_first(), j - 1, path);
        }
    }
}

/// Accepting a request preserves well-formedness.
pub proof fn lemma_submit_preserves_wf(st: StateV, prompt: String, path: String)
    requires
        wf(st),
        st.slots.len() < usize::MAX,
    ensures
        wf(spec_submit(st, prompt, path)),
{
    let post = spec_submit(st, prompt, path);
    if prompt@.len() == 0 {
        let s = RequestSlot {
            path,
            prompt,
            phase: Phase::Done(Outcome::Failed(ServeError::Validation)),
        };
        assert forall|j: int| 0 <= j < post.entries.len() implies #[trigger] post.entries[j].refs
            == count_holders(post.slots, post.entries[j].path@) by {
            lemma_count_push(st.slots, s, st.entries[j].path@);
        }
        assert forall|j: int| 0 <= j < post.entries.len() implies (
        #[trigger] post.entries[j].session_busy <==> exists|i: int|
            0 <= i < post.slots.len() && is_executing_on(post.slots[i], post.entries[j].path@)) by {
            let p = st.entries[j].path@;
            if st.entries[j].session_busy {
                let w = choose|i: int|
                    0 <= i < st.slots.len() && is_executing_on(st.slots[i], p);
                assert(0 <= w < post.slots.len() && is_executing_on(post.slots[w], p));
            } else {
                if exists|i: int| 0 <= i < post.slots.len() && is_executing_on(post.slots[i], p) {
                    let w = choose|i: int|
                        0 <= i < post.slots.len() && is_executing_on(post.slots[i], p);
                    assert(w < st.slots.len());
                    assert(0 <= w < st.slots.len() && is_executing_on(st.slots[w], p));
                }
            }
        }
    } else {
        lemma_find_entry_props(st.entries, path@);
        match find_entry(st.entries, path@) {
            Option::Some(j) => {
                let e = st.entries[j];
                let phase = if !e.loaded {
                    Phase::Loading
                } else if e.session_busy {
                    Phase::Queued
                } else {
                    Phase::Executing
                };
                let e2 = ModelEntry {
                    refs: (e.refs + 1) as usize,
                    session_busy: if e.loaded {
                        true
                    } else {
                        e.session_busy
                    },
                    ..e
                };
                let s = RequestSlot { path, prompt, phase };
                lemma_count_le_len(st.slots, e.path@);
                assert(st.entries[j].refs == count_holders(st.slots, st.entries[j].path@));
                assert(e.refs <= st.slots.len());
                assert(e2.refs == e.refs + 1);
                // lookups are unchanged by an update that keeps the path
                assert forall|q: Seq<char>| #[trigger] find_entry(post.entries, q) == find_entry(
                    st.entries,
                    q,
                ) by {
                    lemma_find_entry_update_same_path(st.entries, j, e2, q);
                }
                // distinct paths
                assert forall|j1: int, j2: int| 0 <= j1 < j2 < post.entries.len() implies
                    #[trigger] post.entries[j1].path@ != #[trigger] post.entries[j2].path@ by {
                    assert(post.entries[j1].path@ == st.entries[j1].path@);
                    assert(post.entries[j2].path@ == st.entries[j2].path@);
                }
                // reference counts
                assert forall|k: int| 0 <= k < post.entries.len() implies
                    #[trigger] post.entries[k].refs == count_holders(
                    post.slots,
                    post.entries[k].path@,
                ) by {
                    lemma_count_push(st.slots, s, st.entries[k].path@);
                    if k == j {
                        assert(holds_ref(s, e.path@));
                    } else {
                        assert(st.entries[k].path@ != path@);
                        assert(!holds_ref(s, st.entries[k].path@));
                    }
                }
                // session lock <==> an executing holder
                assert forall|k: int| 0 <= k < post.entries.len() implies (
                #[trigger] post.entries[k].session_busy <==> exists|i: int|
                    0 <= i < post.slots.len() && is_executing_on(
                        post.slots[i],
                        post.entries[k].path@,
                    )) by {
                    let p = st.entries[k].path@;
                    if post.entries[k].session_busy {
                        if st.entries[k].session_busy {
                            let w = choose|i: int|
                                0 <= i < st.slots.len() && is_executing_on(st.slots[i], p);
                            assert(0 <= w < post.slots.len() && is_executing_on(post.slots[w], p));
                        } else {
                            // only entry j can newly become busy, by granting the lock
                            assert(k == j && e.loaded && !e.session_busy);
                            assert(s.phase is Executing);
                            assert(is_executing_on(post.slots[st.slots.len() as int], p));
                        }
                    } else {
                        if exists|i: int| 0 <= i < post.slots.len() && is_executing_on(
                            post.slots[i],
                            p,
                        ) {
                            let w = choose|i: int|
                                0 <= i < post.slots.len() && is_executing_on(post.slots[i], p);
                            if w < st.slots.len() {
                                assert(st.entries[k].session_busy);
                            } else {
                                // the new slot executes only when entry j granted its lock
                                assert(post.slots[w] == s);
                                assert(s.phase is Executing);
                                assert(e.loaded && !e.session_busy);
                                assert(p == path@);
                                assert(k == j);
                                assert(post.entries[j].session_busy);
                            }
                        }
                    }
                }
                // each live slot still points at a suitable entry
                assert forall|i: int| 0 <= i < post.slots.len() implies ((
                #[trigger] post.slots[i].phase is Loading || post.slots[i].phase is Queued
                    || post.slots[i].phase is Executing) ==> find_entry(
                    post.entries,
                    post.slots[i].path@,
                ) is Some) by {}
                assert forall|i: int| 0 <= i < post.slots.len() implies (
                #[trigger] post.slots[i].phase is Loading ==> !entry_of(
                    post,
                    post.slots[i].path@,
                ).loaded) by {
                    let q = post.slots[i].path@;
                    if post.slots[i].phase is Loading {
                        lemma_find_entry_props(st.entries, q);
                        if i < st.slots.len() {
                            assert(entry_of(post, q).loaded == entry_of(st, q).loaded);
                        } else {
                            assert(q == path@);
                            assert(!e.loaded);
                            assert(entry_of(post, q) == e2);
                        }
                    }
                }
                assert forall|i: int| 0 <= i < post.slots.len() implies ((
                #[trigger] post.slots[i].phase is Queued || post.slots[i].phase is Executing)
                    ==> entry_of(post, post.slots[i].path@).loaded) by {
                    let q = post.slots[i].path@;
                    if post.slots[i].phase is Queued || post.slots[i].phase is Executing {
                        lemma_find_entry_props(st.entries, q);
                        if i < st.slots.len() {
                            assert(entry_of(post, q).loaded == entry_of(st, q).loaded);
                        } else {
                            assert(q == path@);
                            assert(e.loaded);
                            assert(entry_of(post, q) == e2);
                        }
                    }
                }
                // single-flight
                assert forall|i1: int, i2: int|
                    0 <= i1 < post.slots.len() && 0 <= i2 < post.slots.len()
                        && #[trigger] post.slots[i1].phase is Executing
                        && #[trigger] post.slots[i2].phase is Executing && post.slots[i1].path@
                        == post.slots[i2].path@ implies i1 == i2 by {
                    if i1 != i2 {
                        // at most one of the two is the new slot
                        let n = st.slots.len() as int;
                        if i1 == n || i2 == n {
                            let iold = if i1 == n {
                                i2
                            } else {
                                i1
                            };
                            assert(s.phase is Executing);
                            assert(e.loaded && !e.session_busy);
                            assert(is_executing_on(st.slots[iold], path@));
                            assert(0 <= iold < st.slots.len() && is_executing_on(
                                st.slots[iold],
                                e.path@,
                            ));
                            assert(e.session_busy);
                        }
                    }
                }
            },
            Option::None => {
                let ne = ModelEntry { path, refs: 1, loaded: false, session_busy: false };
                let s = RequestSlot { path, prompt, phase: Phase::Loading };
                // no live slot can hold the unknown path
                assert forall|i: int| 0 <= i < st.slots.len() implies !holds_ref(
                    #[trigger] st.slots[i],
                    path@,
                ) by {
                    if holds_ref(st.slots[i], path@) {
                        assert(find_entry(st.entries, st.slots[i].path@) is Some);
                    }
                }
                lemma_count_zero(st.slots, path@);
                assert forall|q: Seq<char>| #[trigger] find_entry(post.entries, q) == (match
                    find_entry(st.entries, q) {
                    Option::Some(k) => Option::Some(k),
                    Option::None => if q == path@ {
                        Option::Some(st.entries.len() as int)
                    } else {
                        Option::<int>::None
                    },
                }) by {
                    lemma_find_entry_push(st.entries, ne, q);
                }
                // distinct paths
                assert forall|j1: int, j2: int| 0 <= j1 < j2 < post.entries.len() implies
                    #[trigger] post.entries[j1].path@ != #[trigger] post.entries[j2].path@ by {
                    if j2 == st.entries.len() {
                        assert(post.entries[j1] == st.entries[j1]);
                        assert(st.entries[j1].path@ != path@);
                    }
                }
                // reference counts
                assert forall|k: int| 0 <= k < post.entries.len() implies
                    #[trigger] post.entries[k].refs == count_holders(
                    post.slots,
                    post.entries[k].path@,
                ) by {
                    lemma_count_push(st.slots, s, post.entries[k].path@);
                    if k == st.entries.len() {
                        assert(holds_ref(s, path@));
                        assert(count_holders(post.slots, path@) == 1);
                    } else {
                        assert(post.entries[k] == st.entries[k]);
                        assert(st.entries[k].path@ != path@);
                        assert(!holds_ref(s, st.entries[k].path@));
                    }
                }
                // session lock <==> an executing holder
                assert forall|k: int| 0 <= k < post.entries.len() implies (
                #[trigger] post.entries[k].session_busy <==> exists|i: int|
                    0 <= i < post.slots.len() && is_executing_on(
                        post.slots[i],
                        post.entries[k].path@,
                    )) by {
                    let p = post.entries[k].path@;
                    if post.entries[k].session_busy {
                        assert(k < st.entries.len());
                        let w = choose|i: int|
                            0 <= i < st.slots.len() && is_executing_on(st.slots[i], p);
                        assert(0 <= w < post.slots.len() && is_executing_on(post.slots[w], p));
                    } else {
                        if exists|i: int| 0 <= i < post.slots.len() && is_executing_on(
                            post.slots[i],
                            p,
                        ) {
                            let w = choose|i: int|
                                0 <= i < post.slots.len() && is_executing_on(post.slots[i], p);
                            assert(w < st.slots.len());
                            if k < st.entries.len() {
                                assert(0 <= w < st.slots.len() && is_executing_on(
                                    st.slots[w],
                                    st.entries[k].path@,
                                ));
                            } else {
                                assert(holds_ref(st.slots[w], path@));
                            }
                        }
                    }
                }
                // each live slot still points at a suitable entry
                assert forall|i: int| 0 <= i < post.slots.len() implies ((
                #[trigger] post.slots[i].phase is Loading || post.slots[i].phase is Queued
                    || post.slots[i].phase is Executing) ==> find_entry(
                    post.entries,
                    post.slots[i].path@,
                ) is Some) by {}
                assert forall|i: int| 0 <= i < post.slots.len() implies (
                #[trigger] post.slots[i].phase is Loading ==> !entry_of(
                    post,
                    post.slots[i].path@,
                ).loaded) by {
                    let q = post.slots[i].path@;
                    if post.slots[i].phase is Loading {
                        if i < st.slots.len() {
                            assert(q != path@);
                            lemma_find_entry_props(st.entries, q);
                            let k = find_entry(st.entries, q)->Some_0;
                            assert(post.entries[k] == st.entries[k]);
                            assert(entry_of(post, q) == entry_of(st, q));
                        } else {
                            assert(entry_of(post, q) == ne);
                        }
                    }
                }
                assert forall|i: int| 0 <= i < post.slots.len() implies ((
                #[trigger] post.slots[i].phase is Queued || post.slots[i].phase is Executing)
                    ==> entry_of(post, post.slots[i].path@).loaded) by {
                    let q = post.slots[i].path@;
                    if post.slots[i].phase is Queued || post.slots[i].phase is Executing {
                        assert(i < st.slots.len());
                        assert(q != path@);
                        lemma_find_entry_props(st.entries, q);
                        let k = find_entry(st.entries, q)->Some_0;
                        assert(post.entries[k] == st.entries[k]);
                        assert(entry_of(post, q) == entry_of(st, q));
                    }
                }
                // single-flight: the new slot is not executing
                assert forall|i1: int, i2: int|
                    0 <= i1 < post.slots.len() && 0 <= i2 < post.slots.len()
                        && #[trigger] post.slots[i1].phase is Executing
                        && #[trigger] post.slots[i2].phase is Executing && post.slots[i1].path@
                        == post.slots[i2].path@ implies i1 == i2 by {
                    assert(i1 < st.slots.len());
                    assert(i2 < st.slots.len());
                }
            },
        }
    }
}

/// In a well-formed state, a model that is not yet loaded has a free session
/// lock, and every live request holding it is still waiting for the weights.
pub proof fn lemma_unloaded_entry_quiet(st: StateV, path: Seq<char>)
    requires
        wf(st),
        find_entry(st.entries, path) is Some,
        !entry_of(st, path).loaded,
    ensures
        !entry_of(st, path).session_busy,
        forall|i: int|
            0 <= i < st.slots.len() ==> (holds_ref(#[trigger] st.slots[i], path)
                ==> is_loading_on(st.slots[i], path)),
{
    let j = find_entry(st.entries, path)->Some_0;
    lemma_find_entry_props(st.entries, path);
    if st.entries[j].session_busy {
        let w = choose|i: int| 0 <= i < st.slots.len() && is_executing_on(st.slots[i], path);
        assert(st.slots[w].phase is Executing);
        assert(entry_of(st, st.slots[w].path@).loaded);
    }
    assert forall|i: int|
        0 <= i < st.slots.len() && holds_ref(#[trigger] st.slots[i], path) implies is_loading_on(
        st.slots[i],
        path,
    ) by {
        if st.slots[i].phase is Queued || st.slots[i].phase is Executing {
            assert(entry_of(st, st.slots[i].path@).loaded);
        }
    }
}

/// A successful load preserves well-formedness.
pub proof fn lemma_load_ok_preserves_wf(st: StateV, path: Seq<char>)
    requires
        wf(st),
        find_entry(st.entries, path) is Some,
        !entry_of(st, path).loaded,
    ensures
        wf(spec_load_ok(st, path)),
{
    let post = spec_load_ok(st, path);
    let j = find_entry(st.entries, path)->Some_0;
    let e = st.entries[j];
    lemma_find_entry_props(st.entries, path);
    lemma_unloaded_entry_quiet(st, path);
    lemma_first_where_props(st.slots, loading_pred(path));
    match first_where(st.slots, loading_pred(path)) {
        Option::None => {
            let e2 = ModelEntry { loaded: true, ..e };
            assert forall|q: Seq<char>| #[trigger] find_entry(post.entries, q) == find_entry(
                st.entries,
                q,
            ) by {
                lemma_find_entry_update_same_path(st.entries, j, e2, q);
            }
            // no live slot holds this path at all
            assert forall|i: int| 0 <= i < st.slots.len() implies !holds_ref(
                #[trigger] st.slots[i],
                path,
            ) by {
                if holds_ref(st.slots[i], path) {
                    assert(is_loading_on(st.slots[i], path));
                    assert(loading_pred(path)(st.slots[i]));
                }
            }
            assert forall|j1: int, j2: int| 0 <= j1 < j2 < post.entries.len() implies
                #[trigger] post.entries[j1].path@ != #[trigger] post.entries[j2].path@ by {
                assert(post.entries[j1].path@ == st.entries[j1].path@);
                assert(post.entries[j2].path@ == st.entries[j2].path@);
            }
            assert forall|k: int| 0 <= k < post.entries.len() implies (
            #[trigger] post.entries[k].session_busy <==> exists|i: int|
                0 <= i < post.slots.len() && is_executing_on(
                    post.slots[i],
                    post.entries[k].path@,
                )) by {
                let p = st.entries[k].path@;
                if st.entries[k].session_busy {
                    let w = choose|i: int|
                        0 <= i < st.slots.len() && is_executing_on(st.slots[i], p);
                    assert(0 <= w < post.slots.len() && is_executing_on(post.slots[w], p));
                }
            }
            assert forall|i: int| 0 <= i < post.slots.len() implies (
            #[trigger] post.slots[i].phase is Loading ==> !entry_of(
                post,
                post.slots[i].path@,
            ).loaded) by {
                let q = post.slots[i].path@;
                if post.slots[i].phase is Loading {
                    assert(q != path);
                    lemma_find_entry_props(st.entries, q);
                    assert(entry_of(post, q) == entry_of(st, q));
                }
            }
            assert forall|i: int| 0 <= i < post.slots.len() implies ((
            #[trigger] post.slots[i].phase is Queued || post.slots[i].phase is Executing)
                ==> entry_of(post, post.slots[i].path@).loaded) by {
                let q = post.slots[i].path@;
                if post.slots[i].phase is Queued || post.slots[i].phase is Executing {
                    lemma_find_entry_props(st.entries, q);
                    if q == path {
                        assert(holds_ref(st.slots[i], path));
                    } else {
                        assert(entry_of(post, q) == entry_of(st, q));
                    }
                }
            }
        },
        Option::Some(w) => {
            let e2 = ModelEntry { loaded: true, session_busy: true, ..e };
            let f = |i: int, s: RequestSlot| load_ok_slot(s, i, w, path);
            assert(post.slots =~= st.slots.map(f));
            assert(post.slots.len() == st.slots.len());
            assert forall|i: int| 0 <= i < post.slots.len() implies #[trigger] post.slots[i] == f(
                i,
                st.slots[i],
            ) by {}
            assert forall|q: Seq<char>| #[trigger] find_entry(post.entries, q) == find_entry(
                st.entries,
                q,
            ) by {
                lemma_find_entry_update_same_path(st.entries, j, e2, q);
            }
            assert forall|j1: int, j2: int| 0 <= j1 < j2 < post.entries.len() implies
                #[trigger] post.entries[j1].path@ != #[trigger] post.entries[j2].path@ by {
                assert(post.entries[j1].path@ == st.entries[j1].path@);
                assert(post.entries[j2].path@ == st.entries[j2].path@);
            }
            // reference counts are untouched: live slots stay live
            assert forall|k: int| 0 <= k < post.entries.len() implies
                #[trigger] post.entries[k].refs == count_holders(
                post.slots,
                post.entries[k].path@,
            ) by {
                let q = st.entries[k].path@;
                assert forall|i: int| 0 <= i < st.slots.len() implies (holds_ref(st.slots[i], q)
                    == holds_ref(#[trigger] post.slots[i], q)) by {
                    assert(post.slots[i] == f(i, st.slots[i]));
                }
                lemma_count_pointwise(st.slots, post.slots, q);
            }
            // session lock <==> an executing holder
            assert forall|k: int| 0 <= k < post.entries.len() implies (
            #[trigger] post.entries[k].session_busy <==> exists|i: int|
                0 <= i < post.slots.len() && is_executing_on(
                    post.slots[i],
                    post.entries[k].path@,
                )) by {
                let p = st.entries[k].path@;
                if k == j {
                    assert(post.slots[w] == f(w, st.slots[w]));
                    assert(is_loading_on(st.slots[w], path));
                    assert(is_executing_on(post.slots[w], p));
                    assert(0 <= w < post.slots.len() && is_executing_on(post.slots[w], p));
                } else {
                    assert(p != path);
                    if st.entries[k].session_busy {
                        let x = choose|i: int|
                            0 <= i < st.slots.len() && is_executing_on(st.slots[i], p);
                        assert(post.slots[x] == f(x, st.slots[x]));
                        assert(0 <= x < post.slots.len() && is_executing_on(post.slots[x], p));
                    } else {
                        if exists|i: int| 0 <= i < post.slots.len() && is_executing_on(
                            post.slots[i],
                            p,
                        ) {
                            let x = choose|i: int|
                                0 <= i < post.slots.len() && is_executing_on(post.slots[i], p);
                            assert(post.slots[x] == f(x, st.slots[x]));
                            assert(0 <= x < st.slots.len() && is_executing_on(st.slots[x], p));
                        }
                    }
                }
            }
            // each live slot still points at a suitable entry
            assert forall|i: int| 0 <= i < post.slots.len() implies ((
            #[trigger] post.slots[i].phase is Loading || post.slots[i].phase is Queued
                || post.slots[i].phase is Executing) ==> find_entry(
                post.entries,
                post.slots[i].path@,
            ) is Some) by {
                assert(post.slots[i] == f(i, st.slots[i]));
                assert(post.slots[i].path@ == st.slots[i].path@);
            }
            assert forall|i: int| 0 <= i < post.slots.len() implies (
            #[trigger] post.slots[i].phase is Loading ==> !entry_of(
                post,
                post.slots[i].path@,
            ).loaded) by {
                assert(post.slots[i] == f(i, st.slots[i]));
                let q = post.slots[i].path@;
                if post.slots[i].phase is Loading {
                    assert(!is_loading_on(st.slots[i], path));
                    assert(st.slots[i].phase is Loading);
                    assert(q != path);
                    lemma_find_entry_props(st.entries, q);
                    assert(entry_of(post, q) == entry_of(st, q));
                }
            }
            assert forall|i: int| 0 <= i < post.slots.len() implies ((
            #[trigger] post.slots[i].phase is Queued || post.slots[i].phase is Executing)
                ==> entry_of(post, post.slots[i].path@).loaded) by {
                assert(post.slots[i] == f(i, st.slots[i]));
                let q = post.slots[i].path@;
                if post.slots[i].phase is Queued || post.slots[i].phase is Executing {
                    lemma_find_entry_props(st.entries, q);
                    if is_loading_on(st.slots[i], path) {
                        assert(q == path);
                        assert(entry_of(post, q) == e2);
                    } else {
                        assert(st.slots[i].phase is Queued || st.slots[i].phase is Executing);
                        assert(q != path);
                        assert(entry_of(post, q) == entry_of(st, q));
                    }
                }
            }
            // single-flight
            assert forall|i1: int, i2: int|
                0 <= i1 < post.slots.len() && 0 <= i2 < post.slots.len()
                    && #[trigger] post.slots[i1].phase is Executing
                    && #[trigger] post.slots[i2].phase is Executing && post.slots[i1].path@
                    == post.slots[i2].path@ implies i1 == i2 by {
                assert(post.slots[i1] == f(i1, st.slots[i1]));
                assert(post.slots[i2] == f(i2, st.slots[i2]));
                let p = post.slots[i1].path@;
                if p == path {
                    // on this path only the chosen waiter executes
                    if i1 != w {
                        assert(!is_loading_on(st.slots[i1], path));
                        assert(is_executing_on(st.slots[i1], path));
                        assert(holds_ref(st.slots[i1], path));
                        assert(false);
                    }
                    if i2 != w {
                        assert(!is_loading_on(st.slots[i2], path));
                        assert(is_executing_on(st.slots[i2], path));
                        assert(holds_ref(st.slots[i2], path));
                        assert(false);
                    }
                } else {
                    assert(is_executing_on(st.slots[i1], p));
                    assert(is_executing_on(st.slots[i2], p));
                }
            }
        },
    }
}

/// A failed load preserves well-formedness.
pub proof fn lemma_load_err_preserves_wf(st: StateV, path: Seq<char>)
    requires
        wf(st),
        find_entry(st.entries, path) is Some,
        !entry_of(st, path).loaded,
    ensures
        wf(spec_load_err(st, path)),
{
    let post = spec_load_err(st, path);
    let j = find_entry(st.entries, path)->Some_0;
    lemma_find_entry_props(st.entries, path);
    lemma_unloaded_entry_quiet(st, path);
    let g = |i: int, s: RequestSlot| load_err_slot(s, path);
    assert(post.slots =~= st.slots.map(g));
    assert forall|i: int| 0 <= i < post.slots.len() implies #[trigger] post.slots[i] == g(
        i,
        st.slots[i],
    ) by {}
    // the entries other than j survive, shifted
    assert forall|k: int| 0 <= k < post.entries.len() implies #[trigger] post.entries[k] == (if k
        < j {
        st.entries[k]
    } else {
        st.entries[k + 1]
    }) by {}
    assert forall|k: int| 0 <= k < post.entries.len() implies #[trigger] post.entries[k].path@
        != path by {
        if k < j {
            assert(st.entries[k].path@ != st.entries[j].path@);
        } else {
            assert(st.entries[j].path@ != st.entries[k + 1].path@);
        }
    }
    // lookups of other paths survive, and keep their entry
    assert forall|q: Seq<char>| q != path implies #[trigger] find_entry(post.entries, q) == (match
        find_entry(st.entries, q) {
        Option::None => Option::<int>::None,
        Option::Some(k) => Option::Some(
            if k < j {
                k
            } else {
                k - 1
            },
        ),
    }) by {
        lemma_find_entry_remove(st.entries, j, q);
    }
    assert forall|q: Seq<char>| q != path && #[trigger] find_entry(st.entries, q) is Some implies
        entry_of(post, q) == entry_of(st, q) by {
        lemma_find_entry_props(st.entries, q);
        let k = find_entry(st.entries, q)->Some_0;
        assert(st.entries[k].path@ == q);
        assert(k != j);
    }
    assert forall|j1: int, j2: int| 0 <= j1 < j2 < post.entries.len() implies
        #[trigger] post.entries[j1].path@ != #[trigger] post.entries[j2].path@ by {}
    // reference counts
    assert forall|k: int| 0 <= k < post.entries.len() implies #[trigger] post.entries[k].refs
        == count_holders(post.slots, post.entries[k].path@) by {
        let q = post.entries[k].path@;
        assert forall|i: int| 0 <= i < st.slots.len() implies (holds_ref(st.slots[i], q)
            == holds_ref(#[trigger] post.slots[i], q)) by {
            assert(post.slots[i] == g(i, st.slots[i]));
        }
        lemma_count_pointwise(st.slots, post.slots, q);
    }
    // session lock <==> an executing holder
    assert forall|k: int| 0 <= k < post.entries.len() implies (
    #[trigger] post.entries[k].session_busy <==> exists|i: int|
        0 <= i < post.slots.len() && is_executing_on(post.slots[i], post.entries[k].path@)) by {
        let p = post.entries[k].path@;
        let kk = if k < j {
            k
        } else {
            k + 1
        };
        if st.entries[kk].session_busy {
            let x = choose|i: int| 0 <= i < st.slots.len() && is_executing_on(st.slots[i], p);
            assert(post.slots[x] == g(x, st.slots[x]));
            assert(0 <= x < post.slots.len() && is_executing_on(post.slots[x], p));
        } else {
            if exists|i: int| 0 <= i < post.slots.len() && is_executing_on(post.slots[i], p) {
                let x = choose|i: int|
                    0 <= i < post.slots.len() && is_executing_on(post.slots[i], p);
                assert(post.slots[x] == g(x, st.slots[x]));
                assert(0 <= x < st.slots.len() && is_executing_on(st.slots[x], p));
            }
        }
    }
    // each live slot still points at a suitable entry
    assert forall|i: int| 0 <= i < post.slots.len() implies ((#[trigger] post.slots[i].phase
        is Loading || post.slots[i].phase is Queued || post.slots[i].phase is Executing)
        ==> find_entry(post.entries, post.slots[i].path@) is Some) by {
        assert(post.slots[i] == g(i, st.slots[i]));
        let q = post.slots[i].path@;
        if post.slots[i].phase is Loading || post.slots[i].phase is Queued || post.slots[i].phase
            is Executing {
            assert(holds_ref(st.slots[i], q));
            if q == path {
                assert(is_loading_on(st.slots[i], path));
                assert(post.slots[i].phase is Done);
                assert(false);
            }
        }
    }
    assert forall|i: int| 0 <= i < post.slots.len() implies (#[trigger] post.slots[i].phase
        is Loading ==> !entry_of(post, post.slots[i].path@).loaded) by {
        assert(post.slots[i] == g(i, st.slots[i]));
        let q = post.slots[i].path@;
        if post.slots[i].phase is Loading {
            assert(q != path);
            assert(entry_of(post, q) == entry_of(st, q));
        }
    }
    assert forall|i: int| 0 <= i < post.slots.len() implies ((#[trigger] post.slots[i].phase
        is Queued || post.slots[i].phase is Executing) ==> entry_of(
        post,
        post.slots[i].path@,
    ).loaded) by {
        assert(post.slots[i] == g(i, st.slots[i]));
        let q = post.slots[i].path@;
        if post.slots[i].phase is Queued || post.slots[i].phase is Executing {
            assert(holds_ref(st.slots[i], q));
            if q == path {
                assert(is_loading_on(st.slots[i], path));
                assert(false);
            }
            assert(entry_of(post, q) == entry_of(st, q));
        }
    }
    // single-flight
    assert forall|i1: int, i2: int|
        0 <= i1 < post.slots.len() && 0 <= i2 < post.slots.len()
            && #[trigger] post.slots[i1].phase is Executing && #[trigger] post.slots[i2].phase
            is Executing && post.slots[i1].path@ == post.slots[i2].path@ implies i1 == i2 by {
        assert(post.slots[i1] == g(i1, st.slots[i1]));
        assert(post.slots[i2] == g(i2, st.slots[i2]));
        assert(is_executing_on(st.slots[i1], st.slots[i1].path@));
        assert(is_executing_on(st.slots[i2], st.slots[i1].path@));
    }
}

/// Finishing a generation, with either outcome, preserves well-formedness.
pub proof fn lemma_infer_done_preserves_wf(st: StateV, id: int, text: Option<String>)
    requires
        wf(st),
        0 <= id < st.slots.len(),
        st.slots[id].phase is Executing,
    ensures
        wf(spec_infer_done(st, id, text)),
{
    let post = spec_infer_done(st, id, text);
    let path = st.slots[id].path@;
    let j = find_entry(st.entries, path)->Some_0;
    let e = st.entries[j];
    lemma_find_entry_props(st.entries, path);
    lemma_first_where_props(st.slots, queued_pred(path));
    assert(holds_ref(st.slots[id], path));
    lemma_count_pos(st.slots, path, id);
    assert(e.refs == count_holders(st.slots, e.path@));
    assert(e.refs >= 1);
    // the lock is held, by this very request
    assert(0 <= id < st.slots.len() && is_executing_on(st.slots[id], e.path@));
    assert(e.session_busy);
    let outcome = match text {
        Option::Some(t) => Outcome::Success(t),
        Option::None => Outcome::Failed(ServeError::Inference),
    };
    let done_slot = RequestSlot { phase: Phase::Done(outcome), ..st.slots[id] };
    let slots1 = st.slots.update(id, done_slot);
    let wopt = first_where(st.slots, queued_pred(path));
    let e2 = match wopt {
        Option::Some(_) => ModelEntry { refs: (e.refs - 1) as usize, ..e },
        Option::None => ModelEntry { refs: (e.refs - 1) as usize, session_busy: false, ..e },
    };
    assert(post.entries == st.entries.update(j, e2));
    assert forall|q: Seq<char>| #[trigger] find_entry(post.entries, q) == find_entry(
        st.entries,
        q,
    ) by {
        lemma_find_entry_update_same_path(st.entries, j, e2, q);
    }
    assert forall|j1: int, j2: int| 0 <= j1 < j2 < post.entries.len() implies
        #[trigger] post.entries[j1].path@ != #[trigger] post.entries[j2].path@ by {
        assert(post.entries[j1].path@ == st.entries[j1].path@);
        assert(post.entries[j2].path@ == st.entries[j2].path@);
    }
    match wopt {
        Option::Some(w) => {
            assert(is_queued_on(st.slots[w], path));
            assert(w != id);
            let exec_slot = RequestSlot { phase: Phase::Executing, ..st.slots[w] };
            assert(post.slots == slots1.update(w, exec_slot));
            assert(slots1[w] == st.slots[w]);
            // counts
            assert forall|k: int| 0 <= k < post.entries.len() implies
                #[trigger] post.entries[k].refs == count_holders(
                post.slots,
                post.entries[k].path@,
            ) by {
                let q = st.entries[k].path@;
                lemma_count_update(st.slots, id, done_slot, q);
                lemma_count_update(slots1, w, exec_slot, q);
                if k == j {
                    assert(holds_ref(st.slots[id], q));
                    assert(!holds_ref(done_slot, q));
                    assert(holds_ref(slots1[w], q) == holds_ref(exec_slot, q));
                } else {
                    assert(q != path);
                    assert(!holds_ref(st.slots[id], q) && !holds_ref(done_slot, q));
                    assert(holds_ref(slots1[w], q) == holds_ref(exec_slot, q));
                }
            }
            // session lock <==> an executing holder
            assert forall|k: int| 0 <= k < post.entries.len() implies (
            #[trigger] post.entries[k].session_busy <==> exists|i: int|
                0 <= i < post.slots.len() && is_executing_on(
                    post.slots[i],
                    post.entries[k].path@,
                )) by {
                let p = st.entries[k].path@;
                if k == j {
                    assert(post.slots[w] == exec_slot);
                    assert(0 <= w < post.slots.len() && is_executing_on(post.slots[w], p));
                    assert(post.entries[k].session_busy);
                } else {
                    assert(p != path);
                    if st.entries[k].session_busy {
                        let x = choose|i: int|
                            0 <= i < st.slots.len() && is_executing_on(st.slots[i], p);
                        assert(x != id && x != w);
                        assert(post.slots[x] == st.slots[x]);
                        assert(0 <= x < post.slots.len() && is_executing_on(post.slots[x], p));
                    } else {
                        if exists|i: int| 0 <= i < post.slots.len() && is_executing_on(
                            post.slots[i],
                            p,
                        ) {
                            let x = choose|i: int|
                                0 <= i < post.slots.len() && is_executing_on(post.slots[i], p);
                            assert(x != id && x != w);
                            assert(post.slots[x] == st.slots[x]);
                            assert(0 <= x < st.slots.len() && is_executing_on(st.slots[x], p));
                        }
                    }
                }
            }
            // each live slot still points at a suitable entry
            assert forall|i: int| 0 <= i < post.slots.len() implies ((
            #[trigger] post.slots[i].phase is Loading || post.slots[i].phase is Queued
                || post.slots[i].phase is Executing) ==> find_entry(
                post.entries,
                post.slots[i].path@,
            ) is Some) by {
                if i != id && i != w {
                    assert(post.slots[i] == st.slots[i]);
                }
            }
            assert forall|i: int| 0 <= i < post.slots.len() implies (
            #[trigger] post.slots[i].phase is Loading ==> !entry_of(
                post,
                post.slots[i].path@,
            ).loaded) by {
                let q = post.slots[i].path@;
                if post.slots[i].phase is Loading {
                    assert(i != id && i != w);
                    assert(post.slots[i] == st.slots[i]);
                    lemma_find_entry_props(st.entries, q);
                    assert(entry_of(post, q).loaded == entry_of(st, q).loaded);
                }
            }
            assert forall|i: int| 0 <= i < post.slots.len() implies ((
            #[trigger] post.slots[i].phase is Queued || post.slots[i].phase is Executing)
                ==> entry_of(post, post.slots[i].path@).loaded) by {
                let q = post.slots[i].path@;
                if post.slots[i].phase is Queued || post.slots[i].phase is Executing {
                    lemma_find_entry_props(st.entries, q);
                    if i == w {
                        assert(q == path);
                        assert(entry_of(st, path).loaded);
                        assert(entry_of(post, q).loaded == entry_of(st, q).loaded);
                    } else {
                        assert(i != id);
                        assert(post.slots[i] == st.slots[i]);
                        assert(entry_of(post, q).loaded == entry_of(st, q).loaded);
                    }
                }
            }
            // single-flight: the lock passed from `id` to `w`
            assert forall|i1: int, i2: int|
                0 <= i1 < post.slots.len() && 0 <= i2 < post.slots.len()
                    && #[trigger] post.slots[i1].phase is Executing
                    && #[trigger] post.slots[i2].phase is Executing && post.slots[i1].path@
                    == post.slots[i2].path@ implies i1 == i2 by {
                let p = post.slots[i1].path@;
                if i1 != w && i1 != id {
                    assert(post.slots[i1] == st.slots[i1]);
                }
                if i2 != w && i2 != id {
                    assert(post.slots[i2] == st.slots[i2]);
                }
                if p == path {
                    if i1 != w {
                        assert(i1 != id);
                        assert(is_executing_on(st.slots[i1], path));
                        assert(i1 == id);
                    }
                    if i2 != w {
                        assert(i2 != id);
                        assert(is_executing_on(st.slots[i2], path));
                        assert(i2 == id);
                    }
                } else {
                    assert(i1 != id && i1 != w);
                    assert(i2 != id && i2 != w);
                    assert(is_executing_on(st.slots[i1], p));
                    assert(is_executing_on(st.slots[i2], p));
                }
            }
        },
        Option::None => {
            assert(post.slots == slots1);
            // counts
            assert forall|k: int| 0 <= k < post.entries.len() implies
                #[trigger] post.entries[k].refs == count_holders(
                post.slots,
                post.entries[k].path@,
            ) by {
                let q = st.entries[k].path@;
                lemma_count_update(st.slots, id, done_slot, q);
                if k == j {
                    assert(holds_ref(st.slots[id], q));
                    assert(!holds_ref(done_slot, q));
                } else {
                    assert(q != path);
                    assert(!holds_ref(st.slots[id], q) && !holds_ref(done_slot, q));
                }
            }
            // session lock <==> an executing holder
            assert forall|k: int| 0 <= k < post.entries.len() implies (
            #[trigger] post.entries[k].session_busy <==> exists|i: int|
                0 <= i < post.slots.len() && is_executing_on(
                    post.slots[i],
                    post.entries[k].path@,
                )) by {
                let p = st.entries[k].path@;
                if k == j {
                    assert(!post.entries[k].session_busy);
                    if exists|i: int| 0 <= i < post.slots.len() && is_executing_on(
                        post.slots[i],
                        p,
                    ) {
                        let x = choose|i: int|
                            0 <= i < post.slots.len() && is_executing_on(post.slots[i], p);
                        assert(x != id);
                        assert(post.slots[x] == st.slots[x]);
                        assert(0 <= x < st.slots.len() && is_executing_on(st.slots[x], path));
                        assert(x == id);
                    }
                } else {
                    assert(p != path);
                    if st.entries[k].session_busy {
                        let x = choose|i: int|
                            0 <= i < st.slots.len() && is_executing_on(st.slots[i], p);
                        assert(x != id);
                        assert(post.slots[x] == st.slots[x]);
                        assert(0 <= x < post.slots.len() && is_executing_on(post.slots[x], p));
                    } else {
                        if exists|i: int| 0 <= i < post.slots.len() && is_executing_on(
                            post.slots[i],
                            p,
                        ) {
                            let x = choose|i: int|
                                0 <= i < post.slots.len() && is_executing_on(post.slots[i], p);
                            assert(x != id);
                            assert(post.slots[x] == st.slots[x]);
                            assert(0 <= x < st.slots.len() && is_executing_on(st.slots[x], p));
                        }
                    }
                }
            }
            // each live slot still points at a suitable entry
            assert forall|i: int| 0 <= i < post.slots.len() implies ((
            #[trigger] post.slots[i].phase is Loading || post.slots[i].phase is Queued
                || post.slots[i].phase is Executing) ==> find_entry(
                post.entries,
                post.slots[i].path@,
            ) is Some) by {
                if i != id {
                    assert(post.slots[i] == st.slots[i]);
                }
            }
            assert forall|i: int| 0 <= i < post.slots.len() implies (
            #[trigger] post.slots[i].phase is Loading ==> !entry_of(
                post,
                post.slots[i].path@,
            ).loaded) by {
                let q = post.slots[i].path@;
                if post.slots[i].phase is Loading {
                    assert(i != id);
                    assert(post.slots[i] == st.slots[i]);
                    lemma_find_entry_props(st.entries, q);
                    assert(entry_of(post, q).loaded == entry_of(st, q).loaded);
                }
            }
            assert forall|i: int| 0 <= i < post.slots.len() implies ((
            #[trigger] post.slots[i].phase is Queued || post.slots[i].phase is Executing)
                ==> entry_of(post, post.slots[i].path@).loaded) by {
                let q = post.slots[i].path@;
                if post.slots[i].phase is Queued || post.slots[i].phase is Executing {
                    assert(i != id);
                    assert(post.slots[i] == st.slots[i]);
                    lemma_find_entry_props(st.entries, q);
                    assert(entry_of(post, q).loaded == entry_of(st, q).loaded);
                }
            }
            // single-flight
            assert forall|i1: int, i2: int|
                0 <= i1 < post.slots.len() && 0 <= i2 < post.slots.len()
                    && #[trigger] post.slots[i1].phase is Executing
                    && #[trigger] post.slots[i2].phase is Executing && post.slots[i1].path@
                    == post.slots[i2].path@ implies i1 == i2 by {
                assert(i1 != id);
                assert(i2 != id);
                assert(post.slots[i1] == st.slots[i1]);
                assert(post.slots[i2] == st.slots[i2]);
                assert(is_executing_on(st.slots[i1], st.slots[i1].path@));
                assert(is_executing_on(st.slots[i2], st.slots[i1].path@));
            }
        },
    }
}

} // verus!
