//! The laws of the serving core, each proved once and for all over the
//! transition functions of [`crate::state`].

use vstd::prelude::*;
use crate::http::ServeError;
use crate::state::ActionV;
use crate::state::Outcome;
use crate::state::Phase;
use crate::state::StateV;
use crate::state::entry_of;
use crate::state::find_entry;
use crate::state::lemma_count_pos;
use crate::state::lemma_find_entry_props;
use crate::state::lemma_find_entry_push;
use crate::state::lemma_find_entry_update_same_path;
use crate::state::lemma_first_where_props;
use crate::state::lemma_infer_done_preserves_wf;
use crate::state::lemma_submit_preserves_wf;
use crate::state::queued_pred;
use crate::state::spec_infer_done;
use crate::state::spec_submit;
use crate::state::spec_submit_action;
use crate::state::wf;

verus! {

/// Law: a request for a path the registry already knows is a cache hit:
/// no new disk load is started, whatever the state of the model's load or
/// session.
pub proof fn lemma_registry_cache_hit(st: StateV, prompt: String, path: String)
    requires
        prompt@.len() > 0,
        find_entry(st.entries, path@) is Some,
    ensures
        spec_submit(st, prompt, path).loads == st.loads,
        !(spec_submit_action(st, prompt, path) matches Option::Some(ActionV::StartLoad { .. })),
{
}

/// Law: submitting twice with the same path loads the model from disk at
/// most once — the second call never reloads, because the first call left
/// an entry in the registry.
pub proof fn lemma_second_submit_never_reloads(
    st: StateV,
    p1: String,
    p2: String,
    path: String,
)
    requires
        wf(st),
        st.slots.len() + 1 < usize::MAX,
        p1@.len() > 0,
        p2@.len() > 0,
    ensures
        spec_submit(spec_submit(st, p1, path), p2, path).loads == spec_submit(
            st,
            p1,
            path,
        ).loads,
{
    let st1 = spec_submit(st, p1, path);
    lemma_find_entry_props(st.entries, path@);
    match find_entry(st.entries, path@) {
        Option::Some(j) => {
            let e = st.entries[j];
            let e2 = st1.entries[j];
            lemma_find_entry_update_same_path(st.entries, j, e2, path@);
        },
        Option::None => {
            lemma_find_entry_push(st.entries, st1.entries.last(), path@);
        },
    }
    assert(find_entry(st1.entries, path@) is Some);
    lemma_registry_cache_hit(st1, p2, path);
}

/// Law: an empty prompt is rejected with a validation failure and a 400
/// before the registry is touched: no entry changes and no load starts.
pub proof fn lemma_empty_prompt_rejected(st: StateV, prompt: String, path: String)
    requires
        prompt@.len() == 0,
    ensures
        spec_submit(st, prompt, path).entries == st.entries,
        spec_submit(st, prompt, path).loads == st.loads,
        spec_submit(st, prompt, path).slots[st.slots.len() as int].phase == Phase::Done(
            Outcome::Failed(ServeError::Validation),
        ),
        spec_submit_action(st, prompt, path) == Option::Some(
            ActionV::Respond {
                req_id: st.slots.len() as int,
                status: 400,
                body: Seq::<char>::empty(),
            },
        ),
{
}

/// Law: finishing a generation run — successfully or with an engine
/// failure alike — releases the request's model reference exactly once:
/// the reference count drops by one, the slot becomes terminal, and the
/// state stays well-formed, so the count keeps matching the live holders
/// ever after (no leak, no double release).
pub proof fn lemma_release_exactly_once(st: StateV, id: int, text: Option<String>)
    requires
        wf(st),
        0 <= id < st.slots.len(),
        st.slots[id].phase is Executing,
    ensures
        ({
            let path = st.slots[id].path@;
            let post = spec_infer_done(st, id, text);
            let j = find_entry(st.entries, path)->Some_0;
            &&& find_entry(post.entries, path) == find_entry(st.entries, path)
            &&& post.entries[j].refs + 1 == st.entries[j].refs
            &&& post.slots[id].phase is Done
            &&& wf(post)
        }),
{
    let path = st.slots[id].path@;
    let post = spec_infer_done(st, id, text);
    let j = find_entry(st.entries, path)->Some_0;
    lemma_find_entry_props(st.entries, path);
    assert(st.entries[j].refs == crate::state::count_holders(st.slots, st.entries[j].path@));
    lemma_count_pos(st.slots, path, id);
    lemma_find_entry_update_same_path(st.entries, j, post.entries[j], path);
    lemma_first_where_props(st.slots, queued_pred(path));
    lemma_infer_done_preserves_wf(st, id, text);
}

/// Law: finishing a request leaves its model loaded in the registry, so
/// the next request for the same path finds it there — the expensive load
/// is not repeated per request.
pub proof fn lemma_model_stays_cached(st: StateV, id: int, text: Option<String>)
    requires
        wf(st),
        0 <= id < st.slots.len(),
        st.slots[id].phase is Executing,
    ensures
        ({
            let path = st.slots[id].path@;
            let post = spec_infer_done(st, id, text);
            &&& find_entry(post.entries, path) is Some
            &&& entry_of(post, path).loaded
        }),
{
    let path = st.slots[id].path@;
    let post = spec_infer_done(st, id, text);
    let j = find_entry(st.entries, path)->Some_0;
    lemma_find_entry_props(st.entries, path);
    assert(entry_of(st, path).loaded);
    lemma_first_where_props(st.slots, queued_pred(path));
    lemma_find_entry_update_same_path(st.entries, j, post.entries[j], path);
}

/// Law: executions against one model are strictly serialized: in any
/// well-formed state at most one request is executing against a given
/// path.
pub proof fn lemma_single_flight(st: StateV, i1: int, i2: int)
    requires
        wf(st),
        0 <= i1 < st.slots.len(),
        0 <= i2 < st.slots.len(),
        st.slots[i1].phase is Executing,
        st.slots[i2].phase is Executing,
        st.slots[i1].path@ == st.slots[i2].path@,
    ensures
        i1 == i2,
{
}

/// Law: there is no global lock: a request for a loaded model whose
/// session is free starts executing immediately, while a request already
/// executing against a different model keeps executing — the two run in
/// parallel.
pub proof fn lemma_no_global_lock(st: StateV, prompt: String, path: String, i: int)
    requires
        wf(st),
        st.slots.len() < usize::MAX,
        prompt@.len() > 0,
        find_entry(st.entries, path@) is Some,
        entry_of(st, path@).loaded,
        !entry_of(st, path@).session_busy,
        0 <= i < st.slots.len(),
        st.slots[i].phase is Executing,
        st.slots[i].path@ != path@,
    ensures
        ({
            let post = spec_submit(st, prompt, path);
            &&& post.slots[st.slots.len() as int].phase is Executing
            &&& post.slots[i] == st.slots[i]
            &&& wf(post)
        }),
{
    lemma_find_entry_props(st.entries, path@);
    lemma_submit_preserves_wf(st, prompt, path);
}

} // verus!
