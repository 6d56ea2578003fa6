//! The executable serving core.
//!
//! A [`Dispatcher`] owns the model registry (entries with reference counts
//! and per-model session locks) and one slot per accepted request.  Each
//! event handler is proved to transform the state exactly as the spec
//! functions of [`crate::state`] say, and to keep the state well-formed.
//! The outside shell performs the returned [`Action`]s: it loads weights,
//! runs the generation loop, and writes responses; the core never blocks.

use vstd::prelude::*;
use crate::http::ServeError;
use crate::http::success_message;
use crate::state::Action;
use crate::state::ModelEntry;
use crate::state::Outcome;
use crate::state::Phase;
use crate::state::RequestSlot;
use crate::state::StateV;
use crate::state::MAX_TOKENS;
use crate::state::actions_view;
use crate::state::count_holders;
use crate::state::entry_of;
use crate::state::find_entry;
use crate::state::first_where;
use crate::state::holds_ref;
use crate::state::is_loading_on;
use crate::state::is_queued_on;
use crate::state::lemma_count_pos;
use crate::state::lemma_count_le_len;
use crate::state::lemma_find_entry_props;
use crate::state::lemma_first_where_props;
use crate::state::lemma_infer_done_preserves_wf;
use crate::state::lemma_load_err_preserves_wf;
use crate::state::lemma_load_ok_preserves_wf;
use crate::state::lemma_submit_preserves_wf;
use crate::state::load_err_slot;
use crate::state::load_ok_slot;
use crate::state::loading_pred;
use crate::state::opt_view;
use crate::state::queued_pred;
use crate::state::spec_infer_actions;
use crate::state::spec_infer_done;
use crate::state::spec_load_err;
use crate::state::spec_load_err_actions;
use crate::state::spec_load_ok;
use crate::state::spec_load_ok_actions;
use crate::state::spec_submit;
use crate::state::spec_submit_action;
use crate::state::wf;

verus! {

/// A validated-by-construction incoming request: what the wire format
/// carries after the boundary layer has decoded it.
pub struct ChatRequest {
    pub prompt: String,
    pub model_path: String,
}

/// The serving core: model registry, session locks, and request slots.
pub struct Dispatcher {
    pub entries: Vec<ModelEntry>,
    pub slots: Vec<RequestSlot>,
    /// How many disk loads have ever been started.
    pub loads: usize,
}

impl View for Dispatcher {
    type V = StateV;

    open spec fn view(&self) -> StateV {
        StateV { entries: self.entries@, slots: self.slots@, loads: self.loads as int }
    }
}

impl Dispatcher {
    /// A fresh core: no models, no requests, no loads.
    pub fn new() -> (d: Dispatcher)
        ensures
            d@.entries == Seq::<ModelEntry>::empty(),
            d@.slots == Seq::<RequestSlot>::empty(),
            d@.loads == 0,
            wf(d@),
    {
        Dispatcher { entries: Vec::new(), slots: Vec::new(), loads: 0 }
    }

    /// Registry lookup: the index of the entry for `path`, if one exists.
    fn find(&self, path: &String) -> (r: Option<usize>)
        ensures
            match r {
                Option::Some(j) => find_entry(self@.entries, path@) == Option::Some(j as int),
                Option::None => find_entry(self@.entries, path@) is None,
            },
    {
        let mut k: usize = 0;
        while k < self.entries.len()
            invariant
                k <= self.entries@.len(),
                forall|i: int| 0 <= i < k ==> (#[trigger] self.entries@[i].path@) != path@,
            decreases self.entries@.len() - k,
        {
            if self.entries[k].path == *path {
                proof {
                    lemma_find_entry_props(self@.entries, path@);
                }
                return Option::Some(k);
            }
            k += 1;
        }
        proof {
            lemma_find_entry_props(self@.entries, path@);
        }
        Option::None
    }

    /// The first request still waiting for the weights of `path`.
    fn first_loading(&self, path: &String) -> (r: Option<usize>)
        ensures
            match r {
                Option::Some(w) => first_where(self@.slots, loading_pred(path@)) == Option::Some(
                    w as int,
                ),
                Option::None => first_where(self@.slots, loading_pred(path@)) is None,
            },
    {
        let mut k: usize = 0;
        while k < self.slots.len()
            invariant
                k <= self.slots@.len(),
                forall|i: int|
                    0 <= i < k ==> !is_loading_on(#[trigger] self.slots@[i], path@),
            decreases self.slots@.len() - k,
        {
            let is_l = match &self.slots[k].phase {
                Phase::Loading => true,
                _ => false,
            };
            if is_l && self.slots[k].path == *path {
                proof {
                    let p = loading_pred(path@);
                    assert(p(self.slots@[k as int]) == is_loading_on(
                        self.slots@[k as int],
                        path@,
                    ));
                    lemma_first_where_props(self@.slots, p);
                    match first_where(self@.slots, p) {
                        Option::None => {
                            assert(!p(self.slots@[k as int]));
                        },
                        Option::Some(x) => {
                            if x < k {
                                assert(p(self.slots@[x]));
                                assert(is_loading_on(self.slots@[x], path@));
                            } else if x > k {
                                assert(!p(self.slots@[k as int]));
                            }
                        },
                    }
                }
                return Option::Some(k);
            }
            k += 1;
        }
        proof {
            let p = loading_pred(path@);
            lemma_first_where_props(self@.slots, p);
            if first_where(self@.slots, p) is Some {
                let x = first_where(self@.slots, p)->Some_0;
                assert(p(self.slots@[x]));
                assert(is_loading_on(self.slots@[x], path@));
            }
        }
        Option::None
    }

    /// The first request queued on the session lock of `path`.
    fn first_queued(&self, path: &String) -> (r: Option<usize>)
        ensures
            match r {
                Option::Some(w) => first_where(self@.slots, queued_pred(path@)) == Option::Some(
                    w as int,
                ),
                Option::None => first_where(self@.slots, queued_pred(path@)) is None,
            },
    {
        let mut k: usize = 0;
        while k < self.slots.len()
            invariant
                k <= self.slots@.len(),
                forall|i: int| 0 <= i < k ==> !is_queued_on(#[trigger] self.slots@[i], path@),
            decreases self.slots@.len() - k,
        {
            let is_q = match &self.slots[k].phase {
                Phase::Queued => true,
                _ => false,
            };
            if is_q && self.slots[k].path == *path {
                proof {
                    let p = queued_pred(path@);
                    assert(p(self.slots@[k as int]) == is_queued_on(
                        self.slots@[k as int],
                        path@,
                    ));
                    lemma_first_where_props(self@.slots, p);
                    match first_where(self@.slots, p) {
                        Option::None => {
                            assert(!p(self.slots@[k as int]));
                        },
                        Option::Some(x) => {
                            if x < k {
                                assert(p(self.slots@[x]));
                                assert(is_queued_on(self.slots@[x], path@));
                            } else if x > k {
                                assert(!p(self.slots@[k as int]));
                            }
                        },
                    }
                }
                return Option::Some(k);
            }
            k += 1;
        }
        proof {
            let p = queued_pred(path@);
            lemma_first_where_props(self@.slots, p);
            if first_where(self@.slots, p) is Some {
                let x = first_where(self@.slots, p)->Some_0;
                assert(p(self.slots@[x]));
                assert(is_queued_on(self.slots@[x], path@));
            }
        }
        Option::None
    }

    /// Whether a load for `path` is owed to the core: the registry knows the
    /// path but its weights have not arrived.  The shell gates
    /// [`Self::load_finished`] on this.
    pub fn load_pending(&self, path: &String) -> (r: bool)
        ensures
            r == (find_entry(self@.entries, path@) is Some && !entry_of(self@, path@).loaded),
    {
        match self.find(path) {
            Option::Some(j) => {
                proof {
                    lemma_find_entry_props(self@.entries, path@);
                }
                !self.entries[j].loaded
            },
            Option::None => false,
        }
    }

    /// Whether request `id` is currently executing.  The shell gates
    /// [`Self::inference_finished`] on this.
    pub fn is_executing(&self, id: usize) -> (r: bool)
        ensures
            r == (id < self@.slots.len() && self@.slots[id as int].phase is Executing),
    {
        if id < self.slots.len() {
            match &self.slots[id].phase {
                Phase::Executing => true,
                _ => false,
            }
        } else {
            false
        }
    }

    /// Accept one request: validate it, take or create its registry entry,
    /// and either start executing, queue behind the session lock, wait for a
    /// pending load, or start a load of its own.
    ///
    /// An empty prompt is rejected with a 400 before the registry is read or
    /// written.  A path already in the registry is a cache hit: no new load
    /// is started, whatever else happens.
    pub fn submit(&mut self, req: ChatRequest) -> (r: (usize, Option<Action>))
        requires
            wf(old(self)@),
            old(self)@.slots.len() < usize::MAX,
        ensures
            final(self)@ == spec_submit(old(self)@, req.prompt, req.model_path),
            opt_view(r.1) == spec_submit_action(old(self)@, req.prompt, req.model_path),
            r.0 == old(self)@.slots.len(),
            wf(final(self)@),
    {
        let ghost st0 = self@;
        let ghost rp = req.prompt;
        let ghost rm = req.model_path;
        proof {
            lemma_submit_preserves_wf(st0, rp, rm);
        }
        let id = self.slots.len();
        if req.prompt.as_str().is_empty() {
            let act = Action::Respond { req_id: id, status: 400, body: String::new() };
            self.slots.push(
                RequestSlot {
                    path: req.model_path,
                    prompt: req.prompt,
                    phase: Phase::Done(Outcome::Failed(ServeError::Validation)),
                },
            );
            return (id, Option::Some(act));
        }
        match self.find(&req.model_path) {
            Option::Some(j) => {
                proof {
                    lemma_find_entry_props(st0.entries, rm@);
                    assert(st0.entries[j as int].refs == count_holders(
                        st0.slots,
                        st0.entries[j as int].path@,
                    ));
                    lemma_count_le_len(st0.slots, st0.entries[j as int].path@);
                }
                let loaded = self.entries[j].loaded;
                let busy = self.entries[j].session_busy;
                let e2 = ModelEntry {
                    path: self.entries[j].path.clone(),
                    refs: self.entries[j].refs + 1,
                    loaded,
                    session_busy: if loaded {
                        true
                    } else {
                        busy
                    },
                };
                self.entries[j] = e2;
                let phase = if !loaded {
                    Phase::Loading
                } else if busy {
                    Phase::Queued
                } else {
                    Phase::Executing
                };
                let act = if loaded && !busy {
                    Option::Some(
                        Action::StartInference {
                            req_id: id,
                            path: req.model_path.clone(),
                            prompt: req.prompt.clone(),
                            max_tokens: MAX_TOKENS,
                        },
                    )
                } else {
                    Option::None
                };
                self.slots.push(
                    RequestSlot { path: req.model_path, prompt: req.prompt, phase },
                );
                (id, act)
            },
            Option::None => {
                proof {
                    lemma_find_entry_props(st0.entries, rm@);
                }
                self.entries.push(
                    ModelEntry {
                        path: req.model_path.clone(),
                        refs: 1,
                        loaded: false,
                        session_busy: false,
                    },
                );
                self.loads = self.loads + 1;
                let act = Action::StartLoad { path: req.model_path.clone() };
                self.slots.push(
                    RequestSlot { path: req.model_path, prompt: req.prompt, phase: Phase::Loading },
                );
                (id, Option::Some(act))
            },
        }
    }

    /// Record the outcome of the one outstanding load for `path`.
    ///
    /// On success the entry is marked loaded, the earliest waiter starts
    /// executing and the rest queue on the session lock.  On failure every
    /// waiter is answered with a 500 and the path is forgotten, so a later
    /// request may retry.
    pub fn load_finished(&mut self, path: &String, ok: bool) -> (r: Vec<Action>)
        requires
            wf(old(self)@),
            find_entry(old(self)@.entries, path@) is Some,
            !entry_of(old(self)@, path@).loaded,
        ensures
            final(self)@ == if ok {
                spec_load_ok(old(self)@, path@)
            } else {
                spec_load_err(old(self)@, path@)
            },
            actions_view(r@) == if ok {
                spec_load_ok_actions(old(self)@, path@)
            } else {
                spec_load_err_actions(old(self)@.slots, path@)
            },
            wf(final(self)@),
    {
        let ghost st0 = self@;
        proof {
            if ok {
                lemma_load_ok_preserves_wf(st0, path@);
            } else {
                lemma_load_err_preserves_wf(st0, path@);
            }
            lemma_find_entry_props(st0.entries, path@);
        }
        let j = match self.find(path) {
            Option::Some(j) => j,
            Option::None => {
                proof {
                    assert(false);
                }
                0
            },
        };
        proof {
            assert((j as int) < st0.entries.len());
        }
        if ok {
            match self.first_loading(path) {
                Option::None => {
                    let e2 = ModelEntry {
                        path: self.entries[j].path.clone(),
                        refs: self.entries[j].refs,
                        loaded: true,
                        session_busy: self.entries[j].session_busy,
                    };
                    self.entries[j] = e2;
                    proof {
                        assert(self@.entries =~= spec_load_ok(st0, path@).entries);
                        assert(self@ == spec_load_ok(st0, path@));
                        assert(actions_view(Seq::<Action>::empty()) =~= spec_load_ok_actions(
                            st0,
                            path@,
                        ));
                    }
                    Vec::new()
                },
                Option::Some(w) => {
                    proof {
                        lemma_first_where_props(st0.slots, loading_pred(path@));
                    }
                    let e2 = ModelEntry {
                        path: self.entries[j].path.clone(),
                        refs: self.entries[j].refs,
                        loaded: true,
                        session_busy: true,
                    };
                    self.entries[j] = e2;
                    let mut i: usize = 0;
                    while i < self.slots.len()
                        invariant
                            0 <= w < self.slots@.len(),
                            i <= self.slots@.len(),
                            self.slots@.len() == st0.slots.len(),
                            self.entries@ == st0.entries.update(j as int, e2),
                            self.loads == st0.loads,
                            forall|k: int|
                                0 <= k < i ==> #[trigger] self.slots@[k] == load_ok_slot(
                                    st0.slots[k],
                                    k,
                                    w as int,
                                    path@,
                                ),
                            forall|k: int|
                                i <= k < self.slots@.len() ==> #[trigger] self.slots@[k]
                                    == st0.slots[k],
                        decreases self.slots@.len() - i,
                    {
                        let is_l = match &self.slots[i].phase {
                            Phase::Loading => true,
                            _ => false,
                        };
                        let hit = is_l && self.slots[i].path == *path;
                        proof {
                            assert(self.slots@[i as int] == st0.slots[i as int]);
                            assert(hit == is_loading_on(st0.slots[i as int], path@));
                        }
                        if hit {
                            let ph = if i == w {
                                Phase::Executing
                            } else {
                                Phase::Queued
                            };
                            let pc = self.slots[i].path.clone();
                            let prc = self.slots[i].prompt.clone();
                            self.slots[i] = RequestSlot { path: pc, prompt: prc, phase: ph };
                            proof {
                                assert(self.slots@[i as int].path == st0.slots[i as int].path);
                                assert(self.slots@[i as int].prompt == st0.slots[i as int].prompt);
                                assert(self.slots@[i as int] == load_ok_slot(
                                    st0.slots[i as int],
                                    i as int,
                                    w as int,
                                    path@,
                                ));
                            }
                        } else {
                            proof {
                                assert(self.slots@[i as int] == load_ok_slot(
                                    st0.slots[i as int],
                                    i as int,
                                    w as int,
                                    path@,
                                ));
                            }
                        }
                        i += 1;
                    }
                    proof {
                        assert forall|k: int| 0 <= k < self.slots@.len() implies
                            #[trigger] self.slots@[k] == spec_load_ok(st0, path@).slots[k] by {
                            assert(spec_load_ok(st0, path@).slots[k] == load_ok_slot(
                                st0.slots[k],
                                k,
                                w as int,
                                path@,
                            ));
                        }
                        assert(self.slots@ =~= spec_load_ok(st0, path@).slots);
                        assert(self@.entries =~= spec_load_ok(st0, path@).entries);
                        assert(self@ == spec_load_ok(st0, path@));
                    }
                    let mut acts: Vec<Action> = Vec::new();
                    let start = Action::StartInference {
                        req_id: w,
                        path: path.clone(),
                        prompt: self.slots[w].prompt.clone(),
                        max_tokens: MAX_TOKENS,
                    };
                    acts.push(start);
                    proof {
                        assert(self.slots@[w as int].prompt == st0.slots[w as int].prompt);
                        assert(actions_view(acts@) =~= spec_load_ok_actions(st0, path@));
                    }
                    acts
                },
            }
        } else {
            self.entries.remove(j);
            let mut acts: Vec<Action> = Vec::new();
            let mut i: usize = 0;
            while i < self.slots.len()
                invariant
                    i <= self.slots@.len(),
                    self.slots@.len() == st0.slots.len(),
                    self.entries@ == st0.entries.remove(j as int),
                    self.loads == st0.loads,
                    forall|k: int|
                        0 <= k < i ==> #[trigger] self.slots@[k] == load_err_slot(
                            st0.slots[k],
                            path@,
                        ),
                    forall|k: int|
                        i <= k < self.slots@.len() ==> #[trigger] self.slots@[k] == st0.slots[k],
                    actions_view(acts@) == spec_load_err_actions(st0.slots.take(i as int), path@),
                decreases self.slots@.len() - i,
            {
                let is_l = match &self.slots[i].phase {
                    Phase::Loading => true,
                    _ => false,
                };
                let ghost acts0 = acts@;
                if is_l && self.slots[i].path == *path {
                    let pc = self.slots[i].path.clone();
                    let prc = self.slots[i].prompt.clone();
                    self.slots[i] = RequestSlot {
                        path: pc,
                        prompt: prc,
                        phase: Phase::Done(Outcome::Failed(ServeError::ModelLoad)),
                    };
                    acts.push(Action::Respond { req_id: i, status: 500, body: String::new() });
                }
                proof {
                    assert(self.slots@[i as int] == load_err_slot(st0.slots[i as int], path@));
                    assert(st0.slots.take(i as int + 1).drop_last() =~= st0.slots.take(i as int));
                    assert(st0.slots.take(i as int + 1).last() == st0.slots[i as int]);
                    if is_loading_on(st0.slots[i as int], path@) {
                        assert(actions_view(acts@) =~= actions_view(acts0).push(
                            acts@[acts@.len() - 1]@,
                        ));
                    } else {
                        assert(actions_view(acts@) == actions_view(acts0));
                    }
                    assert(actions_view(acts@) =~= spec_load_err_actions(
                        st0.slots.take(i as int + 1),
                        path@,
                    ));
                }
                i += 1;
            }
            proof {
                assert(st0.slots.take(st0.slots.len() as int) =~= st0.slots);
                assert forall|k: int| 0 <= k < self.slots@.len() implies #[trigger] self.slots@[k]
                    == spec_load_err(st0, path@).slots[k] by {
                    assert(spec_load_err(st0, path@).slots[k] == load_err_slot(
                        st0.slots[k],
                        path@,
                    ));
                }
                assert(self.slots@ =~= spec_load_err(st0, path@).slots);
                assert(self@.entries =~= spec_load_err(st0, path@).entries);
                assert(self@ == spec_load_err(st0, path@));
            }
            acts
        }
    }

    /// Record the end of the generation run for request `id`: answer its
    /// client, release its model reference exactly once, and pass the
    /// session lock to the earliest queued waiter, or free it.
    ///
    /// `text` is the generated text, or `None` when the engine failed; a
    /// failure is surfaced as a 500 and never retried.
    pub fn inference_finished(&mut self, id: usize, text: Option<String>) -> (r: Vec<Action>)
        requires
            wf(old(self)@),
            id < old(self)@.slots.len(),
            old(self)@.slots[id as int].phase is Executing,
        ensures
            final(self)@ == spec_infer_done(old(self)@, id as int, text),
            actions_view(r@) == spec_infer_actions(old(self)@, id as int, text),
            wf(final(self)@),
    {
        let ghost st0 = self@;
        let ghost t0 = text;
        proof {
            lemma_infer_done_preserves_wf(st0, id as int, t0);
            assert(holds_ref(st0.slots[id as int], st0.slots[id as int].path@));
        }
        let j = match self.find(&self.slots[id].path) {
            Option::Some(j) => j,
            Option::None => {
                proof {
                    assert(false);
                }
                0
            },
        };
        proof {
            lemma_find_entry_props(st0.entries, st0.slots[id as int].path@);
            assert((j as int) < st0.entries.len());
            assert(st0.entries[j as int].refs == count_holders(
                st0.slots,
                st0.entries[j as int].path@,
            ));
            lemma_count_pos(st0.slots, st0.slots[id as int].path@, id as int);
            lemma_first_where_props(st0.slots, queued_pred(st0.slots[id as int].path@));
        }
        let next = self.first_queued(&self.slots[id].path);
        let mut acts: Vec<Action> = Vec::new();
        let (status, body, outcome): (u16, String, Outcome) = match text {
            Option::Some(t) => (200, success_message(&t), Outcome::Success(t)),
            Option::None => (500, String::new(), Outcome::Failed(ServeError::Inference)),
        };
        acts.push(Action::Respond { req_id: id, status, body });
        let pc = self.slots[id].path.clone();
        let prc = self.slots[id].prompt.clone();
        self.slots[id] = RequestSlot { path: pc, prompt: prc, phase: Phase::Done(outcome) };
        let e2 = ModelEntry {
            path: self.entries[j].path.clone(),
            refs: self.entries[j].refs - 1,
            loaded: self.entries[j].loaded,
            session_busy: match next {
                Option::Some(_) => self.entries[j].session_busy,
                Option::None => false,
            },
        };
        self.entries[j] = e2;
        match next {
            Option::Some(w) => {
                proof {
                    assert(is_queued_on(st0.slots[w as int], st0.slots[id as int].path@));
                    assert(w != id);
                    assert(self.slots@[w as int] == st0.slots[w as int]);
                }
                let pc2 = self.slots[w].path.clone();
                let prc2 = self.slots[w].prompt.clone();
                let start = Action::StartInference {
                    req_id: w,
                    path: pc2.clone(),
                    prompt: prc2.clone(),
                    max_tokens: MAX_TOKENS,
                };
                self.slots[w] = RequestSlot { path: pc2, prompt: prc2, phase: Phase::Executing };
                acts.push(start);
                proof {
                    assert(self@.slots =~= st0.slots.update(
                        id as int,
                        RequestSlot {
                            phase: Phase::Done(
                                match t0 {
                                    Option::Some(t) => Outcome::Success(t),
                                    Option::None => Outcome::Failed(ServeError::Inference),
                                },
                            ),
                            ..st0.slots[id as int]
                        },
                    ).update(w as int, RequestSlot { phase: Phase::Executing, ..st0.slots[w as int] }));
                    assert(self@.entries =~= spec_infer_done(st0, id as int, t0).entries);
                    assert(self@ == spec_infer_done(st0, id as int, t0));
                    assert(actions_view(acts@) =~= spec_infer_actions(st0, id as int, t0));
                }
                acts
            },
            Option::None => {
                proof {
                    assert(self@.entries =~= spec_infer_done(st0, id as int, t0).entries);
                    assert(self@.slots =~= spec_infer_done(st0, id as int, t0).slots);
                    assert(self@ == spec_infer_done(st0, id as int, t0));
                    assert(actions_view(acts@) =~= spec_infer_actions(st0, id as int, t0));
                }
                acts
            },
        }
    }
}

} // verus!
