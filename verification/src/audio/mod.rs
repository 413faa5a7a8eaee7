//! Platform independent hotkey dispatch: which audio sessions a binding's
//! actions reach, what each action asks of the mixer, and how a toggle
//! binding captures the state it changes and puts it back on the next press.
use vstd::prelude::*;

use crate::assoc::{assoc_map, keys_unique, lemma_assoc_contains, lemma_assoc_lookup, lemma_assoc_push, lemma_assoc_remove};
use std::collections::HashMap;
use crate::config::{actions_view, Action, ActionView, BindingView, HotkeyBinding, Operation, Target, TargetView, FULL_LEVEL};
use crate::text::{before_ignoring_case, eq_ignore_case, less_ignoring_case, lemma_seq_lt_asymmetric, lemma_seq_lt_irreflexive, lemma_seq_lt_total, lemma_seq_lt_transitive, lowered, same_ignoring_case};

pub mod fake;
pub mod laws;
pub mod model;

use model::{
    action_commands, application_list, binding_commands, capture, capture_action, command_effect,
    command_for, lemma_application_empty, lemma_application_insert, lemma_application_none,
    lemma_application_skip, lemma_run_two, next_toggles, press_commands,
    press_outcome, restore_commands, restore_count, run_commands, sat_add, saturating_count, session_matches, state_of,
    lemma_action_commands_prefix, lemma_binding_commands_prefix, lemma_restore_commands_prefix, lemma_refuses_any_push, refuses_any, partly_applied, stopped_at_refusal, lemma_stop_at,
    MixerCommand, SessionState, SessionView,
};

verus! {

broadcast use vstd::std_specs::hash::group_hash_axioms;

/// The audio backend of a platform without an audio API that this library
/// drives: the in-memory mixer of [`fake::FakeBackend`].
pub type PlatformBackend = fake::FakeBackend;

/// Builds the audio backend for the current platform: the in-memory mixer
/// with its default sessions, so that the application stays runnable and
/// testable where no audio API is driven.
pub fn platform_backend() -> (r: Result<PlatformBackend, BackendError>)
    ensures
        r matches Ok(b) && b.mixer() == fake::default_sessions() && b.focused() == Some(101u32),
{
    Ok(fake::FakeBackend::new())
}

/// A single audio session as seen by the engine. `executable` is the process
/// file name (e.g. `Discord.exe`) when the platform can resolve it; `level` is
/// in thousandths of full volume.
#[derive(Clone, Debug, PartialEq)]
pub struct SessionInfo {
    pub pid: u32,
    pub executable: Option<String>,
    pub level: i32,
    pub muted: bool,
}

impl View for SessionInfo {
    type V = SessionView;

    open spec fn view(&self) -> SessionView {
        SessionView {
            pid: self.pid,
            executable: match &self.executable {
                Some(e) => Some(e@),
                None => None,
            },
            level: self.level,
            muted: self.muted,
        }
    }
}

pub open spec fn sessions_view(s: Seq<SessionInfo>) -> Seq<SessionView> {
    s.map_values(|x: SessionInfo| x@)
}

/// A failure reported by an audio backend.
#[derive(Debug)]
pub struct BackendError {
    pub message: String,
}

/// The primitive operations every platform provides. All state changes are
/// keyed by process id so the engine stays platform independent.
///
/// A backend is described by the sessions it reports (`mixer`), the process
/// that owns the foreground window (`focused`), whether it refuses to list
/// its sessions (`refuses_listing`) and which commands it refuses
/// (`refusals`). Setting a level or a mute state acts on every session of
/// the process and leaves the rest alone; levels are kept between silence
/// and full volume. A call fails exactly when the backend refuses it; a
/// refused command may still have acted on some of the process's sessions.
/// What a backend refuses does not change as it carries out commands.
pub trait AudioBackend {
    spec fn mixer(&self) -> Seq<SessionView>;

    spec fn focused(&self) -> Option<u32>;

    spec fn refuses_listing(&self) -> bool;

    spec fn refusals(&self) -> Set<MixerCommand>;

    fn sessions(&self) -> (r: Result<Vec<SessionInfo>, BackendError>)
        ensures
            r matches Ok(v) ==> sessions_view(v@) == self.mixer(),
            r is Err <==> self.refuses_listing(),
    ;

    fn set_level(&mut self, pid: u32, level: i32) -> (r: Result<(), BackendError>)
        ensures
            r is Err <==> old(self).refusals().contains(MixerCommand::Level { pid, level }),
            r is Err ==> partly_applied(old(self).mixer(), MixerCommand::Level { pid, level }, final(self).mixer()),
            r is Err ==> final(self).focused() == old(self).focused(),
            r is Ok ==> final(self).mixer() == command_effect(
                old(self).mixer(),
                MixerCommand::Level { pid, level },
            ),
            r is Ok ==> final(self).focused() == old(self).focused(),
            r is Ok ==> final(self).refuses_listing() == old(self).refuses_listing(),
            r is Ok ==> final(self).refusals() == old(self).refusals(),
    ;

    fn set_mute(&mut self, pid: u32, muted: bool) -> (r: Result<(), BackendError>)
        ensures
            r is Err <==> old(self).refusals().contains(MixerCommand::Mute { pid, muted }),
            r is Err ==> partly_applied(old(self).mixer(), MixerCommand::Mute { pid, muted }, final(self).mixer()),
            r is Err ==> final(self).focused() == old(self).focused(),
            r is Ok ==> final(self).mixer() == command_effect(
                old(self).mixer(),
                MixerCommand::Mute { pid, muted },
            ),
            r is Ok ==> final(self).focused() == old(self).focused(),
            r is Ok ==> final(self).refuses_listing() == old(self).refuses_listing(),
            r is Ok ==> final(self).refusals() == old(self).refusals(),
    ;

    fn foreground_pid(&self) -> (r: Option<u32>)
        ensures
            r == self.focused(),
    ;
}

/// The result of firing a binding, used to tell the user when a hotkey
/// matched no audio sessions instead of silently doing nothing.
#[derive(Clone, Copy, Debug, PartialEq, Eq, Structural)]
pub struct ApplyOutcome {
    pub affected: usize,
    pub restored: bool,
}

/// The state captured for one binding: per process id, the level and mute
/// state its session had.
struct Toggled {
    id: String,
    states: HashMap<u32, SessionState>,
}

/// Applies a binding's actions to the matching audio sessions and, for toggle
/// bindings, restores the captured state on the next press.
pub struct AudioEngine<B> {
    backend: B,
    toggles: Vec<Toggled>,
}

spec fn toggled_entry(t: Toggled) -> (Seq<char>, Map<u32, SessionState>) {
    (t.id@, t.states@)
}

spec fn toggle_entries(v: Seq<Toggled>) -> Seq<(Seq<char>, Map<u32, SessionState>)> {
    v.map_values(|t: Toggled| toggled_entry(t))
}

/// What one press of `binding` does to an engine: it fails exactly when the
/// backend refuses to list its sessions (and then nothing changes) or refuses
/// one of the press's commands. A successful press reports the outcome of the
/// press, leaves the mixer as the press's commands make it and the focus where
/// it was, and updates the captured states; a failed press leaves the
/// captured states as they were or as the press would have left them.
pub open spec fn press_result<B: AudioBackend>(
    before: AudioEngine<B>,
    after: AudioEngine<B>,
    binding: BindingView,
    r: Result<ApplyOutcome, BackendError>,
) -> bool {
    let m0 = before.backend_state().mixer();
    let fg = before.backend_state().focused();
    let t0 = before.toggles();
    &&& (r is Err <==> press_fails(before, binding))
    &&& (before.backend_state().refuses_listing() ==> after == before)
    &&& match r {
        Ok(outcome) => {
            &&& outcome == press_outcome(t0, binding, m0, fg)
            &&& after.backend_state().mixer() == run_commands(m0, press_commands(t0, binding, m0, fg))
            &&& after.backend_state().focused() == fg
            &&& after.toggles() == next_toggles(t0, binding, m0, fg)
        },
        Err(_) => !before.backend_state().refuses_listing() ==> {
            &&& after.toggles() == next_toggles(t0, binding, m0, fg)
            &&& after.backend_state().focused() == fg
            &&& stopped_at_refusal(
                before.backend_state().refusals(),
                m0,
                press_commands(t0, binding, m0, fg),
                after.backend_state().mixer(),
            )
        },
    }
}

/// Whether a press of `binding` fails: the backend refuses to list its
/// sessions, or refuses one of the commands the press would send.
pub open spec fn press_fails<B: AudioBackend>(before: AudioEngine<B>, binding: BindingView) -> bool {
    let m0 = before.backend_state().mixer();
    let fg = before.backend_state().focused();
    ||| before.backend_state().refuses_listing()
    ||| refuses_any(before.backend_state().refusals(), press_commands(before.toggles(), binding, m0, fg))
}

impl<B: AudioBackend> AudioEngine<B> {
    /// No binding id holds two captured states.
    pub closed spec fn well_formed(&self) -> bool {
        keys_unique(toggle_entries(self.toggles@))
    }

    /// The backend the engine drives.
    pub closed spec fn backend_state(&self) -> B {
        self.backend
    }

    /// Per binding id, the state captured by a toggle binding that has been
    /// pressed once and not yet a second time.
    pub closed spec fn toggles(&self) -> Map<Seq<char>, Map<u32, SessionState>> {
        assoc_map(toggle_entries(self.toggles@))
    }

    pub fn new(backend: B) -> (r: Self)
        ensures
            r.well_formed(),
            r.backend_state() == backend,
            r.toggles() == Map::<Seq<char>, Map<u32, SessionState>>::empty(),
    {
        let r = AudioEngine { backend, toggles: Vec::new() };
        proof {
            assert(toggle_entries(r.toggles@).len() == 0);
        }
        r
    }

    pub fn backend(&self) -> (r: &B)
        ensures
            *r == self.backend_state(),
    {
        &self.backend
    }

    pub fn sessions(&self) -> (r: Result<Vec<SessionInfo>, BackendError>)
        ensures
            r matches Ok(v) ==> sessions_view(v@) == self.backend_state().mixer(),
            r is Err <==> self.backend_state().refuses_listing(),
    {
        self.backend.sessions()
    }

    /// The executable names of the sessions, each once with ASCII case
    /// ignored, in case-insensitive order.
    pub fn applications(&self) -> (r: Result<Vec<String>, BackendError>)
        ensures
            r matches Ok(names) ==> application_list(
                names@.map_values(|n: String| n@),
                self.backend_state().mixer(),
            ),
            r is Err <==> self.backend_state().refuses_listing(),
    {
        let sessions = match self.backend.sessions() {
            Ok(s) => s,
            Err(e) => return Err(e),
        };
        Ok(application_names(&sessions))
    }

    /// Fires a binding. A toggle binding that holds a captured state puts it
    /// back on the sessions that are still there and forgets it; otherwise each
    /// action runs on every session it matches, in order, and a toggle binding
    /// first captures the state of the sessions it is about to change.
    pub fn apply(&mut self, binding: &HotkeyBinding) -> (r: Result<ApplyOutcome, BackendError>)
        requires
            old(self).well_formed(),
        ensures
            final(self).well_formed(),
            press_result(*old(self), *final(self), binding@, r),
    {
        let foreground = self.backend.foreground_pid();
        let sessions = match self.backend.sessions() {
            Ok(s) => s,
            Err(e) => return Err(e),
        };
        self.press(binding, foreground, &sessions)
    }

    /// One press of `binding`, given the foreground process and the sessions
    /// the backend reported.
    fn press(&mut self, binding: &HotkeyBinding, foreground: Option<u32>, sessions: &Vec<SessionInfo>) -> (r: Result<
        ApplyOutcome,
        BackendError,
    >)
        requires
            old(self).well_formed(),
            sessions_view(sessions@) == old(self).backend_state().mixer(),
            foreground == old(self).backend_state().focused(),
            !old(self).backend_state().refuses_listing(),
        ensures
            final(self).well_formed(),
            press_result(*old(self), *final(self), binding@, r),
    {
        let ghost m0 = self.backend.mixer();
        let ghost t0 = self.toggles();
        let ghost b = binding@;
        let ghost refused = self.backend.refusals();
        if binding.toggle {
            match self.restore(binding, sessions) {
                Err(e) => return Err(e),
                Ok(Some(restored)) => {
                    return Ok(ApplyOutcome { affected: restored, restored: true });
                },
                Ok(None) => {},
            }
        }
        proof {
            assert(self.toggles() == next_toggles(t0, b, m0, foreground));
            assert(binding_commands(b.actions.take(0), m0, foreground) =~= Seq::<MixerCommand>::empty());
            assert(b.actions.len() == binding.actions@.len());
            assert(self.backend.refusals() == refused);
        }
        let mut affected: usize = 0;
        let mut a: usize = 0;
        while a < binding.actions.len()
            invariant
                a <= binding.actions@.len(),
                b == binding@,
                b.actions.len() == binding.actions@.len(),
                m0 == sessions_view(sessions@),
                foreground == self.backend.focused(),
                !(b.toggle && t0.contains_key(b.id)),
                self.well_formed(),
                foreground == old(self).backend_state().focused(),
                m0 == old(self).backend_state().mixer(),
                t0 == old(self).toggles(),
                self.backend.mixer() == run_commands(m0, binding_commands(b.actions.take(a as int), m0, foreground)),
                affected == saturating_count(binding_commands(b.actions.take(a as int), m0, foreground).len()),
                self.toggles() == next_toggles(t0, b, m0, foreground),
                refused == old(self).backend_state().refusals(),
                self.backend.refusals() == refused,
                !refuses_any(refused, binding_commands(b.actions.take(a as int), m0, foreground)),
                !old(self).backend_state().refuses_listing(),
            decreases binding.actions@.len() - a,
        {
            let action = &binding.actions[a];
            let ghost act = b.actions[a as int];
            let ghost done = binding_commands(b.actions.take(a as int), m0, foreground);
            proof {
                assert(act == action@);
                assert(b.actions.take(a as int + 1).drop_last() == b.actions.take(a as int));
                assert(action_commands(act, m0.take(0), foreground) =~= Seq::<MixerCommand>::empty());
                assert(done + Seq::<MixerCommand>::empty() == done);
            }
            let mut k: usize = 0;
            while k < sessions.len()
                invariant
                    k <= sessions@.len(),
                    a < binding.actions@.len(),
                    act == action@,
                    act == b.actions[a as int],
                    done == binding_commands(b.actions.take(a as int), m0, foreground),
                    !(b.toggle && t0.contains_key(b.id)),
                    m0 == sessions_view(sessions@),
                    foreground == self.backend.focused(),
                    self.backend.mixer() == run_commands(m0, done + action_commands(act, m0.take(k as int), foreground)),
                    affected == saturating_count((done + action_commands(act, m0.take(k as int), foreground)).len()),
                    self.well_formed(),
                    foreground == old(self).backend_state().focused(),
                    m0 == old(self).backend_state().mixer(),
                    t0 == old(self).toggles(),
                    b == binding@,
                    self.toggles() == next_toggles(t0, b, m0, foreground),
                    refused == old(self).backend_state().refusals(),
                    self.backend.refusals() == refused,
                    !refuses_any(refused, done + action_commands(act, m0.take(k as int), foreground)),
                    !old(self).backend_state().refuses_listing(),
                decreases sessions@.len() - k,
            {
                let session = &sessions[k];
                let ghost sv = m0[k as int];
                proof {
                    assert(sv == session@);
                    assert(m0.take(k as int + 1).drop_last() == m0.take(k as int));
                }
                if matches(session, &action.target, foreground) {
                    let ghost prev = done + action_commands(act, m0.take(k as int), foreground);
                    let ghost mid = self.backend.mixer();
                    let ran = run_operation(&mut self.backend, session, action.operation);
                    if ran.is_err() {
                        proof {
                            let c = command_for(sv, act.operation);
                            let q = prev.push(c);
                            let ac1 = action_commands(act, m0.take(k as int + 1), foreground);
                            let acf = action_commands(act, m0, foreground);
                            let x = done + acf;
                            let full = binding_commands(b.actions, m0, foreground);
                            let i = prev.len() as int;
                            assert(done + ac1 =~= q);
                            lemma_action_commands_prefix(act, m0, foreground, k as int + 1);
                            assert(x.take(q.len() as int) =~= q);
                            assert(b.actions.take(a as int + 1).drop_last() == b.actions.take(a as int));
                            assert(binding_commands(b.actions.take(a as int + 1), m0, foreground) == x);
                            lemma_binding_commands_prefix(b.actions, m0, foreground, a as int + 1);
                            assert(full.take(x.len() as int) == x);
                            assert(q[i] == c);
                            assert(x[i] == x.take(q.len() as int)[i]);
                            assert(full[i] == full.take(x.len() as int)[i]);
                            assert(refused.contains(full[i]));
                            assert(full.take(i) =~= prev) by {
                                assert forall|j: int| 0 <= j < i implies full.take(i)[j] == prev[j] by {
                                    assert(full[j] == full.take(x.len() as int)[j]);
                                    assert(x[j] == x.take(q.len() as int)[j]);
                                    assert(q[j] == prev[j]);
                                }
                            }
                            lemma_stop_at(refused, m0, full, prev, c, self.backend.mixer());
                        }
                        return Err(ran.unwrap_err());
                    }
                    proof {
                        assert(done + action_commands(act, m0.take(k as int + 1), foreground) =~= prev.push(command_for(sv, act.operation)));
                        assert(prev.push(command_for(sv, act.operation)).drop_last() == prev);
                        lemma_refuses_any_push(refused, prev, command_for(sv, act.operation));
                    }
                    if affected < usize::MAX {
                        affected = affected + 1;
                    }
                } else {
                    proof {
                        assert(done + action_commands(act, m0.take(k as int + 1), foreground) == done + action_commands(act, m0.take(k as int), foreground));
                    }
                }
                k = k + 1;
            }
            proof {
                assert(m0.take(k as int) == m0);
                assert(binding_commands(b.actions.take(a as int + 1), m0, foreground) == done + action_commands(act, m0, foreground));
            }
            a = a + 1;
        }
        proof {
            assert(b.actions.take(a as int) == b.actions);
        }
        Ok(ApplyOutcome { affected, restored: false })
    }

    /// For a toggle binding: if it holds a captured state, puts it back on
    /// the sessions that are still there, forgets it and reports how many
    /// sessions it restored; otherwise captures the state of the sessions its
    /// actions reach and reports nothing.
    fn restore(&mut self, binding: &HotkeyBinding, sessions: &Vec<SessionInfo>) -> (r: Result<
        Option<usize>,
        BackendError,
    >)
        requires
            old(self).well_formed(),
            binding.toggle,
            sessions_view(sessions@) == old(self).backend_state().mixer(),
        ensures
            final(self).well_formed(),
            ({
                let m0 = old(self).backend_state().mixer();
                let fg = old(self).backend_state().focused();
                let t0 = old(self).toggles();
                let b = binding@;
                match r {
                    Ok(Some(n)) => {
                        &&& t0.contains_key(b.id)
                        &&& !refuses_any(old(self).backend_state().refusals(), restore_commands(t0[b.id], m0))
                        &&& n == restore_count(t0[b.id], m0)
                        &&& final(self).backend_state().mixer() == run_commands(
                            m0,
                            restore_commands(t0[b.id], m0),
                        )
                        &&& final(self).backend_state().focused() == fg
                        &&& final(self).toggles() == t0.remove(b.id)
                    },
                    Ok(None) => {
                        &&& !t0.contains_key(b.id)
                        &&& final(self).backend_state() == old(self).backend_state()
                        &&& final(self).toggles() == t0.insert(b.id, capture(b.actions, m0, fg))
                    },
                    Err(_) => {
                        &&& t0.contains_key(b.id)
                        &&& refuses_any(old(self).backend_state().refusals(), restore_commands(t0[b.id], m0))
                        &&& final(self).toggles() == t0.remove(b.id)
                        &&& final(self).backend_state().focused() == fg
                        &&& stopped_at_refusal(
                            old(self).backend_state().refusals(),
                            m0,
                            restore_commands(t0[b.id], m0),
                            final(self).backend_state().mixer(),
                        )
                    },
                }
            }),
    {
        let ghost m0 = self.backend.mixer();
        let ghost t0 = self.toggles();
        let ghost refused = self.backend.refusals();
        let ghost entries = toggle_entries(self.toggles@);
        let mut found: usize = 0;
        while found < self.toggles.len() && self.toggles[found].id != binding.id
            invariant
                found <= self.toggles@.len(),
                entries == toggle_entries(self.toggles@),
                forall|j: int| 0 <= j < found ==> #[trigger] entries[j].0 != binding.id@,
            decreases self.toggles@.len() - found,
        {
            found = found + 1;
        }
        if found < self.toggles.len() {
            proof {
                assert(entries[found as int] == toggled_entry(self.toggles@[found as int]));
                lemma_assoc_lookup(entries, found as int);
                lemma_assoc_remove(entries, found as int);
                assert(toggle_entries(self.toggles@.remove(found as int)) =~= entries.remove(found as int));
            }
            let snapshot = self.toggles.remove(found);
            let ghost snap = snapshot.states@;
            proof {
                assert(snap == t0[binding.id@]);
                assert(self.toggles() == t0.remove(binding.id@));
            }
            let mut restored: usize = 0;
            let mut k: usize = 0;
            while k < sessions.len()
                invariant
                    k <= sessions@.len(),
                    m0 == sessions_view(sessions@),
                    snap == snapshot.states@,
                    self.toggles() == t0.remove(binding.id@),
                    t0.contains_key(binding.id@) && snap == t0[binding.id@],
                    self.backend.focused() == old(self).backend.focused(),
                    self.backend.mixer() == run_commands(m0, restore_commands(snap, m0.take(k as int))),
                    restored == restore_count(snap, m0.take(k as int)),
                    restored <= k,
                    binding.toggle,
                    self.well_formed(),
                    m0 == old(self).backend_state().mixer(),
                    t0 == old(self).toggles(),
                    refused == old(self).backend_state().refusals(),
                    self.backend.refusals() == refused,
                    !refuses_any(refused, restore_commands(snap, m0.take(k as int))),
                decreases sessions@.len() - k,
            {
                let pid = sessions[k].pid;
                proof {
                    assert(m0[k as int] == sessions@[k as int]@);
                    assert(m0.take(k as int + 1).drop_last() == m0.take(k as int));
                }
                let found_state = match snapshot.states.get(&pid) {
                    Some(state) => Some(*state),
                    None => None,
                };
                if let Some(state) = found_state {
                    let ghost prev = restore_commands(snap, m0.take(k as int));
                    let ghost lc = MixerCommand::Level { pid, level: state.level };
                    let ghost mc = MixerCommand::Mute { pid, muted: state.muted };
                    let ghost full = restore_commands(snap, m0);
                    proof {
                        assert(m0.take(k as int + 1).last().pid == pid);
                        assert(restore_commands(snap, m0.take(k as int + 1)) == prev + seq![lc, mc]);
                        lemma_restore_commands_prefix(snap, m0, k as int + 1);
                        let q = prev + seq![lc, mc];
                        assert(full.take(q.len() as int) == q);
                        assert(q[prev.len() as int] == lc);
                        assert(q[prev.len() as int + 1] == mc);
                        assert(full[prev.len() as int] == full.take(q.len() as int)[prev.len() as int]);
                        assert(full[prev.len() as int + 1] == full.take(q.len() as int)[prev.len() as int + 1]);
                        assert(prev + seq![lc, mc] =~= prev.push(lc).push(mc));
                        lemma_refuses_any_push(refused, prev, lc);
                        lemma_refuses_any_push(refused, prev.push(lc), mc);
                    }
                    proof {
                        let q = prev + seq![lc, mc];
                        assert(full.take(prev.len() as int) =~= prev) by {
                            assert forall|j: int| 0 <= j < prev.len() implies full.take(prev.len() as int)[j] == prev[j] by {
                                assert(full[j] == full.take(q.len() as int)[j]);
                                assert(q[j] == prev[j]);
                            }
                        }
                        assert(full.take(prev.len() as int + 1) =~= prev.push(lc)) by {
                            assert forall|j: int| 0 <= j < prev.len() + 1 implies full.take(prev.len() as int + 1)[j] == prev.push(lc)[j] by {
                                assert(full[j] == full.take(q.len() as int)[j]);
                                assert(q[j] == prev.push(lc)[j]);
                            }
                        }
                    }
                    let set = self.backend.set_level(pid, state.level);
                    if set.is_err() {
                        proof {
                            assert(refused.contains(full[prev.len() as int]));
                            lemma_stop_at(refused, m0, full, prev, lc, self.backend.mixer());
                        }
                        return Err(set.unwrap_err());
                    }
                    let set = self.backend.set_mute(pid, state.muted);
                    if set.is_err() {
                        proof {
                            assert(refused.contains(full[prev.len() as int + 1]));
                            assert(prev.push(lc).drop_last() == prev);
                            assert(run_commands(m0, prev.push(lc)) == command_effect(run_commands(m0, prev), lc));
                            lemma_refuses_any_push(refused, prev, lc);
                            lemma_stop_at(refused, m0, full, prev.push(lc), mc, self.backend.mixer());
                        }
                        return Err(set.unwrap_err());
                    }
                    proof {
                        lemma_run_two(m0, prev, MixerCommand::Level { pid, level: state.level }, MixerCommand::Mute { pid, muted: state.muted });
                    }
                    restored = restored + 1;
                }
                k = k + 1;
            }
            proof {
                assert(m0.take(k as int) == m0);
            }
            return Ok(Some(restored));
        }
        proof {
            lemma_assoc_contains(entries, binding.id@);
        }
        let foreground = self.backend.foreground_pid();
        let ghost b = binding@;
        let mut states: HashMap<u32, SessionState> = HashMap::new();
        proof {
            assert(b.actions.take(0) =~= Seq::<ActionView>::empty());
            assert(states@ =~= Map::<u32, SessionState>::empty());
        }
        let mut a: usize = 0;
        while a < binding.actions.len()
            invariant
                a <= binding.actions@.len(),
                b == binding@,
                b.actions.len() == binding.actions@.len(),
                m0 == sessions_view(sessions@),
                states@ == capture(b.actions.take(a as int), m0, foreground),
            decreases binding.actions@.len() - a,
        {
            let action = &binding.actions[a];
            let ghost act = b.actions[a as int];
            let ghost base = capture(b.actions.take(a as int), m0, foreground);
            proof {
                assert(act == action@);
                assert(b.actions.take(a as int + 1).drop_last() == b.actions.take(a as int));
            }
            let mut k: usize = 0;
            while k < sessions.len()
                invariant
                    k <= sessions@.len(),
                    act == action@,
                    m0 == sessions_view(sessions@),
                    states@ == capture_action(base, act, m0.take(k as int), foreground),
                decreases sessions@.len() - k,
            {
                let session = &sessions[k];
                proof {
                    assert(m0[k as int] == session@);
                    assert(m0.take(k as int + 1).drop_last() == m0.take(k as int));
                }
                if matches(session, &action.target, foreground) {
                    remember(&mut states, session);
                }
                k = k + 1;
            }
            proof {
                assert(m0.take(k as int) == m0);
            }
            a = a + 1;
        }
        proof {
            assert(b.actions.take(a as int) == b.actions);
        }
        let toggled = Toggled { id: binding.id.clone(), states };
        proof {
            assert(toggled_entry(toggled) == (b.id, capture(b.actions, m0, foreground)));
            lemma_assoc_push(entries, b.id, capture(b.actions, m0, foreground));
            assert(toggle_entries(self.toggles@.push(toggled)) =~= entries.push(toggled_entry(toggled)));
        }
        self.toggles.push(toggled);
        Ok(None)
    }
}

/// The executable names of `sessions`, each once with ASCII case ignored, in
/// case-insensitive order.
fn application_names(sessions: &Vec<SessionInfo>) -> (names: Vec<String>)
    ensures
        application_list(names@.map_values(|n: String| n@), sessions_view(sessions@)),
{
    let ghost m = sessions_view(sessions@);
    let mut names: Vec<String> = Vec::new();
    proof {
        lemma_application_empty(m.take(0));
        assert(names@.map_values(|n: String| n@) =~= Seq::<Seq<char>>::empty());
    }
    let mut k: usize = 0;
    while k < sessions.len()
        invariant
            k <= sessions@.len(),
            m == sessions_view(sessions@),
            application_list(names@.map_values(|n: String| n@), m.take(k as int)),
        decreases sessions@.len() - k,
    {
        let ghost before = names@.map_values(|n: String| n@);
        proof {
            assert(m.take(k as int + 1).drop_last() == m.take(k as int));
            assert(m[k as int] == sessions@[k as int]@);
        }
        match &sessions[k].executable {
            Some(name) => {
                add_name(&mut names, name, Ghost(m.take(k as int + 1)));
            },
            None => {
                proof {
                    lemma_application_none(before, m.take(k as int + 1));
                }
            },
        }
        k = k + 1;
    }
    proof {
        assert(m.take(k as int) == m);
    }
    names
}

/// Lists `name` among the names of `m`'s first sessions, unless a name equal
/// to it with ASCII case ignored is listed already.
fn add_name(names: &mut Vec<String>, name: &String, Ghost(m): Ghost<Seq<SessionView>>)
    requires
        m.len() > 0,
        application_list(old(names)@.map_values(|n: String| n@), m.drop_last()),
        m.last().executable == Some(name@),
    ensures
        application_list(final(names)@.map_values(|n: String| n@), m),
{
    let ghost before = names@.map_values(|n: String| n@);
    let mut p: usize = 0;
    while p < names.len() && less_ignoring_case(names[p].as_str(), name.as_str())
        invariant
            p <= names@.len(),
            before == names@.map_values(|n: String| n@),
            forall|j: int| 0 <= j < p ==> before_ignoring_case(#[trigger] before[j], name@),
        decreases names@.len() - p,
    {
        p = p + 1;
    }
    if p < names.len() && eq_ignore_case(names[p].as_str(), name.as_str()) {
        proof {
            lemma_application_skip(before, m, name@, p as int);
        }
    } else {
        proof {
            if p < names.len() {
                assert(!before_ignoring_case(before[p as int], name@));
            }
            lemma_application_insert(before, m, name@, p as int);
        }
        names.insert(p, name.clone());
        proof {
            assert(names@.map_values(|n: String| n@) =~= before.insert(p as int, name@));
        }
    }
}

/// Records the state of a session unless its process is recorded already.
fn remember(states: &mut HashMap<u32, SessionState>, session: &SessionInfo)
    ensures
        final(states)@ == (if old(states)@.contains_key(session.pid) {
            old(states)@
        } else {
            old(states)@.insert(session.pid, state_of(session@))
        }),
{
    if !states.contains_key(&session.pid) {
        states.insert(session.pid, SessionState { level: session.level, muted: session.muted });
    }
}

/// Whether a session is one that a target names.
pub fn matches(session: &SessionInfo, target: &Target, foreground: Option<u32>) -> (r: bool)
    ensures
        r == session_matches(session@, target@, foreground),
{
    match target {
        Target::Foreground => match foreground {
            Some(pid) => pid == session.pid,
            None => false,
        },
        Target::Process { executable } => match &session.executable {
            Some(name) => eq_ignore_case(name.as_str(), executable.as_str()),
            None => false,
        },
    }
}

/// Asks the backend for what an operation means for one session.
fn run_operation<B: AudioBackend>(backend: &mut B, session: &SessionInfo, operation: Operation) -> (r: Result<(), BackendError>)
    ensures
        r is Err <==> old(backend).refusals().contains(command_for(session@, operation)),
        r is Err ==> partly_applied(old(backend).mixer(), command_for(session@, operation), final(backend).mixer()),
        r is Err ==> final(backend).focused() == old(backend).focused(),
        r is Ok ==> final(backend).mixer() == command_effect(old(backend).mixer(), command_for(session@, operation)),
        r is Ok ==> final(backend).focused() == old(backend).focused(),
        r is Ok ==> final(backend).refuses_listing() == old(backend).refuses_listing(),
        r is Ok ==> final(backend).refusals() == old(backend).refusals(),
{
    match operation {
        Operation::SetLevel { level } => backend.set_level(session.pid, level),
        Operation::Adjust { delta } => backend.set_level(session.pid, saturating_sum(session.level, delta)),
        Operation::Mute { muted } => backend.set_mute(session.pid, muted),
    }
}

/// `a + b`, held at the bounds of `i32`.
pub fn saturating_sum(a: i32, b: i32) -> (r: i32)
    ensures
        r == sat_add(a, b),
{
    let t = a as i64 + b as i64;
    if t > i32::MAX as i64 {
        i32::MAX
    } else if t < i32::MIN as i64 {
        i32::MIN
    } else {
        t as i32
    }
}

} // verus!
