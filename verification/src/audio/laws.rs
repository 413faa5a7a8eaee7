//! Laws of the audio engine: what two presses of a toggle binding do.
use vstd::prelude::*;

use super::model::{
    action_commands, binding_commands, capture, capture_action, clamp_level, command_for,
    command_pid, next_toggles, press_commands, press_outcome, restore_commands, restore_count, restores, run_commands,
    session_after, session_after_all, session_matches, state_of, MixerCommand, SessionState,
    SessionView,
};
use super::ApplyOutcome;
use crate::config::{ActionView, BindingView, Operation, FULL_LEVEL};

verus! {

/// No two sessions belong to the same process.
pub open spec fn pids_distinct(m: Seq<SessionView>) -> bool {
    forall|i: int, j: int| 0 <= i < j < m.len() ==> #[trigger] m[i].pid != #[trigger] m[j].pid
}

/// Every session's level lies between silence and full volume.
pub open spec fn levels_in_range(m: Seq<SessionView>) -> bool {
    forall|i: int| 0 <= i < m.len() ==> 0 <= #[trigger] m[i].level && m[i].level <= FULL_LEVEL
}

proof fn lemma_after_all_keeps_identity(s: SessionView, cmds: Seq<MixerCommand>)
    ensures
        session_after_all(s, cmds).pid == s.pid,
        session_after_all(s, cmds).executable == s.executable,
    decreases cmds.len(),
{
    if cmds.len() > 0 {
        lemma_after_all_keeps_identity(s, cmds.drop_last());
    }
}

proof fn lemma_run_pointwise(m: Seq<SessionView>, cmds: Seq<MixerCommand>)
    ensures
        run_commands(m, cmds).len() == m.len(),
        forall|i: int| 0 <= i < m.len() ==> #[trigger] run_commands(m, cmds)[i] == session_after_all(m[i], cmds),
    decreases cmds.len(),
{
    if cmds.len() > 0 {
        lemma_run_pointwise(m, cmds.drop_last());
    }
}

proof fn lemma_after_all_append(s: SessionView, a: Seq<MixerCommand>, b: Seq<MixerCommand>)
    ensures
        session_after_all(s, a + b) == session_after_all(session_after_all(s, a), b),
    decreases b.len(),
{
    if b.len() == 0 {
        assert(a + b == a);
    } else {
        assert((a + b).drop_last() == a + b.drop_last());
        lemma_after_all_append(s, a, b.drop_last());
    }
}

proof fn lemma_after_all_untouched(s: SessionView, cmds: Seq<MixerCommand>)
    requires
        forall|k: int| 0 <= k < cmds.len() ==> command_pid(#[trigger] cmds[k]) != s.pid,
    ensures
        session_after_all(s, cmds) == s,
    decreases cmds.len(),
{
    if cmds.len() > 0 {
        lemma_after_all_untouched(s, cmds.drop_last());
    }
}

proof fn lemma_action_commands_captured(m: Map<u32, SessionState>, a: ActionView, ss: Seq<SessionView>, fg: Option<u32>)
    ensures
        forall|k: int| 0 <= k < action_commands(a, ss, fg).len() ==> capture_action(m, a, ss, fg).contains_key(
            command_pid(#[trigger] action_commands(a, ss, fg)[k]),
        ),
    decreases ss.len(),
{
    if ss.len() > 0 {
        let d = ss.drop_last();
        lemma_action_commands_captured(m, a, d, fg);
        let rest = action_commands(a, d, fg);
        let prev = capture_action(m, a, d, fg);
        let c = action_commands(a, ss, fg);
        let cap = capture_action(m, a, ss, fg);
        assert forall|p: u32| prev.contains_key(p) implies #[trigger] cap.contains_key(p) by {}
        assert forall|k: int| 0 <= k < c.len() implies cap.contains_key(command_pid(#[trigger] c[k])) by {
            if k < rest.len() {
                assert(c[k] == rest[k]);
                assert(prev.contains_key(command_pid(rest[k])));
            } else {
                assert(session_matches(ss.last(), a.target, fg));
                assert(c == rest.push(command_for(ss.last(), a.operation)));
                assert(c[k] == command_for(ss.last(), a.operation));
                assert(cap.contains_key(ss.last().pid));
            }
        }
    }
}

proof fn lemma_capture_action_grows(m: Map<u32, SessionState>, a: ActionView, ss: Seq<SessionView>, fg: Option<u32>)
    ensures
        forall|p: u32| m.contains_key(p) ==> #[trigger] capture_action(m, a, ss, fg).contains_key(p),
        forall|j: int| 0 <= j < ss.len() && session_matches(#[trigger] ss[j], a.target, fg)
            ==> capture_action(m, a, ss, fg).contains_key(ss[j].pid),
    decreases ss.len(),
{
    if ss.len() > 0 {
        let d = ss.drop_last();
        lemma_capture_action_grows(m, a, d, fg);
        assert forall|p: u32| m.contains_key(p) implies #[trigger] capture_action(m, a, ss, fg).contains_key(p) by {
            assert(capture_action(m, a, d, fg).contains_key(p));
        }
        assert forall|j: int| 0 <= j < ss.len() && session_matches(#[trigger] ss[j], a.target, fg)
            implies capture_action(m, a, ss, fg).contains_key(ss[j].pid) by {
            if j < d.len() {
                assert(ss[j] == d[j]);
            }
        }
    }
}

proof fn lemma_capture_contains(acts: Seq<ActionView>, ss: Seq<SessionView>, fg: Option<u32>)
    ensures
        forall|x: int, j: int| 0 <= x < acts.len() && 0 <= j < ss.len() && session_matches(#[trigger] ss[j], #[trigger] acts[x].target, fg)
            ==> capture(acts, ss, fg).contains_key(ss[j].pid),
    decreases acts.len(),
{
    if acts.len() > 0 {
        let d = acts.drop_last();
        lemma_capture_contains(d, ss, fg);
        lemma_capture_action_grows(capture(d, ss, fg), acts.last(), ss, fg);
        assert forall|x: int, j: int| 0 <= x < acts.len() && 0 <= j < ss.len() && session_matches(#[trigger] ss[j], #[trigger] acts[x].target, fg)
            implies capture(acts, ss, fg).contains_key(ss[j].pid) by {
            if x < d.len() {
                assert(acts[x] == d[x]);
                assert(capture(d, ss, fg).contains_key(ss[j].pid));
            }
        }
    }
}

/// Every value a capture holds is the state of a session of that process.
pub open spec fn states_from(m: Map<u32, SessionState>, ss: Seq<SessionView>) -> bool {
    forall|p: u32| #[trigger] m.contains_key(p) ==> exists|j: int| 0 <= j < ss.len() && ss[j].pid == p && m[p] == state_of(ss[j])
}

proof fn lemma_capture_action_states(m: Map<u32, SessionState>, a: ActionView, all: Seq<SessionView>, fg: Option<u32>, n: int)
    requires
        states_from(m, all),
        0 <= n <= all.len(),
    ensures
        states_from(capture_action(m, a, all.take(n), fg), all),
    decreases n,
{
    if n > 0 {
        let ss = all.take(n);
        let d = ss.drop_last();
        assert(d == all.take(n - 1));
        lemma_capture_action_states(m, a, all, fg, n - 1);
        let prev = capture_action(m, a, d, fg);
        let s = ss.last();
        assert(s == all[n - 1]);
        if session_matches(s, a.target, fg) && !prev.contains_key(s.pid) {
            let r = prev.insert(s.pid, state_of(s));
            assert forall|p: u32| #[trigger] r.contains_key(p) implies exists|j: int| 0 <= j < all.len() && all[j].pid == p && r[p] == state_of(all[j]) by {
                if p == s.pid {
                    assert(all[n - 1].pid == p && r[p] == state_of(all[n - 1]));
                } else {
                    assert(prev.contains_key(p));
                }
            }
        }
    }
}

proof fn lemma_capture_states(acts: Seq<ActionView>, ss: Seq<SessionView>, fg: Option<u32>)
    ensures
        states_from(capture(acts, ss, fg), ss),
    decreases acts.len(),
{
    if acts.len() > 0 {
        lemma_capture_states(acts.drop_last(), ss, fg);
        lemma_capture_action_states(capture(acts.drop_last(), ss, fg), acts.last(), ss, fg, ss.len() as int);
        assert(ss.take(ss.len() as int) == ss);
    }
}

proof fn lemma_binding_commands_captured(acts: Seq<ActionView>, ss: Seq<SessionView>, fg: Option<u32>)
    ensures
        forall|k: int| 0 <= k < binding_commands(acts, ss, fg).len() ==> capture(acts, ss, fg).contains_key(
            command_pid(#[trigger] binding_commands(acts, ss, fg)[k]),
        ),
    decreases acts.len(),
{
    if acts.len() > 0 {
        let d = acts.drop_last();
        lemma_binding_commands_captured(d, ss, fg);
        let base = capture(d, ss, fg);
        lemma_capture_action_grows(base, acts.last(), ss, fg);
        lemma_action_commands_captured(base, acts.last(), ss, fg);
        let bc = binding_commands(acts, ss, fg);
        let front = binding_commands(d, ss, fg);
        let back = action_commands(acts.last(), ss, fg);
        assert forall|k: int| 0 <= k < bc.len() implies capture(acts, ss, fg).contains_key(command_pid(#[trigger] bc[k])) by {
            if k < front.len() {
                assert(bc[k] == front[k]);
                assert(base.contains_key(command_pid(front[k])));
            } else {
                assert(bc[k] == back[k - front.len()]);
            }
        }
    }
}

proof fn lemma_restore_commands_captured(snap: Map<u32, SessionState>, ss: Seq<SessionView>)
    ensures
        forall|k: int| 0 <= k < restore_commands(snap, ss).len() ==> snap.contains_key(
            command_pid(#[trigger] restore_commands(snap, ss)[k]),
        ),
    decreases ss.len(),
{
    if ss.len() > 0 {
        lemma_restore_commands_captured(snap, ss.drop_last());
        let r = restore_commands(snap, ss);
        let front = restore_commands(snap, ss.drop_last());
        assert forall|k: int| 0 <= k < r.len() implies snap.contains_key(command_pid(#[trigger] r[k])) by {
            if k < front.len() {
                assert(r[k] == front[k]);
            }
        }
    }
}

/// A session whose level and mute state are put back to `st`.
pub open spec fn restored_to(s: SessionView, st: SessionState) -> SessionView {
    SessionView { pid: s.pid, executable: s.executable, level: clamp_level(st.level), muted: st.muted }
}

proof fn lemma_restore_session(snap: Map<u32, SessionState>, ss: Seq<SessionView>, s: SessionView)
    requires
        forall|i: int, j: int| 0 <= i < j < ss.len() && #[trigger] ss[i].pid == s.pid ==> #[trigger] ss[j].pid != s.pid,
    ensures
        (snap.contains_key(s.pid) && exists|j: int| 0 <= j < ss.len() && #[trigger] ss[j].pid == s.pid)
            ==> session_after_all(s, restore_commands(snap, ss)) == restored_to(s, snap[s.pid]),
        !(snap.contains_key(s.pid) && exists|j: int| 0 <= j < ss.len() && #[trigger] ss[j].pid == s.pid)
            ==> session_after_all(s, restore_commands(snap, ss)) == s,
    decreases ss.len(),
{
    let p = s.pid;
    if ss.len() == 0 {
    } else {
        let d = ss.drop_last();
        assert forall|i: int, j: int| 0 <= i < j < d.len() && #[trigger] d[i].pid == p implies #[trigger] d[j].pid != p by {
            assert(d[i] == ss[i] && d[j] == ss[j]);
        }
        lemma_restore_session(snap, d, s);
        let front = restore_commands(snap, d);
        let q = ss.last().pid;
        let tail = if snap.contains_key(q) {
            seq![MixerCommand::Level { pid: q, level: snap[q].level }, MixerCommand::Mute { pid: q, muted: snap[q].muted }]
        } else {
            Seq::<MixerCommand>::empty()
        };
        assert(restore_commands(snap, ss) == front + tail);
        lemma_after_all_append(s, front, tail);
        let mid = session_after_all(s, front);
        if q == p {
            assert forall|j: int| 0 <= j < d.len() implies #[trigger] d[j].pid != p by {
                assert(d[j] == ss[j]);
                assert(ss[ss.len() - 1].pid == p);
            }
            assert(mid == s);
            if snap.contains_key(p) {
                let l = MixerCommand::Level { pid: q, level: snap[q].level };
                let u = MixerCommand::Mute { pid: q, muted: snap[q].muted };
                assert(tail.drop_last().drop_last() =~= Seq::<MixerCommand>::empty());
                assert(tail.drop_last() =~= seq![l]);
                assert(tail.last() == u);
                assert(seq![l].drop_last() =~= Seq::<MixerCommand>::empty());
                assert(seq![l].last() == l);
                assert(session_after_all(s, Seq::<MixerCommand>::empty()) == s);
                assert(session_after_all(s, seq![l]) == session_after(s, l));
                assert(session_after_all(s, tail) == session_after(session_after(s, l), u));
                assert(session_after_all(s, tail) == restored_to(s, snap[p]));
                assert(ss[ss.len() - 1].pid == p);
            } else {
                assert(tail =~= Seq::<MixerCommand>::empty());
            }
        } else {
            assert(mid.pid == p) by {
                lemma_after_all_keeps_identity(s, front);
            }
            assert forall|k: int| 0 <= k < tail.len() implies command_pid(#[trigger] tail[k]) != mid.pid by {}
            lemma_after_all_untouched(mid, tail);
            if exists|j: int| 0 <= j < ss.len() && #[trigger] ss[j].pid == p {
                let j = choose|j: int| 0 <= j < ss.len() && #[trigger] ss[j].pid == p;
                assert(j < d.len());
                assert(d[j].pid == p);
            }
            if exists|j: int| 0 <= j < d.len() && #[trigger] d[j].pid == p {
                let j = choose|j: int| 0 <= j < d.len() && #[trigger] d[j].pid == p;
                assert(ss[j].pid == p);
            }
        }
    }
}

proof fn lemma_level_after_all(s: SessionView, cmds: Seq<MixerCommand>)
    requires
        0 <= s.level <= FULL_LEVEL,
    ensures
        0 <= session_after_all(s, cmds).level <= FULL_LEVEL,
    decreases cmds.len(),
{
    if cmds.len() > 0 {
        lemma_level_after_all(s, cmds.drop_last());
    }
}

/// Whatever a press sends, every level stays between silence and full
/// volume: a level asked for outside that range is held at its bound.
pub proof fn press_keeps_levels_in_range(
    t: Map<Seq<char>, Map<u32, SessionState>>,
    b: BindingView,
    m0: Seq<SessionView>,
    fg: Option<u32>,
)
    requires
        levels_in_range(m0),
    ensures
        levels_in_range(run_commands(m0, press_commands(t, b, m0, fg))),
{
    let cmds = press_commands(t, b, m0, fg);
    lemma_run_pointwise(m0, cmds);
    assert forall|i: int| 0 <= i < run_commands(m0, cmds).len() implies 0 <= #[trigger] run_commands(m0, cmds)[i].level
        && run_commands(m0, cmds)[i].level <= FULL_LEVEL by {
        lemma_level_after_all(m0[i], cmds);
    }
}

/// The command of an action for a session it reaches.
spec fn reached_by(c: MixerCommand, a: ActionView, ss: Seq<SessionView>, fg: Option<u32>) -> bool {
    exists|j: int| 0 <= j < ss.len() && session_matches(ss[j], a.target, fg) && command_pid(c) == #[trigger] ss[j].pid
}

proof fn lemma_action_commands_reached(a: ActionView, ss: Seq<SessionView>, fg: Option<u32>)
    ensures
        forall|k: int| 0 <= k < action_commands(a, ss, fg).len() ==> reached_by(
            #[trigger] action_commands(a, ss, fg)[k],
            a,
            ss,
            fg,
        ),
    decreases ss.len(),
{
    if ss.len() > 0 {
        let d = ss.drop_last();
        lemma_action_commands_reached(a, d, fg);
        let rest = action_commands(a, d, fg);
        let c = action_commands(a, ss, fg);
        assert forall|k: int| 0 <= k < c.len() implies reached_by(#[trigger] c[k], a, ss, fg) by {
            if k < rest.len() {
                assert(c[k] == rest[k]);
                let j = choose|j: int| 0 <= j < d.len() && session_matches(d[j], a.target, fg) && command_pid(rest[k]) == #[trigger] d[j].pid;
                assert(ss[j] == d[j]);
            } else {
                assert(c[k] == command_for(ss.last(), a.operation));
                assert(ss[ss.len() - 1] == ss.last());
            }
        }
    }
}

proof fn lemma_binding_commands_reached(acts: Seq<ActionView>, ss: Seq<SessionView>, fg: Option<u32>)
    ensures
        forall|k: int| 0 <= k < binding_commands(acts, ss, fg).len() ==> exists|x: int|
            0 <= x < acts.len() && reached_by(#[trigger] binding_commands(acts, ss, fg)[k], #[trigger] acts[x], ss, fg),
    decreases acts.len(),
{
    if acts.len() > 0 {
        let d = acts.drop_last();
        lemma_binding_commands_reached(d, ss, fg);
        lemma_action_commands_reached(acts.last(), ss, fg);
        let bc = binding_commands(acts, ss, fg);
        let front = binding_commands(d, ss, fg);
        let back = action_commands(acts.last(), ss, fg);
        assert forall|k: int| 0 <= k < bc.len() implies exists|x: int|
            0 <= x < acts.len() && reached_by(#[trigger] bc[k], #[trigger] acts[x], ss, fg) by {
            if k < front.len() {
                assert(bc[k] == front[k]);
                let x = choose|x: int| 0 <= x < d.len() && reached_by(#[trigger] front[k], #[trigger] d[x], ss, fg);
                assert(acts[x] == d[x]);
            } else {
                assert(bc[k] == back[k - front.len()]);
                assert(acts[acts.len() - 1] == acts.last());
            }
        }
    }
}

/// A press that does not put back a captured state leaves alone every
/// session that none of the binding's actions reaches, when no two sessions
/// share a process.
pub proof fn press_leaves_unreached_sessions(
    t: Map<Seq<char>, Map<u32, SessionState>>,
    b: BindingView,
    m0: Seq<SessionView>,
    fg: Option<u32>,
    i: int,
)
    requires
        !restores(t, b),
        pids_distinct(m0),
        0 <= i < m0.len(),
        forall|x: int| 0 <= x < b.actions.len() ==> !session_matches(m0[i], #[trigger] b.actions[x].target, fg),
    ensures
        run_commands(m0, press_commands(t, b, m0, fg))[i] == m0[i],
{
    let cmds = press_commands(t, b, m0, fg);
    assert(cmds == binding_commands(b.actions, m0, fg));
    lemma_run_pointwise(m0, cmds);
    lemma_binding_commands_reached(b.actions, m0, fg);
    assert forall|k: int| 0 <= k < cmds.len() implies command_pid(#[trigger] cmds[k]) != m0[i].pid by {
        let x = choose|x: int| 0 <= x < b.actions.len() && reached_by(cmds[k], #[trigger] b.actions[x], m0, fg);
        let j = choose|j: int| 0 <= j < m0.len() && session_matches(m0[j], b.actions[x].target, fg) && command_pid(cmds[k]) == #[trigger] m0[j].pid;
        if j != i {
            if i < j {
                assert(m0[i].pid != m0[j].pid);
            } else {
                assert(m0[j].pid != m0[i].pid);
            }
        }
    }
    lemma_after_all_untouched(m0[i], cmds);
}

/// Every process a capture holds is that of a session one of `acts` reaches,
/// with that session's state.
pub open spec fn captured_from_reached(m: Map<u32, SessionState>, acts: Seq<ActionView>, ss: Seq<SessionView>, fg: Option<u32>) -> bool {
    forall|p: u32| #[trigger] m.contains_key(p) ==> exists|j: int, x: int|
        0 <= j < ss.len() && 0 <= x < acts.len() && ss[j].pid == p && session_matches(ss[j], acts[x].target, fg)
            && m[p] == state_of(ss[j])
}

proof fn lemma_capture_action_reached(
    m: Map<u32, SessionState>,
    acts: Seq<ActionView>,
    xa: int,
    all: Seq<SessionView>,
    fg: Option<u32>,
    n: int,
)
    requires
        0 <= xa < acts.len(),
        captured_from_reached(m, acts, all, fg),
        0 <= n <= all.len(),
    ensures
        captured_from_reached(capture_action(m, acts[xa], all.take(n), fg), acts, all, fg),
    decreases n,
{
    if n > 0 {
        let ss = all.take(n);
        let d = ss.drop_last();
        assert(d == all.take(n - 1));
        lemma_capture_action_reached(m, acts, xa, all, fg, n - 1);
        let prev = capture_action(m, acts[xa], d, fg);
        let sv = ss.last();
        assert(sv == all[n - 1]);
        if session_matches(sv, acts[xa].target, fg) && !prev.contains_key(sv.pid) {
            let r = prev.insert(sv.pid, state_of(sv));
            assert forall|p: u32| #[trigger] r.contains_key(p) implies exists|j: int, x: int|
                0 <= j < all.len() && 0 <= x < acts.len() && all[j].pid == p && session_matches(all[j], acts[x].target, fg)
                    && r[p] == state_of(all[j]) by {
                if p == sv.pid {
                    assert(0 <= n - 1 < all.len() && all[n - 1].pid == p && session_matches(all[n - 1], acts[xa].target, fg)
                        && r[p] == state_of(all[n - 1]));
                } else {
                    assert(prev.contains_key(p));
                }
            }
        }
    }
}

proof fn lemma_capture_reached(acts: Seq<ActionView>, ss: Seq<SessionView>, fg: Option<u32>, n: int)
    requires
        0 <= n <= acts.len(),
    ensures
        captured_from_reached(capture(acts.take(n), ss, fg), acts, ss, fg),
    decreases n,
{
    if n > 0 {
        let t = acts.take(n);
        assert(t.drop_last() == acts.take(n - 1));
        assert(t.last() == acts[n - 1]);
        lemma_capture_reached(acts, ss, fg, n - 1);
        lemma_capture_action_reached(capture(acts.take(n - 1), ss, fg), acts, n - 1, ss, fg, ss.len() as int);
        assert(ss.take(ss.len() as int) == ss);
    } else {
        assert(capture(acts.take(0), ss, fg) =~= Map::<u32, SessionState>::empty());
    }
}

/// A toggle binding's second press puts back what its first press captured,
/// whatever happened to the sessions in between. The first press captures,
/// for each process a session of which one of the binding's actions reached,
/// the level and mute state of such a session (the only one when no two
/// sessions share a process). The second press reports a restore of every
/// current session of such a process, gives each of them that level (held
/// between silence and full volume, which it already was when the first
/// press found every level in range) and mute state, leaves every other
/// session alone, and forgets the capture, so the next press is a first one
/// again. This holds when no two current sessions share a process.
pub proof fn second_toggle_press_restores(
    t: Map<Seq<char>, Map<u32, SessionState>>,
    b: BindingView,
    m0: Seq<SessionView>,
    fg: Option<u32>,
    m1: Seq<SessionView>,
    fg1: Option<u32>,
)
    requires
        b.toggle,
        !t.contains_key(b.id),
        pids_distinct(m1),
    ensures
        ({
            let t1 = next_toggles(t, b, m0, fg);
            let snap = capture(b.actions, m0, fg);
            let m2 = run_commands(m1, press_commands(t1, b, m1, fg1));
            &&& press_outcome(t1, b, m1, fg1) == ApplyOutcome { affected: restore_count(snap, m1) as usize, restored: true }
            &&& next_toggles(t1, b, m1, fg1) == t
            &&& m2.len() == m1.len()
            &&& forall|i: int| 0 <= i < m1.len() ==> #[trigger] m2[i] == (if snap.contains_key(m1[i].pid) {
                restored_to(m1[i], snap[m1[i].pid])
            } else {
                m1[i]
            })
            &&& captured_from_reached(snap, b.actions, m0, fg)
            &&& levels_in_range(m0) ==> forall|p: u32| #[trigger] snap.contains_key(p) ==> clamp_level(snap[p].level) == snap[p].level
            &&& forall|x: int, j: int|
                0 <= x < b.actions.len() && 0 <= j < m0.len() && session_matches(#[trigger] m0[j], #[trigger] b.actions[x].target, fg)
                    ==> snap.contains_key(m0[j].pid)
        }),
{
    let snap = capture(b.actions, m0, fg);
    let t1 = t.insert(b.id, snap);
    assert(next_toggles(t, b, m0, fg) == t1);
    assert(t1.contains_key(b.id) && t1[b.id] == snap);
    let rc = restore_commands(snap, m1);
    assert(press_commands(t1, b, m1, fg1) == rc);
    lemma_run_pointwise(m1, rc);
    assert forall|i: int| 0 <= i < m1.len() implies #[trigger] run_commands(m1, rc)[i] == (if snap.contains_key(m1[i].pid) {
        restored_to(m1[i], snap[m1[i].pid])
    } else {
        m1[i]
    }) by {
        assert forall|x: int, y: int| 0 <= x < y < m1.len() && #[trigger] m1[x].pid == m1[i].pid implies #[trigger] m1[y].pid != m1[i].pid by {}
        lemma_restore_session(snap, m1, m1[i]);
        assert(m1[i].pid == m1[i].pid);
    }
    assert(t1.remove(b.id) =~= t);
    lemma_capture_reached(b.actions, m0, fg, b.actions.len() as int);
    assert(b.actions.take(b.actions.len() as int) == b.actions);
    lemma_capture_contains(b.actions, m0, fg);
    if levels_in_range(m0) {
        assert forall|p: u32| #[trigger] snap.contains_key(p) implies clamp_level(snap[p].level) == snap[p].level by {
            let (j, x) = choose|j: int, x: int|
                0 <= j < m0.len() && 0 <= x < b.actions.len() && m0[j].pid == p && session_matches(m0[j], b.actions[x].target, fg)
                    && snap[p] == state_of(m0[j]);
            assert(0 <= m0[j].level && m0[j].level <= FULL_LEVEL);
        }
    }
}

/// Pressing a toggle binding twice, with nothing else changing the mixer or
/// the foreground in between, puts every session back exactly as it was
/// before the first press and forgets the captured state; the second press
/// reports a restore. This holds when no two sessions share a process and
/// every level lies between silence and full volume.
pub proof fn toggle_twice_restores(
    t: Map<Seq<char>, Map<u32, SessionState>>,
    b: BindingView,
    m0: Seq<SessionView>,
    fg: Option<u32>,
)
    requires
        b.toggle,
        !t.contains_key(b.id),
        pids_distinct(m0),
        levels_in_range(m0),
    ensures
        ({
            let t1 = next_toggles(t, b, m0, fg);
            let m1 = run_commands(m0, press_commands(t, b, m0, fg));
            &&& !press_outcome(t, b, m0, fg).restored
            &&& press_outcome(t1, b, m1, fg).restored
            &&& run_commands(m1, press_commands(t1, b, m1, fg)) == m0
            &&& next_toggles(t1, b, m1, fg) == t
        }),
{
    let snap = capture(b.actions, m0, fg);
    let t1 = t.insert(b.id, snap);
    let bc = binding_commands(b.actions, m0, fg);
    let m1 = run_commands(m0, bc);
    assert(next_toggles(t, b, m0, fg) == t1);
    assert(press_commands(t, b, m0, fg) == bc);
    assert(t1.contains_key(b.id) && t1[b.id] == snap);
    let rc = restore_commands(snap, m1);
    assert(press_commands(t1, b, m1, fg) == rc);
    let m2 = run_commands(m1, rc);
    lemma_run_pointwise(m0, bc);
    lemma_run_pointwise(m1, rc);
    lemma_binding_commands_captured(b.actions, m0, fg);
    lemma_restore_commands_captured(snap, m1);
    lemma_capture_states(b.actions, m0, fg);
    assert forall|i: int| 0 <= i < m0.len() implies #[trigger] m2[i] == m0[i] by {
        let s = m0[i];
        let p = s.pid;
        lemma_after_all_keeps_identity(s, bc);
        assert(m1[i] == session_after_all(s, bc));
        assert forall|x: int, y: int| 0 <= x < y < m1.len() && #[trigger] m1[x].pid == m1[i].pid implies #[trigger] m1[y].pid != m1[i].pid by {
            lemma_after_all_keeps_identity(m0[x], bc);
            lemma_after_all_keeps_identity(m0[y], bc);
            assert(m1[x] == session_after_all(m0[x], bc));
            assert(m1[y] == session_after_all(m0[y], bc));
        }
        lemma_restore_session(snap, m1, m1[i]);
        assert(m2[i] == session_after_all(m1[i], rc));
        if snap.contains_key(p) {
            let j = choose|j: int| 0 <= j < m0.len() && m0[j].pid == p && snap[p] == state_of(m0[j]);
            assert(j == i);
            assert(m1[i].pid == p);
            assert(exists|j: int| 0 <= j < m1.len() && #[trigger] m1[j].pid == m1[i].pid);
            assert(m2[i] == restored_to(m1[i], snap[p]));
        } else {
            assert forall|k: int| 0 <= k < bc.len() implies command_pid(#[trigger] bc[k]) != s.pid by {}
            lemma_after_all_untouched(s, bc);
            assert(m1[i] == s);
        }
    }
    assert(m2 =~= m0);
    assert(t1.remove(b.id) =~= t);
}

/// A level held between silence and full volume.
pub open spec fn within_volume(v: int) -> int {
    if v < 0 {
        0
    } else if v > FULL_LEVEL {
        FULL_LEVEL as int
    } else {
        v
    }
}

/// The commands of one action for the first `n` sessions leave session `i`
/// alone unless it is among them and the action's target matches it, and
/// then do to it what the action's operation asks, once.
proof fn lemma_one_action_on_session(a: ActionView, ss: Seq<SessionView>, fg: Option<u32>, i: int, n: int)
    requires
        pids_distinct(ss),
        0 <= i < ss.len(),
        0 <= n <= ss.len(),
    ensures
        session_after_all(ss[i], action_commands(a, ss.take(n), fg)) == (if i < n && session_matches(ss[i], a.target, fg) {
            session_after(ss[i], command_for(ss[i], a.operation))
        } else {
            ss[i]
        }),
    decreases n,
{
    if n > 0 {
        let p = ss.take(n);
        assert(p.drop_last() =~= ss.take(n - 1));
        assert(p.last() == ss[n - 1]);
        lemma_one_action_on_session(a, ss, fg, i, n - 1);
        let rest = action_commands(a, ss.take(n - 1), fg);
        if session_matches(ss[n - 1], a.target, fg) {
            let c = command_for(ss[n - 1], a.operation);
            assert(action_commands(a, p, fg) == rest.push(c));
            assert(rest.push(c).drop_last() =~= rest);
            assert(rest.push(c).last() == c);
            if n - 1 != i {
                if i < n - 1 {
                    assert(ss[i].pid != ss[n - 1].pid);
                } else {
                    assert(ss[n - 1].pid != ss[i].pid);
                }
            }
        } else {
            assert(action_commands(a, p, fg) == rest);
        }
    } else {
        assert(ss.take(0) =~= Seq::<SessionView>::empty());
    }
}

/// A press that does not put back a captured state, of a binding with one
/// action, when no two sessions share a process: every session that the
/// action's target does not match is left alone, and on every session it
/// matches the operation runs once, from the state the session had at the
/// press. Setting a level gives the session that level; an adjustment gives
/// it its level at the press plus the adjustment; either is held between
/// silence and full volume, and the mute state stays. A mute gives the
/// session the action's mute flag, and the level stays.
pub proof fn single_action_press(
    t: Map<Seq<char>, Map<u32, SessionState>>,
    b: BindingView,
    m0: Seq<SessionView>,
    fg: Option<u32>,
    i: int,
)
    requires
        !restores(t, b),
        b.actions.len() == 1,
        pids_distinct(m0),
        0 <= i < m0.len(),
    ensures
        ({
            let a = b.actions[0];
            let m1 = run_commands(m0, press_commands(t, b, m0, fg));
            &&& m1.len() == m0.len()
            &&& m1[i].pid == m0[i].pid
            &&& m1[i].executable == m0[i].executable
            &&& !session_matches(m0[i], a.target, fg) ==> m1[i] == m0[i]
            &&& session_matches(m0[i], a.target, fg) ==> match a.operation {
                Operation::SetLevel { level } => m1[i].level == within_volume(level as int) && m1[i].muted == m0[i].muted,
                Operation::Adjust { delta } => m1[i].level == within_volume(m0[i].level + delta) && m1[i].muted == m0[i].muted,
                Operation::Mute { muted } => m1[i].muted == muted && m1[i].level == m0[i].level,
            }
        }),
{
    let a = b.actions[0];
    let acts = b.actions;
    assert(acts.drop_last() =~= Seq::<ActionView>::empty());
    assert(acts.last() == a);
    let ac = action_commands(a, m0, fg);
    assert(binding_commands(acts.drop_last(), m0, fg) == Seq::<MixerCommand>::empty());
    assert(binding_commands(acts, m0, fg) == Seq::<MixerCommand>::empty() + ac);
    assert(Seq::<MixerCommand>::empty() + ac =~= ac);
    let cmds = press_commands(t, b, m0, fg);
    assert(cmds == ac);
    lemma_run_pointwise(m0, cmds);
    assert(m0.take(m0.len() as int) =~= m0);
    lemma_one_action_on_session(a, m0, fg, i, m0.len() as int);
}

/// How many times the actions of `acts`, one after another, match a session
/// of `m`: for each action, the number of sessions its target matches.
pub open spec fn matches_total(acts: Seq<ActionView>, m: Seq<SessionView>, fg: Option<u32>) -> nat
    decreases acts.len(),
{
    if acts.len() == 0 {
        0
    } else {
        matches_total(acts.drop_last(), m, fg) + m.filter(|s: SessionView| session_matches(s, acts.last().target, fg)).len()
    }
}

proof fn lemma_action_commands_count(a: ActionView, ss: Seq<SessionView>, fg: Option<u32>)
    ensures
        action_commands(a, ss, fg).len() == ss.filter(|s: SessionView| session_matches(s, a.target, fg)).len(),
    decreases ss.len(),
{
    reveal(Seq::filter);
    if ss.len() > 0 {
        lemma_action_commands_count(a, ss.drop_last(), fg);
    }
}

proof fn lemma_binding_commands_count(acts: Seq<ActionView>, ss: Seq<SessionView>, fg: Option<u32>)
    ensures
        binding_commands(acts, ss, fg).len() == matches_total(acts, ss, fg),
    decreases acts.len(),
{
    if acts.len() > 0 {
        lemma_binding_commands_count(acts.drop_last(), ss, fg);
        lemma_action_commands_count(acts.last(), ss, fg);
    }
}

/// A press that does not put back a captured state reports as affected how
/// many times one of the binding's actions matches a session: for each action,
/// the number of sessions its target matches, added up (held at the largest
/// `usize`).
pub proof fn press_counts_matched_sessions(
    t: Map<Seq<char>, Map<u32, SessionState>>,
    b: BindingView,
    m0: Seq<SessionView>,
    fg: Option<u32>,
)
    requires
        !restores(t, b),
    ensures
        ({
            let n = matches_total(b.actions, m0, fg);
            press_outcome(t, b, m0, fg) == ApplyOutcome { affected: if n > usize::MAX { usize::MAX } else { n as usize }, restored: false }
        }),
{
    lemma_binding_commands_count(b.actions, m0, fg);
}

proof fn lemma_restore_count(snap: Map<u32, SessionState>, ss: Seq<SessionView>)
    ensures
        restore_count(snap, ss) == ss.filter(|s: SessionView| snap.contains_key(s.pid)).len(),
        restore_commands(snap, ss).len() == 2 * ss.filter(|s: SessionView| snap.contains_key(s.pid)).len(),
    decreases ss.len(),
{
    reveal(Seq::filter);
    if ss.len() > 0 {
        lemma_restore_count(snap, ss.drop_last());
    }
}

/// A press that puts back a captured state reports as restored the number of
/// current sessions whose process the state holds, none when no current
/// session belongs to a captured process, and sends each of those sessions
/// two commands, its level and its mute state.
pub proof fn restoring_press_counts_sessions(
    t: Map<Seq<char>, Map<u32, SessionState>>,
    b: BindingView,
    m: Seq<SessionView>,
    fg: Option<u32>,
)
    requires
        restores(t, b),
        m.len() <= usize::MAX,
    ensures
        ({
            let n = m.filter(|s: SessionView| t[b.id].contains_key(s.pid)).len();
            &&& press_outcome(t, b, m, fg) == ApplyOutcome { affected: n as usize, restored: true }
            &&& press_commands(t, b, m, fg).len() == 2 * n
        }),
{
    lemma_restore_count(t[b.id], m);
    m.lemma_filter_len(|s: SessionView| t[b.id].contains_key(s.pid));
}

} // verus!
