//! The mathematical model of the mixer and of what pressing a binding does to it.
use vstd::prelude::*;

use super::ApplyOutcome;
use crate::config::{ActionView, BindingView, Operation, TargetView, FULL_LEVEL};
use crate::text::{before_ignoring_case, lemma_seq_lt_asymmetric, lemma_seq_lt_irreflexive, lemma_seq_lt_total, lemma_seq_lt_transitive, lowered, same_ignoring_case};

verus! {

/// One audio session: its process, the process's executable name when known,
/// its level in thousandths of full volume, and whether it is muted.
pub struct SessionView {
    pub pid: u32,
    pub executable: Option<Seq<char>>,
    pub level: i32,
    pub muted: bool,
}

/// The level and mute state a toggle binding captured for one process.
#[derive(Clone, Copy, Debug, PartialEq, Eq, Structural)]
pub struct SessionState {
    pub level: i32,
    pub muted: bool,
}

/// One request to the mixer.
pub enum MixerCommand {
    Level { pid: u32, level: i32 },
    Mute { pid: u32, muted: bool },
}

/// A level held between silence and full volume.
pub open spec fn clamp_level(level: i32) -> i32 {
    if level < 0 {
        0
    } else if level > FULL_LEVEL {
        FULL_LEVEL
    } else {
        level
    }
}

/// `a + b`, held at the bounds of `i32`.
pub open spec fn sat_add(a: i32, b: i32) -> i32 {
    let t = a + b;
    if t > i32::MAX {
        i32::MAX
    } else if t < i32::MIN {
        i32::MIN
    } else {
        t as i32
    }
}

/// What a command does to one session: it acts on the sessions of its
/// process and leaves the others alone.
pub open spec fn session_after(s: SessionView, c: MixerCommand) -> SessionView {
    match c {
        MixerCommand::Level { pid, level } => if s.pid == pid {
            SessionView { pid: s.pid, executable: s.executable, level: clamp_level(level), muted: s.muted }
        } else {
            s
        },
        MixerCommand::Mute { pid, muted } => if s.pid == pid {
            SessionView { pid: s.pid, executable: s.executable, level: s.level, muted }
        } else {
            s
        },
    }
}

/// What a command does to the whole mixer.
pub open spec fn command_effect(m: Seq<SessionView>, c: MixerCommand) -> Seq<SessionView> {
    m.map_values(|s: SessionView| session_after(s, c))
}

/// The mixer after a sequence of commands, run in order.
pub open spec fn run_commands(m: Seq<SessionView>, cmds: Seq<MixerCommand>) -> Seq<SessionView>
    decreases cmds.len(),
{
    if cmds.len() == 0 {
        m
    } else {
        command_effect(run_commands(m, cmds.drop_last()), cmds.last())
    }
}

/// One session after a sequence of commands.
pub open spec fn session_after_all(s: SessionView, cmds: Seq<MixerCommand>) -> SessionView
    decreases cmds.len(),
{
    if cmds.len() == 0 {
        s
    } else {
        session_after(session_after_all(s, cmds.drop_last()), cmds.last())
    }
}

pub open spec fn command_pid(c: MixerCommand) -> u32 {
    match c {
        MixerCommand::Level { pid, .. } => pid,
        MixerCommand::Mute { pid, .. } => pid,
    }
}

/// Whether a session is one that a target names: the foreground process, or
/// a process whose executable name equals the target's with ASCII case ignored.
pub open spec fn session_matches(s: SessionView, t: TargetView, fg: Option<u32>) -> bool {
    match t {
        TargetView::Foreground => fg == Some(s.pid),
        TargetView::Process(e) => match s.executable {
            Some(x) => same_ignoring_case(x, e),
            None => false,
        },
    }
}

/// What an operation asks of the mixer for one session. A relative
/// adjustment starts from the level the session had when the binding fired.
pub open spec fn command_for(s: SessionView, op: Operation) -> MixerCommand {
    match op {
        Operation::SetLevel { level } => MixerCommand::Level { pid: s.pid, level },
        Operation::Adjust { delta } => MixerCommand::Level { pid: s.pid, level: sat_add(s.level, delta) },
        Operation::Mute { muted } => MixerCommand::Mute { pid: s.pid, muted },
    }
}

/// The commands of one action: one for each session it matches, in session order.
pub open spec fn action_commands(a: ActionView, ss: Seq<SessionView>, fg: Option<u32>) -> Seq<MixerCommand>
    decreases ss.len(),
{
    if ss.len() == 0 {
        Seq::empty()
    } else {
        let rest = action_commands(a, ss.drop_last(), fg);
        if session_matches(ss.last(), a.target, fg) {
            rest.push(command_for(ss.last(), a.operation))
        } else {
            rest
        }
    }
}

/// The commands of a binding's actions, action after action.
pub open spec fn binding_commands(acts: Seq<ActionView>, ss: Seq<SessionView>, fg: Option<u32>) -> Seq<MixerCommand>
    decreases acts.len(),
{
    if acts.len() == 0 {
        Seq::empty()
    } else {
        binding_commands(acts.drop_last(), ss, fg) + action_commands(acts.last(), ss, fg)
    }
}

pub open spec fn state_of(s: SessionView) -> SessionState {
    SessionState { level: s.level, muted: s.muted }
}

/// Adds to `m` the state of each session an action matches whose process
/// `m` does not hold yet.
pub open spec fn capture_action(m: Map<u32, SessionState>, a: ActionView, ss: Seq<SessionView>, fg: Option<u32>) -> Map<u32, SessionState>
    decreases ss.len(),
{
    if ss.len() == 0 {
        m
    } else {
        let prev = capture_action(m, a, ss.drop_last(), fg);
        let s = ss.last();
        if session_matches(s, a.target, fg) && !prev.contains_key(s.pid) {
            prev.insert(s.pid, state_of(s))
        } else {
            prev
        }
    }
}

/// The state a toggle binding captures: for every process one of its actions
/// reaches, the state of the first session of that process that an action
/// reaches, actions in order and sessions in order.
pub open spec fn capture(acts: Seq<ActionView>, ss: Seq<SessionView>, fg: Option<u32>) -> Map<u32, SessionState>
    decreases acts.len(),
{
    if acts.len() == 0 {
        Map::empty()
    } else {
        capture_action(capture(acts.drop_last(), ss, fg), acts.last(), ss, fg)
    }
}

/// The commands that put a captured state back: for each session, in order,
/// whose process was captured, its level and then its mute state.
pub open spec fn restore_commands(snap: Map<u32, SessionState>, ss: Seq<SessionView>) -> Seq<MixerCommand>
    decreases ss.len(),
{
    if ss.len() == 0 {
        Seq::empty()
    } else {
        let rest = restore_commands(snap, ss.drop_last());
        let p = ss.last().pid;
        if snap.contains_key(p) {
            rest + seq![MixerCommand::Level { pid: p, level: snap[p].level }, MixerCommand::Mute { pid: p, muted: snap[p].muted }]
        } else {
            rest
        }
    }
}

/// How many sessions belong to a captured process.
pub open spec fn restore_count(snap: Map<u32, SessionState>, ss: Seq<SessionView>) -> nat
    decreases ss.len(),
{
    if ss.len() == 0 {
        0
    } else {
        restore_count(snap, ss.drop_last()) + if snap.contains_key(ss.last().pid) { 1nat } else { 0nat }
    }
}

/// Whether this press of a binding puts back a captured state.
pub open spec fn restores(t: Map<Seq<char>, Map<u32, SessionState>>, b: BindingView) -> bool {
    b.toggle && t.contains_key(b.id)
}

/// The commands one press of a binding sends, given the captured states `t`,
/// the mixer `m` and the foreground process `fg` at the press.
pub open spec fn press_commands(t: Map<Seq<char>, Map<u32, SessionState>>, b: BindingView, m: Seq<SessionView>, fg: Option<u32>) -> Seq<MixerCommand> {
    if restores(t, b) {
        restore_commands(t[b.id], m)
    } else {
        binding_commands(b.actions, m, fg)
    }
}

/// A count, held at `usize::MAX`.
pub open spec fn saturating_count(n: nat) -> usize {
    if n > usize::MAX {
        usize::MAX
    } else {
        n as usize
    }
}

/// What one press of a binding reports: how many sessions it put back, or
/// how many times an action reached a session.
pub open spec fn press_outcome(t: Map<Seq<char>, Map<u32, SessionState>>, b: BindingView, m: Seq<SessionView>, fg: Option<u32>) -> ApplyOutcome {
    if restores(t, b) {
        ApplyOutcome { affected: restore_count(t[b.id], m) as usize, restored: true }
    } else {
        ApplyOutcome { affected: saturating_count(binding_commands(b.actions, m, fg).len()), restored: false }
    }
}

/// The captured states after one press of a binding: a toggle binding
/// forgets the state it puts back, or captures one.
pub open spec fn next_toggles(t: Map<Seq<char>, Map<u32, SessionState>>, b: BindingView, m: Seq<SessionView>, fg: Option<u32>) -> Map<Seq<char>, Map<u32, SessionState>> {
    if !b.toggle {
        t
    } else if t.contains_key(b.id) {
        t.remove(b.id)
    } else {
        t.insert(b.id, capture(b.actions, m, fg))
    }
}

/// After a command the backend refused: each session is as it was, or as
/// the command would have left it.
#[verifier::opaque]
pub open spec fn partly_applied(before: Seq<SessionView>, c: MixerCommand, after: Seq<SessionView>) -> bool {
    &&& after.len() == before.len()
    &&& forall|i: int| 0 <= i < before.len() ==> #[trigger] after[i] == before[i] || after[i] == session_after(before[i], c)
}

/// The mixer a run of `cmds` from `m0` leaves when the backend refuses one of
/// them: the commands before the first refused one have taken effect, and the
/// refused one may have taken effect on some of its sessions.
#[verifier::opaque]
pub open spec fn stopped_at_refusal(refused: Set<MixerCommand>, m0: Seq<SessionView>, cmds: Seq<MixerCommand>, after: Seq<SessionView>) -> bool {
    exists|k: int|
        0 <= k < cmds.len() && refused.contains(#[trigger] cmds[k]) && (forall|j: int| 0 <= j < k ==> !refused.contains(#[trigger] cmds[j]))
            && partly_applied(run_commands(m0, cmds.take(k)), cmds[k], after)
}

/// A run that stops at its first refused command, `c` after the accepted
/// commands `prev`, ends as [`stopped_at_refusal`] says.
pub proof fn lemma_stop_at(
    refused: Set<MixerCommand>,
    m0: Seq<SessionView>,
    full: Seq<MixerCommand>,
    prev: Seq<MixerCommand>,
    c: MixerCommand,
    after: Seq<SessionView>,
)
    requires
        prev.len() < full.len(),
        full.take(prev.len() as int) == prev,
        full[prev.len() as int] == c,
        !refuses_any(refused, prev),
        refused.contains(c),
        partly_applied(run_commands(m0, prev), c, after),
    ensures
        stopped_at_refusal(refused, m0, full, after),
        refuses_any(refused, full),
{
    reveal(stopped_at_refusal);
    let k = prev.len() as int;
    assert forall|j: int| 0 <= j < k implies !refused.contains(#[trigger] full[j]) by {
        assert(full[j] == full.take(k)[j]);
        assert(prev[j] == full[j]);
    }
    assert(refused.contains(full[k]));
}

/// Whether a backend that refuses the commands in `refused` refuses one of `cmds`.
pub open spec fn refuses_any(refused: Set<MixerCommand>, cmds: Seq<MixerCommand>) -> bool {
    exists|k: int| 0 <= k < cmds.len() && refused.contains(#[trigger] cmds[k])
}

pub proof fn lemma_refuses_any_push(refused: Set<MixerCommand>, cmds: Seq<MixerCommand>, c: MixerCommand)
    ensures
        refuses_any(refused, cmds.push(c)) == (refuses_any(refused, cmds) || refused.contains(c)),
{
    let p = cmds.push(c);
    if refuses_any(refused, cmds) {
        let k = choose|k: int| 0 <= k < cmds.len() && refused.contains(#[trigger] cmds[k]);
        assert(p[k] == cmds[k]);
    }
    if refused.contains(c) {
        assert(p[cmds.len() as int] == c);
    }
    if refuses_any(refused, p) {
        let k = choose|k: int| 0 <= k < p.len() && refused.contains(#[trigger] p[k]);
        if k < cmds.len() {
            assert(p[k] == cmds[k]);
        }
    }
}

/// The commands of an action for the first `k` sessions start the commands
/// of that action for all of them.
pub proof fn lemma_action_commands_prefix(a: ActionView, ss: Seq<SessionView>, fg: Option<u32>, k: int)
    requires
        0 <= k <= ss.len(),
    ensures
        action_commands(a, ss.take(k), fg).len() <= action_commands(a, ss, fg).len(),
        action_commands(a, ss, fg).take(action_commands(a, ss.take(k), fg).len() as int) == action_commands(a, ss.take(k), fg),
    decreases ss.len(),
{
    if k < ss.len() {
        let d = ss.drop_last();
        assert(d.take(k) == ss.take(k));
        lemma_action_commands_prefix(a, d, fg, k);
        let n = action_commands(a, ss.take(k), fg).len() as int;
        let fd = action_commands(a, d, fg);
        let f = action_commands(a, ss, fg);
        assert(f.take(n) =~= fd.take(n));
    } else {
        assert(ss.take(k) == ss);
        assert(action_commands(a, ss, fg).take(action_commands(a, ss, fg).len() as int) =~= action_commands(a, ss, fg));
    }
}

/// The commands of the first `n` actions start the commands of all of them.
pub proof fn lemma_binding_commands_prefix(acts: Seq<ActionView>, ss: Seq<SessionView>, fg: Option<u32>, n: int)
    requires
        0 <= n <= acts.len(),
    ensures
        binding_commands(acts.take(n), ss, fg).len() <= binding_commands(acts, ss, fg).len(),
        binding_commands(acts, ss, fg).take(binding_commands(acts.take(n), ss, fg).len() as int) == binding_commands(acts.take(n), ss, fg),
    decreases acts.len(),
{
    if n < acts.len() {
        let d = acts.drop_last();
        assert(d.take(n) == acts.take(n));
        lemma_binding_commands_prefix(d, ss, fg, n);
        let m = binding_commands(acts.take(n), ss, fg).len() as int;
        let fd = binding_commands(d, ss, fg);
        let f = binding_commands(acts, ss, fg);
        assert(f.take(m) =~= fd.take(m));
    } else {
        assert(acts.take(n) == acts);
        assert(binding_commands(acts, ss, fg).take(binding_commands(acts, ss, fg).len() as int) =~= binding_commands(acts, ss, fg));
    }
}

/// The restoring commands for the first `k` sessions start those for all of them.
pub proof fn lemma_restore_commands_prefix(snap: Map<u32, SessionState>, ss: Seq<SessionView>, k: int)
    requires
        0 <= k <= ss.len(),
    ensures
        restore_commands(snap, ss.take(k)).len() <= restore_commands(snap, ss).len(),
        restore_commands(snap, ss).take(restore_commands(snap, ss.take(k)).len() as int) == restore_commands(snap, ss.take(k)),
    decreases ss.len(),
{
    if k < ss.len() {
        let d = ss.drop_last();
        assert(d.take(k) == ss.take(k));
        lemma_restore_commands_prefix(snap, d, k);
        let m = restore_commands(snap, ss.take(k)).len() as int;
        let fd = restore_commands(snap, d);
        let f = restore_commands(snap, ss);
        assert(f.take(m) =~= fd.take(m));
    } else {
        assert(ss.take(k) == ss);
        assert(restore_commands(snap, ss).take(restore_commands(snap, ss).len() as int) =~= restore_commands(snap, ss));
    }
}

/// Strictly increasing in case-insensitive order.
pub open spec fn sorted_names(names: Seq<Seq<char>>) -> bool {
    forall|i: int, j: int|
        #![trigger names[i], names[j]]
        0 <= i < j < names.len() ==> before_ignoring_case(names[i], names[j])
}

/// `x` is the executable name of a session.
pub open spec fn is_listed(m: Seq<SessionView>, x: Seq<char>) -> bool {
    exists|k: int| 0 <= k < m.len() && m[k].executable == Some(x)
}

/// Each name is the executable name of a session.
#[verifier::opaque]
pub open spec fn names_listed(names: Seq<Seq<char>>, m: Seq<SessionView>) -> bool {
    forall|i: int| 0 <= i < names.len() ==> is_listed(m, #[trigger] names[i])
}

/// Every session's executable name is listed, with ASCII case ignored.
#[verifier::opaque]
pub open spec fn names_cover(names: Seq<Seq<char>>, m: Seq<SessionView>) -> bool {
    forall|k: int|
        0 <= k < m.len() && (#[trigger] m[k].executable) is Some ==> exists|i: int|
            0 <= i < names.len() && same_ignoring_case(#[trigger] names[i], m[k].executable->0)
}

/// The names listed by `applications`: in strictly increasing
/// case-insensitive order, each the executable name of a session, and every
/// session's executable name listed with ASCII case ignored.
pub open spec fn application_list(names: Seq<Seq<char>>, m: Seq<SessionView>) -> bool {
    &&& sorted_names(names)
    &&& names_listed(names, m)
    &&& names_cover(names, m)
}

pub proof fn lemma_application_empty(m: Seq<SessionView>)
    requires
        m.len() == 0,
    ensures
        application_list(Seq::empty(), m),
{
    reveal(names_listed);
    reveal(names_cover);
}

pub proof fn lemma_run_two(m: Seq<SessionView>, prev: Seq<MixerCommand>, c1: MixerCommand, c2: MixerCommand)
    ensures
        run_commands(m, prev + seq![c1, c2]) == command_effect(command_effect(run_commands(m, prev), c1), c2),
{
    let all = prev + seq![c1, c2];
    assert(all.drop_last() =~= prev.push(c1));
    assert(all.last() == c2);
    assert(prev.push(c1).drop_last() =~= prev);
    assert(run_commands(m, prev.push(c1)) == command_effect(run_commands(m, prev), c1));
    assert(run_commands(m, all) == command_effect(run_commands(m, prev.push(c1)), c2));
}

proof fn lemma_listed_grow(names: Seq<Seq<char>>, m: Seq<SessionView>)
    requires
        m.len() > 0,
        names_listed(names, m.drop_last()),
    ensures
        names_listed(names, m),
{
    reveal(names_listed);
    let d = m.drop_last();
    assert forall|i: int| 0 <= i < names.len() implies is_listed(m, #[trigger] names[i]) by {
        assert(is_listed(d, names[i]));
        let k = choose|k: int| 0 <= k < d.len() && d[k].executable == Some(names[i]);
        assert(m[k] == d[k]);
    }
}

proof fn lemma_cover_none(names: Seq<Seq<char>>, m: Seq<SessionView>)
    requires
        m.len() > 0,
        names_cover(names, m.drop_last()),
        m.last().executable is None,
    ensures
        names_cover(names, m),
{
    reveal(names_cover);
    let d = m.drop_last();
    assert forall|k: int| 0 <= k < m.len() && (#[trigger] m[k].executable) is Some implies exists|i: int|
        0 <= i < names.len() && same_ignoring_case(#[trigger] names[i], m[k].executable->0) by {
        assert(k < d.len());
        assert(d[k] == m[k]);
    }
}

proof fn lemma_cover_skip(names: Seq<Seq<char>>, m: Seq<SessionView>, name: Seq<char>, p: int)
    requires
        m.len() > 0,
        names_cover(names, m.drop_last()),
        m.last().executable == Some(name),
        0 <= p < names.len(),
        same_ignoring_case(names[p], name),
    ensures
        names_cover(names, m),
{
    reveal(names_cover);
    let d = m.drop_last();
    assert forall|k: int| 0 <= k < m.len() && (#[trigger] m[k].executable) is Some implies exists|i: int|
        0 <= i < names.len() && same_ignoring_case(#[trigger] names[i], m[k].executable->0) by {
        if k < d.len() {
            assert(d[k] == m[k]);
        } else {
            assert(m[k] == m.last());
            assert(same_ignoring_case(names[p], m[k].executable->0));
        }
    }
}

proof fn lemma_listed_insert(names: Seq<Seq<char>>, m: Seq<SessionView>, name: Seq<char>, p: int)
    requires
        m.len() > 0,
        names_listed(names, m.drop_last()),
        m.last().executable == Some(name),
        0 <= p <= names.len(),
    ensures
        names_listed(names.insert(p, name), m),
{
    reveal(names_listed);
    let d = m.drop_last();
    let n = names.insert(p, name);
    assert forall|i: int| 0 <= i < n.len() implies is_listed(m, #[trigger] n[i]) by {
        if i == p {
            assert(m[m.len() - 1] == m.last());
            assert(m[m.len() - 1].executable == Some(n[i]));
        } else {
            let i2 = if i < p { i } else { i - 1 };
            assert(n[i] == names[i2]);
            assert(is_listed(d, names[i2]));
            let k = choose|k: int| 0 <= k < d.len() && d[k].executable == Some(names[i2]);
            assert(m[k] == d[k]);
        }
    }
}

proof fn lemma_cover_insert(names: Seq<Seq<char>>, m: Seq<SessionView>, name: Seq<char>, p: int)
    requires
        m.len() > 0,
        names_cover(names, m.drop_last()),
        m.last().executable == Some(name),
        0 <= p <= names.len(),
    ensures
        names_cover(names.insert(p, name), m),
{
    reveal(names_cover);
    let d = m.drop_last();
    let n = names.insert(p, name);
    assert forall|k: int| 0 <= k < m.len() && (#[trigger] m[k].executable) is Some implies exists|i: int|
        0 <= i < n.len() && same_ignoring_case(#[trigger] n[i], m[k].executable->0) by {
        if k < d.len() {
            assert(d[k] == m[k]);
            let i = choose|i: int| 0 <= i < names.len() && same_ignoring_case(#[trigger] names[i], d[k].executable->0);
            let i2 = if i < p { i } else { i + 1 };
            assert(n[i2] == names[i]);
        } else {
            assert(n[p] == name);
            assert(m[k] == m.last());
        }
    }
}

proof fn lemma_insert_sorted(names: Seq<Seq<char>>, name: Seq<char>, p: int)
    requires
        sorted_names(names),
        0 <= p <= names.len(),
        forall|j: int| 0 <= j < p ==> before_ignoring_case(#[trigger] names[j], name),
        p < names.len() ==> !before_ignoring_case(names[p], name) && !same_ignoring_case(names[p], name),
    ensures
        sorted_names(names.insert(p, name)),
{
    let n = names.insert(p, name);
    if p < names.len() {
        lemma_seq_lt_total(lowered(names[p]), lowered(name));
    }
    assert forall|i: int, j: int| #![trigger n[i], n[j]] 0 <= i < j < n.len() implies before_ignoring_case(n[i], n[j]) by {
        if j == p {
            assert(n[i] == names[i]);
        } else if i == p {
            assert(n[j] == names[j - 1]);
            if j - 1 > p {
                assert(before_ignoring_case(names[p], names[j - 1]));
                lemma_seq_lt_transitive(lowered(name), lowered(names[p]), lowered(names[j - 1]));
            }
        } else if i < p && j > p {
            assert(n[i] == names[i] && n[j] == names[j - 1]);
            assert(before_ignoring_case(names[i], names[j - 1]));
        } else if i > p {
            assert(n[i] == names[i - 1] && n[j] == names[j - 1]);
            assert(before_ignoring_case(names[i - 1], names[j - 1]));
        } else {
            assert(n[i] == names[i] && n[j] == names[j]);
            assert(before_ignoring_case(names[i], names[j]));
        }
    }
}

pub proof fn lemma_application_none(names: Seq<Seq<char>>, m: Seq<SessionView>)
    requires
        m.len() > 0,
        application_list(names, m.drop_last()),
        m.last().executable is None,
    ensures
        application_list(names, m),
{
    lemma_listed_grow(names, m);
    lemma_cover_none(names, m);
}

pub proof fn lemma_application_skip(names: Seq<Seq<char>>, m: Seq<SessionView>, name: Seq<char>, p: int)
    requires
        m.len() > 0,
        application_list(names, m.drop_last()),
        m.last().executable == Some(name),
        0 <= p < names.len(),
        same_ignoring_case(names[p], name),
    ensures
        application_list(names, m),
{
    lemma_listed_grow(names, m);
    lemma_cover_skip(names, m, name, p);
}

pub proof fn lemma_application_insert(names: Seq<Seq<char>>, m: Seq<SessionView>, name: Seq<char>, p: int)
    requires
        m.len() > 0,
        application_list(names, m.drop_last()),
        m.last().executable == Some(name),
        0 <= p <= names.len(),
        forall|j: int| 0 <= j < p ==> before_ignoring_case(#[trigger] names[j], name),
        p < names.len() ==> !before_ignoring_case(names[p], name) && !same_ignoring_case(names[p], name),
    ensures
        application_list(names.insert(p, name), m),
{
    lemma_insert_sorted(names, name, p);
    lemma_listed_insert(names, m, name, p);
    lemma_cover_insert(names, m, name, p);
}

} // verus!
