//! The running application's hotkey state: which configuration is active,
//! which global shortcuts are registered for it, which binding each
//! registered shortcut fires, and how a new configuration replaces the
//! active one without leaving the user without hotkeys.
use vstd::prelude::*;

use crate::audio::{press_result, ApplyOutcome, AudioBackend, AudioEngine, BackendError};
use crate::config::{config_problem, BindingView, Config, ConfigView, ValidationError};
use crate::hotkeys::{
    create_manager, ids_of, parse_shortcut, register_with, shortcut_id, unregister_all_with, Hotkeys,
    ParsedShortcut,
};
use global_hotkey::hotkey::HotKeyParseError;
use std::collections::HashMap;

verus! {

broadcast use vstd::std_specs::hash::group_hash_axioms;

/// Why the hotkeys of a configuration could not be put in place.
#[allow(inconsistent_fields)]
#[derive(Debug)]
pub enum HotkeyError {
    /// The platform gave no hotkey manager.
    Manager(global_hotkey::Error),
    /// An enabled binding's shortcut is not one `global_hotkey` understands.
    InvalidShortcut { shortcut: String, source: HotKeyParseError },
    /// The operating system refused to register an enabled binding's shortcut.
    Unavailable { shortcut: String, source: global_hotkey::Error },
    /// The operating system refused to release the registered shortcuts.
    Unregister(global_hotkey::Error),
    /// The new configuration breaks a rule of [`Config::validate`].
    InvalidConfig(ValidationError),
    /// A new configuration failed, and then the previous one could not be
    /// registered again; holds why.
    RestoreFailed(Box<HotkeyError>),
}

/// Every enabled binding before `k` has a shortcut that parses.
pub open spec fn parses_before(h: Seq<BindingView>, k: int) -> bool {
    forall|j: int| 0 <= j < k && #[trigger] h[j].enabled ==> shortcut_id(h[j].shortcut) is Some
}

/// Some binding before `k` is enabled.
pub open spec fn enabled_before(h: Seq<BindingView>, k: int) -> bool {
    exists|j: int| 0 <= j < k && #[trigger] h[j].enabled
}

/// Binding `k` is the first enabled binding whose shortcut does not parse.
pub open spec fn first_unparsed(h: Seq<BindingView>, k: int) -> bool {
    &&& 0 <= k < h.len()
    &&& h[k].enabled
    &&& shortcut_id(h[k].shortcut) is None
    &&& parses_before(h, k)
}

/// Binding `k` is enabled, its shortcut parses, and so do those of the
/// enabled bindings before it.
pub open spec fn parsed_at(h: Seq<BindingView>, k: int) -> bool {
    &&& 0 <= k < h.len()
    &&& h[k].enabled
    &&& shortcut_id(h[k].shortcut) is Some
    &&& parses_before(h, k)
}

/// The lookup table after the enabled bindings before `upto` have been
/// registered in order on top of `table`: each one's shortcut id maps to its
/// index, a later binding taking over an id an earlier one had.
pub open spec fn fill(table: Map<u32, usize>, h: Seq<BindingView>, upto: int) -> Map<u32, usize>
    decreases upto,
{
    if upto <= 0 {
        table
    } else {
        let before = fill(table, h, upto - 1);
        let b = h[upto - 1];
        if b.enabled && shortcut_id(b.shortcut) is Some {
            before.insert(shortcut_id(b.shortcut)->0, (upto - 1) as usize)
        } else {
            before
        }
    }
}

/// The shortcut ids of the enabled bindings before `n` whose shortcuts parse.
pub open spec fn enabled_ids(h: Seq<BindingView>, n: int) -> Set<u32>
    decreases n,
{
    if n <= 0 {
        Set::empty()
    } else {
        let before = enabled_ids(h, n - 1);
        let b = h[n - 1];
        if b.enabled && shortcut_id(b.shortcut) is Some {
            before.insert(shortcut_id(b.shortcut)->0)
        } else {
            before
        }
    }
}

/// What registering the bindings `h` in order does to the set of registered
/// ids `before`: on success the shortcut of every enabled binding is
/// registered; when a shortcut does not parse, those of the enabled bindings
/// before it are. What a refusal by the operating system leaves is open.
pub open spec fn grabbed(h: Seq<BindingView>, before: Set<u32>, after: Set<u32>, r: Result<(), HotkeyError>) -> bool {
    match r {
        Ok(()) => after == before.union(enabled_ids(h, h.len() as int)),
        Err(HotkeyError::InvalidShortcut { .. }) => exists|k: int|
            #[trigger] first_unparsed(h, k) && after == before.union(enabled_ids(h, k)),
        Err(_) => true,
    }
}

/// What releasing the shortcuts of the bindings `h` does to the set of
/// registered ids `before`: on success the shortcut of every enabled binding
/// is released; when a shortcut does not parse, nothing is. What a refusal by
/// the operating system leaves is open.
pub open spec fn released(h: Seq<BindingView>, before: Set<u32>, after: Set<u32>, r: Result<(), HotkeyError>) -> bool {
    match r {
        Ok(()) => after == before.difference(enabled_ids(h, h.len() as int)),
        Err(HotkeyError::InvalidShortcut { .. }) => after == before,
        Err(_) => true,
    }
}

/// What registering the bindings `h` in order may do to the lookup table
/// `before`: it stops at the first enabled binding whose shortcut does not
/// parse or is refused by the operating system, keeping what it registered
/// up to there; otherwise it registers every enabled binding.
pub open spec fn registration(
    h: Seq<BindingView>,
    before: Map<u32, usize>,
    after: Map<u32, usize>,
    r: Result<(), HotkeyError>,
) -> bool {
    match r {
        Ok(()) => parses_before(h, h.len() as int) && after == fill(before, h, h.len() as int),
        Err(HotkeyError::InvalidShortcut { shortcut, .. }) => exists|k: int|
            #[trigger] first_unparsed(h, k) && shortcut@ == h[k].shortcut && after == fill(before, h, k),
        Err(HotkeyError::Unavailable { shortcut, .. }) => exists|k: int|
            #[trigger] parsed_at(h, k) && shortcut@ == h[k].shortcut && after == fill(before, h, k),
        Err(_) => false,
    }
}

/// What releasing the shortcuts of the bindings `h` may do to the lookup
/// table `before`: nothing is released and the table is kept when an enabled
/// binding's shortcut does not parse (the first such is reported) or the
/// operating system refuses; otherwise the table is emptied.
pub open spec fn unregistration(
    h: Seq<BindingView>,
    before: Map<u32, usize>,
    after: Map<u32, usize>,
    r: Result<(), HotkeyError>,
) -> bool {
    match r {
        Ok(()) => parses_before(h, h.len() as int) && after == Map::<u32, usize>::empty(),
        Err(HotkeyError::InvalidShortcut { shortcut, .. }) => exists|k: int|
            #[trigger] first_unparsed(h, k) && shortcut@ == h[k].shortcut && after == before,
        Err(HotkeyError::Unregister(_)) => {
            &&& parses_before(h, h.len() as int)
            &&& enabled_before(h, h.len() as int)
            &&& after == before
        },
        Err(_) => false,
    }
}

/// What replacing the active configuration `c0`, whose lookup table is `t0`,
/// by `candidate` may give: the active configuration `c1` and table `t1`
/// afterwards, and either the configuration that was replaced or the error.
/// A candidate that breaks a rule is refused with its first problem and
/// changes nothing. Otherwise the shortcuts of `c0` are released (a failure
/// there is reported and changes nothing), the candidate becomes active and
/// its shortcuts are registered; if that fails, `c0` becomes active again and
/// its shortcuts are registered again, and the candidate's failure is
/// reported, or, if that too fails, that failure as [`HotkeyError::RestoreFailed`].
pub open spec fn activation(
    c0: ConfigView,
    t0: Map<u32, usize>,
    candidate: ConfigView,
    c1: ConfigView,
    t1: Map<u32, usize>,
    r: Result<ConfigView, HotkeyError>,
) -> bool {
    match config_problem(candidate) {
        Some(p) => r matches Err(HotkeyError::InvalidConfig(e)) && e@ == p && c1 == c0 && t1 == t0,
        None => exists|released: Map<u32, usize>, u: Result<(), HotkeyError>|
            #[trigger] unregistration(c0.hotkeys, t0, released, u) && match u {
                Err(e) => r == Err::<ConfigView, HotkeyError>(e) && c1 == c0 && t1 == t0,
                Ok(()) => exists|t2: Map<u32, usize>, g: Result<(), HotkeyError>|
                    #[trigger] registration(candidate.hotkeys, released, t2, g) && match g {
                        Ok(()) => r == Ok::<ConfigView, HotkeyError>(c0) && c1 == candidate && t1 == t2,
                        Err(e1) => c1 == c0 && exists|t3: Map<u32, usize>, g2: Result<(), HotkeyError>|
                            #[trigger] registration(c0.hotkeys, t2, t3, g2) && t1 == t3 && match g2 {
                                Ok(()) => r == Err::<ConfigView, HotkeyError>(e1),
                                Err(e2) => r matches Err(HotkeyError::RestoreFailed(b)) && *b == e2,
                            },
                    },
            },
    }
}

/// What going back from the active configuration `c0`, whose lookup table is
/// `t0`, to `previous` may give: the shortcuts of `c0` are released (a failure
/// there is reported and changes nothing), `previous` becomes active and its
/// shortcuts are registered, a failure there being reported as
/// [`HotkeyError::RestoreFailed`].
pub open spec fn rollback(
    c0: ConfigView,
    t0: Map<u32, usize>,
    previous: ConfigView,
    c1: ConfigView,
    t1: Map<u32, usize>,
    r: Result<(), HotkeyError>,
) -> bool {
    exists|released: Map<u32, usize>, u: Result<(), HotkeyError>|
        #[trigger] unregistration(c0.hotkeys, t0, released, u) && match u {
            Err(e) => r == Err::<(), HotkeyError>(e) && c1 == c0 && t1 == t0,
            Ok(()) => c1 == previous && exists|t2: Map<u32, usize>, g: Result<(), HotkeyError>|
                #[trigger] registration(previous.hotkeys, released, t2, g) && t1 == t2 && match g {
                    Ok(()) => r is Ok,
                    Err(e) => r matches Err(HotkeyError::RestoreFailed(b)) && *b == e,
                },
        }
}

/// Once the bindings before `n` have been registered on an empty table, each
/// id in the table fires an enabled binding whose shortcut has that id, and
/// the id of every enabled binding whose shortcut parses is in the table.
pub proof fn registered_ids_fire_their_bindings(h: Seq<BindingView>, n: int)
    requires
        0 <= n <= h.len(),
        h.len() <= usize::MAX,
    ensures
        forall|id: u32| #[trigger] fill(Map::empty(), h, n).contains_key(id) ==> {
            let j = fill(Map::empty(), h, n)[id] as int;
            &&& 0 <= j < n
            &&& h[j].enabled
            &&& shortcut_id(h[j].shortcut) == Some(id)
        },
        forall|j: int|
            0 <= j < n && #[trigger] h[j].enabled && shortcut_id(h[j].shortcut) is Some ==> fill(
                Map::empty(),
                h,
                n,
            ).contains_key(shortcut_id(h[j].shortcut)->0),
    decreases n,
{
    if n > 0 {
        registered_ids_fire_their_bindings(h, n - 1);
    }
}

/// After a successful activation, every registered shortcut id fires an
/// enabled binding of the now active configuration whose shortcut has that
/// id, and every enabled binding of it is registered under its shortcut's id.
pub proof fn activation_registers_active_bindings(
    c0: ConfigView,
    t0: Map<u32, usize>,
    candidate: ConfigView,
    c1: ConfigView,
    t1: Map<u32, usize>,
    replaced: ConfigView,
)
    requires
        activation(c0, t0, candidate, c1, t1, Ok(replaced)),
        candidate.hotkeys.len() <= usize::MAX,
    ensures
        forall|id: u32| #[trigger] t1.contains_key(id) ==> {
            let j = t1[id] as int;
            &&& 0 <= j < c1.hotkeys.len()
            &&& c1.hotkeys[j].enabled
            &&& shortcut_id(c1.hotkeys[j].shortcut) == Some(id)
        },
        forall|j: int| 0 <= j < c1.hotkeys.len() && #[trigger] c1.hotkeys[j].enabled ==> {
            &&& shortcut_id(c1.hotkeys[j].shortcut) is Some
            &&& t1.contains_key(shortcut_id(c1.hotkeys[j].shortcut)->0)
        },
{
    registered_ids_fire_their_bindings(candidate.hotkeys, candidate.hotkeys.len() as int);
}

/// Replacing the active configuration and then going back to the one it
/// replaced, both successfully, leaves the first configuration active with
/// the table that registering it afresh gives.
pub proof fn activate_then_roll_back_restores(
    c0: ConfigView,
    t0: Map<u32, usize>,
    candidate: ConfigView,
    c1: ConfigView,
    t1: Map<u32, usize>,
    replaced: ConfigView,
    c2: ConfigView,
    t2: Map<u32, usize>,
)
    requires
        activation(c0, t0, candidate, c1, t1, Ok(replaced)),
        rollback(c1, t1, replaced, c2, t2, Ok(())),
    ensures
        c2 == c0,
        t2 == fill(Map::empty(), c0.hotkeys, c0.hotkeys.len() as int),
        parses_before(c0.hotkeys, c0.hotkeys.len() as int),
{
}

/// The active configuration, the global shortcuts registered for it, which
/// binding (by index) each registered shortcut id fires, and the audio
/// engine the bindings drive.
pub struct Runtime<B> {
    config: Config,
    hotkeys: Hotkeys,
    bindings: HashMap<u32, usize>,
    audio: AudioEngine<B>,
}

impl<B: AudioBackend> Runtime<B> {
    /// The audio engine is well formed.
    pub open spec fn well_formed(&self) -> bool {
        self.engine().well_formed()
    }

    /// The active configuration.
    pub closed spec fn active(&self) -> ConfigView {
        self.config@
    }

    /// Which binding index each registered shortcut id fires.
    pub closed spec fn table(&self) -> Map<u32, usize> {
        self.bindings@
    }

    /// The audio engine.
    pub closed spec fn engine(&self) -> AudioEngine<B> {
        self.audio
    }

    /// The ids of the global shortcuts registered with the operating system.
    pub closed spec fn registered(&self) -> Set<u32> {
        self.hotkeys.registered()
    }

    /// A runtime for `config` with nothing registered yet, driving `backend`;
    /// fails only when the platform gives no hotkey manager.
    pub fn new(config: Config, backend: B) -> (r: Result<Self, HotkeyError>)
        ensures
            r matches Ok(rt) ==> {
                &&& rt.well_formed()
                &&& rt.active() == config@
                &&& rt.table() == Map::<u32, usize>::empty()
                &&& rt.registered() == Set::<u32>::empty()
                &&& rt.engine().backend_state() == backend
                &&& rt.engine().toggles() == Map::<Seq<char>, Map<u32, crate::audio::model::SessionState>>::empty()
            },
            r matches Err(e) ==> e is Manager,
    {
        let manager = match create_manager() {
            Ok(m) => m,
            Err(e) => return Err(HotkeyError::Manager(e)),
        };
        Ok(Runtime { config, hotkeys: manager, bindings: HashMap::new(), audio: AudioEngine::new(backend) })
    }

    /// The active configuration.
    pub fn config(&self) -> (r: &Config)
        ensures
            r@ == self.active(),
    {
        &self.config
    }

    /// The audio engine.
    pub fn audio(&self) -> (r: &AudioEngine<B>)
        ensures
            *r == self.engine(),
    {
        &self.audio
    }

    /// Registers the shortcut of every enabled binding of the active
    /// configuration, in order, and records which binding each one fires.
    /// Stops at the first shortcut that does not parse or that the operating
    /// system refuses.
    pub fn register_hotkeys(&mut self) -> (r: Result<(), HotkeyError>)
        ensures
            registration(old(self).active().hotkeys, old(self).table(), final(self).table(), r),
            grabbed(old(self).active().hotkeys, old(self).registered(), final(self).registered(), r),
            final(self).active() == old(self).active(),
            final(self).engine() == old(self).engine(),
    {
        let ghost h = self.config@.hotkeys;
        let ghost t0 = self.bindings@;
        let ghost g0 = self.hotkeys.registered();
        let n = self.config.hotkeys.len();
        let mut i: usize = 0;
        while i < n
            invariant
                n == h.len(),
                i <= n,
                h == self.config@.hotkeys,
                h == old(self).active().hotkeys,
                t0 == old(self).table(),
                self.config == old(self).config,
                self.audio == old(self).audio,
                parses_before(h, i as int),
                self.bindings@ == fill(t0, h, i as int),
                g0 == old(self).registered(),
                self.hotkeys.registered() == g0.union(enabled_ids(h, i as int)),
            decreases n - i,
        {
            let binding = &self.config.hotkeys[i];
            proof {
                assert(binding@ == h[i as int]);
            }
            if binding.enabled {
                let parsed = match parse_shortcut(binding.shortcut.as_str()) {
                    Ok(p) => p,
                    Err(source) => {
                        let shortcut = binding.shortcut.clone();
                        proof {
                            assert(first_unparsed(h, i as int));
                        }
                        return Err(HotkeyError::InvalidShortcut { shortcut, source });
                    },
                };
                match register_with(&mut self.hotkeys, &parsed) {
                    Ok(()) => {},
                    Err(source) => {
                        let shortcut = binding.shortcut.clone();
                        proof {
                            assert(parsed_at(h, i as int));
                        }
                        return Err(HotkeyError::Unavailable { shortcut, source });
                    },
                }
                self.bindings.insert(parsed.id(), i);
                proof {
                    assert(g0.union(enabled_ids(h, i as int)).insert(parsed.key_id()) =~= g0.union(enabled_ids(h, i + 1)));
                }
            } else {
                proof {
                    assert(enabled_ids(h, i + 1) == enabled_ids(h, i as int));
                }
            }
            i = i + 1;
        }
        Ok(())
    }

    /// Releases the shortcuts of the enabled bindings of the active
    /// configuration and forgets which binding each one fired. Nothing is
    /// released when one of them does not parse.
    pub fn unregister_hotkeys(&mut self) -> (r: Result<(), HotkeyError>)
        ensures
            unregistration(old(self).active().hotkeys, old(self).table(), final(self).table(), r),
            released(old(self).active().hotkeys, old(self).registered(), final(self).registered(), r),
            final(self).active() == old(self).active(),
            final(self).engine() == old(self).engine(),
    {
        let ghost h = self.config@.hotkeys;
        let n = self.config.hotkeys.len();
        let mut keys: Vec<ParsedShortcut> = Vec::new();
        proof {
            assert(ids_of(keys@) =~= enabled_ids(h, 0));
        }
        let mut i: usize = 0;
        while i < n
            invariant
                n == h.len(),
                i <= n,
                h == self.config@.hotkeys,
                parses_before(h, i as int),
                keys@.len() > 0 <==> enabled_before(h, i as int),
                ids_of(keys@) == enabled_ids(h, i as int),
            decreases n - i,
        {
            let binding = &self.config.hotkeys[i];
            proof {
                assert(binding@ == h[i as int]);
            }
            if binding.enabled {
                match parse_shortcut(binding.shortcut.as_str()) {
                    Ok(p) => {
                        let ghost before = keys@;
                        keys.push(p);
                        proof {
                            assert(keys@.drop_last() == before);
                        }
                    },
                    Err(source) => {
                        let shortcut = binding.shortcut.clone();
                        proof {
                            assert(first_unparsed(h, i as int));
                        }
                        return Err(HotkeyError::InvalidShortcut { shortcut, source });
                    },
                }
            }
            proof {
                if enabled_before(h, i as int) {
                    let j = choose|j: int| 0 <= j < i && #[trigger] h[j].enabled;
                    assert(0 <= j < i + 1 && h[j].enabled);
                }
                if h[i as int].enabled {
                    assert(0 <= i < i + 1 && h[i as int].enabled);
                }
                if enabled_before(h, i + 1) {
                    let j = choose|j: int| 0 <= j < i + 1 && #[trigger] h[j].enabled;
                    if j < i {
                        assert(enabled_before(h, i as int));
                    }
                }
            }
            i = i + 1;
        }
        if keys.len() > 0 {
            match unregister_all_with(&mut self.hotkeys, &keys) {
                Ok(()) => {},
                Err(e) => return Err(HotkeyError::Unregister(e)),
            }
        }
        proof {
            if keys@.len() == 0 {
                assert(self.hotkeys.registered().difference(enabled_ids(h, n as int)) =~= self.hotkeys.registered());
            }
        }
        self.bindings.clear();
        Ok(())
    }

    /// Makes `candidate` the active configuration and registers its
    /// shortcuts, as [`activation`] says; gives back the configuration it
    /// replaced, so that the caller can go back to it with [`Self::roll_back`].
    pub fn activate(&mut self, candidate: Config) -> (r: Result<Config, HotkeyError>)
        ensures
            activation(
                old(self).active(),
                old(self).table(),
                candidate@,
                final(self).active(),
                final(self).table(),
                match r {
                    Ok(c) => Ok(c@),
                    Err(e) => Err(e),
                },
            ),
            config_problem(candidate@) is Some ==> final(self).registered() == old(self).registered(),
            r is Ok ==> final(self).registered() == old(self).registered().difference(
                enabled_ids(old(self).active().hotkeys, old(self).active().hotkeys.len() as int),
            ).union(enabled_ids(candidate@.hotkeys, candidate@.hotkeys.len() as int)),
            final(self).engine() == old(self).engine(),
    {
        match candidate.validate() {
            Ok(()) => {},
            Err(e) => return Err(HotkeyError::InvalidConfig(e)),
        }
        let ghost c0 = self.config@;
        let ghost t0 = self.bindings@;
        let u = self.unregister_hotkeys();
        let ghost released = self.bindings@;
        let ghost gu = u;
        proof {
            assert(unregistration(c0.hotkeys, t0, released, gu));
        }
        match u {
            Ok(()) => {},
            Err(e) => return Err(e),
        }
        let mut previous = candidate;
        std::mem::swap(&mut self.config, &mut previous);
        let g = self.register_hotkeys();
        let ghost t2 = self.bindings@;
        let ghost gg = g;
        proof {
            assert(registration(candidate@.hotkeys, released, t2, gg));
        }
        match g {
            Ok(()) => Ok(previous),
            Err(error) => {
                self.config = previous;
                let g2 = self.register_hotkeys();
                let ghost gg2 = g2;
                proof {
                    assert(registration(c0.hotkeys, t2, self.bindings@, gg2));
                }
                match g2 {
                    Ok(()) => Err(error),
                    Err(e2) => Err(HotkeyError::RestoreFailed(Box::new(e2))),
                }
            },
        }
    }

    /// Goes back from the active configuration to `previous`, as [`rollback`] says.
    pub fn roll_back(&mut self, previous: Config) -> (r: Result<(), HotkeyError>)
        ensures
            rollback(
                old(self).active(),
                old(self).table(),
                previous@,
                final(self).active(),
                final(self).table(),
                r,
            ),
            r is Ok ==> final(self).registered() == old(self).registered().difference(
                enabled_ids(old(self).active().hotkeys, old(self).active().hotkeys.len() as int),
            ).union(enabled_ids(previous@.hotkeys, previous@.hotkeys.len() as int)),
            final(self).engine() == old(self).engine(),
    {
        let ghost c0 = self.config@;
        let ghost t0 = self.bindings@;
        let u = self.unregister_hotkeys();
        let ghost released = self.bindings@;
        let ghost gu = u;
        proof {
            assert(unregistration(c0.hotkeys, t0, released, gu));
        }
        match u {
            Ok(()) => {},
            Err(e) => return Err(e),
        }
        self.config = previous;
        let g = self.register_hotkeys();
        let ghost gg = g;
        proof {
            assert(registration(previous@.hotkeys, released, self.bindings@, gg));
        }
        match g {
            Ok(()) => Ok(()),
            Err(e) => Err(HotkeyError::RestoreFailed(Box::new(e))),
        }
    }

    /// Whether the id `id`, if registered, fires a binding of the active
    /// configuration. It does not only after an activation failed part way,
    /// when the table may still hold an index of the refused configuration.
    pub fn fires_active_binding(&self, id: u32) -> (r: bool)
        ensures
            r == (self.table().contains_key(id) ==> self.table()[id] < self.active().hotkeys.len()),
    {
        match self.bindings.get(&id) {
            Some(index) => *index < self.config.hotkeys.len(),
            None => true,
        }
    }

    /// Fires the binding registered under the shortcut id `id`. An id that
    /// fires no binding does nothing and gives `None`.
    pub fn handle_hotkey(&mut self, id: u32) -> (r: Result<Option<ApplyOutcome>, BackendError>)
        requires
            old(self).well_formed(),
            old(self).table().contains_key(id) ==> old(self).table()[id] < old(self).active().hotkeys.len(),
        ensures
            final(self).well_formed(),
            final(self).active() == old(self).active(),
            final(self).table() == old(self).table(),
            ({
                let h = old(self).active().hotkeys;
                let t = old(self).table();
                if t.contains_key(id) {
                    match r {
                        Ok(Some(o)) => press_result(old(self).engine(), final(self).engine(), h[t[id] as int], Ok(o)),
                        Ok(None) => false,
                        Err(e) => press_result(old(self).engine(), final(self).engine(), h[t[id] as int], Err(e)),
                    }
                } else {
                    r == Ok::<Option<ApplyOutcome>, BackendError>(None) && final(self).engine() == old(self).engine()
                }
            }),
    {
        let index = match self.bindings.get(&id) {
            Some(index) => *index,
            None => return Ok(None),
        };
        proof {
            assert(self.config.hotkeys@[index as int]@ == self.config@.hotkeys[index as int]);
        }
        match self.audio.apply(&self.config.hotkeys[index]) {
            Ok(outcome) => Ok(Some(outcome)),
            Err(e) => Err(e),
        }
    }
}

} // verus!
