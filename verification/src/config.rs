//! The hotkey configuration: its schema, the rules that a configuration must
//! satisfy before it is used, and where it is stored.
//!
//! Volume levels are kept as whole numbers of thousandths of full volume:
//! `0` is silent and [`FULL_LEVEL`] is full volume.
use vstd::prelude::*;

use crate::text::{blank, eq_ignore_case, is_blank, same_ignoring_case};
use crate::places::{config_dir, join_path, project_dirs, ProjectFile, ProjectNames};
use std::path::PathBuf;

verus! {

/// The schema version that this library reads and writes.
pub const CONFIG_VERSION: u32 = 2;

/// Full volume, in thousandths.
pub const FULL_LEVEL: i32 = 1000;

#[derive(Clone, Debug, PartialEq)]
pub struct Config {
    pub version: u32,
    pub launch_on_startup: bool,
    pub hotkeys: Vec<HotkeyBinding>,
}

#[derive(Clone, Debug, PartialEq)]
pub struct HotkeyBinding {
    pub id: String,
    pub name: String,
    pub shortcut: String,
    pub enabled: bool,
    /// A toggle binding captures the state of the sessions it touches on one
    /// press and puts it back on the next.
    pub toggle: bool,
    /// Whether the user named the binding rather than accepting a generated name.
    pub custom_name: bool,
    pub actions: Vec<Action>,
}

#[derive(Clone, Debug, PartialEq)]
pub struct Action {
    pub target: Target,
    pub operation: Operation,
}

#[derive(Clone, Debug, PartialEq)]
pub enum Target {
    /// Every audio session of a process with this executable name, ignoring ASCII case.
    Process { executable: String },
    /// The session of the process that owns the foreground window.
    Foreground,
}

#[derive(Clone, Copy, Debug, PartialEq, Eq, Structural)]
pub enum Operation {
    /// Set the volume to `level` thousandths.
    SetLevel { level: i32 },
    /// Move the volume by `delta` thousandths.
    Adjust { delta: i32 },
    Mute { muted: bool },
}

#[derive(Debug, PartialEq)]
pub enum ValidationError {
    UnsupportedVersion(u32),
    EmptyId,
    EmptyName(String),
    EmptyShortcut(String),
    NoActions(String),
    EmptyExecutable(String),
    InvalidLevel(String),
    InvalidDelta(String),
    DuplicateId(String),
    DuplicateShortcut(String),
}

pub enum TargetView {
    Process(Seq<char>),
    Foreground,
}

pub struct ActionView {
    pub target: TargetView,
    pub operation: Operation,
}

pub struct BindingView {
    pub id: Seq<char>,
    pub name: Seq<char>,
    pub shortcut: Seq<char>,
    pub enabled: bool,
    pub toggle: bool,
    pub custom_name: bool,
    pub actions: Seq<ActionView>,
}

pub struct ConfigView {
    pub version: u32,
    pub launch_on_startup: bool,
    pub hotkeys: Seq<BindingView>,
}

/// What [`ValidationError`] reports, with its texts as character sequences.
pub enum Problem {
    UnsupportedVersion(u32),
    EmptyId,
    EmptyName(Seq<char>),
    EmptyShortcut(Seq<char>),
    NoActions(Seq<char>),
    EmptyExecutable(Seq<char>),
    InvalidLevel(Seq<char>),
    InvalidDelta(Seq<char>),
    DuplicateId(Seq<char>),
    DuplicateShortcut(Seq<char>),
}

impl View for Target {
    type V = TargetView;

    open spec fn view(&self) -> TargetView {
        match self {
            Target::Process { executable } => TargetView::Process(executable@),
            Target::Foreground => TargetView::Foreground,
        }
    }
}

impl View for Action {
    type V = ActionView;

    open spec fn view(&self) -> ActionView {
        ActionView { target: self.target@, operation: self.operation }
    }
}

pub open spec fn actions_view(actions: Seq<Action>) -> Seq<ActionView> {
    actions.map_values(|a: Action| a@)
}

impl View for HotkeyBinding {
    type V = BindingView;

    open spec fn view(&self) -> BindingView {
        BindingView {
            id: self.id@,
            name: self.name@,
            shortcut: self.shortcut@,
            enabled: self.enabled,
            toggle: self.toggle,
            custom_name: self.custom_name,
            actions: actions_view(self.actions@),
        }
    }
}

pub open spec fn bindings_view(hotkeys: Seq<HotkeyBinding>) -> Seq<BindingView> {
    hotkeys.map_values(|b: HotkeyBinding| b@)
}

impl View for Config {
    type V = ConfigView;

    open spec fn view(&self) -> ConfigView {
        ConfigView {
            version: self.version,
            launch_on_startup: self.launch_on_startup,
            hotkeys: bindings_view(self.hotkeys@),
        }
    }
}

impl View for ValidationError {
    type V = Problem;

    open spec fn view(&self) -> Problem {
        match self {
            ValidationError::UnsupportedVersion(v) => Problem::UnsupportedVersion(*v),
            ValidationError::EmptyId => Problem::EmptyId,
            ValidationError::EmptyName(s) => Problem::EmptyName(s@),
            ValidationError::EmptyShortcut(s) => Problem::EmptyShortcut(s@),
            ValidationError::NoActions(s) => Problem::NoActions(s@),
            ValidationError::EmptyExecutable(s) => Problem::EmptyExecutable(s@),
            ValidationError::InvalidLevel(s) => Problem::InvalidLevel(s@),
            ValidationError::InvalidDelta(s) => Problem::InvalidDelta(s@),
            ValidationError::DuplicateId(s) => Problem::DuplicateId(s@),
            ValidationError::DuplicateShortcut(s) => Problem::DuplicateShortcut(s@),
        }
    }
}

/// A level lies between silence and full volume; a relative adjustment lies
/// within one full volume either way and moves the volume at all.
pub open spec fn operation_problem(op: Operation, id: Seq<char>) -> Option<Problem> {
    match op {
        Operation::SetLevel { level } => if 0 <= level && level <= FULL_LEVEL {
            None
        } else {
            Some(Problem::InvalidLevel(id))
        },
        Operation::Adjust { delta } => if -FULL_LEVEL <= delta && delta <= FULL_LEVEL && delta
            != 0 {
            None
        } else {
            Some(Problem::InvalidDelta(id))
        },
        Operation::Mute { .. } => None,
    }
}

/// A process target names an executable; then the operation must be sound.
pub open spec fn action_problem(a: ActionView, id: Seq<char>) -> Option<Problem> {
    match a.target {
        TargetView::Process(executable) => if blank(executable) {
            Some(Problem::EmptyExecutable(id))
        } else {
            operation_problem(a.operation, id)
        },
        TargetView::Foreground => operation_problem(a.operation, id),
    }
}

/// The problem of the first action that has one.
pub open spec fn actions_problem(actions: Seq<ActionView>, id: Seq<char>) -> Option<Problem>
    decreases actions.len(),
{
    if actions.len() == 0 {
        None
    } else {
        match actions_problem(actions.drop_last(), id) {
            Some(p) => Some(p),
            None => action_problem(actions.last(), id),
        }
    }
}

/// The first problem of a binding on its own: an id, a name and a shortcut
/// that are not blank, at least one action, and sound actions.
pub open spec fn binding_problem(b: BindingView) -> Option<Problem> {
    if blank(b.id) {
        Some(Problem::EmptyId)
    } else if blank(b.name) {
        Some(Problem::EmptyName(b.id))
    } else if blank(b.shortcut) {
        Some(Problem::EmptyShortcut(b.id))
    } else if b.actions.len() == 0 {
        Some(Problem::NoActions(b.id))
    } else {
        actions_problem(b.actions, b.id)
    }
}

pub open spec fn id_taken(hotkeys: Seq<BindingView>, i: int) -> bool {
    exists|j: int| 0 <= j < i && #[trigger] hotkeys[j].id == hotkeys[i].id
}

pub open spec fn shortcut_taken(hotkeys: Seq<BindingView>, i: int) -> bool {
    exists|j: int|
        0 <= j < i && same_ignoring_case(#[trigger] hotkeys[j].shortcut, hotkeys[i].shortcut)
}

/// The problem of the binding at `i`, given that all bindings before it passed:
/// its own, else an id used before it, else a shortcut used before it with
/// ASCII case ignored.
pub open spec fn hotkey_problem(hotkeys: Seq<BindingView>, i: int) -> Option<Problem> {
    match binding_problem(hotkeys[i]) {
        Some(p) => Some(p),
        None => if id_taken(hotkeys, i) {
            Some(Problem::DuplicateId(hotkeys[i].id))
        } else if shortcut_taken(hotkeys, i) {
            Some(Problem::DuplicateShortcut(hotkeys[i].shortcut))
        } else {
            None
        },
    }
}

/// The problem of the first of the first `n` bindings that has one.
pub open spec fn hotkeys_problem(hotkeys: Seq<BindingView>, n: int) -> Option<Problem>
    decreases n,
{
    if n <= 0 {
        None
    } else {
        match hotkeys_problem(hotkeys, n - 1) {
            Some(p) => Some(p),
            None => hotkey_problem(hotkeys, n - 1),
        }
    }
}

/// The problem that [`Config::validate`] reports, if any.
pub open spec fn config_problem(c: ConfigView) -> Option<Problem> {
    if c.version != CONFIG_VERSION {
        Some(Problem::UnsupportedVersion(c.version))
    } else {
        hotkeys_problem(c.hotkeys, c.hotkeys.len() as int)
    }
}

impl Operation {
    fn validate(self, binding_id: &str) -> (r: Result<(), ValidationError>)
        ensures
            match r {
                Ok(()) => operation_problem(self, binding_id@) is None,
                Err(e) => operation_problem(self, binding_id@) == Some(e@),
            },
    {
        match self {
            Operation::SetLevel { level } => {
                if !(0 <= level && level <= FULL_LEVEL) {
                    return Err(ValidationError::InvalidLevel(binding_id.to_owned()));
                }
            },
            Operation::Adjust { delta } => {
                if !(-FULL_LEVEL <= delta && delta <= FULL_LEVEL) || delta == 0 {
                    return Err(ValidationError::InvalidDelta(binding_id.to_owned()));
                }
            },
            Operation::Mute { .. } => {},
        }
        Ok(())
    }
}

impl Action {
    fn validate(&self, binding_id: &str) -> (r: Result<(), ValidationError>)
        ensures
            match r {
                Ok(()) => action_problem(self@, binding_id@) is None,
                Err(e) => action_problem(self@, binding_id@) == Some(e@),
            },
    {
        if let Target::Process { executable } = &self.target {
            if is_blank(executable.as_str()) {
                return Err(ValidationError::EmptyExecutable(binding_id.to_owned()));
            }
        }
        self.operation.validate(binding_id)
    }
}

impl HotkeyBinding {
    fn validate(&self) -> (r: Result<(), ValidationError>)
        ensures
            match r {
                Ok(()) => binding_problem(self@) is None,
                Err(e) => binding_problem(self@) == Some(e@),
            },
    {
        if is_blank(self.id.as_str()) {
            return Err(ValidationError::EmptyId);
        }
        if is_blank(self.name.as_str()) {
            return Err(ValidationError::EmptyName(self.id.clone()));
        }
        if is_blank(self.shortcut.as_str()) {
            return Err(ValidationError::EmptyShortcut(self.id.clone()));
        }
        if self.actions.len() == 0 {
            return Err(ValidationError::NoActions(self.id.clone()));
        }
        let ghost acts = actions_view(self.actions@);
        let mut i: usize = 0;
        while i < self.actions.len()
            invariant
                i <= self.actions.len(),
                acts == actions_view(self.actions@),
                binding_problem(self@) == actions_problem(acts, self.id@),
                actions_problem(acts.take(i as int), self.id@) is None,
            decreases self.actions.len() - i,
        {
            proof {
                assert(acts.take(i as int + 1).drop_last() == acts.take(i as int));
            }
            let checked = self.actions[i].validate(self.id.as_str());
            if checked.is_err() {
                proof {
                    lemma_actions_problem_prefix(acts, self.id@, i as int + 1);
                }
                return checked;
            }
            i = i + 1;
        }
        proof {
            assert(acts.take(i as int) == acts);
        }
        Ok(())
    }
}

/// Once a prefix of the actions has a problem, every longer prefix reports that same one.
proof fn lemma_actions_problem_prefix(actions: Seq<ActionView>, id: Seq<char>, n: int)
    requires
        0 < n <= actions.len(),
        actions_problem(actions.take(n), id) is Some,
    ensures
        actions_problem(actions, id) == actions_problem(actions.take(n), id),
    decreases actions.len() - n,
{
    if n < actions.len() {
        assert(actions.take(n + 1).drop_last() == actions.take(n));
        lemma_actions_problem_prefix(actions, id, n + 1);
    } else {
        assert(actions.take(n) == actions);
    }
}

/// Once the first `n` bindings have a problem, every longer prefix reports that same one.
proof fn lemma_hotkeys_problem_prefix(hotkeys: Seq<BindingView>, n: int, m: int)
    requires
        0 <= n <= m,
        hotkeys_problem(hotkeys, n) is Some,
    ensures
        hotkeys_problem(hotkeys, m) == hotkeys_problem(hotkeys, n),
    decreases m - n,
{
    if n < m {
        lemma_hotkeys_problem_prefix(hotkeys, n, m - 1);
    }
}

/// When the first `n` bindings pass, each of them passes on its own.
proof fn lemma_hotkeys_problem_none(hotkeys: Seq<BindingView>, n: int, i: int)
    requires
        0 <= i < n,
        hotkeys_problem(hotkeys, n) is None,
    ensures
        hotkey_problem(hotkeys, i) is None,
    decreases n,
{
    if i < n - 1 {
        lemma_hotkeys_problem_none(hotkeys, n - 1, i);
    }
}

impl Config {
    pub open spec fn empty_view() -> ConfigView {
        ConfigView { version: CONFIG_VERSION, launch_on_startup: false, hotkeys: Seq::empty() }
    }

    /// A configuration of the current schema with no hotkeys.
    pub fn empty() -> (r: Self)
        ensures
            r@ == Self::empty_view(),
            config_problem(r@) is None,
    {
        let r = Config { version: CONFIG_VERSION, launch_on_startup: false, hotkeys: Vec::new() };
        proof {
            assert(r@.hotkeys =~= Seq::<BindingView>::empty());
        }
        r
    }

    /// Checks the schema version, then each binding in order: the binding on
    /// its own, then that no earlier binding has its id, then that no earlier
    /// binding has its shortcut with ASCII case ignored. Reports the first problem found.
    pub fn validate(&self) -> (r: Result<(), ValidationError>)
        ensures
            match r {
                Ok(()) => config_problem(self@) is None,
                Err(e) => config_problem(self@) == Some(e@),
            },
    {
        if self.version != CONFIG_VERSION {
            return Err(ValidationError::UnsupportedVersion(self.version));
        }
        let ghost hs = bindings_view(self.hotkeys@);
        let n = self.hotkeys.len();
        let mut i: usize = 0;
        while i < n
            invariant
                n == self.hotkeys@.len(),
                hs == bindings_view(self.hotkeys@),
                self.version == CONFIG_VERSION,
                i <= n,
                hotkeys_problem(hs, i as int) is None,
            decreases n - i,
        {
            let binding = &self.hotkeys[i];
            let own = binding.validate();
            if own.is_err() {
                proof {
                    lemma_hotkeys_problem_prefix(hs, i as int + 1, n as int);
                }
                return own;
            }
            proof {
                assert(hs[i as int] == self.hotkeys@[i as int]@);
            }
            let mut j: usize = 0;
            while j < i
                invariant
                    n == self.hotkeys@.len(),
                    hs == bindings_view(self.hotkeys@),
                    i < n,
                    j <= i,
                    binding == self.hotkeys@[i as int],
                    self.version == CONFIG_VERSION,
                    hotkeys_problem(hs, i as int) is None,
                    binding_problem(hs[i as int]) is None,
                    forall|k: int| 0 <= k < j ==> hs[k].id != hs[i as int].id,
                decreases i - j,
            {
                proof {
                    assert(hs[j as int] == self.hotkeys@[j as int]@);
                    assert(hs[i as int] == self.hotkeys@[i as int]@);
                }
                if self.hotkeys[j].id == binding.id {
                    proof {
                        assert(hs[j as int].id == hs[i as int].id);
                        assert(id_taken(hs, i as int));
                        lemma_hotkeys_problem_prefix(hs, i as int + 1, n as int);
                    }
                    return Err(ValidationError::DuplicateId(binding.id.clone()));
                }
                j = j + 1;
            }
            let mut j: usize = 0;
            while j < i
                invariant
                    n == self.hotkeys@.len(),
                    hs == bindings_view(self.hotkeys@),
                    i < n,
                    j <= i,
                    binding == self.hotkeys@[i as int],
                    self.version == CONFIG_VERSION,
                    hotkeys_problem(hs, i as int) is None,
                    binding_problem(hs[i as int]) is None,
                    !id_taken(hs, i as int),
                    forall|k: int|
                        0 <= k < j ==> !same_ignoring_case(hs[k].shortcut, hs[i as int].shortcut),
                decreases i - j,
            {
                proof {
                    assert(hs[j as int] == self.hotkeys@[j as int]@);
                    assert(hs[i as int] == self.hotkeys@[i as int]@);
                }
                if eq_ignore_case(self.hotkeys[j].shortcut.as_str(), binding.shortcut.as_str()) {
                    proof {
                        assert(same_ignoring_case(hs[j as int].shortcut, hs[i as int].shortcut));
                        assert(shortcut_taken(hs, i as int));
                        lemma_hotkeys_problem_prefix(hs, i as int + 1, n as int);
                    }
                    return Err(ValidationError::DuplicateShortcut(binding.shortcut.clone()));
                }
                j = j + 1;
            }
            i = i + 1;
        }
        Ok(())
    }
}

impl Default for Config {
    /// All fields zero or empty, as a missing field reads.
    fn default() -> (r: Self)
        ensures
            r.version == 0,
            !r.launch_on_startup,
            r.hotkeys@.len() == 0,
    {
        Config { version: 0, launch_on_startup: false, hotkeys: Vec::new() }
    }
}

/// The bindings of `hotkeys` are each sound on their own, no two share an
/// id, and no two share a shortcut, even with ASCII case ignored.
pub open spec fn consistent_bindings(hs: Seq<BindingView>) -> bool {
    &&& forall|i: int| 0 <= i < hs.len() ==> binding_problem(#[trigger] hs[i]) is None
    &&& forall|i: int, j: int|
        #![trigger hs[i], hs[j]]
        0 <= i < j < hs.len() ==> hs[i].id != hs[j].id && !same_ignoring_case(hs[i].shortcut, hs[j].shortcut)
}

proof fn lemma_consistent_prefix_passes(hs: Seq<BindingView>, n: int)
    requires
        0 <= n <= hs.len(),
        consistent_bindings(hs),
    ensures
        hotkeys_problem(hs, n) is None,
    decreases n,
{
    if n > 0 {
        lemma_consistent_prefix_passes(hs, n - 1);
        let i = n - 1;
        assert(binding_problem(hs[i]) is None);
        if id_taken(hs, i) {
            let j = choose|j: int| 0 <= j < i && #[trigger] hs[j].id == hs[i].id;
            assert(hs[j].id != hs[i].id);
        }
        if shortcut_taken(hs, i) {
            let j = choose|j: int| 0 <= j < i && same_ignoring_case(#[trigger] hs[j].shortcut, hs[i].shortcut);
            assert(!same_ignoring_case(hs[j].shortcut, hs[i].shortcut));
        }
    }
}

/// A configuration passes [`Config::validate`] exactly when it is of the
/// current schema, every binding in it is sound on its own, no two bindings
/// share an id, and no two bindings share a shortcut, even with ASCII case
/// ignored.
pub proof fn valid_config_is_consistent(c: ConfigView)
    ensures
        config_problem(c) is None <==> (c.version == CONFIG_VERSION && consistent_bindings(c.hotkeys)),
{
    let hs = c.hotkeys;
    if config_problem(c) is None {
        assert forall|i: int| 0 <= i < hs.len() implies binding_problem(#[trigger] hs[i]) is None by {
            lemma_hotkeys_problem_none(hs, hs.len() as int, i);
        }
        assert forall|i: int, j: int|
            #![trigger hs[i], hs[j]]
            0 <= i < j < hs.len() implies (hs[i].id != hs[j].id
            && !same_ignoring_case(hs[i].shortcut, hs[j].shortcut)) by {
            lemma_hotkeys_problem_none(hs, hs.len() as int, j);
            assert(!id_taken(hs, j));
            assert(!shortcut_taken(hs, j));
        }
    }
    if c.version == CONFIG_VERSION && consistent_bindings(hs) {
        lemma_consistent_prefix_passes(hs, hs.len() as int);
    }
}

/// When a binding's actions pass, each of them passes on its own.
proof fn lemma_actions_problem_none(actions: Seq<ActionView>, id: Seq<char>, k: int)
    requires
        0 <= k < actions.len(),
        actions_problem(actions, id) is None,
    ensures
        action_problem(actions[k], id) is None,
    decreases actions.len(),
{
    if k < actions.len() - 1 {
        assert(actions.drop_last()[k] == actions[k]);
        lemma_actions_problem_none(actions.drop_last(), id, k);
    }
}

/// In a configuration that passes [`Config::validate`], every level an
/// action sets lies between silence and full volume, and every adjustment is
/// not zero and moves the volume by at most one full volume either way.
pub proof fn valid_config_operations_in_range(c: ConfigView, i: int, k: int)
    requires
        config_problem(c) is None,
        0 <= i < c.hotkeys.len(),
        0 <= k < c.hotkeys[i].actions.len(),
    ensures
        match c.hotkeys[i].actions[k].operation {
            Operation::SetLevel { level } => 0 <= level <= FULL_LEVEL,
            Operation::Adjust { delta } => -FULL_LEVEL <= delta <= FULL_LEVEL && delta != 0,
            Operation::Mute { .. } => true,
        },
{
    valid_config_is_consistent(c);
    let b = c.hotkeys[i];
    assert(binding_problem(b) is None);
    lemma_actions_problem_none(b.actions, b.id, k);
}

/// A configuration of the current schema with one binding, whose id, name and
/// shortcut are not blank and whose one action names a process by a name that
/// is not blank, or the foreground: it passes exactly when the action's
/// operation is within bounds (a level between silence and full volume, an
/// adjustment that is not zero and at most one full volume either way, any
/// mute), and otherwise fails with an invalid level or an invalid adjustment
/// of that binding.
pub proof fn one_action_config_passes_by_its_operation(c: ConfigView)
    requires
        c.version == CONFIG_VERSION,
        c.hotkeys.len() == 1,
        !blank(c.hotkeys[0].id),
        !blank(c.hotkeys[0].name),
        !blank(c.hotkeys[0].shortcut),
        c.hotkeys[0].actions.len() == 1,
        c.hotkeys[0].actions[0].target matches TargetView::Process(e) ==> !blank(e),
    ensures
        ({
            let id = c.hotkeys[0].id;
            match c.hotkeys[0].actions[0].operation {
                Operation::SetLevel { level } => if 0 <= level <= FULL_LEVEL {
                    config_problem(c) is None
                } else {
                    config_problem(c) == Some(Problem::InvalidLevel(id))
                },
                Operation::Adjust { delta } => if -FULL_LEVEL <= delta <= FULL_LEVEL && delta != 0 {
                    config_problem(c) is None
                } else {
                    config_problem(c) == Some(Problem::InvalidDelta(id))
                },
                Operation::Mute { .. } => config_problem(c) is None,
            }
        }),
{
    let hs = c.hotkeys;
    let b = hs[0];
    assert(b.actions.drop_last() =~= Seq::<ActionView>::empty());
    assert(actions_problem(b.actions.drop_last(), b.id) is None);
    assert(actions_problem(b.actions, b.id) == action_problem(b.actions[0], b.id));
    assert(!id_taken(hs, 0));
    assert(!shortcut_taken(hs, 0));
    assert(hotkeys_problem(hs, 0) is None);
    assert(hotkeys_problem(hs, 1) == hotkey_problem(hs, 0));
}

#[verifier::external_type_specification]
#[verifier::external_body]
pub struct ExPathBuf(std::path::PathBuf);

#[verifier::external_type_specification]
#[verifier::external_body]
pub struct ExIoError(std::io::Error);

#[verifier::external_type_specification]
#[verifier::external_body]
pub struct ExJsonError(serde_json::Error);

#[allow(inconsistent_fields)]
#[derive(Debug)]
pub enum ConfigError {
    MissingDataDirectory,
    Read { path: PathBuf, source: std::io::Error },
    Parse { path: PathBuf, source: serde_json::Error },
    Validation(ValidationError),
    Serialize(serde_json::Error),
    Write { path: PathBuf, source: std::io::Error },
}

/// Where the configuration file is: a path given as it is, or a file in a
/// project's configuration directory.
enum Location {
    Given(PathBuf),
    InProject(ProjectFile),
}

/// Where the configuration is kept.
pub struct ConfigStore {
    place: Location,
}

impl ConfigStore {
    pub closed spec fn location(&self) -> PathBuf {
        match self.place {
            Location::Given(p) => p,
            Location::InProject(f) => f.location(),
        }
    }

    /// For a store in a project's configuration directory: the project's
    /// names and the file name joined onto the directory.
    pub closed spec fn origin(&self) -> Option<(ProjectNames, Seq<char>)> {
        match self.place {
            Location::Given(_) => None,
            Location::InProject(f) => Some((f.project(), f.joined_name())),
        }
    }

    /// The store in `config.json` in the configuration directory of the
    /// project `dev`/`VOLE`/`VOLE`; fails only when the platform offers no
    /// such directory.
    pub fn new() -> (r: Result<Self, ConfigError>)
        ensures
            r matches Err(e) ==> e is MissingDataDirectory,
            r matches Ok(s) ==> s.origin() == Some(((("dev"@, "VOLE"@, "VOLE"@), "config.json"@))),
    {
        match project_dirs("dev", "VOLE", "VOLE") {
            Some(place) => Ok(ConfigStore { place: Location::InProject(join_path(&config_dir(&place), "config.json")) }),
            None => Err(ConfigError::MissingDataDirectory),
        }
    }

    pub fn at(path: PathBuf) -> (r: Self)
        ensures
            r.location() == path,
            r.origin() is None,
    {
        ConfigStore { place: Location::Given(path) }
    }

    pub fn path(&self) -> (r: &PathBuf)
        ensures
            *r == self.location(),
    {
        match &self.place {
            Location::Given(p) => p,
            Location::InProject(f) => f.path(),
        }
    }

    /// What loading yields once the file has been read and parsed: a missing
    /// file (`None`) is an empty configuration; a configuration read from the
    /// file is used only if it passes [`Config::validate`].
    pub fn loaded(found: Option<Config>) -> (r: Result<Config, ConfigError>)
        ensures
            match found {
                None => r matches Ok(c) && c@ == Config::empty_view(),
                Some(c) => match config_problem(c@) {
                    None => r matches Ok(d) && d@ == c@,
                    Some(p) => r matches Err(ConfigError::Validation(e)) && e@ == p,
                },
            },
    {
        match found {
            None => Ok(Config::empty()),
            Some(config) => match config.validate() {
                Ok(()) => Ok(config),
                Err(e) => Err(ConfigError::Validation(e)),
            },
        }
    }
}

} // verus!
