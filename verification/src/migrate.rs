//! Configurations of the first schema version, and how they become
//! configurations of the current one: the `toggle_mute` and `toggle_duck`
//! operations become `mute` and `set` on a binding marked as a toggle.
use vstd::prelude::*;

use crate::config::{actions_view, Action, ActionView, BindingView, Config, ConfigView, HotkeyBinding, Operation, Target, TargetView, CONFIG_VERSION};

verus! {

/// An operation of the first schema version.
#[derive(Clone, Copy, Debug, PartialEq, Eq, Structural)]
pub enum LegacyOperation {
    SetLevel { level: i32 },
    Adjust { delta: i32 },
    /// Mutes the target on one press and puts its state back on the next.
    ToggleMute,
    /// Sets the target to `level` on one press and puts its state back on the next.
    ToggleDuck { level: i32 },
}

pub struct LegacyAction {
    pub target: Target,
    pub operation: LegacyOperation,
}

pub struct LegacyBinding {
    pub id: String,
    pub name: String,
    pub shortcut: String,
    pub enabled: bool,
    pub actions: Vec<LegacyAction>,
}

pub struct LegacyConfig {
    pub version: u32,
    pub launch_on_startup: bool,
    pub hotkeys: Vec<LegacyBinding>,
}

pub struct LegacyActionView {
    pub target: TargetView,
    pub operation: LegacyOperation,
}

pub struct LegacyBindingView {
    pub id: Seq<char>,
    pub name: Seq<char>,
    pub shortcut: Seq<char>,
    pub enabled: bool,
    pub actions: Seq<LegacyActionView>,
}

pub struct LegacyConfigView {
    pub version: u32,
    pub launch_on_startup: bool,
    pub hotkeys: Seq<LegacyBindingView>,
}

impl View for LegacyAction {
    type V = LegacyActionView;

    open spec fn view(&self) -> LegacyActionView {
        LegacyActionView { target: self.target@, operation: self.operation }
    }
}

impl View for LegacyBinding {
    type V = LegacyBindingView;

    open spec fn view(&self) -> LegacyBindingView {
        LegacyBindingView {
            id: self.id@,
            name: self.name@,
            shortcut: self.shortcut@,
            enabled: self.enabled,
            actions: self.actions@.map_values(|a: LegacyAction| a@),
        }
    }
}

impl View for LegacyConfig {
    type V = LegacyConfigView;

    open spec fn view(&self) -> LegacyConfigView {
        LegacyConfigView {
            version: self.version,
            launch_on_startup: self.launch_on_startup,
            hotkeys: self.hotkeys@.map_values(|b: LegacyBinding| b@),
        }
    }
}

/// Whether an operation of the first schema version toggles.
pub open spec fn toggles(op: LegacyOperation) -> bool {
    op is ToggleMute || op is ToggleDuck
}

/// The current operation for one of the first schema version.
pub open spec fn migrated_operation(op: LegacyOperation) -> Operation {
    match op {
        LegacyOperation::SetLevel { level } => Operation::SetLevel { level },
        LegacyOperation::Adjust { delta } => Operation::Adjust { delta },
        LegacyOperation::ToggleMute => Operation::Mute { muted: true },
        LegacyOperation::ToggleDuck { level } => Operation::SetLevel { level },
    }
}

pub open spec fn migrated_action(a: LegacyActionView) -> ActionView {
    ActionView { target: a.target, operation: migrated_operation(a.operation) }
}

/// A binding of the first schema version, with its operations migrated; it
/// is a toggle when one of its operations toggled, and its name counts as
/// chosen by default.
pub open spec fn migrated_binding(b: LegacyBindingView) -> BindingView {
    BindingView {
        id: b.id,
        name: b.name,
        shortcut: b.shortcut,
        enabled: b.enabled,
        toggle: exists|i: int| 0 <= i < b.actions.len() && toggles(#[trigger] b.actions[i].operation),
        custom_name: false,
        actions: b.actions.map_values(|a: LegacyActionView| migrated_action(a)),
    }
}

/// A configuration of the first schema version as one of the current version.
pub open spec fn migrated(c: LegacyConfigView) -> ConfigView {
    ConfigView {
        version: CONFIG_VERSION,
        launch_on_startup: c.launch_on_startup,
        hotkeys: c.hotkeys.map_values(|b: LegacyBindingView| migrated_binding(b)),
    }
}

fn migrate_operation(op: LegacyOperation) -> (r: Operation)
    ensures
        r == migrated_operation(op),
{
    match op {
        LegacyOperation::SetLevel { level } => Operation::SetLevel { level },
        LegacyOperation::Adjust { delta } => Operation::Adjust { delta },
        LegacyOperation::ToggleMute => Operation::Mute { muted: true },
        LegacyOperation::ToggleDuck { level } => Operation::SetLevel { level },
    }
}

fn copy_target(t: &Target) -> (r: Target)
    ensures
        r@ == t@,
{
    match t {
        Target::Process { executable } => Target::Process { executable: executable.clone() },
        Target::Foreground => Target::Foreground,
    }
}

fn migrate_binding(b: &LegacyBinding) -> (r: HotkeyBinding)
    ensures
        r@ == migrated_binding(b@),
{
    let ghost la = b@.actions;
    let mut actions: Vec<Action> = Vec::new();
    let mut toggle = false;
    let mut k: usize = 0;
    while k < b.actions.len()
        invariant
            k <= b.actions@.len(),
            la == b@.actions,
            actions_view(actions@) == la.take(k as int).map_values(|a: LegacyActionView| migrated_action(a)),
            toggle == exists|i: int| 0 <= i < k && toggles(#[trigger] la[i].operation),
        decreases b.actions@.len() - k,
    {
        let a = &b.actions[k];
        proof {
            assert(la[k as int] == a@);
        }
        let op = a.operation;
        let is_toggle = match op {
            LegacyOperation::ToggleMute => true,
            LegacyOperation::ToggleDuck { .. } => true,
            _ => false,
        };
        let ghost before = actions@;
        actions.push(Action { target: copy_target(&a.target), operation: migrate_operation(op) });
        proof {
            assert(actions_view(actions@) =~= actions_view(before).push(migrated_action(la[k as int])));
            assert(la.take(k as int + 1).map_values(|a: LegacyActionView| migrated_action(a)) =~= la.take(
                k as int,
            ).map_values(|a: LegacyActionView| migrated_action(a)).push(migrated_action(la[k as int])));
            if is_toggle {
                assert(toggles(la[k as int].operation));
            }
            if exists|i: int| 0 <= i < k + 1 && toggles(#[trigger] la[i].operation) {
                let i = choose|i: int| 0 <= i < k + 1 && toggles(#[trigger] la[i].operation);
                if i < k {
                    assert(exists|i: int| 0 <= i < k && toggles(#[trigger] la[i].operation));
                }
            }
        }
        toggle = toggle || is_toggle;
        k = k + 1;
    }
    proof {
        assert(la.take(k as int) == la);
    }
    HotkeyBinding {
        id: b.id.clone(),
        name: b.name.clone(),
        shortcut: b.shortcut.clone(),
        enabled: b.enabled,
        toggle,
        custom_name: false,
        actions,
    }
}

/// Migrates a configuration of the first schema version to the current one.
pub fn migrate(legacy: &LegacyConfig) -> (r: Config)
    ensures
        r@ == migrated(legacy@),
{
    let ghost lh = legacy@.hotkeys;
    let mut hotkeys: Vec<HotkeyBinding> = Vec::new();
    let mut k: usize = 0;
    while k < legacy.hotkeys.len()
        invariant
            k <= legacy.hotkeys@.len(),
            lh == legacy@.hotkeys,
            hotkeys@.map_values(|b: HotkeyBinding| b@) == lh.take(k as int).map_values(
                |b: LegacyBindingView| migrated_binding(b),
            ),
        decreases legacy.hotkeys@.len() - k,
    {
        proof {
            assert(lh[k as int] == legacy.hotkeys@[k as int]@);
        }
        let ghost before = hotkeys@;
        hotkeys.push(migrate_binding(&legacy.hotkeys[k]));
        proof {
            assert(hotkeys@.map_values(|b: HotkeyBinding| b@) =~= before.map_values(|b: HotkeyBinding| b@).push(
                migrated_binding(lh[k as int]),
            ));
            assert(lh.take(k as int + 1).map_values(|b: LegacyBindingView| migrated_binding(b)) =~= lh.take(
                k as int,
            ).map_values(|b: LegacyBindingView| migrated_binding(b)).push(migrated_binding(lh[k as int])));
        }
        k = k + 1;
    }
    proof {
        assert(lh.take(k as int) == lh);
    }
    Config { version: CONFIG_VERSION, launch_on_startup: legacy.launch_on_startup, hotkeys }
}

} // verus!
