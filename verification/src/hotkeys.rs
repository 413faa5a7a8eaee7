//! The global shortcuts of `global_hotkey`: parsing a shortcut text, and a
//! manager that tracks which shortcut ids this program has registered.
use vstd::prelude::*;

use global_hotkey::hotkey::{HotKey, HotKeyParseError};
use global_hotkey::GlobalHotKeyManager;
use std::str::FromStr;

verus! {

#[verifier::external_type_specification]
#[verifier::external_body]
pub struct ExHotKey(HotKey);

#[verifier::external_type_specification]
#[verifier::external_body]
pub struct ExHotKeyParseError(HotKeyParseError);

#[verifier::external_type_specification]
#[verifier::external_body]
pub struct ExGlobalHotKeyManager(GlobalHotKeyManager);

#[verifier::external_type_specification]
#[verifier::external_body]
pub struct ExHotKeyError(global_hotkey::Error);

/// The id that `global_hotkey` gives the hotkey it parses from a shortcut
/// text, or `None` where it refuses the text.
pub uninterp spec fn shortcut_id(text: Seq<char>) -> Option<u32>;

/// A shortcut that `global_hotkey` parsed, with the id of its hotkey.
pub struct ParsedShortcut {
    hotkey: HotKey,
    id: u32,
}

impl ParsedShortcut {
    /// The id of the parsed hotkey.
    pub closed spec fn key_id(&self) -> u32 {
        self.id
    }

    pub fn id(&self) -> (r: u32)
        ensures
            r == self.key_id(),
    {
        self.id
    }
}

/// The ids of a list of parsed shortcuts.
pub open spec fn ids_of(s: Seq<ParsedShortcut>) -> Set<u32>
    decreases s.len(),
{
    if s.len() == 0 {
        Set::empty()
    } else {
        ids_of(s.drop_last()).insert(s.last().key_id())
    }
}

/// `HotKey::from_str` of `global_hotkey`: parses a shortcut such as
/// `Ctrl+Alt+D`. Claimed: it succeeds exactly where [`shortcut_id`] is
/// `Some`, and the hotkey's id is that value.
#[verifier::external_body]
pub fn parse_shortcut(text: &str) -> (r: Result<ParsedShortcut, HotKeyParseError>)
    ensures
        r is Ok <==> shortcut_id(text@) is Some,
        r matches Ok(p) ==> shortcut_id(text@) == Some(p.key_id()),
{
    match HotKey::from_str(text) {
        Ok(hotkey) => Ok(ParsedShortcut { hotkey, id: hotkey.id }),
        Err(e) => Err(e),
    }
}

/// A hotkey manager, with the ids of the shortcuts registered through it.
pub struct Hotkeys {
    manager: GlobalHotKeyManager,
    registered: Ghost<Set<u32>>,
}

impl Hotkeys {
    /// The ids of the shortcuts registered through this manager and not
    /// released since.
    pub closed spec fn registered(&self) -> Set<u32> {
        self.registered@
    }
}

/// `GlobalHotKeyManager::new` of `global_hotkey`. Claimed: a new manager has
/// registered nothing. Whether the platform grants a manager is not stated.
#[verifier::external_body]
pub fn create_manager() -> (r: Result<Hotkeys, global_hotkey::Error>)
    ensures
        r matches Ok(h) ==> h.registered() == Set::<u32>::empty(),
{
    match GlobalHotKeyManager::new() {
        Ok(manager) => Ok(Hotkeys { manager, registered: Ghost(Set::empty()) }),
        Err(e) => Err(e),
    }
}

/// `GlobalHotKeyManager::register` of `global_hotkey`. Claimed: when it
/// succeeds, the shortcut's id is registered. Whether the operating system
/// grants the shortcut, and what a refusal leaves registered, is not stated.
#[verifier::external_body]
pub fn register_with(keys: &mut Hotkeys, shortcut: &ParsedShortcut) -> (r: Result<(), global_hotkey::Error>)
    ensures
        r is Ok ==> final(keys).registered() == old(keys).registered().insert(shortcut.key_id()),
{
    keys.manager.register(shortcut.hotkey)
}

/// `GlobalHotKeyManager::unregister_all` of `global_hotkey`. Claimed: when
/// it succeeds, the shortcuts' ids are no longer registered. Whether the
/// operating system releases them, and what a refusal leaves registered, is
/// not stated.
#[verifier::external_body]
pub fn unregister_all_with(keys: &mut Hotkeys, shortcuts: &Vec<ParsedShortcut>) -> (r: Result<(), global_hotkey::Error>)
    ensures
        r is Ok ==> final(keys).registered() == old(keys).registered().difference(ids_of(shortcuts@)),
{
    let hotkeys: Vec<HotKey> = shortcuts.iter().map(|s| s.hotkey).collect();
    keys.manager.unregister_all(&hotkeys)
}

} // verus!
