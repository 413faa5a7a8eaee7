//! An in-memory audio backend. Lets the engine run and be exercised end to
//! end without Windows, so hotkey dispatch can be checked on any machine.
use vstd::prelude::*;

use super::model::{clamp_level, command_effect, MixerCommand, SessionView};
use super::{AudioBackend, BackendError, SessionInfo};
use crate::config::FULL_LEVEL;

verus! {

/// A simulated audio session. Holds the same state the real Core Audio
/// sessions expose so the engine behaves identically.
#[derive(Clone, Debug, PartialEq)]
pub struct FakeSession {
    pub pid: u32,
    pub executable: String,
    pub level: i32,
    pub muted: bool,
}

impl View for FakeSession {
    type V = SessionView;

    open spec fn view(&self) -> SessionView {
        SessionView { pid: self.pid, executable: Some(self.executable@), level: self.level, muted: self.muted }
    }
}

pub open spec fn fake_view(s: Seq<FakeSession>) -> Seq<SessionView> {
    s.map_values(|x: FakeSession| x@)
}

/// A session of a process at full volume, not muted.
pub open spec fn playing_view(pid: u32, executable: Seq<char>) -> SessionView {
    SessionView { pid, executable: Some(executable), level: FULL_LEVEL, muted: false }
}

/// The sessions of the default fake backend: a handful of common
/// applications so the picker has something to route audio to.
pub open spec fn default_sessions() -> Seq<SessionView> {
    seq![
        playing_view(101, "Discord.exe"@),
        playing_view(102, "chrome.exe"@),
        playing_view(103, "Spotify.exe"@),
        playing_view(104, "vlc.exe"@),
    ]
}

impl FakeSession {
    fn playing(pid: u32, executable: &str) -> (r: Self)
        ensures
            r@ == playing_view(pid, executable@),
    {
        FakeSession { pid, executable: executable.to_owned(), level: FULL_LEVEL, muted: false }
    }

    fn duplicate(&self) -> (r: Self)
        ensures
            r@ == self@,
    {
        FakeSession { pid: self.pid, executable: self.executable.clone(), level: self.level, muted: self.muted }
    }
}

pub struct FakeBackend {
    sessions: Vec<FakeSession>,
    foreground: Option<u32>,
}

/// The first index of a session of process `pid`, if there is one.
pub open spec fn first_with_pid(s: Seq<SessionView>, pid: u32) -> Option<int> {
    if exists|i: int| 0 <= i < s.len() && s[i].pid == pid {
        Some(choose|i: int| 0 <= i < s.len() && s[i].pid == pid && forall|j: int| 0 <= j < i ==> s[j].pid != pid)
    } else {
        None
    }
}

impl FakeBackend {
    /// Four applications playing at full volume, the first of them in the foreground.
    pub fn new() -> (r: Self)
        ensures
            r.mixer() == default_sessions(),
            r.focused() == Some(101u32),
    {
        let mut sessions: Vec<FakeSession> = Vec::new();
        sessions.push(FakeSession::playing(101, "Discord.exe"));
        sessions.push(FakeSession::playing(102, "chrome.exe"));
        sessions.push(FakeSession::playing(103, "Spotify.exe"));
        sessions.push(FakeSession::playing(104, "vlc.exe"));
        let r = Self::with_sessions(sessions);
        proof {
            assert(r.mixer() =~= default_sessions());
        }
        r
    }

    /// These sessions, the first of them in the foreground.
    pub fn with_sessions(sessions: Vec<FakeSession>) -> (r: Self)
        ensures
            r.mixer() == fake_view(sessions@),
            r.focused() == (if sessions@.len() > 0 { Some(sessions@[0].pid) } else { None::<u32> }),
    {
        let foreground = if sessions.len() > 0 {
            Some(sessions[0].pid)
        } else {
            None
        };
        FakeBackend { sessions, foreground }
    }

    pub fn set_foreground(&mut self, pid: Option<u32>)
        ensures
            final(self).mixer() == old(self).mixer(),
            final(self).focused() == pid,
    {
        self.foreground = pid;
    }

    /// The first session of process `pid`.
    pub fn session(&self, pid: u32) -> (r: Option<FakeSession>)
        ensures
            match first_with_pid(self.mixer(), pid) {
                Some(i) => r matches Some(s) && s@ == self.mixer()[i],
                None => r is None,
            },
    {
        let mut i: usize = 0;
        while i < self.sessions.len()
            invariant
                i <= self.sessions@.len(),
                forall|j: int| 0 <= j < i ==> #[trigger] self.sessions@[j].pid != pid,
            decreases self.sessions@.len() - i,
        {
            if self.sessions[i].pid == pid {
                proof {
                    let m = self.mixer();
                    assert(m[i as int].pid == pid);
                    let f = first_with_pid(m, pid)->0;
                    assert(forall|j: int| 0 <= j < i ==> m[j] == self.sessions@[j]@);
                    assert(f == i) by {
                        if f < i {
                            assert(m[f] == self.sessions@[f]@);
                        }
                        if f > i {
                        }
                    }
                }
                return Some(self.sessions[i].duplicate());
            }
            i = i + 1;
        }
        proof {
            let m = self.mixer();
            assert forall|j: int| 0 <= j < m.len() implies m[j].pid != pid by {
                assert(m[j] == self.sessions@[j]@);
            }
        }
        None
    }

    /// A copy of every session, in order.
    pub fn snapshot(&self) -> (r: Vec<FakeSession>)
        ensures
            fake_view(r@) == self.mixer(),
    {
        let mut r: Vec<FakeSession> = Vec::new();
        let mut i: usize = 0;
        while i < self.sessions.len()
            invariant
                i <= self.sessions@.len(),
                r@.len() == i,
                forall|j: int| 0 <= j < i ==> #[trigger] r@[j]@ == self.sessions@[j]@,
            decreases self.sessions@.len() - i,
        {
            r.push(self.sessions[i].duplicate());
            i = i + 1;
        }
        proof {
            assert(fake_view(r@) =~= fake_view(self.sessions@));
        }
        r
    }
}

impl Default for FakeBackend {
    fn default() -> (r: Self)
        ensures
            r.mixer() == default_sessions(),
            r.focused() == Some(101u32),
    {
        Self::new()
    }
}

impl AudioBackend for FakeBackend {
    closed spec fn mixer(&self) -> Seq<SessionView> {
        fake_view(self.sessions@)
    }

    closed spec fn focused(&self) -> Option<u32> {
        self.foreground
    }

    /// The in-memory backend always lists its sessions.
    open spec fn refuses_listing(&self) -> bool {
        false
    }

    /// The in-memory backend refuses no command.
    open spec fn refusals(&self) -> Set<MixerCommand> {
        Set::empty()
    }

    fn sessions(&self) -> (r: Result<Vec<SessionInfo>, BackendError>)
        ensures
            r is Ok,
    {
        let mut infos: Vec<SessionInfo> = Vec::new();
        let mut i: usize = 0;
        while i < self.sessions.len()
            invariant
                i <= self.sessions@.len(),
                infos@.len() == i,
                forall|j: int| 0 <= j < i ==> #[trigger] infos@[j]@ == self.sessions@[j]@,
            decreases self.sessions@.len() - i,
        {
            let s = &self.sessions[i];
            infos.push(SessionInfo { pid: s.pid, executable: Some(s.executable.clone()), level: s.level, muted: s.muted });
            i = i + 1;
        }
        proof {
            assert(super::sessions_view(infos@) =~= fake_view(self.sessions@));
        }
        Ok(infos)
    }

    /// Sets every session of the process, holding the level between silence and full volume.
    fn set_level(&mut self, pid: u32, level: i32) -> (r: Result<(), BackendError>)
        ensures
            r is Ok,
    {
        let clamped = if level < 0 {
            0
        } else if level > FULL_LEVEL {
            FULL_LEVEL
        } else {
            level
        };
        let ghost target = command_effect(fake_view(old(self).sessions@), MixerCommand::Level { pid, level });
        let mut i: usize = 0;
        while i < self.sessions.len()
            invariant
                i <= self.sessions@.len(),
                self.sessions@.len() == old(self).sessions@.len(),
                self.foreground == old(self).foreground,
                clamped == clamp_level(level),
                target == command_effect(fake_view(old(self).sessions@), MixerCommand::Level { pid, level }),
                forall|j: int| 0 <= j < i ==> #[trigger] self.sessions@[j]@ == target[j],
                forall|j: int| i <= j < self.sessions@.len() ==> #[trigger] self.sessions@[j] == old(self).sessions@[j],
            decreases self.sessions@.len() - i,
        {
            if self.sessions[i].pid == pid {
                let mut s = self.sessions[i].duplicate();
                s.level = clamped;
                self.sessions.set(i, s);
            }
            i = i + 1;
        }
        proof {
            assert(fake_view(self.sessions@) =~= target);
        }
        Ok(())
    }

    fn set_mute(&mut self, pid: u32, muted: bool) -> (r: Result<(), BackendError>)
        ensures
            r is Ok,
    {
        let ghost target = command_effect(fake_view(old(self).sessions@), MixerCommand::Mute { pid, muted });
        let mut i: usize = 0;
        while i < self.sessions.len()
            invariant
                i <= self.sessions@.len(),
                self.sessions@.len() == old(self).sessions@.len(),
                self.foreground == old(self).foreground,
                target == command_effect(fake_view(old(self).sessions@), MixerCommand::Mute { pid, muted }),
                forall|j: int| 0 <= j < i ==> #[trigger] self.sessions@[j]@ == target[j],
                forall|j: int| i <= j < self.sessions@.len() ==> #[trigger] self.sessions@[j] == old(self).sessions@[j],
            decreases self.sessions@.len() - i,
        {
            if self.sessions[i].pid == pid {
                let mut s = self.sessions[i].duplicate();
                s.muted = muted;
                self.sessions.set(i, s);
            }
            i = i + 1;
        }
        proof {
            assert(fake_view(self.sessions@) =~= target);
        }
        Ok(())
    }

    fn foreground_pid(&self) -> (r: Option<u32>) {
        self.foreground
    }
}

} // verus!
