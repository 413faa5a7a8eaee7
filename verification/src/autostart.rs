//! Autostart runs VOLE through a logon-triggered scheduled task with the
//! highest privileges, rather than an `HKCU\...\Run` entry: VOLE requires
//! administrator rights, so a Run entry would raise a UAC prompt at every
//! logon, while a task registered with `/RL HIGHEST` launches elevated
//! silently.
//!
//! This module holds the command lines given to `schtasks.exe` and the
//! behaviour off Windows, where there is no task scheduler and autostart is
//! never on.
use vstd::prelude::*;
use vstd::string::*;

verus! {

/// The name of the scheduled task.
pub const TASK_NAME: &'static str = "VOLE Autostart";

/// A failure to change the autostart setting.
#[derive(Debug)]
pub struct AutostartError {
    pub message: String,
}

/// Turns autostart on or off.
pub fn set(enabled: bool) -> (r: Result<(), AutostartError>)
    ensures
        r is Ok,
{
    if enabled {
        enable()
    } else {
        disable()
    }
}

/// Whether autostart is on.
pub fn is_enabled() -> (r: bool)
    ensures
        !r,
{
    false
}

/// Registers the autostart task; off Windows there is nothing to register.
pub fn enable() -> (r: Result<(), AutostartError>)
    ensures
        r is Ok,
{
    Ok(())
}

/// Removes the autostart task; off Windows there is nothing to remove.
pub fn disable() -> (r: Result<(), AutostartError>)
    ensures
        r is Ok,
{
    Ok(())
}

pub open spec fn strings_view(v: Seq<String>) -> Seq<Seq<char>> {
    v.map_values(|s: String| s@)
}

/// The `/TR` value: the program path in double quotes, so that spaces in the
/// install path stay part of one command.
pub open spec fn quoted(program: Seq<char>) -> Seq<char> {
    seq!['"'] + program + seq!['"']
}

/// The arguments that create the task: run `program` at logon with the
/// highest privileges, replacing any task of the same name.
pub open spec fn create_task_args_view(program: Seq<char>) -> Seq<Seq<char>> {
    seq![
        "/Create"@,
        "/TN"@,
        TASK_NAME@,
        "/TR"@,
        quoted(program),
        "/SC"@,
        "ONLOGON"@,
        "/RL"@,
        "HIGHEST"@,
        "/F"@,
    ]
}

fn owned(s: &str) -> (r: String)
    ensures
        r@ == s@,
{
    s.to_owned()
}

/// The arguments given to `schtasks.exe` to create the autostart task.
pub fn create_task_args(program: &str) -> (r: Vec<String>)
    ensures
        strings_view(r@) == create_task_args_view(program@),
{
    let mut target = owned("\"");
    target.append(program);
    target.append("\"");
    proof {
        reveal_strlit("\"");
        assert(target@ =~= quoted(program@));
    }
    let r = vec![
        owned("/Create"),
        owned("/TN"),
        owned(TASK_NAME),
        owned("/TR"),
        target,
        owned("/SC"),
        owned("ONLOGON"),
        owned("/RL"),
        owned("HIGHEST"),
        owned("/F"),
    ];
    proof {
        assert(strings_view(r@) =~= create_task_args_view(program@));
    }
    r
}

/// The arguments given to `schtasks.exe` to delete the autostart task.
pub fn delete_task_args() -> (r: Vec<String>)
    ensures
        strings_view(r@) == seq!["/Delete"@, "/TN"@, TASK_NAME@, "/F"@],
{
    let r = vec![owned("/Delete"), owned("/TN"), owned(TASK_NAME), owned("/F")];
    proof {
        assert(strings_view(r@) =~= seq!["/Delete"@, "/TN"@, TASK_NAME@, "/F"@]);
    }
    r
}

/// The arguments given to `schtasks.exe` to ask whether the autostart task exists.
pub fn query_task_args() -> (r: Vec<String>)
    ensures
        strings_view(r@) == seq!["/Query"@, "/TN"@, TASK_NAME@],
{
    let r = vec![owned("/Query"), owned("/TN"), owned(TASK_NAME)];
    proof {
        assert(strings_view(r@) =~= seq!["/Query"@, "/TN"@, TASK_NAME@]);
    }
    r
}

} // verus!
