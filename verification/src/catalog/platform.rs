//! The catalogue's view of the machine. Off Windows there is no process table
//! or Start Menu to scan, so the catalogue still surfaces curated apps plus
//! whatever the audio backend reports as playing; where there is a process
//! table, each process is listed by its lowercased name.
use vstd::prelude::*;

use crate::text::{codes, lowered};

verus! {

/// The lowercase executable names of the running processes.
pub fn running_processes() -> (r: Vec<String>)
    ensures
        r@.len() == 0,
{
    Vec::new()
}

/// The installed applications: executable name and display name.
pub fn installed_applications() -> (r: Vec<(String, String)>)
    ensures
        r@.len() == 0,
{
    Vec::new()
}

/// `str::to_ascii_lowercase`: a copy of the text with each ASCII capital
/// letter replaced by its small letter, as its documentation states.
#[verifier::external_body]
fn ascii_lowercase(s: &str) -> (r: String)
    ensures
        codes(r@) == lowered(s@),
{
    s.to_ascii_lowercase()
}

/// How a process named `name` is listed among the running processes: by its
/// lowercased name; a process without a name is not listed.
pub fn running_name(name: &str) -> (r: Option<String>)
    ensures
        name@.len() == 0 ==> r is None,
        name@.len() > 0 ==> (r matches Some(s) && codes(s@) == lowered(name@)),
{
    if name.unicode_len() == 0 {
        None
    } else {
        Some(ascii_lowercase(name))
    }
}

} // verus!
