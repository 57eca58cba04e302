//! Resolving a program counter to the name of the routine that holds it.

use std::fmt::Write;
use vstd::prelude::*;

verus! {

/// The number of bytes kept of a symbol's name.
pub const NAME_CAPACITY: usize = 500;

/// Calls `backtrace::resolve` on `address` and writes the name of each symbol
/// that it reports with a name, mostly one, into a `heapless::String` of
/// [`NAME_CAPACITY`] bytes, which takes what fits and is then copied out. The
/// contract claims two things: the text is no longer than the buffer, and it
/// is empty when no name was reported. Which name an address has is not
/// stated: it depends on the program that runs.
#[verifier::external_body]
fn resolve_symbol(address: usize) -> (found: (bool, String))
    ensures
        found.1@.len() <= NAME_CAPACITY,
        !found.0 ==> found.1@.len() == 0,
{
    let mut named = false;
    let mut text = heapless::String::<NAME_CAPACITY>::new();
    backtrace::resolve(std::ptr::without_provenance_mut(address), |symbol| {
        if let Some(name) = symbol.name() {
            write!(&mut text, "{}", name).ok();
            named = true;
        }
    });
    (named, text.as_str().to_owned())
}

/// What a lookup amounts to: the text where a name was reported, nothing
/// where none was.
pub fn name_of_lookup(named: bool, text: String) -> (name: Option<String>)
    ensures
        name == if named {
            Some(text)
        } else {
            None
        },
{
    if named {
        Some(text)
    } else {
        None
    }
}

/// Looks up the name of the routine that holds `address`. The name is cut
/// off at [`NAME_CAPACITY`] bytes; an address that no named symbol covers
/// gives `None`.
pub fn symbol_name(address: usize) -> (name: Option<String>)
    ensures
        name matches Some(text) ==> text@.len() <= NAME_CAPACITY,
{
    let (named, text) = resolve_symbol(address);
    name_of_lookup(named, text)
}

} // verus!
