//! The external document converter: the arguments handed to it and the
//! one-time warm-up that must succeed before the first conversion.

use vstd::prelude::*;
use crate::document::FromType;

verus! {

/// The flag of the warm-up call, which only loads the converter.
pub open spec fn version_flag() -> Seq<char> {
    seq!['-', '-', 'v', 'e', 'r', 's', 'i', 'o', 'n']
}

/// The prefix of the flag that names the input format.
pub open spec fn from_flag_prefix() -> Seq<char> {
    seq!['-', '-', 'f', 'r', 'o', 'm', '=']
}

/// The flag that asks for Markdown output.
pub open spec fn to_markdown_flag() -> Seq<char> {
    seq!['-', '-', 't', 'o', '=', 'm', 'a', 'r', 'k', 'd', 'o', 'w', 'n']
}

/// Arguments of the warm-up call: the converter is asked for its version.
pub fn probe_args() -> (r: Vec<String>)
    ensures
        r@.len() == 1,
        r@[0]@ == version_flag(),
{
    proof {
        reveal_strlit("--version");
    }
    let mut args: Vec<String> = Vec::new();
    args.push(String::from_str("--version"));
    args
}

/// Arguments that convert a document of format `from` to Markdown.
pub fn conversion_args(from: FromType) -> (r: Vec<String>)
    ensures
        r@.len() == 2,
        r@[0]@ == from_flag_prefix() + from.name(),
        r@[1]@ == to_markdown_flag(),
{
    proof {
        reveal_strlit("--from=");
        reveal_strlit("--to=markdown");
    }
    let name = from.to_string();
    let from_flag = String::from_str("--from=").concat(name.as_str());
    let mut args: Vec<String> = Vec::new();
    args.push(from_flag);
    args.push(String::from_str("--to=markdown"));
    args
}

/// Where the converter's warm-up stands.
#[derive(Clone, Copy, Debug, PartialEq, Eq, Structural)]
pub enum ConverterState {
    Uninitialized,
    Ready,
    Failed,
}

impl ConverterState {
    pub fn new() -> (r: ConverterState)
        ensures
            r == ConverterState::Uninitialized,
    {
        ConverterState::Uninitialized
    }

    /// The state after a warm-up call that succeeded (`ok`) or failed.
    pub open spec fn after_probe_spec(self, ok: bool) -> ConverterState {
        if ok || self == ConverterState::Ready {
            ConverterState::Ready
        } else {
            ConverterState::Failed
        }
    }

    /// Whether a warm-up call is still to be made; once ready, none is.
    pub fn needs_probe(&self) -> (r: bool)
        ensures
            r == (*self != ConverterState::Ready),
    {
        !matches!(self, ConverterState::Ready)
    }

    /// Records the outcome of a warm-up call. A ready converter stays ready.
    pub fn after_probe(&self, ok: bool) -> (r: ConverterState)
        ensures
            r == self.after_probe_spec(ok),
    {
        if ok || matches!(self, ConverterState::Ready) {
            ConverterState::Ready
        } else {
            ConverterState::Failed
        }
    }

    /// What the warm-up operation reports: success exactly when ready.
    pub fn init_result(&self) -> (r: Result<(), ()>)
        ensures
            r is Ok <==> *self == ConverterState::Ready,
    {
        if matches!(self, ConverterState::Ready) {
            Ok(())
        } else {
            Err(())
        }
    }

    /// Whether documents may be handed to the converter.
    pub fn is_ready(&self) -> (r: bool)
        ensures
            r == (*self == ConverterState::Ready),
    {
        matches!(self, ConverterState::Ready)
    }
}

/// Warming up again does no harm: a second warm-up with the same outcome
/// leaves the state as the first one left it.
pub proof fn lemma_probe_idempotent(s: ConverterState, ok: bool)
    ensures
        s.after_probe_spec(ok).after_probe_spec(ok) == s.after_probe_spec(ok),
{
}

} // verus!
