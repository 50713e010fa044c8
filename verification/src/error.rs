//! Errors of an extraction run.

use vstd::prelude::*;
use crate::text::{append_chars, chars_of, nat_decimal, push_decimal, string_of};

verus! {

#[verifier::external_type_specification]
#[verifier::external_body]
pub struct ExPbfError(osmpbf::Error);

#[verifier::external_type_specification]
#[verifier::external_body]
pub struct ExIoError(std::io::Error);

/// Why a run failed.
#[derive(Debug)]
pub enum ExtractError {
    /// The input holds more nodes than the node table's capacity guard
    /// allows: `seen` nodes were counted against a limit of `max`.
    TooManyNodes { seen: u64, max: u64 },
    /// The PBF reader failed.
    Pbf(osmpbf::Error),
    /// Reading or writing a file failed.
    Io(std::io::Error),
}

/// The message of a refused oversized input.
pub open spec fn too_many_nodes_message(seen: nat, max: nat) -> Seq<char> {
    "too many nodes: seen "@ + nat_decimal(seen) + ", max "@ + nat_decimal(max)
        + " — planet-scale extracts are not supported in v1"@
}

/// `osmpbf::Error`'s `Display` rendering.
#[verifier::external_body]
fn pbf_error_text(e: &osmpbf::Error) -> String {
    format!("{e}")
}

/// `std::io::Error`'s `Display` rendering.
#[verifier::external_body]
fn io_error_text(e: &std::io::Error) -> String {
    format!("{e}")
}

impl ExtractError {
    /// The error's message.  For a refused oversized input it names both
    /// counts and says that planet-scale inputs are not supported; the
    /// reader and file errors are prefixed with `pbf error: ` and
    /// `io error: `.
    pub fn message(&self) -> (m: String)
        ensures
            self matches ExtractError::TooManyNodes { seen, max } ==> m@ == too_many_nodes_message(
                seen as nat,
                max as nat,
            ),
            self is Pbf ==> "pbf error: "@.is_prefix_of(m@),
            self is Io ==> "io error: "@.is_prefix_of(m@),
    {
        match self {
            ExtractError::TooManyNodes { seen, max } => {
                let mut v = chars_of("too many nodes: seen ");
                push_decimal(&mut v, *seen);
                let sep = chars_of(", max ");
                append_chars(&mut v, &sep);
                push_decimal(&mut v, *max);
                let tail = chars_of(" — planet-scale extracts are not supported in v1");
                append_chars(&mut v, &tail);
                string_of(v.as_slice())
            },
            ExtractError::Pbf(e) => {
                let mut v = chars_of("pbf error: ");
                let ghost head = v@;
                let rest = chars_of(pbf_error_text(e).as_str());
                append_chars(&mut v, &rest);
                assert(v@.subrange(0, head.len() as int) == head);
                string_of(v.as_slice())
            },
            ExtractError::Io(e) => {
                let mut v = chars_of("io error: ");
                let ghost head = v@;
                let rest = chars_of(io_error_text(e).as_str());
                append_chars(&mut v, &rest);
                assert(v@.subrange(0, head.len() as int) == head);
                string_of(v.as_slice())
            },
        }
    }
}

impl From<osmpbf::Error> for ExtractError {
    fn from(e: osmpbf::Error) -> (r: Self) {
        ExtractError::Pbf(e)
    }
}

impl vstd::std_specs::convert::FromSpecImpl<osmpbf::Error> for ExtractError {
    open spec fn obeys_from_spec() -> bool {
        true
    }

    open spec fn from_spec(e: osmpbf::Error) -> Self {
        ExtractError::Pbf(e)
    }
}

impl From<std::io::Error> for ExtractError {
    fn from(e: std::io::Error) -> (r: Self) {
        ExtractError::Io(e)
    }
}

impl vstd::std_specs::convert::FromSpecImpl<std::io::Error> for ExtractError {
    open spec fn obeys_from_spec() -> bool {
        true
    }

    open spec fn from_spec(e: std::io::Error) -> Self {
        ExtractError::Io(e)
    }
}

} // verus!
