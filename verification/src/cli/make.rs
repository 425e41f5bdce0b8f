//! `azcp mk`: what is created.
use crate::storage::location::Location;
use crate::text::owned;
use vstd::prelude::*;

verus! {

/// What a location asks to create.
#[derive(Debug, Clone, Copy, PartialEq, Eq)]
pub enum MakeStep {
    /// The address names no container.
    NeedsContainer,
    Container,
    Directory,
}

/// What a location asks to create.
pub fn make_step(location: &Location) -> (out: MakeStep)
    ensures
        out == match *location {
            Location::AzureBlob(b) => if b.container@.len() == 0 {
                MakeStep::NeedsContainer
            } else {
                MakeStep::Container
            },
            Location::Local(_) => MakeStep::Directory,
        },
{
    match location {
        Location::AzureBlob(b) => {
            if b.container.as_str().unicode_len() == 0 {
                MakeStep::NeedsContainer
            } else {
                MakeStep::Container
            }
        },
        Location::Local(_) => MakeStep::Directory,
    }
}

/// What is said of a step for a container or a path.
pub fn make_message(step: MakeStep, name: &str) -> (out: String)
    ensures
        out@ == match step {
            MakeStep::NeedsContainer => "Container name required in URL."@,
            MakeStep::Container => "Created container: "@ + name@,
            MakeStep::Directory => "Created directory: "@ + name@,
        },
{
    match step {
        MakeStep::NeedsContainer => owned("Container name required in URL."),
        MakeStep::Container => {
            let mut out = owned("Created container: ");
            out.append(name);
            out
        },
        MakeStep::Directory => {
            let mut out = owned("Created directory: ");
            out.append(name);
            out
        },
    }
}

} // verus!
