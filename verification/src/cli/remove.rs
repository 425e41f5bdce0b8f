//! `azcp rm`: what is removed.
use crate::error::AzcpError;
use crate::storage::location::Location;
use crate::text;
use crate::text::{decimal_text, owned};
use vstd::prelude::*;

verus! {

/// What a location asks to remove.
#[derive(Debug, Clone, Copy, PartialEq, Eq)]
pub enum RemoveStep {
    /// A local path is not removed.
    Local,
    /// The address names neither a container nor a blob.
    Nothing,
    Container,
    Blob,
    /// All blobs below a path that pass the filter.
    Tree,
}

/// What a location asks to remove.
pub open spec fn removal(location: Location, recursive: bool) -> RemoveStep {
    match location {
        Location::Local(_) => RemoveStep::Local,
        Location::AzureBlob(b) => if b.path@.len() == 0 && b.container@.len() == 0 {
            RemoveStep::Nothing
        } else if b.path@.len() == 0 {
            RemoveStep::Container
        } else if !recursive {
            RemoveStep::Blob
        } else {
            RemoveStep::Tree
        },
    }
}

pub fn remove_step(location: &Location, recursive: bool) -> (out: RemoveStep)
    ensures
        out == removal(*location, recursive),
{
    match location {
        Location::Local(_) => RemoveStep::Local,
        Location::AzureBlob(b) => {
            let no_path = b.path.as_str().unicode_len() == 0;
            let no_container = b.container.as_str().unicode_len() == 0;
            if no_path && no_container {
                RemoveStep::Nothing
            } else if no_path {
                RemoveStep::Container
            } else if !recursive {
                RemoveStep::Blob
            } else {
                RemoveStep::Tree
            }
        },
    }
}

/// A container is removed only where the address names it and nothing in it; with a path only
/// blobs are removed.
pub proof fn law_a_path_never_removes_a_container(location: Location, recursive: bool)
    ensures
        removal(location, recursive) == RemoveStep::Container ==> match location {
            Location::AzureBlob(b) => b.path@.len() == 0 && b.container@.len() > 0,
            Location::Local(_) => false,
        },
{
}

/// What is said of a step that removes one thing. `dry_run` says what would be removed.
pub fn remove_message(step: RemoveStep, container: &str, path: &str, dry_run: bool) -> (out:
    String)
    ensures
        out@ == match step {
            RemoveStep::Local => "Use system tools to remove local files."@,
            RemoveStep::Nothing => "Specify a container or blob to delete."@,
            RemoveStep::Container => if dry_run {
                "[dry-run] would delete container: "@ + container@
            } else {
                "Deleted container: "@ + container@
            },
            _ => if dry_run {
                "[dry-run] would delete: "@ + path@
            } else {
                "Deleted: "@ + container@ + "/"@ + path@
            },
        },
{
    match step {
        RemoveStep::Local => owned("Use system tools to remove local files."),
        RemoveStep::Nothing => owned("Specify a container or blob to delete."),
        RemoveStep::Container => {
            let mut out = if dry_run {
                owned("[dry-run] would delete container: ")
            } else {
                owned("Deleted container: ")
            };
            out.append(container);
            out
        },
        _ => {
            if dry_run {
                let mut out = owned("[dry-run] would delete: ");
                out.append(path);
                out
            } else {
                let mut out = owned("Deleted: ");
                out.append(container);
                out.append("/");
                out.append(path);
                out
            }
        },
    }
}

/// What is said at the end of a dry run.
pub fn dry_run_footer(total: u64) -> (out: String)
    ensures
        out@ == text::decimal(total as nat) + " blob(s) would be deleted"@,
{
    let mut out = decimal_text(total);
    out.append(" blob(s) would be deleted");
    out
}

/// What a removal came to.
#[derive(Debug, Clone, Copy)]
pub struct RemoveTally {
    pub deleted: u64,
    pub failed: u64,
}

/// How many removals were done and how many failed.
pub open spec fn removal_counts(done: Seq<bool>) -> (nat, nat)
    decreases done.len(),
{
    if done.len() == 0 {
        (0, 0)
    } else {
        let c = removal_counts(done.drop_last());
        if done.last() {
            (c.0 + 1, c.1)
        } else {
            (c.0, c.1 + 1)
        }
    }
}

/// Counts removals: `done` says of each whether it was done.
pub fn count_removals(done: &Vec<bool>) -> (out: RemoveTally)
    ensures
        (out.deleted as nat, out.failed as nat) == removal_counts(done@),
        out.deleted + out.failed == done@.len(),
{
    let mut deleted: u64 = 0;
    let mut failed: u64 = 0;
    let mut i: usize = 0;
    assert(done@.take(0) =~= Seq::<bool>::empty());
    while i < done.len()
        invariant
            i <= done@.len(),
            (deleted as nat, failed as nat) == removal_counts(done@.take(i as int)),
            deleted + failed == i,
        decreases done@.len() - i,
    {
        assert(done@.take(i + 1).drop_last() =~= done@.take(i as int));
        if done[i] {
            deleted += 1;
        } else {
            failed += 1;
        }
        i += 1;
    }
    assert(done@.take(done@.len() as int) =~= done@);
    RemoveTally { deleted, failed }
}

impl RemoveTally {
    /// What is said at the end.
    pub fn footer(&self) -> (out: String)
        ensures
            out@ == text::decimal(self.deleted as nat) + " blob(s) deleted, "@ + text::decimal(
                self.failed as nat,
            ) + " failed"@,
    {
        let mut out = decimal_text(self.deleted);
        out.append(" blob(s) deleted, ");
        out.append(decimal_text(self.failed).as_str());
        out.append(" failed");
        out
    }

    /// What the command ends with: an error where a removal failed.
    pub fn result(&self) -> (out: std::result::Result<(), AzcpError>)
        ensures
            match out {
                Ok(_) => self.failed == 0,
                Err(AzcpError::Transfer(m)) => self.failed > 0 && m@ == text::decimal(
                    self.failed as nat,
                ) + " blob deletion(s) failed"@,
                Err(_) => false,
            },
    {
        if self.failed > 0 {
            let mut m = decimal_text(self.failed);
            m.append(" blob deletion(s) failed");
            return Err(AzcpError::Transfer(m));
        }
        Ok(())
    }
}

/// What a location asks to remove: a blob where it names one, all blobs below a path where the
/// removal is recursive, a container where it names no more than that, and nothing where it names
/// an account alone.
pub proof fn law_removals(location: Location, recursive: bool)
    ensures
        location is Local ==> removal(location, recursive) == RemoveStep::Local,
        location matches Location::AzureBlob(b) ==> {
            &&& b.path@.len() > 0 ==> removal(location, false) == RemoveStep::Blob
            &&& b.path@.len() > 0 ==> removal(location, true) == RemoveStep::Tree
            &&& b.path@.len() == 0 && b.container@.len() > 0 ==> removal(location, recursive)
                == RemoveStep::Container
            &&& b.path@.len() == 0 && b.container@.len() == 0 ==> removal(location, recursive)
                == RemoveStep::Nothing
        },
{
}

/// Every removal is counted, as done where it was done and as failed where it failed.
pub proof fn law_removals_are_counted(done: Seq<bool>)
    ensures
        removal_counts(done).0 == done.filter(|d: bool| d).len(),
        removal_counts(done).1 == done.filter(|d: bool| !d).len(),
        removal_counts(done).0 + removal_counts(done).1 == done.len(),
    decreases done.len(),
{
    reveal(Seq::filter);
    if done.len() > 0 {
        law_removals_are_counted(done.drop_last());
    }
}

} // verus!
