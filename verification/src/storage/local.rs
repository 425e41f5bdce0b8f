//! Files on the local disk.
use crate::text;
use crate::text::replace_char;
use vstd::prelude::*;

verus! {

/// A point in time: seconds since 1970, and the nanoseconds beyond them.
#[derive(Debug, Clone, Copy)]
pub struct Timestamp {
    pub secs: i64,
    pub nanos: u32,
}

/// Whether one point in time comes after another.
pub open spec fn after(a: Timestamp, b: Timestamp) -> bool {
    a.secs > b.secs || a.secs == b.secs && a.nanos > b.nanos
}

impl Timestamp {
    pub fn is_after(&self, other: &Timestamp) -> (out: bool)
        ensures
            out == after(*self, *other),
    {
        self.secs > other.secs || (self.secs == other.secs && self.nanos > other.nanos)
    }
}

/// A file that a walk found.
#[derive(Debug)]
pub struct LocalEntry {
    /// The position of its path in the list of paths that the walk keeps.
    pub path_id: usize,
    /// Its path below the base of the walk, with `/` between the parts.
    pub relative_path: String,
    pub size: u64,
    pub modified: Option<Timestamp>,
}

impl Clone for LocalEntry {
    fn clone(&self) -> (out: Self)
        ensures
            out == *self,
    {
        LocalEntry {
            path_id: self.path_id,
            relative_path: self.relative_path.clone(),
            size: self.size,
            modified: self.modified,
        }
    }
}

/// What a walk does with an entry of a directory.
#[derive(Debug, Clone, Copy, PartialEq, Eq)]
pub enum WalkStep {
    /// It is a file of the walk.
    Take,
    /// It is a directory to walk into.
    Enter,
    Pass,
}

/// What a walk does with an entry: files are taken, and directories are entered where the walk
/// is recursive.
pub fn walk_step(is_file: bool, is_dir: bool, recursive: bool) -> (out: WalkStep)
    ensures
        out == if is_file {
            WalkStep::Take
        } else if is_dir && recursive {
            WalkStep::Enter
        } else {
            WalkStep::Pass
        },
{
    if is_file {
        WalkStep::Take
    } else if is_dir && recursive {
        WalkStep::Enter
    } else {
        WalkStep::Pass
    }
}

/// The path of a file below the base, with `/` in place of `\`.
pub fn relative_name(below_base: &str) -> (out: String)
    ensures
        out@ == text::replaced(below_base@, '\\', '/'),
{
    replace_char(below_base, '\\', '/')
}

/// The sizes of the files.
pub open spec fn entry_sizes(files: Seq<LocalEntry>) -> Seq<u64> {
    files.map_values(|f: LocalEntry| f.size)
}

/// One point in time comes after another where its seconds do, or its nanoseconds within the same
/// second.
pub proof fn law_times_are_ordered(a: Timestamp, b: Timestamp)
    ensures
        a.secs > b.secs ==> after(a, b),
        a.secs == b.secs ==> (after(a, b) <==> a.nanos > b.nanos),
        after(a, b) ==> !after(b, a),
        !after(a, a),
        !after(a, b) && !after(b, a) ==> a.secs == b.secs && a.nanos == b.nanos,
{
}

/// The sizes of files are those of the files, in order.
pub proof fn law_sizes_of_files(files: Seq<LocalEntry>, i: int)
    requires
        0 <= i < files.len(),
    ensures
        entry_sizes(files).len() == files.len(),
        entry_sizes(files)[i] == files[i].size,
{
}

} // verus!
