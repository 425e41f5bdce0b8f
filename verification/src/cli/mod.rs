//! The commands of `azcp`.
pub mod args;
pub mod copy;
pub mod list;
pub mod make;
pub mod remove;
pub mod sync_cmd;
pub mod sync_plan;

use crate::cli::list::pad_right;
use crate::text;
use crate::text::owned;
use vstd::prelude::*;

verus! {

/// The variables that `azcp env` shows, with what they are for.
pub fn env_variables() -> (out: Vec<(String, String)>)
    ensures
        out@.map_values(|p: (String, String)| (p.0@, p.1@)) == seq![
            ("AZURE_STORAGE_ACCOUNT"@, "Storage account name"@),
            ("AZURE_STORAGE_KEY"@, "Storage account key (SharedKey auth)"@),
            ("AZURE_STORAGE_SAS_TOKEN"@, "SAS token for authentication"@),
            ("AZCOPY_LOG_LOCATION"@, "Log file directory"@),
            ("AZCOPY_CONCURRENCY_VALUE"@, "Default concurrency level"@),
        ],
{
    let mut out: Vec<(String, String)> = Vec::new();
    out.push((owned("AZURE_STORAGE_ACCOUNT"), owned("Storage account name")));
    out.push((owned("AZURE_STORAGE_KEY"), owned("Storage account key (SharedKey auth)")));
    out.push((owned("AZURE_STORAGE_SAS_TOKEN"), owned("SAS token for authentication")));
    out.push((owned("AZCOPY_LOG_LOCATION"), owned("Log file directory")));
    out.push((owned("AZCOPY_CONCURRENCY_VALUE"), owned("Default concurrency level")));
    assert(out@.map_values(|p: (String, String)| (p.0@, p.1@)) =~= seq![
        ("AZURE_STORAGE_ACCOUNT"@, "Storage account name"@),
        ("AZURE_STORAGE_KEY"@, "Storage account key (SharedKey auth)"@),
        ("AZURE_STORAGE_SAS_TOKEN"@, "SAS token for authentication"@),
        ("AZCOPY_LOG_LOCATION"@, "Log file directory"@),
        ("AZCOPY_CONCURRENCY_VALUE"@, "Default concurrency level"@),
    ]);
    out
}

/// The two lines that `azcp env` shows for a variable.
pub fn env_lines(name: &str, desc: &str, value: &Option<String>) -> (out: (String, String))
    ensures
        out.0@ == "  "@ + list::right_padded(name@, 30) + " = "@ + (match *value {
            Some(v) => v@,
            None => "(not set)"@,
        }),
        out.1@ == "  "@ + list::right_padded(Seq::empty(), 30) + "   "@ + desc@,
{
    let mut first = owned("  ");
    first.append(pad_right(name, 30).as_str());
    first.append(" = ");
    match value {
        Some(v) => first.append(v.as_str()),
        None => first.append("(not set)"),
    }
    let mut second = owned("  ");
    let blank = String::new();
    assert(blank@ =~= Seq::<char>::empty());
    second.append(pad_right(blank.as_str(), 30).as_str());
    second.append("   ");
    second.append(desc);
    (first, second)
}

} // verus!
