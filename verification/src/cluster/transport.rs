//! What a run says of the network that it will use.
use crate::text;
use crate::text::{begins, chars_of, contains, decimal_text, owned, split_at_char, string_of, trim};
use vstd::prelude::*;

verus! {

/// How many devices are shown at most.
pub const MAX_DEVICES: usize = 40;

/// The variables that decide the transport.
pub open spec fn variable_names() -> Seq<Seq<char>> {
    seq![
        "OMPI_MCA_pml"@,
        "OMPI_MCA_btl"@,
        "OMPI_MCA_osc"@,
        "UCX_TLS"@,
        "UCX_NET_DEVICES"@,
        "UCX_IB_GID_INDEX"@,
    ]
}

/// The variables that decide the transport.
pub fn variables() -> (out: Vec<String>)
    ensures
        text::views(out@) == variable_names(),
{
    let mut out: Vec<String> = Vec::new();
    out.push(owned("OMPI_MCA_pml"));
    out.push(owned("OMPI_MCA_btl"));
    out.push(owned("OMPI_MCA_osc"));
    out.push(owned("UCX_TLS"));
    out.push(owned("UCX_NET_DEVICES"));
    out.push(owned("UCX_IB_GID_INDEX"));
    assert(text::views(out@) =~= variable_names());
    out
}

/// The line on a variable.
pub fn variable_line(name: &str, value: &Option<String>) -> (out: String)
    ensures
        out@ == "[transport]   "@ + name@ + "="@ + (match *value {
            Some(v) => v@,
            None => "(unset)"@,
        }),
{
    let mut out = owned("[transport]   ");
    out.append(name);
    out.append("=");
    match value {
        Some(v) => out.append(v.as_str()),
        None => out.append("(unset)"),
    }
    out
}

/// Whether a line of `ompi_info` names a component that carries messages.
pub open spec fn names_component(line: Seq<char>) -> bool {
    text::contains_text(line, "MCA pml:"@) && text::contains_text(line, "---"@)
}

/// How many of the lines name a component.
pub open spec fn component_count(lines: Seq<Seq<char>>) -> nat
    decreases lines.len(),
{
    if lines.len() == 0 {
        0
    } else {
        component_count(lines.drop_last()) + if names_component(lines.last()) {
            1nat
        } else {
            0
        }
    }
}

/// The line on the components that `ompi_info` shows, where it shows any.
pub fn components_line(output: &str) -> (out: Option<String>)
    ensures
        text::opt_view(out) == {
            let n = component_count(text::split(output@, '\n'));
            if n > 0 {
                Some("[transport] ompi_info pml components: "@ + text::decimal(n))
            } else {
                None
            }
        },
{
    let chars = chars_of(output);
    let lines = split_at_char(chars.as_slice(), '\n');
    let ghost parts = text::pieces(lines@);
    let word = chars_of("MCA pml:");
    let rule = chars_of("---");
    let mut n: usize = 0;
    let mut i: usize = 0;
    while i < lines.len()
        invariant
            i <= lines@.len(),
            parts == text::pieces(lines@),
            n <= i,
            word@ == "MCA pml:"@,
            rule@ == "---"@,
            n == component_count(parts.take(i as int)),
        decreases lines@.len() - i,
    {
        assert(parts.take(i + 1).drop_last() =~= parts.take(i as int));
        assert(parts.take(i + 1).last() == lines@[i as int]@);
        if contains(lines[i].as_slice(), word.as_slice()) && contains(
            lines[i].as_slice(),
            rule.as_slice(),
        ) {
            n += 1;
        }
        i += 1;
    }
    assert(parts.take(parts.len() as int) =~= parts);
    if n == 0 {
        return None;
    }
    let mut out = owned("[transport] ompi_info pml components: ");
    out.append(decimal_text(n as u64).as_str());
    Some(out)
}

/// Whether a line of `ucx_info` names a device or a transport.
pub open spec fn names_device(line: Seq<char>) -> bool {
    text::starts_with(line, "# Memory domain:"@) || text::contains_text(line, "Transport:"@)
}

/// Those of the lines that name a device or a transport, without blanks at their ends.
pub open spec fn devices(lines: Seq<Seq<char>>) -> Seq<Seq<char>>
    decreases lines.len(),
{
    if lines.len() == 0 {
        Seq::empty()
    } else {
        let front = devices(lines.drop_last());
        if names_device(lines.last()) {
            front.push(text::trimmed(lines.last()))
        } else {
            front
        }
    }
}

/// The lines on the devices that `ucx_info` shows: their number, then the first of them.
pub open spec fn device_report(found: Seq<Seq<char>>) -> Seq<Seq<char>> {
    let shown = if found.len() <= MAX_DEVICES {
        found
    } else {
        found.take(MAX_DEVICES as int)
    };
    seq!["[transport] ucx_info -d ("@ + text::decimal(found.len()) + " entries):"@]
        + shown.map_values(|d: Seq<char>| "[transport]   "@ + d)
}

/// The lines on the devices, given the output of `ucx_info`, where it could be run.
pub fn device_lines(output: &Option<String>) -> (out: Vec<String>)
    ensures
        text::views(out@) == match *output {
            Some(s) => device_report(devices(text::split(s@, '\n'))),
            None => seq!["[transport] ucx_info not available"@],
        },
{
    let s = match output {
        Some(s) => s,
        None => {
            let mut out: Vec<String> = Vec::new();
            out.push(owned("[transport] ucx_info not available"));
            assert(text::views(out@) =~= seq!["[transport] ucx_info not available"@]);
            return out;
        },
    };
    let chars = chars_of(s.as_str());
    let lines = split_at_char(chars.as_slice(), '\n');
    let ghost parts = text::pieces(lines@);
    let domain = chars_of("# Memory domain:");
    let transport = chars_of("Transport:");
    let mut found: Vec<Vec<char>> = Vec::new();
    let mut i: usize = 0;
    assert(text::pieces(found@) =~= devices(parts.take(0)));
    while i < lines.len()
        invariant
            i <= lines@.len(),
            parts == text::pieces(lines@),
            domain@ == "# Memory domain:"@,
            transport@ == "Transport:"@,
            text::pieces(found@) == devices(parts.take(i as int)),
        decreases lines@.len() - i,
    {
        assert(parts.take(i + 1).drop_last() =~= parts.take(i as int));
        assert(parts.take(i + 1).last() == lines@[i as int]@);
        if begins(lines[i].as_slice(), domain.as_slice()) || contains(
            lines[i].as_slice(),
            transport.as_slice(),
        ) {
            let ghost before = found@;
            let d = trim(lines[i].as_slice());
            found.push(d);
            assert(text::pieces(found@) =~= text::pieces(before).push(d@));
        }
        i += 1;
    }
    assert(parts.take(parts.len() as int) =~= parts);
    let n: usize = found.len();
    let ghost all = text::pieces(found@);
    let mut head = owned("[transport] ucx_info -d (");
    head.append(decimal_text(n as u64).as_str());
    head.append(" entries):");
    let mut out: Vec<String> = Vec::new();
    out.push(head);
    let shown: usize = if n <= MAX_DEVICES {
        n
    } else {
        MAX_DEVICES
    };
    let mut k: usize = 0;
    let ghost lead = seq!["[transport] ucx_info -d ("@ + text::decimal(all.len()) + " entries):"@];
    assert(text::views(out@) =~= lead + all.take(0).map_values(
        |d: Seq<char>| "[transport]   "@ + d,
    ));
    while k < shown
        invariant
            k <= shown <= found@.len(),
            all == text::pieces(found@),
            text::views(out@) == lead + all.take(k as int).map_values(
                |d: Seq<char>| "[transport]   "@ + d,
            ),
        decreases shown - k,
    {
        let mut line = owned("[transport]   ");
        line.append(string_of(found[k].as_slice()).as_str());
        let ghost before = out@;
        out.push(line);
        proof {
            assert(text::views(out@) =~= text::views(before).push(line@));
            assert(text::views(out@) =~= lead + all.take(k + 1).map_values(
                |d: Seq<char>| "[transport]   "@ + d,
            ));
        }
        k += 1;
    }
    assert(all.take(all.len() as int) =~= all);
    out
}

/// The lines that name a component are counted, and a line does where it has both marks.
pub proof fn law_components_are_counted(lines: Seq<Seq<char>>)
    ensures
        component_count(lines) == lines.filter(
            |l: Seq<char>|
                text::contains_text(l, "MCA pml:"@) && text::contains_text(l, "---"@),
        ).len(),
    decreases lines.len(),
{
    reveal(Seq::filter);
    if lines.len() > 0 {
        law_components_are_counted(lines.drop_last());
    }
}

/// The lines that name a device or a transport are kept in order, without blanks at their ends.
pub proof fn law_devices_are_kept(a: Seq<Seq<char>>, b: Seq<Seq<char>>, l: Seq<char>)
    ensures
        devices(a + b) == devices(a) + devices(b),
        text::starts_with(l, "# Memory domain:"@) || text::contains_text(l, "Transport:"@)
            ==> devices(seq![l]) == seq![text::trimmed(l)],
        !(text::starts_with(l, "# Memory domain:"@) || text::contains_text(l, "Transport:"@))
            ==> devices(seq![l]).len() == 0,
    decreases b.len(),
{
    reveal_with_fuel(devices, 2);
    assert(seq![l].drop_last() =~= Seq::<Seq<char>>::empty());
    if b.len() == 0 {
        assert(a + b =~= a);
        assert(devices(a) + devices(b) =~= devices(a));
    } else {
        law_devices_are_kept(a, b.drop_last(), l);
        assert((a + b).drop_last() =~= a + b.drop_last());
        assert((a + b).last() == b.last());
        assert(devices(a + b) =~= devices(a) + devices(b));
    }
}

/// A report tells how many devices there are and shows the first forty.
pub proof fn law_report_shows_the_first_devices(found: Seq<Seq<char>>, i: int)
    ensures
        device_report(found).len() == 1 + if found.len() <= 40 {
            found.len() as int
        } else {
            40
        },
        device_report(found)[0] == "[transport] ucx_info -d ("@ + text::decimal(found.len())
            + " entries):"@,
        0 <= i < found.len() && i < 40 ==> device_report(found)[i + 1] == "[transport]   "@
            + found[i],
{
}

/// The transport is decided by the variables of Open MPI for its layers and those of UCX.
pub proof fn law_variables_that_decide()
    ensures
        variable_names().contains("OMPI_MCA_pml"@),
        variable_names().contains("OMPI_MCA_btl"@),
        variable_names().contains("OMPI_MCA_osc"@),
        variable_names().contains("UCX_TLS"@),
        variable_names().contains("UCX_NET_DEVICES"@),
        variable_names().contains("UCX_IB_GID_INDEX"@),
        variable_names().len() == 6,
{
    let v = variable_names();
    assert(v[0] == "OMPI_MCA_pml"@ && v[1] == "OMPI_MCA_btl"@ && v[2] == "OMPI_MCA_osc"@);
    assert(v[3] == "UCX_TLS"@ && v[4] == "UCX_NET_DEVICES"@ && v[5] == "UCX_IB_GID_INDEX"@);
}

} // verus!
