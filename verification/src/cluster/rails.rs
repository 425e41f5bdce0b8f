//! Which network ports of a host can carry a broadcast.
use crate::engine::lpt;
use crate::engine::lpt::{lpt_order, Weight};
use crate::text;
use crate::text::{chars_of, contains, owned, same_chars, to_lower, trim};
use vstd::prelude::*;

verus! {

/// A port of a network device, as the system describes it.
pub struct IbPort {
    pub name: String,
    /// What the file `state` says, such as `4: ACTIVE`.
    pub state: String,
    /// What the file `link_layer` says. Older kernels say nothing.
    pub link_layer: String,
}

/// A network device with its ports.
pub struct IbDevice {
    pub name: String,
    pub ports: Vec<IbPort>,
}

/// Whether a port is up and speaks InfiniBand, or does not say what it speaks.
pub open spec fn is_active(p: IbPort) -> bool {
    &&& text::contains_text(text::lowered(p.state@), "active"@)
    &&& {
        let layer = text::trimmed(p.link_layer@);
        layer.len() == 0 || text::lowered(layer) == "infiniband"@
    }
}

/// The keys by which names are put in order.
pub open spec fn name_keys(names: Seq<Seq<char>>) -> Seq<(u64, Seq<char>)> {
    names.map_values(|n: Seq<char>| (0u64, n))
}

/// The places of names in the order of the names.
pub open spec fn name_order(names: Seq<Seq<char>>) -> Seq<int> {
    choose|o: Seq<int>| lpt::is_lpt_order(name_keys(names), o)
}

pub open spec fn port_names(ports: Seq<IbPort>) -> Seq<Seq<char>> {
    ports.map_values(|p: IbPort| p.name@)
}

pub open spec fn device_names(devices: Seq<IbDevice>) -> Seq<Seq<char>> {
    devices.map_values(|d: IbDevice| d.name@)
}

/// The active ports among those at the given places, as `<device>:<port>`.
pub open spec fn active_at(device: Seq<char>, ports: Seq<IbPort>, at: Seq<int>) -> Seq<Seq<char>>
    decreases at.len(),
{
    if at.len() == 0 {
        Seq::empty()
    } else {
        let front = active_at(device, ports, at.drop_last());
        let p = ports[at.last()];
        if is_active(p) {
            front.push(device + ":"@ + p.name@)
        } else {
            front
        }
    }
}

/// The active ports of a device, in the order of their names.
pub open spec fn device_ports(d: IbDevice) -> Seq<Seq<char>> {
    active_at(d.name@, d.ports@, name_order(port_names(d.ports@)))
}

/// The active ports of the devices at the given places.
pub open spec fn ports_at(devices: Seq<IbDevice>, at: Seq<int>) -> Seq<Seq<char>>
    decreases at.len(),
{
    if at.len() == 0 {
        Seq::empty()
    } else {
        ports_at(devices, at.drop_last()) + device_ports(devices[at.last()])
    }
}

proof fn lemma_name_order(names: Seq<Seq<char>>, o: Seq<int>)
    requires
        lpt::is_lpt_order(name_keys(names), o),
    ensures
        o == name_order(names),
{
    lpt::law_order_unique(name_keys(names), o, name_order(names));
}

fn active(p: &IbPort) -> (out: bool)
    ensures
        out == is_active(*p),
{
    let state = to_lower(chars_of(p.state.as_str()).as_slice());
    let word = chars_of("active");
    if !contains(state.as_slice(), word.as_slice()) {
        return false;
    }
    let layer = trim(chars_of(p.link_layer.as_str()).as_slice());
    if layer.len() == 0 {
        return true;
    }
    let lowered = to_lower(layer.as_slice());
    let ib = chars_of("infiniband");
    same_chars(lowered.as_slice(), ib.as_slice())
}

fn sorted(names: &Vec<Vec<char>>) -> (out: Vec<usize>)
    ensures
        lpt::as_ints(out@) == name_order(text::pieces(names@)),
        forall|i: int| 0 <= i < out@.len() ==> (#[trigger] out@[i]) < names@.len(),
{
    let mut weights: Vec<Weight> = Vec::new();
    let mut i: usize = 0;
    while i < names.len()
        invariant
            i <= names@.len(),
            weights@.len() == i,
            forall|j: int|
                0 <= j < i ==> (#[trigger] weights@[j]).size == 0 && weights@[j].name@
                    == names@[j]@,
        decreases names@.len() - i,
    {
        let copy = text::slice_of(names[i].as_slice(), 0, names[i].len());
        assert(copy@ =~= names@[i as int]@);
        weights.push(Weight { size: 0, name: copy });
        i += 1;
    }
    let out = lpt_order(&weights);
    proof {
        assert(lpt::keys(weights@) =~= name_keys(text::pieces(names@)));
        lemma_name_order(text::pieces(names@), lpt::as_ints(out@));
        assert forall|j: int| 0 <= j < out@.len() implies (#[trigger] out@[j]) < names@.len() by {
            assert(lpt::as_ints(out@)[j] == out@[j]);
        }
    }
    out
}

fn port_lines(d: &IbDevice) -> (out: Vec<String>)
    ensures
        text::views(out@) == device_ports(*d),
{
    let mut names: Vec<Vec<char>> = Vec::new();
    let mut k: usize = 0;
    while k < d.ports.len()
        invariant
            k <= d.ports@.len(),
            text::pieces(names@) == port_names(d.ports@).take(k as int),
        decreases d.ports@.len() - k,
    {
        let ghost before = names@;
        names.push(chars_of(d.ports[k].name.as_str()));
        assert(text::pieces(names@) =~= text::pieces(before).push(d.ports@[k as int].name@));
        assert(text::pieces(names@) =~= port_names(d.ports@).take(k + 1));
        k += 1;
    }
    assert(port_names(d.ports@).take(k as int) =~= port_names(d.ports@));
    let order = sorted(&names);
    let ghost o = lpt::as_ints(order@);
    assert(names@.len() == text::pieces(names@).len());
    let mut out: Vec<String> = Vec::new();
    let mut i: usize = 0;
    assert(text::views(out@) =~= active_at(d.name@, d.ports@, o.take(0)));
    while i < order.len()
        invariant
            i <= order@.len(),
            o == lpt::as_ints(order@),
            forall|j: int| 0 <= j < order@.len() ==> (#[trigger] order@[j]) < d.ports@.len(),
            text::views(out@) == active_at(d.name@, d.ports@, o.take(i as int)),
        decreases order@.len() - i,
    {
        let p = &d.ports[order[i]];
        assert(o.take(i + 1).drop_last() =~= o.take(i as int));
        assert(o.take(i + 1).last() == order@[i as int]);
        if active(p) {
            let mut line = owned(d.name.as_str());
            line.append(":");
            line.append(p.name.as_str());
            let ghost before = out@;
            out.push(line);
            assert(text::views(out@) =~= text::views(before).push(line@));
        }
        i += 1;
    }
    assert(o.take(o.len() as int) =~= o);
    out
}

/// The active ports of a host as `<device>:<port>`, by device and then by port, both in the
/// order of their names.
pub fn active_ib_ports(devices: &Vec<IbDevice>) -> (out: Vec<String>)
    ensures
        text::views(out@) == ports_at(devices@, name_order(device_names(devices@))),
{
    let mut names: Vec<Vec<char>> = Vec::new();
    let mut k: usize = 0;
    while k < devices.len()
        invariant
            k <= devices@.len(),
            text::pieces(names@) == device_names(devices@).take(k as int),
        decreases devices@.len() - k,
    {
        let ghost before = names@;
        names.push(chars_of(devices[k].name.as_str()));
        assert(text::pieces(names@) =~= text::pieces(before).push(devices@[k as int].name@));
        assert(text::pieces(names@) =~= device_names(devices@).take(k + 1));
        k += 1;
    }
    assert(device_names(devices@).take(k as int) =~= device_names(devices@));
    assert(names@.len() == text::pieces(names@).len());
    let order = sorted(&names);
    let ghost o = lpt::as_ints(order@);
    let mut out: Vec<String> = Vec::new();
    let mut i: usize = 0;
    assert(text::views(out@) =~= ports_at(devices@, o.take(0)));
    while i < order.len()
        invariant
            i <= order@.len(),
            o == lpt::as_ints(order@),
            forall|j: int| 0 <= j < order@.len() ==> (#[trigger] order@[j]) < devices@.len(),
            text::views(out@) == ports_at(devices@, o.take(i as int)),
        decreases order@.len() - i,
    {
        assert(o.take(i + 1).drop_last() =~= o.take(i as int));
        assert(o.take(i + 1).last() == order@[i as int]);
        let mut more = port_lines(&devices[order[i]]);
        let ghost before = out@;
        let ghost tail = more@;
        out.append(&mut more);
        assert(text::views(out@) =~= text::views(before) + text::views(tail));
        i += 1;
    }
    assert(o.take(o.len() as int) =~= o);
    out
}

proof fn lemma_active_at(device: Seq<char>, ports: Seq<IbPort>, at: Seq<int>, x: Seq<char>)
    ensures
        active_at(device, ports, at).contains(x) <==> exists|k: int|
            0 <= k < at.len() && is_active(ports[#[trigger] at[k]]) && x == device + ":"@
                + ports[at[k]].name@,
    decreases at.len(),
{
    if at.len() > 0 {
        let front = at.drop_last();
        let all = active_at(device, ports, at);
        let some = active_at(device, ports, front);
        lemma_active_at(device, ports, front, x);
        let p = ports[at.last()];
        if some.contains(x) {
            let k = choose|k: int|
                0 <= k < front.len() && is_active(ports[#[trigger] front[k]]) && x == device + ":"@
                    + ports[front[k]].name@;
            assert(at[k] == front[k]);
            let i = some.index_of(x);
            assert(all[i] == x);
        }
        if is_active(p) && x == device + ":"@ + p.name@ {
            assert(all.last() == x);
            assert(at[at.len() - 1] == at.last());
        }
        if exists|k: int|
            0 <= k < at.len() && is_active(ports[#[trigger] at[k]]) && x == device + ":"@
                + ports[at[k]].name@ {
            let k = choose|k: int|
                0 <= k < at.len() && is_active(ports[#[trigger] at[k]]) && x == device + ":"@
                    + ports[at[k]].name@;
            if k < front.len() {
                assert(front[k] == at[k]);
            }
        }
        if all.contains(x) && !some.contains(x) {
            let i = all.index_of(x);
            if i < some.len() {
                assert(some[i] == x);
            }
            assert(at[at.len() - 1] == at.last());
        }
    }
}

/// The ports of a device that are listed are those that are active, each as the names of the
/// device and of the port. `o` is the order of the names.
pub proof fn law_active_ports_are_listed(d: IbDevice, o: Seq<int>, x: Seq<char>)
    requires
        lpt::is_lpt_order(name_keys(port_names(d.ports@)), o),
    ensures
        device_ports(d).contains(x) <==> exists|i: int|
            0 <= i < d.ports@.len() && is_active(#[trigger] d.ports@[i]) && x == d.name@ + ":"@
                + d.ports@[i].name@,
{
    lemma_name_order(port_names(d.ports@), o);
    lemma_active_at(d.name@, d.ports@, o, x);
    lpt::lemma_order_no_duplicates(name_keys(port_names(d.ports@)), o);
    if exists|i: int|
        0 <= i < d.ports@.len() && is_active(#[trigger] d.ports@[i]) && x == d.name@ + ":"@
            + d.ports@[i].name@ {
        let i = choose|i: int|
            0 <= i < d.ports@.len() && is_active(#[trigger] d.ports@[i]) && x == d.name@ + ":"@
                + d.ports@[i].name@;
        assert(o.contains(i));
        let k = o.index_of(i);
        assert(is_active(d.ports@[o[k]]));
    }
    if device_ports(d).contains(x) {
        let k = choose|k: int|
            0 <= k < o.len() && is_active(d.ports@[#[trigger] o[k]]) && x == d.name@ + ":"@
                + d.ports@[o[k]].name@;
        assert(is_active(d.ports@[o[k]]));
    }
}

/// A port is active where its state says so, in any case of letters, and it speaks InfiniBand or
/// does not say what it speaks.
pub proof fn law_active_ports(p: IbPort)
    ensures
        is_active(p) ==> text::contains_text(text::lowered(p.state@), "active"@),
        text::contains_text(text::lowered(p.state@), "active"@) && p.link_layer@.len() == 0
            ==> is_active(p),
        text::contains_text(text::lowered(p.state@), "active"@) && text::lowered(
            text::trimmed(p.link_layer@),
        ) == "infiniband"@ ==> is_active(p),
        is_active(p) && text::trimmed(p.link_layer@).len() > 0 ==> text::lowered(
            text::trimmed(p.link_layer@),
        ) == "infiniband"@,
{
    let none = Seq::<char>::empty();
    assert(text::trimmed_start(none) == none);
    if p.link_layer@.len() == 0 {
        assert(p.link_layer@ =~= none);
    }
}

/// The devices stand in order with their ports, none of them left out.
pub proof fn law_devices_stand_in_order(devices: Seq<IbDevice>, a: Seq<int>, b: Seq<int>, i: int)
    ensures
        ports_at(devices, a + b) == ports_at(devices, a) + ports_at(devices, b),
        ports_at(devices, seq![i]) == device_ports(devices[i]),
    decreases b.len(),
{
    reveal_with_fuel(ports_at, 2);
    assert(seq![i].drop_last() =~= Seq::<int>::empty());
    assert(ports_at(devices, Seq::empty()) + device_ports(devices[i]) =~= device_ports(devices[i]));
    if b.len() == 0 {
        assert(a + b =~= a);
        assert(ports_at(devices, a) + ports_at(devices, b) =~= ports_at(devices, a));
    } else {
        law_devices_stand_in_order(devices, a, b.drop_last(), i);
        assert((a + b).drop_last() =~= a + b.drop_last());
        assert((a + b).last() == b.last());
        assert(ports_at(devices, a + b) =~= ports_at(devices, a) + ports_at(devices, b));
    }
}

} // verus!
