//! Size-aware partitioning by Longest-Processing-Time (LPT) bin packing.
//!
//! Items are taken from the largest to the smallest, ties broken by name and then by position,
//! and each goes to the bin with the least load so far, ties broken by the lowest bin. Every
//! process that runs this on the same items gets the same partition.
use crate::engine;
use crate::text::chars_of;
use vstd::prelude::*;

verus! {

/// What decides an item's place: its size, and its name where sizes are equal.
pub struct Weight {
    pub size: u64,
    pub name: Vec<char>,
}

impl View for Weight {
    type V = (u64, Seq<char>);

    open spec fn view(&self) -> (u64, Seq<char>) {
        (self.size, self.name@)
    }
}

/// The views of the weights.
pub open spec fn keys(w: Seq<Weight>) -> Seq<(u64, Seq<char>)> {
    w.map_values(|x: Weight| x@)
}

/// Whether `a` comes before `b` in the order of their code points.
pub open spec fn lex_less(a: Seq<char>, b: Seq<char>) -> bool
    decreases a.len(),
{
    if b.len() == 0 {
        false
    } else if a.len() == 0 {
        true
    } else if a[0] == b[0] {
        lex_less(a.drop_first(), b.drop_first())
    } else {
        a[0] < b[0]
    }
}

/// Whether item `i` is taken before item `j`: the larger first, then by name, then by position.
pub open spec fn ahead(k: Seq<(u64, Seq<char>)>, i: int, j: int) -> bool {
    ||| k[i].0 > k[j].0
    ||| k[i].0 == k[j].0 && lex_less(k[i].1, k[j].1)
    ||| k[i].0 == k[j].0 && k[i].1 == k[j].1 && i < j
}

/// Whether `order` lists every item once, in the order in which they are taken.
pub open spec fn is_lpt_order(k: Seq<(u64, Seq<char>)>, order: Seq<int>) -> bool {
    &&& order.len() == k.len()
    &&& forall|i: int| 0 <= i < order.len() ==> 0 <= #[trigger] order[i] < k.len()
    &&& forall|i: int, j: int|
        0 <= i < j < order.len() ==> ahead(k, #[trigger] order[i], #[trigger] order[j])
}

/// The sum of two loads, held at the largest 64-bit number.
pub open spec fn saturated(a: u64, b: u64) -> u64 {
    if a + b > u64::MAX {
        u64::MAX
    } else {
        (a + b) as u64
    }
}

/// Whether `b` is the first of the bins with the least load.
pub open spec fn is_lightest(loads: Seq<u64>, b: int) -> bool {
    &&& 0 <= b < loads.len()
    &&& forall|j: int| 0 <= j < loads.len() ==> loads[b] <= #[trigger] loads[j]
    &&& forall|j: int| 0 <= j < b ==> loads[b] < #[trigger] loads[j]
}

/// The first of the bins with the least load.
pub open spec fn lightest(loads: Seq<u64>) -> int {
    choose|b: int| is_lightest(loads, b)
}

/// The loads of `count` bins after the items of `order` were placed.
pub open spec fn loads_after(
    k: Seq<(u64, Seq<char>)>,
    order: Seq<int>,
    count: int,
) -> Seq<u64>
    decreases order.len(),
{
    if order.len() == 0 {
        Seq::new(count as nat, |i: int| 0u64)
    } else {
        let before = loads_after(k, order.drop_last(), count);
        let b = lightest(before);
        before.update(b, saturated(before[b], k[order.last()].0))
    }
}

/// Whether `owners` gives each item the bin that was lightest when its turn came.
pub open spec fn assigned(
    k: Seq<(u64, Seq<char>)>,
    order: Seq<int>,
    count: int,
    owners: Seq<usize>,
) -> bool {
    &&& owners.len() == k.len()
    &&& forall|t: int|
        #![trigger order[t]]
        0 <= t < order.len() ==> owners[order[t]] == lightest(loads_after(k, order.take(t), count))
}

/// Whether `owners` is the LPT partition of the items over `count` bins.
pub open spec fn is_lpt(k: Seq<(u64, Seq<char>)>, count: int, owners: Seq<usize>) -> bool {
    exists|order: Seq<int>| #[trigger]
        is_lpt_order(k, order) && assigned(k, order, count, owners)
}

pub proof fn lemma_lex(a: Seq<char>, b: Seq<char>)
    ensures
        lex_less(a, b) ==> !lex_less(b, a) && a != b,
        !lex_less(a, b) && !lex_less(b, a) ==> a == b,
    decreases a.len(),
{
    if a.len() > 0 && b.len() > 0 && a[0] == b[0] {
        lemma_lex(a.drop_first(), b.drop_first());
        if a.drop_first() == b.drop_first() {
            assert(a =~= seq![a[0]] + a.drop_first());
            assert(b =~= seq![b[0]] + b.drop_first());
        }
    } else if a.len() == 0 && b.len() == 0 {
        assert(a =~= b);
    }
}

pub proof fn lemma_lex_transitive(a: Seq<char>, b: Seq<char>, c: Seq<char>)
    requires
        lex_less(a, b),
        lex_less(b, c),
    ensures
        lex_less(a, c),
    decreases a.len(),
{
    if a.len() > 0 && b.len() > 0 && c.len() > 0 && a[0] == b[0] && b[0] == c[0] {
        lemma_lex_transitive(a.drop_first(), b.drop_first(), c.drop_first());
    }
}

proof fn lemma_ahead_total(k: Seq<(u64, Seq<char>)>, i: int, j: int)
    ensures
        ahead(k, i, j) ==> !ahead(k, j, i),
        i != j ==> ahead(k, i, j) || ahead(k, j, i),
        !ahead(k, i, i),
{
    lemma_lex(k[i].1, k[j].1);
    lemma_lex(k[i].1, k[i].1);
}

proof fn lemma_ahead_transitive(k: Seq<(u64, Seq<char>)>, a: int, b: int, c: int)
    requires
        ahead(k, a, b),
        ahead(k, b, c),
    ensures
        ahead(k, a, c),
{
    lemma_lex(k[a].1, k[b].1);
    lemma_lex(k[b].1, k[c].1);
    if lex_less(k[a].1, k[b].1) && lex_less(k[b].1, k[c].1) {
        lemma_lex_transitive(k[a].1, k[b].1, k[c].1);
    }
}

/// Whether `a` comes before `b` in the order of their code points.
pub fn name_less(a: &Vec<char>, b: &Vec<char>) -> (out: bool)
    ensures
        out == lex_less(a@, b@),
{
    let mut i: usize = 0;
    assert(a@.skip(0) == a@);
    assert(b@.skip(0) == b@);
    while i < a.len() && i < b.len() && a[i] == b[i]
        invariant
            i <= a.len(),
            i <= b.len(),
            lex_less(a@, b@) == lex_less(a@.skip(i as int), b@.skip(i as int)),
        decreases a.len() - i,
    {
        assert(a@.skip(i as int).drop_first() == a@.skip(i + 1));
        assert(b@.skip(i as int).drop_first() == b@.skip(i + 1));
        i += 1;
    }
    if i >= b.len() {
        false
    } else if i >= a.len() {
        true
    } else {
        a[i] < b[i]
    }
}

/// Whether item `i` is taken before item `j`.
pub fn goes_first(w: &Vec<Weight>, i: usize, j: usize) -> (out: bool)
    requires
        i < w@.len(),
        j < w@.len(),
    ensures
        out == ahead(keys(w@), i as int, j as int),
{
    let a = &w[i];
    let b = &w[j];
    if a.size != b.size {
        return a.size > b.size;
    }
    let less = name_less(&a.name, &b.name);
    let more = name_less(&b.name, &a.name);
    proof {
        lemma_lex(a.name@, b.name@);
    }
    less || (!more && i < j)
}

/// Whether no item of `s` is taken after a later one of `s`.
spec fn in_order(k: Seq<(u64, Seq<char>)>, s: Seq<usize>) -> bool {
    forall|i: int, j: int|
        0 <= i < j < s.len() ==> s[i] == s[j] || ahead(k, #[trigger] s[i] as int, #[trigger] s[j] as int)
}

spec fn in_range(n: int, s: Seq<usize>) -> bool {
    forall|i: int| 0 <= i < s.len() ==> #[trigger] s[i] < n
}

/// Whether each item of `s` is `x` or taken before `x`.
spec fn all_before(k: Seq<(u64, Seq<char>)>, s: Seq<usize>, x: usize) -> bool {
    forall|i: int| 0 <= i < s.len() ==> #[trigger] s[i] == x || ahead(k, s[i] as int, x as int)
}

proof fn lemma_take_push<T>(s: Seq<T>, i: int)
    requires
        0 <= i < s.len(),
    ensures
        s.take(i + 1) == s.take(i).push(s[i]),
        s.take(i + 1).to_multiset() == s.take(i).to_multiset().insert(s[i]),
{
    broadcast use vstd::seq_lib::group_to_multiset_ensures;

    assert(s.take(i + 1) =~= s.take(i).push(s[i]));
}

fn merge(w: &Vec<Weight>, a: &Vec<usize>, b: &Vec<usize>) -> (out: Vec<usize>)
    requires
        in_range(w@.len() as int, a@),
        in_range(w@.len() as int, b@),
        in_order(keys(w@), a@),
        in_order(keys(w@), b@),
    ensures
        in_order(keys(w@), out@),
        in_range(w@.len() as int, out@),
        out@.to_multiset() == a@.to_multiset().add(b@.to_multiset()),
{
    broadcast use vstd::seq_lib::group_to_multiset_ensures;

    let ghost k = keys(w@);
    let mut out: Vec<usize> = Vec::new();
    let mut i: usize = 0;
    let mut j: usize = 0;
    assert(a@.take(0) =~= Seq::<usize>::empty());
    assert(b@.take(0) =~= Seq::<usize>::empty());
    assert(out@.to_multiset() =~= a@.take(0).to_multiset().add(b@.take(0).to_multiset()));
    while i < a.len() || j < b.len()
        invariant
            k == keys(w@),
            i <= a@.len(),
            j <= b@.len(),
            in_range(w@.len() as int, a@),
            in_range(w@.len() as int, b@),
            in_range(w@.len() as int, out@),
            in_order(k, a@),
            in_order(k, b@),
            in_order(k, out@),
            out@.to_multiset() == a@.take(i as int).to_multiset().add(b@.take(j as int).to_multiset()),
            forall|t: int| i <= t < a@.len() ==> all_before(k, out@, #[trigger] a@[t]),
            forall|t: int| j <= t < b@.len() ==> all_before(k, out@, #[trigger] b@[t]),
        decreases a@.len() - i + b@.len() - j,
    {
        let from_a = if i == a.len() {
            false
        } else if j == b.len() {
            true
        } else {
            goes_first(w, a[i], b[j])
        };
        let ghost before = out@;
        let x = if from_a {
            a[i]
        } else {
            b[j]
        };
        proof {
            if i < a@.len() {
                assert(all_before(k, out@, a@[i as int]));
            }
            if j < b@.len() {
                assert(all_before(k, out@, b@[j as int]));
            }
            if i < a@.len() && j < b@.len() {
                lemma_ahead_total(k, a@[i as int] as int, b@[j as int] as int);
            }
        }
        out.push(x);
        proof {
            assert forall|t: int|
                i + (if from_a { 1int } else { 0 }) <= t < a@.len() implies all_before(
                k,
                out@,
                #[trigger] a@[t],
            ) by {
                assert(all_before(k, before, a@[t]));
                assert(a@[i as int] == a@[t] || ahead(k, a@[i as int] as int, a@[t] as int));
                if !from_a && x != a@[t] && a@[i as int] != a@[t] && x != a@[i as int] {
                    lemma_ahead_transitive(k, x as int, a@[i as int] as int, a@[t] as int);
                }
                assert forall|q: int| 0 <= q < out@.len() implies #[trigger] out@[q] == a@[t]
                    || ahead(k, out@[q] as int, a@[t] as int) by {
                    if q < before.len() {
                        assert(before[q] == out@[q]);
                    }
                }
            }
            assert forall|t: int|
                j + (if from_a { 0int } else { 1 }) <= t < b@.len() implies all_before(
                k,
                out@,
                #[trigger] b@[t],
            ) by {
                assert(all_before(k, before, b@[t]));
                assert(b@[j as int] == b@[t] || ahead(k, b@[j as int] as int, b@[t] as int));
                if from_a && x != b@[t] && b@[j as int] != b@[t] && x != b@[j as int] {
                    lemma_ahead_transitive(k, x as int, b@[j as int] as int, b@[t] as int);
                }
                assert forall|q: int| 0 <= q < out@.len() implies #[trigger] out@[q] == b@[t]
                    || ahead(k, out@[q] as int, b@[t] as int) by {
                    if q < before.len() {
                        assert(before[q] == out@[q]);
                    }
                }
            }
            assert(all_before(k, before, x));
            assert forall|p: int, q: int| 0 <= p < q < out@.len() implies out@[p] == out@[q]
                || ahead(k, #[trigger] out@[p] as int, #[trigger] out@[q] as int) by {
                if q < before.len() {
                    assert(before[p] == out@[p]);
                    assert(before[q] == out@[q]);
                } else {
                    assert(before[p] == out@[p]);
                }
            }
            lemma_take_push(out@, before.len() as int);
            assert(out@.take(before.len() as int) == before);
            assert(out@.take(before.len() as int + 1) == out@);
            if from_a {
                lemma_take_push(a@, i as int);
                assert(out@.to_multiset() =~= a@.take(i + 1).to_multiset().add(
                    b@.take(j as int).to_multiset(),
                ));
            } else {
                lemma_take_push(b@, j as int);
                assert(out@.to_multiset() =~= a@.take(i as int).to_multiset().add(
                    b@.take(j + 1).to_multiset(),
                ));
            }
        }
        if from_a {
            i += 1;
        } else {
            j += 1;
        }
    }
    assert(a@.take(a@.len() as int) =~= a@);
    assert(b@.take(b@.len() as int) =~= b@);
    out
}

fn sort_range(w: &Vec<Weight>, from: usize, to: usize) -> (out: Vec<usize>)
    requires
        from <= to <= w@.len(),
    ensures
        in_order(keys(w@), out@),
        in_range(w@.len() as int, out@),
        out@.to_multiset() == Seq::new((to - from) as nat, |i: int| (from + i) as usize).to_multiset(),
    decreases to - from,
{
    broadcast use vstd::seq_lib::group_to_multiset_ensures;

    let ghost all = Seq::new((to - from) as nat, |i: int| (from + i) as usize);
    if to - from <= 1 {
        let mut out: Vec<usize> = Vec::new();
        if to > from {
            out.push(from);
        }
        assert(out@ =~= all);
        return out;
    }
    let mid: usize = from + (to - from) / 2;
    let a = sort_range(w, from, mid);
    let b = sort_range(w, mid, to);
    proof {
        let left = Seq::new((mid - from) as nat, |i: int| (from + i) as usize);
        let right = Seq::new((to - mid) as nat, |i: int| (mid + i) as usize);
        assert(all =~= left + right);
        vstd::seq_lib::lemma_multiset_commutative(left, right);
    }
    merge(w, &a, &b)
}

/// Each of the numbers below `n` occurs in a sequence of `n` different ones.
proof fn lemma_all_occur(s: Seq<int>, n: int)
    requires
        s.len() == n,
        forall|i: int| 0 <= i < s.len() ==> 0 <= #[trigger] s[i] < n,
        s.no_duplicates(),
    ensures
        forall|x: int| 0 <= x < n ==> #[trigger] s.contains(x),
{
    let range = vstd::set_lib::set_int_range(0, n);
    vstd::set_lib::lemma_int_range(0, n);
    s.unique_seq_to_set();
    assert(s.to_set().subset_of(range)) by {
        assert forall|x: int| s.to_set().contains(x) implies range.contains(x) by {
            let i = choose|i: int| 0 <= i < s.len() && s[i] == x;
            assert(0 <= s[i] < n);
        }
    }
    vstd::set_lib::lemma_subset_equality(s.to_set(), range);
    assert forall|x: int| 0 <= x < n implies #[trigger] s.contains(x) by {
        assert(range.contains(x));
        assert(s.to_set().contains(x));
    }
}

pub proof fn lemma_order_no_duplicates(k: Seq<(u64, Seq<char>)>, order: Seq<int>)
    requires
        is_lpt_order(k, order),
    ensures
        order.no_duplicates(),
        forall|x: int| 0 <= x < k.len() ==> #[trigger] order.contains(x),
{
    assert forall|i: int, j: int| 0 <= i < order.len() && 0 <= j < order.len() && i != j implies order[i]
        != order[j] by {
        if i < j {
            lemma_ahead_total(k, order[i], order[j]);
        } else {
            lemma_ahead_total(k, order[j], order[i]);
        }
    }
    lemma_all_occur(order, k.len() as int);
}

/// The view of a vector of indices as integers.
pub open spec fn as_ints(s: Seq<usize>) -> Seq<int> {
    s.map_values(|x: usize| x as int)
}

/// The indices of the items in the order in which they are taken.
pub fn lpt_order(w: &Vec<Weight>) -> (out: Vec<usize>)
    ensures
        is_lpt_order(keys(w@), as_ints(out@)),
{
    broadcast use vstd::seq_lib::group_to_multiset_ensures;

    let out = sort_range(w, 0, w.len());
    proof {
        let k = keys(w@);
        let all = Seq::new(w@.len(), |i: int| i as usize);
        assert(all =~= Seq::new((w@.len() - 0) as nat, |i: int| (0 + i) as usize));
        assert(all.no_duplicates());
        all.lemma_multiset_has_no_duplicates();
        out@.lemma_multiset_has_no_duplicates_conv();
        assert(out@.len() == all.len()) by {
            assert(out@.len() == out@.to_multiset().len());
            assert(all.len() == all.to_multiset().len());
        }
        let o = as_ints(out@);
        assert forall|i: int, j: int| 0 <= i < j < o.len() implies ahead(
            k,
            #[trigger] o[i],
            #[trigger] o[j],
        ) by {
            assert(out@[i] != out@[j]);
        }
        assert forall|i: int| 0 <= i < o.len() implies 0 <= #[trigger] o[i] < k.len() by {
            assert(out@[i] < w@.len());
        }
    }
    out
}

proof fn lemma_lightest_exists(loads: Seq<u64>)
    requires
        loads.len() > 0,
    ensures
        is_lightest(loads, lightest(loads)),
    decreases loads.len(),
{
    let b = lemma_lightest_witness(loads);
    assert(is_lightest(loads, b));
}

proof fn lemma_lightest_witness(loads: Seq<u64>) -> (b: int)
    requires
        loads.len() > 0,
    ensures
        is_lightest(loads, b),
    decreases loads.len(),
{
    if loads.len() == 1 {
        0
    } else {
        let front = loads.drop_last();
        let b = lemma_lightest_witness(front);
        assert(forall|j: int| 0 <= j < front.len() ==> #[trigger] loads[j] == front[j]);
        if loads.last() < loads[b] {
            loads.len() - 1
        } else {
            b
        }
    }
}

/// There is one first bin with the least load.
pub proof fn lemma_lightest_unique(loads: Seq<u64>, b: int)
    requires
        is_lightest(loads, b),
    ensures
        lightest(loads) == b,
{
    let c = lightest(loads);
    assert(is_lightest(loads, c));
    if c < b {
        assert(loads[b] < loads[c]);
    }
    if b < c {
        assert(loads[c] < loads[b]);
    }
}

/// There are as many loads as bins, and some bin is the lightest.
pub proof fn lemma_loads_len(k: Seq<(u64, Seq<char>)>, order: Seq<int>, count: int)
    requires
        count > 0,
    ensures
        loads_after(k, order, count).len() == count,
        is_lightest(loads_after(k, order, count), lightest(loads_after(k, order, count))),
    decreases order.len(),
{
    if order.len() > 0 {
        lemma_loads_len(k, order.drop_last(), count);
    }
    lemma_lightest_exists(loads_after(k, order, count));
}

/// The first of the bins with the least load.
pub fn lightest_bin(loads: &Vec<u64>) -> (b: usize)
    requires
        loads@.len() > 0,
    ensures
        is_lightest(loads@, b as int),
        b == lightest(loads@),
{
    let mut b: usize = 0;
    let mut i: usize = 1;
    while i < loads.len()
        invariant
            b < i <= loads@.len(),
            forall|j: int| 0 <= j < i ==> loads@[b as int] <= #[trigger] loads@[j],
            forall|j: int| 0 <= j < b ==> loads@[b as int] < #[trigger] loads@[j],
        decreases loads@.len() - i,
    {
        if loads[i] < loads[b] {
            b = i;
        }
        i += 1;
    }
    proof {
        lemma_lightest_unique(loads@, b as int);
    }
    b
}

/// The bin of each item in the LPT partition over `count` bins.
pub fn lpt_owners(w: &Vec<Weight>, count: usize) -> (owners: Vec<usize>)
    requires
        count > 0,
    ensures
        is_lpt(keys(w@), count as int, owners@),
        owners@.len() == w@.len(),
        forall|i: int| 0 <= i < owners@.len() ==> #[trigger] owners@[i] < count,
{
    let order = lpt_order(w);
    let ghost k = keys(w@);
    let ghost o = as_ints(order@);
    let mut loads: Vec<u64> = vec![0u64; count];
    let mut owners: Vec<usize> = vec![0usize; w.len()];
    assert(o.take(0) =~= Seq::<int>::empty());
    assert(loads@ =~= loads_after(k, o.take(0), count as int));
    let mut t: usize = 0;
    while t < order.len()
        invariant
            t <= order@.len(),
            count > 0,
            k == keys(w@),
            o == as_ints(order@),
            is_lpt_order(k, o),
            owners@.len() == w@.len(),
            loads@ == loads_after(k, o.take(t as int), count as int),
            loads@.len() == count,
            forall|i: int| 0 <= i < owners@.len() ==> #[trigger] owners@[i] < count,
            forall|i: int|
                0 <= i < t ==> owners@[#[trigger] o[i]] == lightest(
                    loads_after(k, o.take(i), count as int),
                ),
        decreases order@.len() - t,
    {
        let item = order[t];
        assert(o[t as int] == item);
        let bin = lightest_bin(&loads);
        let size = w[item].size;
        let load = loads[bin].saturating_add(size);
        proof {
            assert(o.take(t + 1).drop_last() == o.take(t as int));
            assert(o.take(t + 1).last() == item);
            lemma_order_no_duplicates(k, o);
        }
        loads.set(bin, load);
        let ghost before = owners@;
        owners.set(item, bin);
        proof {
            assert forall|i: int| 0 <= i < t + 1 implies owners@[#[trigger] o[i]] == lightest(
                loads_after(k, o.take(i), count as int),
            ) by {
                if i < t {
                    assert(o[i] != o[t as int]);
                    assert(owners@[o[i]] == before[o[i]]);
                }
            }
        }
        t += 1;
    }
    assert(assigned(k, o, count as int, owners@));
    owners
}

/// The items whose bin is `idx`, in their order.
pub open spec fn owned_by<T>(items: Seq<T>, owners: Seq<usize>, idx: int) -> Seq<T>
    decreases items.len(),
{
    if items.len() == 0 {
        Seq::empty()
    } else {
        let front = owned_by(items.drop_last(), owners, idx);
        if owners[items.len() - 1] == idx {
            front.push(items.last())
        } else {
            front
        }
    }
}

/// Keeps of `items` those whose bin is `idx`, in their order.
pub fn keep_owned<T>(items: &mut Vec<T>, owners: &Vec<usize>, idx: usize)
    requires
        owners@.len() == old(items)@.len(),
    ensures
        final(items)@ == owned_by(old(items)@, owners@, idx as int),
{
    let ghost all = items@;
    let mut kept: Vec<T> = Vec::new();
    let ghost o = owners@;
    while items.len() > 0
        invariant
            items@.len() <= all.len(),
            owners@.len() == all.len(),
            o == owners@,
            items@ == all.take(items@.len() as int),
            owned_by(items@, o, idx as int) + kept@.reverse() == owned_by(all, o, idx as int),
        decreases items@.len(),
    {
        let ghost before = items@;
        let ghost kept_before = kept@;
        match items.pop() {
            Some(t) => {
                if owners[items.len()] == idx {
                    kept.push(t);
                    assert(kept@.reverse() == seq![t] + kept_before.reverse());
                }
                assert(before.drop_last() == items@);
                assert(items@ == all.take(items@.len() as int));
                assert(owned_by(items@, o, idx as int) + kept@.reverse() == owned_by(
                    before,
                    o,
                    idx as int,
                ) + kept_before.reverse());
            },
            None => {},
        }
    }
    let ghost back = kept@;
    assert(owned_by(items@, o, idx as int) + back.reverse() == back.reverse());
    while kept.len() > 0
        invariant
            kept@.len() <= back.len(),
            kept@ == back.take(kept@.len() as int),
            items@ + kept@.reverse() == back.reverse(),
        decreases kept@.len(),
    {
        let ghost before = kept@;
        match kept.pop() {
            Some(t) => {
                items.push(t);
                assert(before.reverse() == seq![t] + kept@.reverse());
                assert(kept@ == back.take(kept@.len() as int));
            },
            None => {},
        }
    }
}

/// Keeping the items that are marked is filtering by what the marks say.
pub proof fn lemma_owned_is_filter<T>(
    items: Seq<T>,
    owners: Seq<usize>,
    idx: int,
    p: spec_fn(T) -> bool,
)
    requires
        owners.len() >= items.len(),
        forall|i: int| 0 <= i < items.len() ==> (#[trigger] owners[i] == idx <==> p(items[i])),
    ensures
        owned_by(items, owners, idx) == items.filter(p),
    decreases items.len(),
{
    reveal(Seq::filter);
    if items.len() > 0 {
        lemma_owned_is_filter(items.drop_last(), owners, idx, p);
        assert(owners[items.len() - 1] == idx <==> p(items.last()));
    }
}

/// Whether `k` holds for each item what `size` and `name` return of it.
pub open spec fn keyed<T, F: Fn(&T) -> String, S: Fn(&T) -> u64>(
    items: Seq<T>,
    name: F,
    size: S,
    k: Seq<(u64, Seq<char>)>,
) -> bool {
    &&& k.len() == items.len()
    &&& forall|i: int|
        0 <= i < items.len() ==> size.ensures((&#[trigger] items[i],), k[i].0) && exists|n: String|
            #[trigger] name.ensures((&items[i],), n) && n@ == k[i].1
}

/// Whether `kept` is what bin `idx` of `count` holds in the LPT partition of the items.
pub open spec fn is_shard<T, F: Fn(&T) -> String, S: Fn(&T) -> u64>(
    items: Seq<T>,
    kept: Seq<T>,
    idx: int,
    count: int,
    name: F,
    size: S,
) -> bool {
    exists|k: Seq<(u64, Seq<char>)>, owners: Seq<usize>|
        keyed(items, name, size, k) && #[trigger] is_lpt(k, count, owners) && kept == owned_by(
            items,
            owners,
            idx,
        )
}

/// Keeps of `items` those that belong to shard `idx` of `count`; all of them where there is no
/// shard or only one.
///
/// Each worker runs this on the full listing. The partition depends on the sizes, the names and
/// the order of the items alone, so the workers agree on it without talking to each other.
pub fn apply_shard<T, F, S>(items: &mut Vec<T>, shard: Option<(usize, usize)>, name: F, size: S)
    where F: Fn(&T) -> String, S: Fn(&T) -> u64
    requires
        forall|t: &T| name.requires((t,)),
        forall|t: &T| size.requires((t,)),
    ensures
        match shard {
            Some((idx, count)) => if count <= 1 {
                final(items)@ == old(items)@
            } else {
                is_shard(old(items)@, final(items)@, idx as int, count as int, name, size)
            },
            None => final(items)@ == old(items)@,
        },
{
    let (idx, count) = match shard {
        Some(s) => s,
        None => return,
    };
    if count <= 1 {
        return;
    }
    let ghost all = items@;
    let mut weights: Vec<Weight> = Vec::new();
    let mut i: usize = 0;
    while i < items.len()
        invariant
            i <= items@.len(),
            items@ == all,
            forall|t: &T| name.requires((t,)),
            forall|t: &T| size.requires((t,)),
            keyed(all.take(i as int), name, size, keys(weights@)),
        decreases items@.len() - i,
    {
        let ghost before = weights@;
        let sz = size(&items[i]);
        let text = name(&items[i]);
        weights.push(Weight { size: sz, name: chars_of(text.as_str()) });
        proof {
            let k = keys(weights@);
            let part = all.take(i + 1);
            assert forall|j: int| 0 <= j < part.len() implies size.ensures(
                (&#[trigger] part[j],),
                k[j].0,
            ) && exists|n: String| #[trigger] name.ensures((&part[j],), n) && n@ == k[j].1 by {
                if j < i {
                    assert(all.take(i as int)[j] == part[j]);
                    assert(keys(before)[j] == k[j]);
                } else {
                    assert(name.ensures((&part[j],), text) && text@ == k[j].1);
                }
            }
        }
        i += 1;
    }
    assert(all.take(all.len() as int) == all);
    let owners = lpt_owners(&weights, count);
    let ghost o = owners@;
    keep_owned(items, &owners, idx);
    assert(items@ == owned_by(all, o, idx as int));
    assert(keyed(all, name, size, keys(weights@)) && is_lpt(keys(weights@), count as int, o));
}

/// The order in which the items are taken is fixed by their keys.
pub proof fn law_order_unique(k: Seq<(u64, Seq<char>)>, a: Seq<int>, b: Seq<int>)
    requires
        is_lpt_order(k, a),
        is_lpt_order(k, b),
    ensures
        a == b,
{
    lemma_order_no_duplicates(k, a);
    lemma_order_no_duplicates(k, b);
    assert forall|t: int| 0 <= t < a.len() implies a[t] == b[t] by {
        lemma_order_agrees(k, a, b, t);
    }
    assert(a =~= b);
}

proof fn lemma_order_agrees(k: Seq<(u64, Seq<char>)>, a: Seq<int>, b: Seq<int>, t: int)
    requires
        is_lpt_order(k, a),
        is_lpt_order(k, b),
        a.no_duplicates(),
        b.no_duplicates(),
        forall|x: int| 0 <= x < k.len() ==> #[trigger] a.contains(x),
        forall|x: int| 0 <= x < k.len() ==> #[trigger] b.contains(x),
        0 <= t < a.len(),
    ensures
        a[t] == b[t],
    decreases t,
{
    assert forall|u: int| 0 <= u < t implies a[u] == b[u] by {
        lemma_order_agrees(k, a, b, u);
    }
    if a[t] != b[t] {
        assert(b.contains(a[t]));
        let i = choose|i: int| 0 <= i < b.len() && b[i] == a[t];
        assert(a.contains(b[t]));
        let j = choose|j: int| 0 <= j < a.len() && a[j] == b[t];
        if i < t {
            assert(a[i] == b[i]);
        }
        if j < t {
            assert(a[j] == b[j]);
        }
        assert(t < i && t < j);
        assert(ahead(k, b[t], b[i]));
        assert(ahead(k, a[t], a[j]));
        lemma_ahead_total(k, a[t], b[t]);
    }
}

/// The partition is fixed by the keys: two workers that see the same items in the same order
/// compute the same owners.
pub proof fn law_partition_unique(
    k: Seq<(u64, Seq<char>)>,
    count: int,
    a: Seq<usize>,
    b: Seq<usize>,
)
    requires
        is_lpt(k, count, a),
        is_lpt(k, count, b),
    ensures
        a == b,
{
    let p = choose|p: Seq<int>| #[trigger] is_lpt_order(k, p) && assigned(k, p, count, a);
    let q = choose|q: Seq<int>| #[trigger] is_lpt_order(k, q) && assigned(k, q, count, b);
    law_order_unique(k, p, q);
    lemma_order_no_duplicates(k, p);
    assert forall|i: int| 0 <= i < a.len() implies a[i] == b[i] by {
        assert(p.contains(i));
        let t = choose|t: int| 0 <= t < p.len() && p[t] == i;
        assert(a[p[t]] == lightest(loads_after(k, p.take(t), count)));
        assert(b[q[t]] == lightest(loads_after(k, q.take(t), count)));
    }
    assert(a =~= b);
}

/// Items that are listed in another order are taken in the same order, where no two have the
/// same size and name.
proof fn lemma_same_keys_in_turn(
    k: Seq<(u64, Seq<char>)>,
    l: Seq<(u64, Seq<char>)>,
    p: Seq<int>,
    q: Seq<int>,
    t: int,
)
    requires
        is_lpt_order(k, p),
        is_lpt_order(l, q),
        p.no_duplicates(),
        q.no_duplicates(),
        forall|x: int| 0 <= x < k.len() ==> #[trigger] p.contains(x),
        forall|x: int| 0 <= x < l.len() ==> #[trigger] q.contains(x),
        k.no_duplicates(),
        l.no_duplicates(),
        k.len() == l.len(),
        forall|x: (u64, Seq<char>)| #[trigger] k.contains(x) <==> l.contains(x),
        0 <= t < p.len(),
    ensures
        k[p[t]] == l[q[t]],
    decreases t,
{
    assert forall|u: int| 0 <= u < t implies k[p[u]] == l[q[u]] by {
        lemma_same_keys_in_turn(k, l, p, q, u);
    }
    let x = k[p[t]];
    let y = l[q[t]];
    if x != y {
        assert(k.contains(x) && l.contains(y));
        assert(k.contains(y) && l.contains(x));
        let j = l.index_of(x);
        assert(q.contains(j));
        let b = q.index_of(j);
        let i = k.index_of(y);
        assert(p.contains(i));
        let a = p.index_of(i);
        if b < t {
            assert(k[p[b]] == l[q[b]]);
            assert(p[b] != p[t]);
        }
        if a < t {
            assert(k[p[a]] == l[q[a]]);
            assert(q[a] != q[t]);
        }
        assert(t < a && t < b);
        assert(ahead(k, p[t], p[a]));
        assert(ahead(l, q[t], q[b]));
        lemma_lex(x.1, y.1);
    }
}

proof fn lemma_same_loads(
    k: Seq<(u64, Seq<char>)>,
    l: Seq<(u64, Seq<char>)>,
    p: Seq<int>,
    q: Seq<int>,
    count: int,
)
    requires
        p.len() == q.len(),
        forall|t: int| 0 <= t < p.len() ==> k[#[trigger] p[t]] == l[q[t]],
    ensures
        loads_after(k, p, count) == loads_after(l, q, count),
    decreases p.len(),
{
    if p.len() > 0 {
        assert forall|t: int| 0 <= t < p.drop_last().len() implies k[#[trigger] p.drop_last()[t]]
            == l[q.drop_last()[t]] by {
            assert(k[p[t]] == l[q[t]]);
        }
        lemma_same_loads(k, l, p.drop_last(), q.drop_last(), count);
        assert(k[p[p.len() - 1]] == l[q[p.len() - 1]]);
    }
}

/// The partition depends on sizes and names alone: where no two items have the same size and
/// name, an item belongs to the same bin in whatever order the items are listed.
pub proof fn law_listing_order_does_not_matter(
    k: Seq<(u64, Seq<char>)>,
    l: Seq<(u64, Seq<char>)>,
    count: int,
    a: Seq<usize>,
    b: Seq<usize>,
    i: int,
    j: int,
)
    requires
        k.no_duplicates(),
        k.to_multiset() == l.to_multiset(),
        is_lpt(k, count, a),
        is_lpt(l, count, b),
        0 <= i < k.len(),
        0 <= j < l.len(),
        k[i] == l[j],
    ensures
        a[i] == b[j],
{
    broadcast use vstd::seq_lib::group_to_multiset_ensures;

    let p = choose|p: Seq<int>| #[trigger] is_lpt_order(k, p) && assigned(k, p, count, a);
    let q = choose|q: Seq<int>| #[trigger] is_lpt_order(l, q) && assigned(l, q, count, b);
    lemma_order_no_duplicates(k, p);
    lemma_order_no_duplicates(l, q);
    assert(k.len() == k.to_multiset().len());
    assert(l.len() == l.to_multiset().len());
    k.lemma_multiset_has_no_duplicates();
    l.lemma_multiset_has_no_duplicates_conv();
    assert forall|x: (u64, Seq<char>)| #[trigger] k.contains(x) <==> l.contains(x) by {
        assert(k.contains(x) <==> k.to_multiset().count(x) > 0);
        assert(l.contains(x) <==> l.to_multiset().count(x) > 0);
    }
    assert forall|t: int| 0 <= t < p.len() implies k[#[trigger] p[t]] == l[q[t]] by {
        lemma_same_keys_in_turn(k, l, p, q, t);
    }
    assert(p.contains(i));
    let t = p.index_of(i);
    assert(k[p[t]] == l[q[t]]);
    assert(q[t] == j);
    assert forall|u: int| 0 <= u < p.take(t).len() implies k[#[trigger] p.take(t)[u]] == l[q.take(
        t,
    )[u]] by {
        assert(k[p[u]] == l[q[u]]);
    }
    lemma_same_loads(k, l, p.take(t), q.take(t), count);
    assert(a[p[t]] == lightest(loads_after(k, p.take(t), count)));
    assert(b[q[t]] == lightest(loads_after(l, q.take(t), count)));
}

/// What a bin holds are the items that it owns.
proof fn lemma_owned_contains<T>(items: Seq<T>, owners: Seq<usize>, idx: int, x: T)
    requires
        owners.len() >= items.len(),
    ensures
        owned_by(items, owners, idx).contains(x) <==> exists|i: int|
            0 <= i < items.len() && #[trigger] items[i] == x && owners[i] == idx,
    decreases items.len(),
{
    if items.len() > 0 {
        let n = items.len() - 1;
        let all = owned_by(items, owners, idx);
        let front = owned_by(items.drop_last(), owners, idx);
        lemma_owned_contains(items.drop_last(), owners, idx, x);
        if front.contains(x) {
            let m = front.index_of(x);
            assert(all[m] == x);
            let i = choose|i: int|
                0 <= i < items.drop_last().len() && #[trigger] items.drop_last()[i] == x
                    && owners[i] == idx;
            assert(items[i] == x);
        }
        if items[n] == x && owners[n] == idx {
            assert(all.last() == x);
        }
        if exists|i: int| 0 <= i < items.len() && #[trigger] items[i] == x && owners[i] == idx {
            let i = choose|i: int|
                0 <= i < items.len() && #[trigger] items[i] == x && owners[i] == idx;
            if i < n {
                assert(items.drop_last()[i] == x);
            }
        }
        if all.contains(x) && !front.contains(x) {
            let m = all.index_of(x);
            if m < front.len() {
                assert(front[m] == x);
            }
            assert(items[n] == x);
        }
    }
}

/// Workers that list the same items in different orders still agree on their shards: where no
/// two items have the same size and name, each shard holds the same items.
pub proof fn law_shards_do_not_depend_on_listing_order<T>(
    v: Seq<T>,
    w: Seq<T>,
    key: spec_fn(T) -> (u64, Seq<char>),
    count: int,
    a: Seq<usize>,
    b: Seq<usize>,
    idx: int,
)
    requires
        v.map_values(key).no_duplicates(),
        v.to_multiset() == w.to_multiset(),
        count > 0,
        is_lpt(v.map_values(key), count, a),
        is_lpt(w.map_values(key), count, b),
    ensures
        owned_by(v, a, idx).to_set() == owned_by(w, b, idx).to_set(),
{
    broadcast use vstd::seq_lib::group_to_multiset_ensures;

    let k = v.map_values(key);
    let l = w.map_values(key);
    law_owners_are_bins(k, count, a);
    law_owners_are_bins(l, count, b);
    lemma_mapped_multiset(v, w, key);
    assert forall|x: T| owned_by(v, a, idx).contains(x) <==> owned_by(w, b, idx).contains(x) by {
        lemma_owned_contains(v, a, idx, x);
        lemma_owned_contains(w, b, idx, x);
        assert(v.contains(x) <==> v.to_multiset().count(x) > 0);
        assert(w.contains(x) <==> w.to_multiset().count(x) > 0);
        if v.contains(x) {
            let j = w.index_of(x);
            assert(l[j] == key(x));
            assert forall|i: int| 0 <= i < v.len() && #[trigger] v[i] == x implies a[i] == b[j] by {
                assert(k[i] == key(x));
                law_listing_order_does_not_matter(k, l, count, a, b, i, j);
            }
            let i = v.index_of(x);
            assert forall|m: int| 0 <= m < w.len() && #[trigger] w[m] == x implies a[i] == b[m] by {
                assert(k[i] == key(x) && l[m] == key(x));
                law_listing_order_does_not_matter(k, l, count, a, b, i, m);
            }
            assert(v[i] == x && w[j] == x);
        }
    }
    assert(owned_by(v, a, idx).to_set() =~= owned_by(w, b, idx).to_set());
}

/// Whether `name` and `size` return of each item what `key` says.
pub open spec fn reads_key<T, F: Fn(&T) -> String, S: Fn(&T) -> u64>(
    name: F,
    size: S,
    key: spec_fn(T) -> (u64, Seq<char>),
) -> bool {
    &&& forall|x: T, n: String| #[trigger] name.ensures((&x,), n) ==> n@ == key(x).1
    &&& forall|x: T, n: u64| #[trigger] size.ensures((&x,), n) ==> n == key(x).0
}

/// What is kept of a listing for a shard does not depend on the order of the listing, where no
/// two items have the same size and name.
pub proof fn law_kept_items_do_not_depend_on_listing_order<
    T,
    F: Fn(&T) -> String,
    S: Fn(&T) -> u64,
>(
    v: Seq<T>,
    w: Seq<T>,
    kept_of_v: Seq<T>,
    kept_of_w: Seq<T>,
    idx: int,
    count: int,
    name: F,
    size: S,
    key: spec_fn(T) -> (u64, Seq<char>),
)
    requires
        reads_key(name, size, key),
        v.map_values(key).no_duplicates(),
        v.to_multiset() == w.to_multiset(),
        count > 0,
        is_shard(v, kept_of_v, idx, count, name, size),
        is_shard(w, kept_of_w, idx, count, name, size),
    ensures
        kept_of_v.to_set() == kept_of_w.to_set(),
{
    let (k, a) = choose|k: Seq<(u64, Seq<char>)>, a: Seq<usize>|
        keyed(v, name, size, k) && #[trigger] is_lpt(k, count, a) && kept_of_v == owned_by(
            v,
            a,
            idx,
        );
    let (l, b) = choose|l: Seq<(u64, Seq<char>)>, b: Seq<usize>|
        keyed(w, name, size, l) && #[trigger] is_lpt(l, count, b) && kept_of_w == owned_by(
            w,
            b,
            idx,
        );
    lemma_keyed(v, name, size, k, key);
    lemma_keyed(w, name, size, l, key);
    law_shards_do_not_depend_on_listing_order(v, w, key, count, a, b, idx);
}

proof fn lemma_keyed<T, F: Fn(&T) -> String, S: Fn(&T) -> u64>(
    items: Seq<T>,
    name: F,
    size: S,
    k: Seq<(u64, Seq<char>)>,
    key: spec_fn(T) -> (u64, Seq<char>),
)
    requires
        reads_key(name, size, key),
        keyed(items, name, size, k),
    ensures
        k == items.map_values(key),
{
    assert forall|i: int| 0 <= i < items.len() implies k[i] == key(#[trigger] items[i]) by {
        assert(size.ensures((&items[i],), k[i].0));
        let n = choose|n: String| #[trigger] name.ensures((&items[i],), n) && n@ == k[i].1;
        assert(name.ensures((&items[i],), n));
    }
    assert(k =~= items.map_values(key));
}

proof fn lemma_mapped_multiset<T, U>(v: Seq<T>, w: Seq<T>, f: spec_fn(T) -> U)
    requires
        v.to_multiset() == w.to_multiset(),
    ensures
        v.map_values(f).to_multiset() == w.map_values(f).to_multiset(),
    decreases v.len(),
{
    broadcast use vstd::seq_lib::group_to_multiset_ensures;

    assert(v.len() == v.to_multiset().len());
    assert(w.len() == w.to_multiset().len());
    if v.len() == 0 {
        assert(v.map_values(f) =~= w.map_values(f));
    } else {
        let x = v.last();
        assert(v.contains(x));
        assert(v.to_multiset().count(x) > 0);
        assert(w.contains(x));
        let i = w.index_of(x);
        assert(v.drop_last() =~= v.remove(v.len() - 1));
        assert(v.drop_last().to_multiset() =~= w.remove(i).to_multiset());
        lemma_mapped_multiset(v.drop_last(), w.remove(i), f);
        let fv = v.map_values(f);
        let fw = w.map_values(f);
        assert(v.drop_last().map_values(f) =~= fv.remove(fv.len() - 1));
        assert(w.remove(i).map_values(f) =~= fw.remove(i));
        assert(fv.contains(fv[fv.len() - 1]));
        assert(fw.contains(fw[i]));
        assert(fv.to_multiset() =~= fv.remove(fv.len() - 1).to_multiset().insert(f(x)));
        assert(fw.to_multiset() =~= fw.remove(i).to_multiset().insert(f(x)));
    }
}

/// Every owner is one of the bins.
pub proof fn law_owners_are_bins(k: Seq<(u64, Seq<char>)>, count: int, owners: Seq<usize>)
    requires
        count > 0,
        is_lpt(k, count, owners),
    ensures
        owners.len() == k.len(),
        forall|i: int| 0 <= i < owners.len() ==> #[trigger] owners[i] < count,
{
    let p = choose|p: Seq<int>| #[trigger] is_lpt_order(k, p) && assigned(k, p, count, owners);
    lemma_order_no_duplicates(k, p);
    assert forall|i: int| 0 <= i < owners.len() implies #[trigger] owners[i] < count by {
        assert(p.contains(i));
        let t = choose|t: int| 0 <= t < p.len() && p[t] == i;
        assert(owners[p[t]] == lightest(loads_after(k, p.take(t), count)));
        lemma_loads_len(k, p.take(t), count);
    }
}

/// What the first `n` bins hold together.
pub open spec fn held_by<T>(
    items: Seq<T>,
    owners: Seq<usize>,
    n: nat,
) -> vstd::multiset::Multiset<T>
    decreases n,
{
    if n == 0 {
        vstd::multiset::Multiset::empty()
    } else {
        held_by(items, owners, (n - 1) as nat).add(
            owned_by(items, owners, n - 1).to_multiset(),
        )
    }
}

/// The shards together hold every item exactly once: nothing is lost and nothing is
/// transferred twice.
pub proof fn law_shards_partition<T>(items: Seq<T>, owners: Seq<usize>, count: nat)
    requires
        owners.len() == items.len(),
        forall|i: int| 0 <= i < owners.len() ==> #[trigger] owners[i] < count,
    ensures
        held_by(items, owners, count) == items.to_multiset(),
{
    lemma_held(items, owners, count, count);
}

/// The items whose bin is one of the first `n`.
spec fn below<T>(items: Seq<T>, owners: Seq<usize>, n: nat) -> Seq<T>
    decreases items.len(),
{
    if items.len() == 0 {
        Seq::empty()
    } else {
        let front = below(items.drop_last(), owners, n);
        if owners[items.len() - 1] < n {
            front.push(items.last())
        } else {
            front
        }
    }
}

proof fn lemma_below<T>(items: Seq<T>, owners: Seq<usize>, n: nat)
    ensures
        below(items, owners, n + 1).to_multiset() == below(items, owners, n).to_multiset().add(
            owned_by(items, owners, n as int).to_multiset(),
        ),
        below(items, owners, 0) == Seq::<T>::empty(),
        (forall|i: int| 0 <= i < items.len() ==> #[trigger] owners[i] < n) ==> below(
            items,
            owners,
            n,
        ) == items,
    decreases items.len(),
{
    broadcast use vstd::seq_lib::group_to_multiset_ensures;

    if items.len() == 0 {
        assert(below(items, owners, n + 1).to_multiset() =~= below(
            items,
            owners,
            n,
        ).to_multiset().add(owned_by(items, owners, n as int).to_multiset()));
        assert(items =~= Seq::<T>::empty());
    } else {
        lemma_below(items.drop_last(), owners, n);
        assert(below(items, owners, n + 1).to_multiset() =~= below(
            items,
            owners,
            n,
        ).to_multiset().add(owned_by(items, owners, n as int).to_multiset()));
        if forall|i: int| 0 <= i < items.len() ==> #[trigger] owners[i] < n {
            assert(items.drop_last().push(items.last()) =~= items);
        }
    }
}

proof fn lemma_held<T>(items: Seq<T>, owners: Seq<usize>, count: nat, n: nat)
    requires
        n <= count,
        forall|i: int| 0 <= i < items.len() ==> #[trigger] owners[i] < count,
    ensures
        held_by(items, owners, n) == below(items, owners, n).to_multiset(),
        n == count ==> held_by(items, owners, n) == items.to_multiset(),
    decreases n,
{
    broadcast use vstd::seq_lib::group_to_multiset_ensures;

    lemma_below(items, owners, n);
    if n == 0 {
        assert(held_by(items, owners, 0) =~= below(items, owners, 0).to_multiset());
    } else {
        lemma_held(items, owners, count, (n - 1) as nat);
        lemma_below(items, owners, (n - 1) as nat);
    }
}

/// What all shards hold together.
pub open spec fn together<T>(kept: Seq<Seq<T>>) -> vstd::multiset::Multiset<T>
    decreases kept.len(),
{
    if kept.len() == 0 {
        vstd::multiset::Multiset::empty()
    } else {
        together(kept.drop_last()).add(kept.last().to_multiset())
    }
}

/// What the workers keep of one listing is together the whole listing, every item exactly once,
/// where `name` and `size` always answer the same of an item.
pub proof fn law_kept_items_partition_the_listing<T, F: Fn(&T) -> String, S: Fn(&T) -> u64>(
    items: Seq<T>,
    kept: Seq<Seq<T>>,
    name: F,
    size: S,
    key: spec_fn(T) -> (u64, Seq<char>),
)
    requires
        reads_key(name, size, key),
        kept.len() > 0,
        forall|i: int|
            0 <= i < kept.len() ==> is_shard(
                items,
                #[trigger] kept[i],
                i,
                kept.len() as int,
                name,
                size,
            ),
    ensures
        together(kept) == items.to_multiset(),
{
    let count = kept.len() as int;
    let k = items.map_values(key);
    assert(is_shard(items, kept[0], 0, count, name, size));
    let owners = lemma_shard_owners(items, kept[0], 0, count, name, size, key);
    assert forall|i: int| 0 <= i < kept.len() implies #[trigger] kept[i] == owned_by(
        items,
        owners,
        i,
    ) by {
        assert(is_shard(items, kept[i], i, count, name, size));
        let o = lemma_shard_owners(items, kept[i], i, count, name, size, key);
        law_partition_unique(k, count, owners, o);
    }
    law_owners_are_bins(k, count, owners);
    lemma_together(items, kept, owners);
    law_shards_partition(items, owners, kept.len());
}

proof fn lemma_shard_owners<T, F: Fn(&T) -> String, S: Fn(&T) -> u64>(
    items: Seq<T>,
    kept: Seq<T>,
    idx: int,
    count: int,
    name: F,
    size: S,
    key: spec_fn(T) -> (u64, Seq<char>),
) -> (owners: Seq<usize>)
    requires
        reads_key(name, size, key),
        is_shard(items, kept, idx, count, name, size),
    ensures
        is_lpt(items.map_values(key), count, owners),
        kept == owned_by(items, owners, idx),
{
    let (k, owners) = choose|k: Seq<(u64, Seq<char>)>, owners: Seq<usize>|
        keyed(items, name, size, k) && #[trigger] is_lpt(k, count, owners) && kept == owned_by(
            items,
            owners,
            idx,
        );
    lemma_keyed(items, name, size, k, key);
    owners
}

/// What the bins are given together is what they hold together.
pub proof fn lemma_together<T>(items: Seq<T>, kept: Seq<Seq<T>>, owners: Seq<usize>)
    requires
        forall|i: int|
            0 <= i < kept.len() ==> #[trigger] kept[i] == owned_by(items, owners, i),
    ensures
        together(kept) == held_by(items, owners, kept.len()),
    decreases kept.len(),
{
    if kept.len() > 0 {
        assert forall|i: int| 0 <= i < kept.drop_last().len() implies #[trigger] kept.drop_last()[i]
            == owned_by(items, owners, i) by {
            assert(kept[i] == owned_by(items, owners, i));
        }
        lemma_together(items, kept.drop_last(), owners);
    }
}

/// No bin is loaded more than one item beyond another: the loads differ by no more than the
/// largest size.
pub proof fn law_loads_balanced(
    k: Seq<(u64, Seq<char>)>,
    order: Seq<int>,
    count: int,
    largest: u64,
    a: int,
    b: int,
)
    requires
        count > 0,
        forall|i: int| 0 <= i < order.len() ==> 0 <= #[trigger] order[i] < k.len(),
        forall|i: int| 0 <= i < k.len() ==> (#[trigger] k[i]).0 <= largest,
        0 <= a < count,
        0 <= b < count,
    ensures
        loads_after(k, order, count)[a] <= loads_after(k, order, count)[b] + largest,
    decreases order.len(),
{
    if order.len() > 0 {
        let front = order.drop_last();
        let before = loads_after(k, front, count);
        let bin = lightest(before);
        lemma_loads_len(k, front, count);
        assert(forall|i: int| 0 <= i < front.len() ==> front[i] == order[i]);
        law_loads_balanced(k, front, count, largest, a, b);
        law_loads_balanced(k, front, count, largest, a, bin);
        assert(0 <= order[order.len() - 1] < k.len());
        assert(k[order.last()].0 <= largest);
        assert(before[bin] <= before[b]);
    }
}

/// The sizes of the items.
pub open spec fn key_sizes(k: Seq<(u64, Seq<char>)>) -> Seq<u64> {
    k.map_values(|x: (u64, Seq<char>)| x.0)
}

/// The sum of the sizes of the items whose bin is `r`.
pub open spec fn bin_bytes(k: Seq<(u64, Seq<char>)>, owners: Seq<usize>, r: int) -> nat {
    engine::sum(owned_by(key_sizes(k), owners, r))
}

/// The sizes of the items whose bin is `r`, and 0 for the others.
spec fn masked(sizes: Seq<u64>, owners: Seq<usize>, r: int) -> Seq<u64> {
    Seq::new(
        sizes.len(),
        |i: int|
            if owners[i] == r {
                sizes[i]
            } else {
                0u64
            },
    )
}

proof fn lemma_sum_push(s: Seq<u64>, x: u64)
    ensures
        engine::sum(s.push(x)) == engine::sum(s) + x,
{
    assert(s.push(x).drop_last() =~= s);
}

proof fn lemma_masked_sum(sizes: Seq<u64>, owners: Seq<usize>, r: int)
    ensures
        engine::sum(masked(sizes, owners, r)) == engine::sum(owned_by(sizes, owners, r)),
        engine::sum(masked(sizes, owners, r)) <= engine::sum(sizes),
    decreases sizes.len(),
{
    if sizes.len() > 0 {
        let front = sizes.drop_last();
        lemma_masked_sum(front, owners, r);
        assert(masked(sizes, owners, r).drop_last() =~= masked(front, owners, r));
        lemma_sum_push(owned_by(front, owners, r), sizes.last());
    }
}

proof fn lemma_sum_remove(s: Seq<u64>, i: int)
    requires
        0 <= i < s.len(),
    ensures
        engine::sum(s) == engine::sum(s.remove(i)) + s[i],
    decreases s.len(),
{
    if i == s.len() - 1 {
        assert(s.remove(i) =~= s.drop_last());
    } else {
        lemma_sum_remove(s.drop_last(), i);
        assert(s.remove(i).drop_last() =~= s.drop_last().remove(i));
        assert(s.remove(i).last() == s.last());
    }
}

proof fn lemma_sum_permuted(a: Seq<u64>, b: Seq<u64>)
    requires
        a.to_multiset() == b.to_multiset(),
    ensures
        engine::sum(a) == engine::sum(b),
    decreases a.len(),
{
    broadcast use vstd::seq_lib::group_to_multiset_ensures;

    assert(a.len() == a.to_multiset().len());
    assert(b.len() == b.to_multiset().len());
    if a.len() > 0 {
        let x = a.last();
        assert(a.contains(x));
        assert(a.to_multiset().count(x) > 0);
        assert(b.contains(x));
        let i = b.index_of(x);
        lemma_sum_remove(b, i);
        assert(a.drop_last() =~= a.remove(a.len() - 1));
        assert(a.drop_last().to_multiset() =~= b.remove(i).to_multiset());
        lemma_sum_permuted(a.drop_last(), b.remove(i));
    }
}

/// Numbers that are added up in the order of the items' turns give the same sum.
proof fn lemma_sum_in_turn(k: Seq<(u64, Seq<char>)>, order: Seq<int>, w: Seq<u64>)
    requires
        is_lpt_order(k, order),
        w.len() == k.len(),
    ensures
        engine::sum(order.map_values(|i: int| w[i])) == engine::sum(w),
{
    broadcast use vstd::seq_lib::group_to_multiset_ensures;

    let f = |i: int| w[i];
    let places = Seq::new(k.len(), |i: int| i);
    lemma_order_no_duplicates(k, order);
    order.lemma_multiset_has_no_duplicates();
    assert(places.no_duplicates());
    places.lemma_multiset_has_no_duplicates();
    assert forall|x: int| order.to_multiset().count(x) == places.to_multiset().count(x) by {
        assert(order.contains(x) <==> order.to_multiset().count(x) > 0);
        assert(places.contains(x) <==> places.to_multiset().count(x) > 0);
        if 0 <= x < k.len() {
            assert(order.contains(x));
            assert(places[x] == x);
        }
        if order.contains(x) {
            let i = order.index_of(x);
            assert(0 <= order[i] < k.len());
        }
    }
    assert(order.to_multiset() =~= places.to_multiset());
    lemma_mapped_multiset(order, places, f);
    assert(places.map_values(f) =~= w);
    lemma_sum_permuted(order.map_values(f), w);
}

/// The load of each bin after `t` turns is the sum of the sizes that went to it.
proof fn lemma_loads_in_turn(
    k: Seq<(u64, Seq<char>)>,
    order: Seq<int>,
    count: int,
    owners: Seq<usize>,
    t: int,
)
    requires
        count > 0,
        is_lpt_order(k, order),
        assigned(k, order, count, owners),
        engine::sum(key_sizes(k)) <= u64::MAX,
        0 <= t <= order.len(),
    ensures
        forall|r: int|
            0 <= r < count ==> #[trigger] loads_after(k, order.take(t), count)[r] == engine::sum(
                order.take(t).map_values(|i: int| masked(key_sizes(k), owners, r)[i]),
            ),
    decreases t,
{
    let sizes = key_sizes(k);
    lemma_loads_len(k, order.take(t), count);
    assert forall|r: int| 0 <= r < count implies #[trigger] loads_after(
        k,
        order.take(t),
        count,
    )[r] == engine::sum(order.take(t).map_values(|i: int| masked(sizes, owners, r)[i])) by {
        let f = |i: int| masked(sizes, owners, r)[i];
        let turns = order.take(t).map_values(f);
        if t == 0 {
            assert(turns =~= Seq::<u64>::empty());
        } else {
            let item = order[t - 1];
            let front = order.take(t - 1);
            let before = loads_after(k, front, count);
            let bin = lightest(before);
            lemma_loads_in_turn(k, order, count, owners, t - 1);
            lemma_loads_len(k, front, count);
            assert(order.take(t).drop_last() =~= front);
            assert(order.take(t).last() == item);
            assert(owners[item] == bin);
            assert(0 <= item < k.len());
            assert(turns.drop_last() =~= front.map_values(f));
            assert(turns.last() == masked(sizes, owners, r)[item]);
            assert(before[r] == engine::sum(front.map_values(f)));
            if r == bin {
                let all = order.map_values(f);
                assert(turns =~= all.take(t));
                engine::lemma_sum_grows(all, t);
                lemma_sum_in_turn(k, order, masked(sizes, owners, r));
                lemma_masked_sum(sizes, owners, r);
            }
        }
    }
}

/// The load of a bin is the sum of the sizes of the items that it was given, where the sizes of
/// all items together fit 64 bits.
pub proof fn law_load_is_what_a_bin_holds(
    k: Seq<(u64, Seq<char>)>,
    order: Seq<int>,
    count: int,
    owners: Seq<usize>,
    r: int,
)
    requires
        count > 0,
        is_lpt_order(k, order),
        assigned(k, order, count, owners),
        engine::sum(key_sizes(k)) <= u64::MAX,
        0 <= r < count,
    ensures
        loads_after(k, order, count)[r] == bin_bytes(k, owners, r),
{
    let w = masked(key_sizes(k), owners, r);
    lemma_loads_in_turn(k, order, count, owners, order.len() as int);
    assert(order.take(order.len() as int) =~= order);
    assert(loads_after(k, order.take(order.len() as int), count)[r] == engine::sum(
        order.map_values(|i: int| w[i]),
    ));
    lemma_sum_in_turn(k, order, w);
    lemma_masked_sum(key_sizes(k), owners, r);
}

/// The bins of a partition hold about the same: what one holds is at most the largest item more
/// than what another does.
pub proof fn law_bins_are_balanced(
    k: Seq<(u64, Seq<char>)>,
    count: int,
    owners: Seq<usize>,
    largest: u64,
    a: int,
    b: int,
)
    requires
        count > 0,
        is_lpt(k, count, owners),
        engine::sum(key_sizes(k)) <= u64::MAX,
        forall|i: int| 0 <= i < k.len() ==> (#[trigger] k[i]).0 <= largest,
        0 <= a < count,
        0 <= b < count,
    ensures
        bin_bytes(k, owners, a) <= bin_bytes(k, owners, b) + largest,
{
    let order = choose|p: Seq<int>| #[trigger]
        is_lpt_order(k, p) && assigned(k, p, count, owners);
    law_load_is_what_a_bin_holds(k, order, count, owners, a);
    law_load_is_what_a_bin_holds(k, order, count, owners, b);
    law_loads_balanced(k, order, count, largest, a, b);
}

/// The same items with no names.
pub open spec fn unnamed(k: Seq<(u64, Seq<char>)>) -> Seq<(u64, Seq<char>)> {
    k.map_values(|x: (u64, Seq<char>)| (x.0, Seq::<char>::empty()))
}

proof fn lemma_loads_unnamed(k: Seq<(u64, Seq<char>)>, order: Seq<int>, count: int)
    requires
        forall|i: int| 0 <= i < order.len() ==> 0 <= #[trigger] order[i] < k.len(),
    ensures
        loads_after(k, order, count) == loads_after(unnamed(k), order, count),
    decreases order.len(),
{
    if order.len() > 0 {
        assert(0 <= order[order.len() - 1] < k.len());
        assert(forall|i: int| 0 <= i < order.drop_last().len() ==> order.drop_last()[i] == order[i]);
        lemma_loads_unnamed(k, order.drop_last(), count);
    }
}

/// Where items of equal size stand in the order of their names, as they do in a listing, the
/// partition is the same whether ties are broken by name or by position.
pub proof fn law_names_do_not_matter_in_name_order(
    k: Seq<(u64, Seq<char>)>,
    count: int,
    owners: Seq<usize>,
)
    requires
        is_lpt(k, count, owners),
        forall|i: int, j: int|
            0 <= i < j < k.len() && k[i].0 == k[j].0 ==> !lex_less(
                (#[trigger] k[j]).1,
                (#[trigger] k[i]).1,
            ),
    ensures
        is_lpt(unnamed(k), count, owners),
{
    let u = unnamed(k);
    let p = choose|p: Seq<int>| #[trigger] is_lpt_order(k, p) && assigned(k, p, count, owners);
    assert forall|i: int, j: int| 0 <= i < j < p.len() implies ahead(
        u,
        #[trigger] p[i],
        #[trigger] p[j],
    ) by {
        assert(ahead(k, p[i], p[j]));
        assert(k[p[i]].0 == u[p[i]].0 && k[p[j]].0 == u[p[j]].0);
        lemma_lex(k[p[i]].1, k[p[j]].1);
    }
    assert(is_lpt_order(u, p));
    assert forall|t: int| 0 <= t < p.len() implies owners[#[trigger] p[t]] == lightest(
        loads_after(u, p.take(t), count),
    ) by {
        assert(forall|i: int| 0 <= i < t ==> p.take(t)[i] == p[i]);
        lemma_loads_unnamed(k, p.take(t), count);
    }
    assert(assigned(u, p, count, owners));
}

/// One name comes before another where they first differ and its character is the smaller one,
/// or where it is the beginning of the other.
pub proof fn law_names_are_ordered_by_their_first_difference(
    p: Seq<char>,
    a: char,
    b: char,
    s: Seq<char>,
    t: Seq<char>,
)
    ensures
        (a as u32) < (b as u32) ==> lex_less(p + seq![a] + s, p + seq![b] + t) && !lex_less(
            p + seq![b] + t,
            p + seq![a] + s,
        ),
        lex_less(p, p + seq![b] + t),
        !lex_less(p + seq![b] + t, p),
        !lex_less(p, p),
    decreases p.len(),
{
    let x = p + seq![a] + s;
    let y = p + seq![b] + t;
    if p.len() == 0 {
        assert(x[0] == a && y[0] == b);
    } else {
        law_names_are_ordered_by_their_first_difference(p.drop_first(), a, b, s, t);
        assert(x.drop_first() =~= p.drop_first() + seq![a] + s);
        assert(y.drop_first() =~= p.drop_first() + seq![b] + t);
        assert(x[0] == p[0] && y[0] == p[0]);
    }
}

/// Larger items have their turn before smaller ones; of items of one size the one whose name
/// comes first, and of items with the same name and size the one that is listed first.
pub proof fn law_larger_items_have_their_turn_first(
    k: Seq<(u64, Seq<char>)>,
    order: Seq<int>,
    i: int,
    j: int,
)
    requires
        is_lpt_order(k, order),
        0 <= i < j < order.len(),
    ensures
        k[order[i]].0 >= k[order[j]].0,
        k[order[i]].0 == k[order[j]].0 ==> !lex_less(k[order[j]].1, k[order[i]].1),
        k[order[i]] == k[order[j]] ==> order[i] < order[j],
{
    let a = order[i];
    let b = order[j];
    assert(ahead(k, a, b));
    lemma_lex(k[a].1, k[b].1);
    lemma_lex(k[a].1, k[a].1);
}

/// What a bin was given in the first `t` turns.
pub open spec fn given(
    k: Seq<(u64, Seq<char>)>,
    order: Seq<int>,
    owners: Seq<usize>,
    t: int,
    r: int,
) -> nat {
    engine::sum(
        order.take(t).map_values(
            |i: int|
                if owners[i] == r {
                    k[i].0
                } else {
                    0u64
                },
        ),
    )
}

/// An item goes to the bin that was given the least before its turn, to the first of them where
/// there are more.
pub proof fn law_items_go_to_the_lightest_bin(
    k: Seq<(u64, Seq<char>)>,
    order: Seq<int>,
    count: int,
    owners: Seq<usize>,
    t: int,
    r: int,
)
    requires
        count > 0,
        is_lpt_order(k, order),
        assigned(k, order, count, owners),
        engine::sum(key_sizes(k)) <= u64::MAX,
        0 <= t < order.len(),
        0 <= r < count,
    ensures
        ({
            let bin = owners[order[t]] as int;
            &&& 0 <= bin < count
            &&& given(k, order, owners, t, bin) <= given(k, order, owners, t, r)
            &&& r < bin ==> given(k, order, owners, t, bin) < given(k, order, owners, t, r)
        }),
{
    let loads = loads_after(k, order.take(t), count);
    lemma_loads_len(k, order.take(t), count);
    lemma_loads_in_turn(k, order, count, owners, t);
    let bin = owners[order[t]] as int;
    assert(bin == lightest(loads));
    let now = order.take(t);
    assert forall|b: int| 0 <= b < count implies #[trigger] loads[b] == given(
        k,
        order,
        owners,
        t,
        b,
    ) by {
        assert(now.map_values(|i: int| masked(key_sizes(k), owners, b)[i]) =~= now.map_values(
            |i: int|
                if owners[i] == b {
                    k[i].0
                } else {
                    0u64
                },
        )) by {
            assert forall|x: int| 0 <= x < now.len() implies masked(
                key_sizes(k),
                owners,
                b,
            )[#[trigger] now[x]] == (if owners[now[x]] == b {
                k[now[x]].0
            } else {
                0u64
            }) by {
                assert(now[x] == order[x]);
            }
        }
    }
    assert(loads[bin] <= loads[r]);
}

/// What a bin keeps are the items that it owns.
pub proof fn law_a_bin_keeps_what_it_owns<T>(items: Seq<T>, owners: Seq<usize>, idx: int, x: T)
    requires
        owners.len() >= items.len(),
    ensures
        owned_by(items, owners, idx).contains(x) <==> exists|i: int|
            0 <= i < items.len() && #[trigger] items[i] == x && owners[i] == idx,
{
    lemma_owned_contains(items, owners, idx, x);
}

/// Loads add up, and are held at the largest 64-bit number.
pub proof fn law_loads_are_held(a: u64, b: u64)
    ensures
        a + b <= u64::MAX ==> saturated(a, b) == a + b,
        a + b > u64::MAX ==> saturated(a, b) == u64::MAX,
{
}

} // verus!
