//! Finding an item of a listing by its name.
use crate::engine::lpt;
use crate::engine::lpt::{lpt_order, name_less, Weight};
use crate::text::same_chars;
use vstd::prelude::*;

verus! {

/// The names of a list in order, with the position of each.
pub struct NameIndex {
    weights: Vec<Weight>,
    order: Vec<usize>,
}

/// Whether `i` is the last position of `name` in `names`.
pub open spec fn is_last(names: Seq<Seq<char>>, name: Seq<char>, i: int) -> bool {
    0 <= i < names.len() && names[i] == name && forall|j: int|
        i < j < names.len() ==> #[trigger] names[j] != name
}

/// The last position of `name` in `names`, if it occurs.
pub open spec fn last_place(names: Seq<Seq<char>>, name: Seq<char>) -> Option<int> {
    if names.contains(name) {
        Some(choose|i: int| is_last(names, name, i))
    } else {
        None
    }
}

/// A name that occurs has a last position.
pub proof fn lemma_has_last(names: Seq<Seq<char>>, name: Seq<char>, from: int)
    requires
        0 <= from < names.len(),
        names[from] == name,
    ensures
        exists|i: int| #[trigger] is_last(names, name, i),
    decreases names.len() - from,
{
    if exists|j: int| from < j < names.len() && #[trigger] names[j] == name {
        let j = choose|j: int| from < j < names.len() && #[trigger] names[j] == name;
        lemma_has_last(names, name, j);
    } else {
        assert(is_last(names, name, from));
    }
}

/// A name has one last position.
pub proof fn lemma_last_place(names: Seq<Seq<char>>, name: Seq<char>, i: int)
    requires
        is_last(names, name, i),
    ensures
        last_place(names, name) == Some(i),
{
    assert(names.contains(name));
    let k = choose|k: int| is_last(names, name, k);
    assert(is_last(names, name, k));
    assert(names[k] == name && names[i] == name);
}

impl NameIndex {
    pub closed spec fn wf(&self) -> bool {
        &&& lpt::is_lpt_order(lpt::keys(self.weights@), lpt::as_ints(self.order@))
        &&& forall|i: int| 0 <= i < self.weights@.len() ==> (#[trigger] self.weights@[i]).size == 0
    }

    /// The names that are indexed, by position.
    pub closed spec fn names(&self) -> Seq<Seq<char>> {
        self.weights@.map_values(|w: Weight| w.name@)
    }

    /// The index of `names`.
    pub fn new(names: Vec<Vec<char>>) -> (out: NameIndex)
        ensures
            out.wf(),
            out.names() == names@.map_values(|v: Vec<char>| v@),
    {
        let mut rest = names;
        let ghost all = rest@;
        let mut back: Vec<Weight> = Vec::new();
        while rest.len() > 0
            invariant
                rest@.len() <= all.len(),
                rest@ == all.take(rest@.len() as int),
                back@.len() == all.len() - rest@.len(),
                forall|i: int|
                    0 <= i < back@.len() ==> (#[trigger] back@[i]).size == 0 && back@[i].name
                        == all[all.len() - 1 - i],
            decreases rest@.len(),
        {
            match rest.pop() {
                Some(name) => {
                    back.push(Weight { size: 0, name });
                },
                None => {},
            }
            assert(rest@ == all.take(rest@.len() as int));
        }
        let ghost b = back@;
        let mut weights: Vec<Weight> = Vec::new();
        while back.len() > 0
            invariant
                b.len() == all.len(),
                back@.len() <= b.len(),
                back@ == b.take(back@.len() as int),
                weights@.len() == b.len() - back@.len(),
                forall|i: int|
                    0 <= i < b.len() ==> (#[trigger] b[i]).size == 0 && b[i].name == all[all.len()
                        - 1 - i],
                forall|i: int|
                    0 <= i < weights@.len() ==> (#[trigger] weights@[i]).size == 0
                        && weights@[i].name == all[i],
            decreases back@.len(),
        {
            let ghost n = back@.len();
            match back.pop() {
                Some(w) => {
                    assert(w == b[n - 1]);
                    weights.push(w);
                },
                None => {},
            }
            assert(back@ == b.take(back@.len() as int));
        }
        let order = lpt_order(&weights);
        let out = NameIndex { weights, order };
        assert(out.names() =~= all.map_values(|v: Vec<char>| v@));
        out
    }

    /// The last position of `name`, if it occurs.
    pub fn find(&self, name: &Vec<char>) -> (out: Option<usize>)
        requires
            self.wf(),
        ensures
            match out {
                Some(i) => is_last(self.names(), name@, i as int),
                None => !self.names().contains(name@),
            },
    {
        let ghost k = lpt::keys(self.weights@);
        let ghost o = lpt::as_ints(self.order@);
        let n: usize = self.order.len();
        let mut lo: usize = 0;
        let mut hi: usize = n;
        proof {
            assert(forall|i: int| 0 <= i < n ==> o[i] == self.order@[i]);
        }
        while lo < hi
            invariant
                n == self.order@.len(),
                n == self.weights@.len(),
                k == lpt::keys(self.weights@),
                o == lpt::as_ints(self.order@),
                self.wf(),
                lo <= hi <= n,
                forall|i: int| 0 <= i < n ==> 0 <= #[trigger] o[i] < n,
                forall|i: int| 0 <= i < lo ==> !lpt::lex_less(name@, k[#[trigger] o[i]].1),
                forall|i: int| hi <= i < n ==> lpt::lex_less(name@, k[#[trigger] o[i]].1),
            decreases hi - lo,
        {
            let mid: usize = lo + (hi - lo) / 2;
            let at = self.order[mid];
            assert(o[mid as int] == at);
            let less = name_less(name, &self.weights[at].name);
            assert(k[at as int].1 == self.weights@[at as int].name@);
            proof {
                assert forall|i: int| 0 <= i < n && i != mid implies (i < mid
                    ==> !lpt::lex_less(k[at as int].1, k[#[trigger] o[i]].1)) && (i > mid
                    ==> !lpt::lex_less(k[o[i]].1, k[at as int].1)) by {
                    lpt::lemma_lex(k[at as int].1, k[o[i]].1);
                    if i < mid {
                        assert(lpt::ahead(k, o[i], o[mid as int]));
                    } else {
                        assert(lpt::ahead(k, o[mid as int], o[i]));
                    }
                    assert(k[o[i]].0 == 0 && k[at as int].0 == 0);
                }
                assert forall|i: int| 0 <= i < n implies (less && mid <= i ==> lpt::lex_less(
                    name@,
                    k[#[trigger] o[i]].1,
                )) && (!less && i <= mid ==> !lpt::lex_less(name@, k[o[i]].1)) by {
                    let x = k[o[i]].1;
                    let m = k[at as int].1;
                    lpt::lemma_lex(m, x);
                    lpt::lemma_lex(name@, m);
                    lpt::lemma_lex(name@, x);
                    if less && mid < i {
                        if m != x {
                            lpt::lemma_lex_transitive(name@, m, x);
                        }
                    }
                    if !less && i < mid && lpt::lex_less(name@, x) {
                        if x != m {
                            lpt::lemma_lex_transitive(name@, x, m);
                        }
                    }
                }
            }
            if less {
                hi = mid;
            } else {
                lo = mid + 1;
            }
        }
        proof {
            lpt::lemma_order_no_duplicates(k, o);
            lpt::lemma_lex(name@, name@);
            assert forall|j: int| 0 <= j < n && self.names()[j] == name@ implies exists|i: int|
                0 <= i < lo && #[trigger] o[i] == j by {
                assert(o.contains(j));
                let i = choose|i: int| 0 <= i < o.len() && o[i] == j;
                assert(k[o[i]].1 == name@);
                assert(i < lo);
            }
        }
        if lo == 0 {
            return None;
        }
        let at = self.order[lo - 1];
        assert(o[lo - 1] == at);
        if same_chars(name.as_slice(), self.weights[at].name.as_slice()) {
            proof {
                assert forall|j: int| at < j < n implies #[trigger] self.names()[j] != name@ by {
                    if self.names()[j] == name@ {
                        let i = choose|i: int| 0 <= i < lo && #[trigger] o[i] == j;
                        if i < lo - 1 {
                            assert(lpt::ahead(k, o[i], o[lo - 1]));
                        }
                        assert(k[j].0 == 0 && k[at as int].0 == 0);
                    }
                }
            }
            Some(at)
        } else {
            proof {
                assert forall|j: int| 0 <= j < n implies #[trigger] self.names()[j] != name@ by {
                    if self.names()[j] == name@ {
                        let i = choose|i: int| 0 <= i < lo && #[trigger] o[i] == j;
                        let x = k[at as int].1;
                        assert(!lpt::lex_less(name@, x));
                        assert(i < lo - 1);
                        assert(lpt::ahead(k, o[i], o[lo - 1]));
                        assert(k[j].0 == 0 && k[at as int].0 == 0);
                        lpt::lemma_lex(name@, x);
                    }
                }
            }
            None
        }
    }
}

} // verus!
