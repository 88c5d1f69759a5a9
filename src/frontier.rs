//! The search frontier: a priority structure of `(f_score, node)` entries
//! that hands back an entry of least f-score first. Entries are kept sorted
//! by descending key, so the least one is taken from the end.

use vstd::prelude::*;
use vstd::multiset::Multiset;

verus! {

broadcast use vstd::seq_lib::group_to_multiset_ensures;

/// Pending search entries, each a priority key and a node index.
pub struct Frontier {
    items: Vec<(u128, u32)>,
}

/// Keys never increase along `s`.
pub open spec fn descending(s: Seq<(u128, u32)>) -> bool {
    forall|i: int, j: int| #![trigger s[i], s[j]] 0 <= i < j < s.len() ==> s[i].0 >= s[j].0
}

proof fn lemma_insert_multiset(s: Seq<(u128, u32)>, i: int, x: (u128, u32))
    requires
        0 <= i <= s.len(),
    ensures
        s.insert(i, x).to_multiset() == s.to_multiset().insert(x),
{
    let t = s.insert(i, x);
    assert(t.remove(i) =~= s);
    assert(t[i] == x);
    assert(t.to_multiset().remove(x) == s.to_multiset());
    assert(t.to_multiset().contains(x)) by {
        assert(t.contains(x));
    }
    assert(t.to_multiset() =~= s.to_multiset().insert(x));
}

impl View for Frontier {
    type V = Multiset<(u128, u32)>;

    closed spec fn view(&self) -> Multiset<(u128, u32)> {
        self.items@.to_multiset()
    }
}

impl Frontier {
    #[verifier::type_invariant]
    spec fn inv(&self) -> bool {
        descending(self.items@)
    }

    /// An empty frontier.
    pub fn new() -> (r: Frontier)
        ensures
            r@ == Multiset::<(u128, u32)>::empty(),
    {
        let r = Frontier { items: Vec::new() };
        proof {
            assert(r.items@ =~= Seq::<(u128, u32)>::empty());
            assert(r@ =~= Multiset::<(u128, u32)>::empty());
        }
        r
    }

    /// Adds an entry, after the entries of larger or equal key.
    pub fn push(&mut self, f_score: u128, id: u32)
        ensures
            final(self)@ == old(self)@.insert((f_score, id)),
    {
        proof {
            use_type_invariant(&*self);
        }
        let mut items: Vec<(u128, u32)> = Vec::new();
        std::mem::swap(&mut items, &mut self.items);
        let n = items.len();
        let mut lo: usize = 0;
        let mut hi: usize = n;
        while lo < hi
            invariant
                n == items@.len(),
                0 <= lo <= hi <= n,
                descending(items@),
                forall|i: int| 0 <= i < lo ==> #[trigger] items@[i].0 >= f_score,
                forall|i: int| hi <= i < n ==> #[trigger] items@[i].0 < f_score,
            decreases hi - lo,
        {
            let mid = lo + (hi - lo) / 2;
            if items[mid].0 >= f_score {
                lo = mid + 1;
            } else {
                hi = mid;
            }
        }
        let ghost before = items@;
        items.insert(lo, (f_score, id));
        proof {
            lemma_insert_multiset(before, lo as int, (f_score, id));
            assert forall|i: int, j: int| #![trigger items@[i], items@[j]] 0 <= i < j < items@.len() implies items@[i].0 >= items@[j].0 by {
                if i < lo && j > lo {
                    assert(items@[i] == before[i]);
                    assert(items@[j] == before[j - 1]);
                }
            }
        }
        self.items = items;
    }

    /// Removes and returns an entry whose key is least; entries with equal
    /// keys may come out in any order.
    pub fn pop(&mut self) -> (r: Option<(u128, u32)>)
        ensures
            old(self)@.len() == 0 ==> r is None && final(self)@ == old(self)@,
            old(self)@.len() > 0 ==> (r matches Some(e) && old(self)@.contains(e) && final(self)@
                == old(self)@.remove(e) && final(self)@.len() == old(self)@.len() - 1 && forall|x: (u128, u32)|
                #[trigger] old(self)@.contains(x) ==> e.0 <= x.0),
    {
        proof {
            use_type_invariant(&*self);
        }
        let mut items: Vec<(u128, u32)> = Vec::new();
        std::mem::swap(&mut items, &mut self.items);
        let ghost before = items@;
        let r = items.pop();
        proof {
            if before.len() > 0 {
                let e = before[before.len() - 1];
                assert(items@ =~= before.remove(before.len() - 1));
                assert(before.contains(e));
                assert forall|x: (u128, u32)| #[trigger] before.to_multiset().contains(x) implies e.0 <= x.0 by {
                    assert(before.contains(x));
                    let k = choose|k: int| 0 <= k < before.len() && before[k] == x;
                    if k < before.len() - 1 {
                        assert(before[k].0 >= before[before.len() - 1].0);
                    }
                }
            }
            assert forall|i: int, j: int| #![trigger items@[i], items@[j]] 0 <= i < j < items@.len() implies items@[i].0 >= items@[j].0 by {
                assert(items@[i] == before[i] && items@[j] == before[j]);
            }
        }
        self.items = items;
        r
    }
}

} // verus!
