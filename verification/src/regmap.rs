//! The register-rename table: a small association table from architectural
//! register to the reorder-buffer slot that will produce the register's
//! next value, viewed as a mathematical map.

use vstd::prelude::*;

use crate::op::Register;

verus! {

/// No two pairs carry the same register.
pub open spec fn keys_unique(s: Seq<(Register, usize)>) -> bool {
    forall|i: int, j: int|
        0 <= i < j < s.len() ==> (#[trigger] s[i]).0 != (#[trigger] s[j]).0
}

/// The map an association sequence stands for; later pairs shadow earlier
/// ones, though with unique keys no shadowing occurs.
pub open spec fn pairs_map(s: Seq<(Register, usize)>) -> Map<Register, usize>
    decreases s.len(),
{
    if s.len() == 0 {
        Map::empty()
    } else {
        pairs_map(s.drop_last()).insert(s.last().0, s.last().1)
    }
}

pub proof fn lemma_pairs_map_dom(s: Seq<(Register, usize)>, k: Register)
    ensures
        pairs_map(s).dom().contains(k) <==> (exists|i: int|
            0 <= i < s.len() && (#[trigger] s[i]).0 == k),
    decreases s.len(),
{
    if s.len() == 0 {
    } else {
        lemma_pairs_map_dom(s.drop_last(), k);
        if s.last().0 == k {
            assert(s[s.len() - 1].0 == k);
        } else {
            if exists|i: int| 0 <= i < s.len() && (#[trigger] s[i]).0 == k {
                let i = choose|i: int| 0 <= i < s.len() && (#[trigger] s[i]).0 == k;
                assert(s.drop_last()[i].0 == k);
            }
        }
    }
}

pub proof fn lemma_pairs_map_val(s: Seq<(Register, usize)>, i: int)
    requires
        keys_unique(s),
        0 <= i < s.len(),
    ensures
        pairs_map(s).dom().contains(s[i].0),
        pairs_map(s)[s[i].0] == s[i].1,
    decreases s.len(),
{
    if i == s.len() - 1 {
    } else {
        lemma_pairs_map_val(s.drop_last(), i);
        assert(s.drop_last()[i] == s[i]);
        assert(s.last().0 != s[i].0);
    }
}

proof fn lemma_pairs_map_update(s: Seq<(Register, usize)>, i: int, v: usize)
    requires
        keys_unique(s),
        0 <= i < s.len(),
    ensures
        pairs_map(s.update(i, (s[i].0, v))) =~= pairs_map(s).insert(s[i].0, v),
        keys_unique(s.update(i, (s[i].0, v))),
    decreases s.len(),
{
    let k = s[i].0;
    let t = s.update(i, (k, v));
    assert forall|a: int, b: int| 0 <= a < b < t.len() implies (#[trigger] t[a]).0 != (
    #[trigger] t[b]).0 by {
        assert(s[a].0 == t[a].0 && s[b].0 == t[b].0);
    }
    if i == s.len() - 1 {
        assert(t.drop_last() =~= s.drop_last());
    } else {
        lemma_pairs_map_update(s.drop_last(), i, v);
        assert(t.drop_last() =~= s.drop_last().update(i, (k, v)));
        assert(s.last().0 != k);
        assert(t.last() == s.last());
    }
}

proof fn lemma_pairs_map_remove(s: Seq<(Register, usize)>, i: int)
    requires
        keys_unique(s),
        0 <= i < s.len(),
    ensures
        pairs_map(s.remove(i)) =~= pairs_map(s).remove(s[i].0),
        keys_unique(s.remove(i)),
    decreases s.len(),
{
    let k = s[i].0;
    let t = s.remove(i);
    assert forall|a: int, b: int| 0 <= a < b < t.len() implies (#[trigger] t[a]).0 != (
    #[trigger] t[b]).0 by {
        let a0 = if a < i { a } else { a + 1 };
        let b0 = if b < i { b } else { b + 1 };
        assert(t[a] == s[a0] && t[b] == s[b0]);
    }
    if i == s.len() - 1 {
        assert(t =~= s.drop_last());
        lemma_pairs_map_dom(s.drop_last(), k);
        assert forall|a: int| 0 <= a < s.len() - 1 implies (#[trigger] s[a]).0 != k by {}
    } else {
        lemma_pairs_map_remove(s.drop_last(), i);
        assert(t.drop_last() =~= s.drop_last().remove(i));
        assert(s.last().0 != k);
        assert(t.last() == s.last());
    }
}

/// The rename table itself.
pub struct RegisterMap {
    pairs: Vec<(Register, usize)>,
}

impl View for RegisterMap {
    type V = Map<Register, usize>;

    closed spec fn view(&self) -> Map<Register, usize> {
        pairs_map(self.pairs@)
    }
}

impl RegisterMap {
    /// Internal well-formedness: one pair per register.
    pub closed spec fn inv(&self) -> bool {
        keys_unique(self.pairs@)
    }

    /// An empty rename table.
    pub fn new() -> (r: RegisterMap)
        ensures
            r.inv(),
            r@ == Map::<Register, usize>::empty(),
    {
        RegisterMap { pairs: Vec::new() }
    }

    /// Whether a register currently has an in-flight producer.
    #[verifier::loop_isolation(false)]
    pub fn contains_key(&self, k: Register) -> (r: bool)
        requires
            self.inv(),
        ensures
            r == self@.dom().contains(k),
    {
        proof {
            lemma_pairs_map_dom(self.pairs@, k);
        }
        let mut i: usize = 0;
        while i < self.pairs.len()
            invariant
                i <= self.pairs@.len(),
                forall|j: int| 0 <= j < i ==> (#[trigger] self.pairs@[j]).0 != k,
            decreases self.pairs@.len() - i,
        {
            if self.pairs[i].0 == k {
                return true;
            }
            i = i + 1;
        }
        false
    }

    /// The slot that will produce the register's next value, if any.
    #[verifier::loop_isolation(false)]
    pub fn get(&self, k: Register) -> (r: Option<usize>)
        requires
            self.inv(),
        ensures
            (r matches Some(v) && self@.dom().contains(k) && self@[k] == v) || (r is None
                && !self@.dom().contains(k)),
    {
        proof {
            lemma_pairs_map_dom(self.pairs@, k);
        }
        let mut i: usize = 0;
        while i < self.pairs.len()
            invariant
                i <= self.pairs@.len(),
                forall|j: int| 0 <= j < i ==> (#[trigger] self.pairs@[j]).0 != k,
            decreases self.pairs@.len() - i,
        {
            if self.pairs[i].0 == k {
                proof {
                    lemma_pairs_map_val(self.pairs@, i as int);
                }
                return Some(self.pairs[i].1);
            }
            i = i + 1;
        }
        None
    }

    /// Points the register at a new producer slot, overwriting any prior
    /// mapping: register renaming.
    #[verifier::loop_isolation(false)]
    pub fn insert(&mut self, k: Register, v: usize)
        requires
            old(self).inv(),
        ensures
            final(self).inv(),
            final(self)@ == old(self)@.insert(k, v),
    {
        proof {
            lemma_pairs_map_dom(self.pairs@, k);
        }
        let ghost s0 = self.pairs@;
        let mut i: usize = 0;
        while i < self.pairs.len()
            invariant
                self.pairs@ == s0,
                i <= s0.len(),
                forall|j: int| 0 <= j < i ==> (#[trigger] s0[j]).0 != k,
            decreases s0.len() - i,
        {
            if self.pairs[i].0 == k {
                self.pairs[i] = (k, v);
                proof {
                    lemma_pairs_map_update(s0, i as int, v);
                }
                return ;
            }
            i = i + 1;
        }
        self.pairs.push((k, v));
        proof {
            assert(self.pairs@.drop_last() =~= s0);
            assert forall|a: int, b: int| 0 <= a < b < self.pairs@.len() implies (
            #[trigger] self.pairs@[a]).0 != (#[trigger] self.pairs@[b]).0 by {
                if b < self.pairs@.len() - 1 {
                    assert(s0[a] == self.pairs@[a] && s0[b] == self.pairs@[b]);
                } else {
                    assert(s0[a] == self.pairs@[a]);
                }
            }
        }
    }

    /// Forgets the register's producer, if any.
    #[verifier::loop_isolation(false)]
    pub fn remove(&mut self, k: Register)
        requires
            old(self).inv(),
        ensures
            final(self).inv(),
            final(self)@ == old(self)@.remove(k),
    {
        proof {
            lemma_pairs_map_dom(self.pairs@, k);
        }
        let ghost s0 = self.pairs@;
        let mut i: usize = 0;
        while i < self.pairs.len()
            invariant
                self.pairs@ == s0,
                i <= s0.len(),
                forall|j: int| 0 <= j < i ==> (#[trigger] s0[j]).0 != k,
            decreases s0.len() - i,
        {
            if self.pairs[i].0 == k {
                self.pairs.remove(i);
                proof {
                    lemma_pairs_map_remove(s0, i as int);
                }
                return ;
            }
            i = i + 1;
        }
        proof {
            assert(!self@.dom().contains(k));
            assert(self@ =~= self@.remove(k));
        }
    }
}

} // verus!
