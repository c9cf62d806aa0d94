//! A small set of effective addresses, kept as a duplicate-free vector and
//! viewed as a mathematical set.

use vstd::prelude::*;

verus! {

/// No address occurs twice.
pub open spec fn addrs_unique(s: Seq<u64>) -> bool {
    forall|i: int, j: int| 0 <= i < j < s.len() ==> s[i] != s[j]
}

/// The set of addresses the vector holds.
pub open spec fn addr_set(s: Seq<u64>) -> Set<u64> {
    s.to_set()
}

/// The set of effective addresses currently occupied by in-flight memory
/// operations of one kind.
pub struct AddressSet {
    addrs: Vec<u64>,
}

impl View for AddressSet {
    type V = Set<u64>;

    closed spec fn view(&self) -> Set<u64> {
        addr_set(self.addrs@)
    }
}

impl AddressSet {
    /// Internal well-formedness: each address is held once.
    pub closed spec fn inv(&self) -> bool {
        addrs_unique(self.addrs@)
    }

    /// An empty address set.
    pub fn new() -> (r: AddressSet)
        ensures
            r.inv(),
            r@ == Set::<u64>::empty(),
    {
        let r = AddressSet { addrs: Vec::new() };
        proof {
            assert(r@ =~= Set::<u64>::empty());
        }
        r
    }

    /// Whether the address is present.
    #[verifier::loop_isolation(false)]
    pub fn contains(&self, a: u64) -> (r: bool)
        ensures
            r == self@.contains(a),
    {
        let mut i: usize = 0;
        while i < self.addrs.len()
            invariant
                i <= self.addrs@.len(),
                forall|j: int| 0 <= j < i ==> self.addrs@[j] != a,
            decreases self.addrs@.len() - i,
        {
            if self.addrs[i] == a {
                proof {
                    assert(self.addrs@.contains(a));
                }
                return true;
            }
            i = i + 1;
        }
        proof {
            if self.addrs@.contains(a) {
                let j = choose|j: int| 0 <= j < self.addrs@.len() && self.addrs@[j] == a;
            }
        }
        false
    }

    /// Adds the address; adding one already present changes nothing.
    #[verifier::loop_isolation(false)]
    pub fn insert(&mut self, a: u64)
        requires
            old(self).inv(),
        ensures
            final(self).inv(),
            final(self)@ == old(self)@.insert(a),
    {
        if !self.contains(a) {
            let ghost s0 = self.addrs@;
            self.addrs.push(a);
            proof {
                assert forall|i: int, j: int|
                    0 <= i < j < self.addrs@.len() implies self.addrs@[i] != self.addrs@[j] by {
                    if j == self.addrs@.len() - 1 {
                        assert(s0.contains(s0[i]));
                    }
                }
                assert forall|x: u64| self@.contains(x) <==> old(self)@.insert(a).contains(
                    x,
                ) by {
                    if self@.contains(x) {
                        let j = choose|j: int|
                            0 <= j < self.addrs@.len() && self.addrs@[j] == x;
                        if j < self.addrs@.len() - 1 {
                            assert(s0[j] == x);
                        }
                    }
                    if old(self)@.contains(x) {
                        let j = choose|j: int| 0 <= j < s0.len() && s0[j] == x;
                        assert(self.addrs@[j] == x);
                    } else if x == a {
                        assert(self.addrs@[self.addrs@.len() - 1] == x);
                    }
                }
                assert(self@ =~= old(self)@.insert(a));
            }
        } else {
            proof {
                assert(self@ =~= old(self)@.insert(a));
            }
        }
    }

    /// Drops the address; dropping one not present changes nothing.
    #[verifier::loop_isolation(false)]
    pub fn remove(&mut self, a: u64)
        requires
            old(self).inv(),
        ensures
            final(self).inv(),
            final(self)@ == old(self)@.remove(a),
    {
        let ghost s0 = self.addrs@;
        let mut i: usize = 0;
        while i < self.addrs.len()
            invariant
                self.addrs@ == s0,
                i <= s0.len(),
                forall|j: int| 0 <= j < i ==> s0[j] != a,
            decreases s0.len() - i,
        {
            if self.addrs[i] == a {
                self.addrs.remove(i);
                proof {
                    let t = self.addrs@;
                    assert forall|p: int, q: int| 0 <= p < q < t.len() implies t[p] != t[q] by {
                        let p0 = if p < i { p } else { p + 1 };
                        let q0 = if q < i { q } else { q + 1 };
                        assert(t[p] == s0[p0] && t[q] == s0[q0]);
                    }
                    assert forall|x: u64| self@.contains(x) <==> old(self)@.remove(a).contains(
                        x,
                    ) by {
                        if self@.contains(x) {
                            let j = choose|j: int| 0 <= j < t.len() && t[j] == x;
                            let j0 = if j < i { j } else { j + 1 };
                            assert(s0[j0] == x);
                            assert(s0[i as int] == a);
                        }
                        if old(self)@.remove(a).contains(x) {
                            let j = choose|j: int| 0 <= j < s0.len() && s0[j] == x;
                            let jn = if j < i { j } else { j - 1 };
                            assert(t[jn] == x);
                        }
                    }
                    assert(self@ =~= old(self)@.remove(a));
                }
                return ;
            }
            i = i + 1;
        }
        proof {
            if self@.contains(a) {
                let j = choose|j: int| 0 <= j < s0.len() && s0[j] == a;
            }
            assert(self@ =~= old(self)@.remove(a));
        }
    }
}

} // verus!
