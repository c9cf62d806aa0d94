//! The reorder-buffer engine: a fixed-size circular buffer of in-flight
//! instructions advanced one cycle at a time, together with the
//! register-rename table, the per-class reservation-station accounting,
//! and the effective-address sets used for memory disambiguation.

use vstd::prelude::*;

use crate::addrset::AddressSet;
use crate::config::Config;
use crate::op::FunctionalUnit;
use crate::op::Operand;
use crate::op::Register;
use crate::op::RiscVOp;
use crate::regmap::RegisterMap;

verus! {

/// Where an in-flight instruction currently sits.  `Execute` carries the
/// number of cycles left in the execute stage.
#[derive(Clone, Copy, Debug, PartialEq, Eq, Structural)]
pub enum Stage {
    Issue,
    Execute(u64),
    MemAccess,
    WriteBack,
    WaitingToCommit,
    Commit,
}

/// One reorder-buffer entry: the issue sequence number, the operation,
/// and its current stage.
#[derive(Clone, Copy, Debug, PartialEq, Eq)]
pub struct RobEntry {
    pub seq: usize,
    pub op: RiscVOp,
    pub stage: Stage,
}

/// Free reservation-station counts, one per functional-unit class.
#[derive(Clone, Copy, Debug, PartialEq, Eq, Structural)]
pub struct ReservationStations {
    pub alu: usize,
    pub effect_addr: usize,
    pub fpu_add: usize,
    pub fpu_mul: usize,
}

impl ReservationStations {
    pub open spec fn spec_get(&self, c: FunctionalUnit) -> usize {
        match c {
            FunctionalUnit::ALU => self.alu,
            FunctionalUnit::EffectAddr => self.effect_addr,
            FunctionalUnit::FPUAdd => self.fpu_add,
            FunctionalUnit::FPUMul => self.fpu_mul,
        }
    }

    /// The free count for one class.
    #[verifier::when_used_as_spec(spec_get)]
    pub fn get(&self, c: FunctionalUnit) -> (r: usize)
        ensures
            r == self.spec_get(c),
    {
        match c {
            FunctionalUnit::ALU => self.alu,
            FunctionalUnit::EffectAddr => self.effect_addr,
            FunctionalUnit::FPUAdd => self.fpu_add,
            FunctionalUnit::FPUMul => self.fpu_mul,
        }
    }

    pub open spec fn spec_set(self, c: FunctionalUnit, v: usize) -> ReservationStations {
        match c {
            FunctionalUnit::ALU => ReservationStations { alu: v, ..self },
            FunctionalUnit::EffectAddr => ReservationStations { effect_addr: v, ..self },
            FunctionalUnit::FPUAdd => ReservationStations { fpu_add: v, ..self },
            FunctionalUnit::FPUMul => ReservationStations { fpu_mul: v, ..self },
        }
    }

    /// Replaces the free count for one class.
    pub fn set(&mut self, c: FunctionalUnit, v: usize)
        ensures
            *final(self) == old(self).spec_set(c, v),
    {
        match c {
            FunctionalUnit::ALU => self.alu = v,
            FunctionalUnit::EffectAddr => self.effect_addr = v,
            FunctionalUnit::FPUAdd => self.fpu_add = v,
            FunctionalUnit::FPUMul => self.fpu_mul = v,
        }
    }
}

/// Whether an entry in this stage still occupies a reservation station:
/// stations are taken at issue and returned when the last execute cycle
/// completes.
pub open spec fn station_holder(e: RobEntry, c: FunctionalUnit) -> bool {
    e.op.spec_functional_unit() == c && (e.stage is Issue || e.stage is Execute)
}

/// How many of the in-flight entries, oldest first, hold a reservation
/// station of the given class.
pub open spec fn count_holders(s: Seq<RobEntry>, c: FunctionalUnit) -> int
    decreases s.len(),
{
    if s.len() == 0 {
        0
    } else {
        (if station_holder(s.first(), c) {
            1int
        } else {
            0int
        }) + count_holders(s.drop_first(), c)
    }
}

pub proof fn lemma_count_holders_nonneg(s: Seq<RobEntry>, c: FunctionalUnit)
    ensures
        0 <= count_holders(s, c),
    decreases s.len(),
{
    if s.len() > 0 {
        lemma_count_holders_nonneg(s.drop_first(), c);
    }
}

/// Changing one entry changes the count by the difference of the two
/// entries' contributions.
pub proof fn lemma_count_holders_update(s: Seq<RobEntry>, i: int, e: RobEntry, c: FunctionalUnit)
    requires
        0 <= i < s.len(),
    ensures
        count_holders(s.update(i, e), c) == count_holders(s, c) - (if station_holder(s[i], c) {
            1int
        } else {
            0int
        }) + (if station_holder(e, c) {
            1int
        } else {
            0int
        }),
    decreases s.len(),
{
    let t = s.update(i, e);
    if i == 0 {
        assert(t.drop_first() =~= s.drop_first());
    } else {
        lemma_count_holders_update(s.drop_first(), i - 1, e, c);
        assert(t.drop_first() =~= s.drop_first().update(i - 1, e));
        assert(t.first() == s.first());
    }
}

/// Appending an entry adds its contribution.
pub proof fn lemma_count_holders_push(s: Seq<RobEntry>, e: RobEntry, c: FunctionalUnit)
    ensures
        count_holders(s.push(e), c) == count_holders(s, c) + (if station_holder(e, c) {
            1int
        } else {
            0int
        }),
    decreases s.len(),
{
    let t = s.push(e);
    assert(t.len() == s.len() + 1);
    if s.len() == 0 {
        assert(t.first() == e);
        assert(t.drop_first() =~= Seq::<RobEntry>::empty());
        assert(count_holders(t.drop_first(), c) == 0);
        assert(count_holders(t, c) == (if station_holder(e, c) {
            1int
        } else {
            0int
        }));
        assert(count_holders(s, c) == 0);
    } else {
        lemma_count_holders_push(s.drop_first(), e, c);
        assert(t.drop_first() =~= s.drop_first().push(e));
        assert(t.first() == s.first());
        assert(count_holders(t, c) == (if station_holder(s.first(), c) {
            1int
        } else {
            0int
        }) + count_holders(s.drop_first().push(e), c));
    }
}

/// The mathematical state of the engine.  `entries` mirrors the slot
/// array; the scalar fields mirror the indices and counters.
#[verifier::ext_equal]
pub ghost struct RobModel {
    pub entries: Seq<Option<RobEntry>>,
    pub mapping: Map<Register, usize>,
    pub loaded: Set<u64>,
    pub stored: Set<u64>,
    pub avail: ReservationStations,
    pub cap: ReservationStations,
    pub head: int,
    pub tail: int,
    pub size: int,
    pub used: int,
    pub committed: int,
    pub issue_count: int,
}

impl RobModel {
    /// The slot index of the `k`-th oldest in-flight entry.
    pub open spec fn slot(self, k: int) -> int {
        if self.tail + k < self.size {
            self.tail + k
        } else {
            self.tail + k - self.size
        }
    }

    /// The in-order position of a slot index, counted from the tail.
    pub open spec fn rank_of(self, i: int) -> int {
        if i >= self.tail {
            i - self.tail
        } else {
            i - self.tail + self.size
        }
    }

    /// The `k`-th oldest in-flight entry.
    pub open spec fn ent(self, k: int) -> RobEntry {
        self.entries[self.slot(k)]->Some_0
    }

    /// The in-flight entries, oldest first.
    pub open spec fn rank_seq(self) -> Seq<RobEntry> {
        Seq::new(self.used as nat, |k: int| self.ent(k))
    }

    /// Whether every in-flight entry strictly older than position `k` has
    /// reached the commit stage.
    pub open spec fn all_older_commit(self, k: int) -> bool {
        forall|j: int| 0 <= j < k ==> (#[trigger] self.ent(j)).stage is Commit
    }

    /// Well-formedness of the engine state.
    pub open spec fn wf(self) -> bool {
        // shape
        &&& self.size == self.entries.len()
        &&& 0 <= self.used <= self.size
        &&& (self.size == 0 ==> self.head == 0 && self.tail == 0 && self.used == 0)
        &&& (self.size > 0 ==> 0 <= self.head < self.size && 0 <= self.tail < self.size)
        &&& (self.size > 0 ==> self.head == self.slot(self.used))
        // occupancy: the in-flight entries fill exactly the circular range
        // [tail, tail + used)
        &&& forall|k: int| 0 <= k < self.used ==> (#[trigger] self.entries[self.slot(k)]) is Some
        &&& forall|i: int|
            0 <= i < self.size && (#[trigger] self.entries[i]) is Some ==> self.rank_of(i)
                < self.used
        // counters and issue sequence numbers
        &&& self.committed == self.issue_count - self.used
        &&& 0 <= self.committed
        &&& self.issue_count <= usize::MAX
        &&& forall|k: int|
            0 <= k < self.used ==> (#[trigger] self.ent(k)).seq == self.issue_count - self.used
                + k
        // per-entry stage and shape validity
        &&& forall|k: int|
            0 <= k < self.used ==> (#[trigger] self.ent(k)).op.dst_well_formed()
        &&& forall|k: int|
            0 <= k < self.used && (#[trigger] self.ent(k)).stage is MemAccess ==> self.ent(
                k,
            ).op.spec_accesses_memory()
        &&& forall|k: int|
            0 <= k < self.used && (#[trigger] self.ent(k)).stage is WriteBack ==> self.ent(
                k,
            ).op.spec_writes_back()
        // committed entries form a prefix of the in-flight order
        &&& forall|k: int|
            0 <= k < self.used && (#[trigger] self.ent(k)).stage is Commit ==> self.all_older_commit(
                k,
            )
        // reservation-station accounting, per class
        &&& forall|c: FunctionalUnit|
            #[trigger] self.avail.spec_get(c) + count_holders(self.rank_seq(), c)
                == self.cap.spec_get(c)
        // each recorded address belongs to an in-flight memory operation
        // that has advanced past the memory stage and not yet committed
        &&& forall|a: u64|
            self.loaded.contains(a) ==> exists|k: int|
                0 <= k < self.used && (#[trigger] self.ent(k)).op.spec_is_load() && self.ent(
                    k,
                ).op.spec_addr() == Some(a) && (self.ent(k).stage is WriteBack || self.ent(
                    k,
                ).stage is WaitingToCommit || self.ent(k).stage is Commit)
        &&& forall|a: u64|
            self.stored.contains(a) ==> exists|k: int|
                0 <= k < self.used && (#[trigger] self.ent(k)).op.spec_is_store() && self.ent(
                    k,
                ).op.spec_addr() == Some(a) && (self.ent(k).stage is WriteBack || self.ent(
                    k,
                ).stage is WaitingToCommit || self.ent(k).stage is Commit)
    }

    /// The model with the `k`-th oldest entry moved to another stage.
    pub open spec fn with_stage(self, k: int, s: Stage) -> RobModel {
        RobModel {
            entries: self.entries.update(
                self.slot(k),
                Some(RobEntry { stage: s, ..self.ent(k) }),
            ),
            ..self
        }
    }
}

pub proof fn lemma_slot_rank(m: RobModel, k: int)
    requires
        m.size > 0,
        0 <= m.tail < m.size,
        0 <= k < m.size,
    ensures
        m.rank_of(m.slot(k)) == k,
        0 <= m.slot(k) < m.size,
{
}

pub proof fn lemma_rank_slot(m: RobModel, i: int)
    requires
        m.size > 0,
        0 <= m.tail < m.size,
        0 <= i < m.size,
    ensures
        m.slot(m.rank_of(i)) == i,
        0 <= m.rank_of(i) < m.size,
{
}

/// The reservation-station pools a configuration grants: integer
/// operations, effective-address (memory and branch) operations, and the
/// two floating-point units.
pub open spec fn stations_of(config: Config) -> ReservationStations {
    ReservationStations {
        alu: config.int_buffer_entries as usize,
        effect_addr: config.eff_addr_buffer_entries as usize,
        fpu_add: config.fp_add_buffer_entries as usize,
        fpu_mul: config.fp_mul_buffer_entries as usize,
    }
}

/// The state of a freshly built engine: an empty buffer whose free
/// station counts equal the configured capacities.
pub open spec fn init_model(config: Config) -> RobModel {
    RobModel {
        entries: Seq::new(config.reorder_buffer_entries as nat, |i: int| None),
        mapping: Map::empty(),
        loaded: Set::empty(),
        stored: Set::empty(),
        avail: stations_of(config),
        cap: stations_of(config),
        head: 0,
        tail: 0,
        size: config.reorder_buffer_entries as int,
        used: 0,
        committed: 0,
        issue_count: 0,
    }
}

impl RobModel {
    /// Whether the engine accepts an instruction this cycle: the buffer
    /// has a free slot, the instruction's functional-unit class has a
    /// free reservation station, and its effective address, if it has
    /// one, does not collide with any in-flight memory operation.
    pub open spec fn can_issue(self, op: RiscVOp) -> bool {
        &&& self.used < self.size
        &&& self.avail.spec_get(op.spec_functional_unit()) > 0
        &&& (op.spec_addr() matches Some(a) ==> !self.loaded.contains(a)
            && !self.stored.contains(a))
    }

    /// The state after a successful issue: the instruction enters the
    /// slot at `head` in the Issue stage with the next sequence number,
    /// a reservation station of its class is taken, and its destination
    /// register, if any, is renamed to the new slot.
    pub open spec fn issue(self, op: RiscVOp) -> RobModel {
        let e = RobEntry { seq: self.issue_count as usize, op, stage: Stage::Issue };
        let fu = op.spec_functional_unit();
        RobModel {
            entries: self.entries.update(self.head, Some(e)),
            mapping: match op.spec_dst_reg() {
                Some(r) => self.mapping.insert(r, self.head as usize),
                None => self.mapping,
            },
            avail: self.avail.spec_set(fu, (self.avail.spec_get(fu) - 1) as usize),
            head: if self.head + 1 == self.size {
                0
            } else {
                self.head + 1
            },
            used: self.used + 1,
            issue_count: self.issue_count + 1,
            ..self
        }
    }
}

pub proof fn lemma_issue_wf(m: RobModel, op: RiscVOp)
    requires
        m.wf(),
        op.dst_well_formed(),
        m.can_issue(op),
        m.issue_count < usize::MAX,
    ensures
        m.issue(op).wf(),
        m.issue(op).committed == m.committed,
        forall|k: int| 0 <= k < m.used ==> m.issue(op).ent(k) == #[trigger] m.ent(k),
        m.issue(op).ent(m.used) == (RobEntry {
            seq: m.issue_count as usize,
            op,
            stage: Stage::Issue,
        }),
{
    let n = m.issue(op);
    let e = RobEntry { seq: m.issue_count as usize, op, stage: Stage::Issue };
    assert(m.entries[m.slot(m.used)] is None) by {
        if m.entries[m.slot(m.used)] is Some {
            lemma_slot_rank(m, m.used);
        }
    }
    assert forall|k: int| 0 <= k < n.used implies (#[trigger] n.entries[n.slot(k)]) is Some by {
        lemma_slot_rank(m, k);
        if k < m.used {
            assert(m.slot(k) != m.head) by {
                lemma_slot_rank(m, m.used);
            }
        }
    }
    assert forall|i: int|
        0 <= i < n.size && (#[trigger] n.entries[i]) is Some implies n.rank_of(i) < n.used by {
        if i != m.head {
            assert(m.entries[i] is Some);
        } else {
            lemma_slot_rank(m, m.used);
        }
    }
    assert forall|k: int| 0 <= k < n.used implies (#[trigger] n.ent(k)).seq == n.issue_count
        - n.used + k by {
        lemma_slot_rank(m, k);
        if k < m.used {
            assert(m.slot(k) != m.head) by {
                lemma_slot_rank(m, m.used);
            }
            assert(n.ent(k) == m.ent(k));
        }
    }
    assert forall|k: int| 0 <= k < m.used implies n.ent(k) == m.ent(k) by {
        lemma_slot_rank(m, k);
        lemma_slot_rank(m, m.used);
    }
    assert(n.ent(m.used) == e) by {
        lemma_slot_rank(m, m.used);
    }
    assert(n.rank_seq() =~= m.rank_seq().push(e));
    assert forall|c: FunctionalUnit| #[trigger] n.avail.spec_get(c) + count_holders(
        n.rank_seq(),
        c,
    ) == n.cap.spec_get(c) by {
        assert(m.avail.spec_get(c) + count_holders(m.rank_seq(), c) == m.cap.spec_get(c));
        lemma_count_holders_push(m.rank_seq(), e, c);
        lemma_count_holders_nonneg(m.rank_seq(), c);
        assert(count_holders(n.rank_seq(), c) == count_holders(m.rank_seq().push(e), c));
    }
    assert forall|k: int|
        0 <= k < n.used && (#[trigger] n.ent(k)).stage is Commit implies n.all_older_commit(
        k,
    ) by {
        assert(k < m.used);
        assert forall|j: int| 0 <= j < k implies (#[trigger] n.ent(j)).stage is Commit by {
            assert(m.all_older_commit(k));
            assert(m.ent(j).stage is Commit);
        }
    }
    assert forall|a: u64| n.loaded.contains(a) implies exists|k: int|
        0 <= k < n.used && (#[trigger] n.ent(k)).op.spec_is_load() && n.ent(k).op.spec_addr()
            == Some(a) && (n.ent(k).stage is WriteBack || n.ent(k).stage is WaitingToCommit
            || n.ent(k).stage is Commit) by {
        let k = choose|k: int|
            0 <= k < m.used && (#[trigger] m.ent(k)).op.spec_is_load() && m.ent(k).op.spec_addr()
                == Some(a) && (m.ent(k).stage is WriteBack || m.ent(k).stage is WaitingToCommit
                || m.ent(k).stage is Commit);
        assert(n.ent(k) == m.ent(k));
    }
    assert forall|a: u64| n.stored.contains(a) implies exists|k: int|
        0 <= k < n.used && (#[trigger] n.ent(k)).op.spec_is_store() && n.ent(k).op.spec_addr()
            == Some(a) && (n.ent(k).stage is WriteBack || n.ent(k).stage is WaitingToCommit
            || n.ent(k).stage is Commit) by {
        let k = choose|k: int|
            0 <= k < m.used && (#[trigger] m.ent(k)).op.spec_is_store() && m.ent(k).op.spec_addr()
                == Some(a) && (m.ent(k).stage is WriteBack || m.ent(k).stage is WaitingToCommit
                || m.ent(k).stage is Commit);
        assert(n.ent(k) == m.ent(k));
    }
}

impl RobModel {
    /// The in-flight entries of one stage in oldest-first order, paired
    /// with their slot indices, starting at position `k`.
    pub open spec fn in_stage_list(self, q: Stage, k: int) -> Seq<(usize, RiscVOp)>
        decreases self.used - k,
    {
        if k < 0 || k >= self.used {
            Seq::empty()
        } else {
            let rest = self.in_stage_list(q, k + 1);
            if self.ent(k).stage == q {
                seq![(self.slot(k) as usize, self.ent(k).op)] + rest
            } else {
                rest
            }
        }
    }

    /// The in-flight entries in the execute stage, with any count, in
    /// oldest-first order, paired with their slot indices.
    pub open spec fn in_ex_list(self, k: int) -> Seq<(usize, RiscVOp)>
        decreases self.used - k,
    {
        if k < 0 || k >= self.used {
            Seq::empty()
        } else {
            let rest = self.in_ex_list(k + 1);
            if self.ent(k).stage is Execute {
                seq![(self.slot(k) as usize, self.ent(k).op)] + rest
            } else {
                rest
            }
        }
    }
}

/// The ordering the circular buffer places on two slot indices: position
/// counted from the tail, indices below the tail belonging to the
/// wrapped, younger part of the range.
pub open spec fn spec_earlier(m: RobModel, i: int, j: int) -> bool {
    m.rank_of(i) < m.rank_of(j)
}

/// Moving one in-flight entry to a new stage, with a matching adjustment
/// of the free reservation-station counts, preserves well-formedness,
/// provided the move neither demotes a committed entry, commits out of
/// order, nor takes a memory operation back out of the stages its
/// recorded address stands for.
pub proof fn lemma_stage_change_wf(m: RobModel, k: int, s: Stage, av2: ReservationStations)
    requires
        m.wf(),
        0 <= k < m.used,
        s is MemAccess ==> m.ent(k).op.spec_accesses_memory(),
        s is WriteBack ==> m.ent(k).op.spec_writes_back(),
        s is Commit ==> m.all_older_commit(k),
        m.ent(k).stage is Commit ==> s is Commit,
        (m.ent(k).stage is WriteBack || m.ent(k).stage is WaitingToCommit || m.ent(k).stage
            is Commit) ==> (s is WriteBack || s is WaitingToCommit || s is Commit),
        forall|c: FunctionalUnit|
            #[trigger] av2.spec_get(c) + (if station_holder(
                RobEntry { stage: s, ..m.ent(k) },
                c,
            ) {
                1int
            } else {
                0int
            }) == m.avail.spec_get(c) + (if station_holder(m.ent(k), c) {
                1int
            } else {
                0int
            }),
    ensures
        (RobModel { avail: av2, ..m.with_stage(k, s) }).wf(),
        (RobModel { avail: av2, ..m.with_stage(k, s) }).ent(k) == (RobEntry {
            stage: s,
            ..m.ent(k)
        }),
        forall|j: int|
            0 <= j < m.used && j != k ==> (RobModel { avail: av2, ..m.with_stage(k, s) }).ent(j)
                == #[trigger] m.ent(j),
{
    let n = RobModel { avail: av2, ..m.with_stage(k, s) };
    let e = RobEntry { stage: s, ..m.ent(k) };
    lemma_slot_rank(m, k);
    assert forall|j: int| 0 <= j < m.used && j != k implies #[trigger] n.ent(j) == m.ent(j) by {
        lemma_slot_rank(m, j);
    }
    assert forall|j: int| 0 <= j < n.used implies (#[trigger] n.entries[n.slot(j)]) is Some by {
        lemma_slot_rank(m, j);
    }
    assert forall|i: int|
        0 <= i < n.size && (#[trigger] n.entries[i]) is Some implies n.rank_of(i) < n.used by {
        if i != m.slot(k) {
            assert(m.entries[i] is Some);
        }
    }
    assert(n.ent(k) == e);
    assert forall|j: int|
        0 <= j < n.used && (#[trigger] n.ent(j)).stage is Commit implies n.all_older_commit(
        j,
    ) by {
        if j == k {
            assert forall|j2: int| 0 <= j2 < j implies (#[trigger] n.ent(j2)).stage
                is Commit by {
                assert(m.ent(j2).stage is Commit);
            }
        } else {
            assert(m.ent(j).stage is Commit);
            assert(m.all_older_commit(j));
            assert forall|j2: int| 0 <= j2 < j implies (#[trigger] n.ent(j2)).stage
                is Commit by {
                assert(m.ent(j2).stage is Commit);
                if j2 == k {
                    assert(s is Commit);
                }
            }
        }
    }
    assert(n.rank_seq() =~= m.rank_seq().update(k, e));
    assert forall|c: FunctionalUnit| #[trigger] n.avail.spec_get(c) + count_holders(
        n.rank_seq(),
        c,
    ) == n.cap.spec_get(c) by {
        assert(m.avail.spec_get(c) + count_holders(m.rank_seq(), c) == m.cap.spec_get(c));
        lemma_count_holders_update(m.rank_seq(), k, e, c);
        assert(m.rank_seq()[k] == m.ent(k));
        assert(av2.spec_get(c) + (if station_holder(e, c) {
            1int
        } else {
            0int
        }) == m.avail.spec_get(c) + (if station_holder(m.ent(k), c) {
            1int
        } else {
            0int
        }));
    }
    assert forall|a: u64| n.loaded.contains(a) implies exists|j: int|
        0 <= j < n.used && (#[trigger] n.ent(j)).op.spec_is_load() && n.ent(j).op.spec_addr()
            == Some(a) && (n.ent(j).stage is WriteBack || n.ent(j).stage is WaitingToCommit
            || n.ent(j).stage is Commit) by {
        let j = choose|j: int|
            0 <= j < m.used && (#[trigger] m.ent(j)).op.spec_is_load() && m.ent(j).op.spec_addr()
                == Some(a) && (m.ent(j).stage is WriteBack || m.ent(j).stage is WaitingToCommit
                || m.ent(j).stage is Commit);
        assert(n.ent(j).op == m.ent(j).op);
        assert(n.ent(j).stage is WriteBack || n.ent(j).stage is WaitingToCommit || n.ent(j).stage
            is Commit);
    }
    assert forall|a: u64| n.stored.contains(a) implies exists|j: int|
        0 <= j < n.used && (#[trigger] n.ent(j)).op.spec_is_store() && n.ent(j).op.spec_addr()
            == Some(a) && (n.ent(j).stage is WriteBack || n.ent(j).stage is WaitingToCommit
            || n.ent(j).stage is Commit) by {
        let j = choose|j: int|
            0 <= j < m.used && (#[trigger] m.ent(j)).op.spec_is_store() && m.ent(j).op.spec_addr()
                == Some(a) && (m.ent(j).stage is WriteBack || m.ent(j).stage is WaitingToCommit
                || m.ent(j).stage is Commit);
        assert(n.ent(j).op == m.ent(j).op);
        assert(n.ent(j).stage is WriteBack || n.ent(j).stage is WaitingToCommit || n.ent(j).stage
            is Commit);
    }
}

impl RobModel {
    /// Releasing the oldest in-flight entry: its slot is cleared, the
    /// tail advances, and its effective address, if it has one, is
    /// dropped from the loaded or stored set.
    pub open spec fn release_front(self) -> RobModel {
        let e = self.ent(0);
        RobModel {
            entries: self.entries.update(self.slot(0), None),
            tail: if self.tail + 1 == self.size {
                0
            } else {
                self.tail + 1
            },
            used: self.used - 1,
            committed: self.committed + 1,
            loaded: match e.op.spec_addr() {
                Some(a) => if e.op.spec_is_load() {
                    self.loaded.remove(a)
                } else {
                    self.loaded
                },
                None => self.loaded,
            },
            stored: match e.op.spec_addr() {
                Some(a) => if e.op.spec_is_load() {
                    self.stored
                } else {
                    self.stored.remove(a)
                },
                None => self.stored,
            },
            ..self
        }
    }
}

/// Release phase: every entry observed in the commit stage at the start
/// of the tick — they form a prefix of the in-flight order — frees its
/// slot.
pub open spec fn phase_release(m: RobModel) -> RobModel
    decreases m.used,
{
    if m.used > 0 && m.ent(0).stage is Commit {
        phase_release(m.release_front())
    } else {
        m
    }
}

pub proof fn lemma_release_front_wf(m: RobModel)
    requires
        m.wf(),
        m.used > 0,
        m.ent(0).stage is Commit,
    ensures
        m.release_front().wf(),
        m.release_front().used == m.used - 1,
        m.release_front().committed == m.committed + 1,
        m.release_front().rank_seq() =~= m.rank_seq().drop_first(),
        forall|j: int|
            0 <= j < m.used - 1 ==> m.release_front().ent(j) == #[trigger] m.ent(j + 1),
{
    let n = m.release_front();
    lemma_slot_rank(m, 0);
    assert forall|j: int| 0 <= j < m.used - 1 implies n.ent(j) == #[trigger] m.ent(j + 1) by {
        lemma_slot_rank(m, j + 1);
        assert(n.slot(j) == m.slot(j + 1));
        assert(m.slot(j + 1) != m.slot(0));
    }
    assert forall|j: int| 0 <= j < n.used implies (#[trigger] n.entries[n.slot(j)]) is Some by {
        lemma_slot_rank(m, j + 1);
        assert(n.slot(j) == m.slot(j + 1));
        assert(m.slot(j + 1) != m.slot(0));
    }
    assert forall|i: int|
        0 <= i < n.size && (#[trigger] n.entries[i]) is Some implies n.rank_of(i) < n.used by {
        assert(i != m.slot(0));
        assert(m.entries[i] is Some);
        assert(m.rank_of(i) < m.used);
        assert(m.rank_of(i) != 0) by {
            lemma_rank_slot(m, i);
        }
        assert(n.rank_of(i) == m.rank_of(i) - 1);
    }
    assert forall|j: int| 0 <= j < n.used implies (#[trigger] n.ent(j)).seq == n.issue_count
        - n.used + j by {
        assert(n.ent(j) == m.ent(j + 1));
    }
    assert forall|j: int| 0 <= j < n.used implies (#[trigger] n.ent(j)).op.dst_well_formed() && (
    n.ent(j).stage is MemAccess ==> n.ent(j).op.spec_accesses_memory()) && (n.ent(j).stage
        is WriteBack ==> n.ent(j).op.spec_writes_back()) by {
        assert(n.ent(j) == m.ent(j + 1));
        assert(m.ent(j + 1).op.dst_well_formed());
    }
    assert forall|j: int|
        0 <= j < n.used && (#[trigger] n.ent(j)).stage is Commit implies n.all_older_commit(
        j,
    ) by {
        assert(n.ent(j) == m.ent(j + 1));
        assert(m.all_older_commit(j + 1));
        assert forall|j2: int| 0 <= j2 < j implies (#[trigger] n.ent(j2)).stage is Commit by {
            assert(n.ent(j2) == m.ent(j2 + 1));
            assert(m.ent(j2 + 1).stage is Commit);
        }
    }
    assert(n.rank_seq() =~= m.rank_seq().drop_first());
    assert forall|c: FunctionalUnit| #[trigger] n.avail.spec_get(c) + count_holders(
        n.rank_seq(),
        c,
    ) == n.cap.spec_get(c) by {
        assert(m.avail.spec_get(c) + count_holders(m.rank_seq(), c) == m.cap.spec_get(c));
        assert(m.rank_seq().first() == m.ent(0));
        assert(!station_holder(m.ent(0), c));
        assert(count_holders(m.rank_seq(), c) == count_holders(m.rank_seq().drop_first(), c));
    }
    let e0 = m.ent(0);
    assert forall|a: u64| n.loaded.contains(a) implies exists|j: int|
        0 <= j < n.used && (#[trigger] n.ent(j)).op.spec_is_load() && n.ent(j).op.spec_addr()
            == Some(a) && (n.ent(j).stage is WriteBack || n.ent(j).stage is WaitingToCommit
            || n.ent(j).stage is Commit) by {
        assert(m.loaded.contains(a));
        let k = choose|k: int|
            0 <= k < m.used && (#[trigger] m.ent(k)).op.spec_is_load() && m.ent(k).op.spec_addr()
                == Some(a) && (m.ent(k).stage is WriteBack || m.ent(k).stage is WaitingToCommit
                || m.ent(k).stage is Commit);
        if k == 0 {
            assert(e0.op.spec_addr() == Some(a) && e0.op.spec_is_load());
            assert(!n.loaded.contains(a));
        } else {
            assert(n.ent(k - 1) == m.ent(k));
        }
    }
    assert forall|a: u64| n.stored.contains(a) implies exists|j: int|
        0 <= j < n.used && (#[trigger] n.ent(j)).op.spec_is_store() && n.ent(j).op.spec_addr()
            == Some(a) && (n.ent(j).stage is WriteBack || n.ent(j).stage is WaitingToCommit
            || n.ent(j).stage is Commit) by {
        assert(m.stored.contains(a));
        let k = choose|k: int|
            0 <= k < m.used && (#[trigger] m.ent(k)).op.spec_is_store() && m.ent(k).op.spec_addr()
                == Some(a) && (m.ent(k).stage is WriteBack || m.ent(k).stage is WaitingToCommit
                || m.ent(k).stage is Commit);
        if k == 0 {
            assert(e0.op.spec_addr() == Some(a) && e0.op.spec_is_store());
            assert(!e0.op.spec_is_load());
            assert(!n.stored.contains(a));
        } else {
            assert(n.ent(k - 1) == m.ent(k));
        }
    }
}

/// The position of the oldest in-flight entry at or after position `k`
/// that sits in the waiting-to-commit stage with every older entry
/// committed.
pub open spec fn find_promotable(m: RobModel, k: int) -> Option<int>
    decreases m.used - k,
{
    if k < 0 || k >= m.used {
        None
    } else if m.ent(k).stage is WaitingToCommit && m.all_older_commit(k) {
        Some(k)
    } else {
        find_promotable(m, k + 1)
    }
}

/// The position of the oldest in-flight entry at or after position `k`
/// in the given stage.
pub open spec fn find_first_in_stage(m: RobModel, q: Stage, k: int) -> Option<int>
    decreases m.used - k,
{
    if k < 0 || k >= m.used {
        None
    } else if m.ent(k).stage == q {
        Some(k)
    } else {
        find_first_in_stage(m, q, k + 1)
    }
}

/// Commit-promotion phase: at most one waiting-to-commit entry, chosen
/// oldest first and only when every older in-flight entry has already
/// committed, enters the commit stage.
pub open spec fn phase_promote(m: RobModel) -> RobModel {
    match find_promotable(m, 0) {
        Some(k) => m.with_stage(k, Stage::Commit),
        None => m,
    }
}

/// Common-data-bus phase: the oldest write-back entry, if any,
/// broadcasts its result.  It commits directly when it is the oldest
/// in-flight instruction left and nothing committed earlier this tick;
/// otherwise it waits to commit.  Its rename-table entry is cleared,
/// but only if the table still points at its slot — a younger issue of
/// the same destination may have overwritten it.  The second component
/// reports whether something has committed this tick.
pub open spec fn phase_cdb(m: RobModel, committed: bool) -> (RobModel, bool) {
    match find_first_in_stage(m, Stage::WriteBack, 0) {
        Some(k) => {
            let eligible = m.all_older_commit(k) && !committed;
            let target = if eligible {
                Stage::Commit
            } else {
                Stage::WaitingToCommit
            };
            let m1 = m.with_stage(k, target);
            let m2 = match m.ent(k).op.spec_dst_reg() {
                Some(r) => if m.mapping.dom().contains(r) && m.mapping[r] as int == m.slot(k) {
                    RobModel { mapping: m.mapping.remove(r), ..m1 }
                } else {
                    m1
                },
                None => m1,
            };
            (m2, committed || eligible)
        },
        None => (m, committed),
    }
}

/// Memory phase: the oldest entry in the memory-access stage advances to
/// write-back, provided its effective address is not currently held by
/// an in-flight store; on advance the address is recorded in the loaded
/// or stored set.  At most one advance per tick: a single memory port.
pub open spec fn phase_mem(m: RobModel) -> RobModel {
    match find_first_in_stage(m, Stage::MemAccess, 0) {
        Some(k) => {
            let e = m.ent(k);
            match e.op.spec_addr() {
                Some(a) => if m.stored.contains(a) {
                    m
                } else {
                    let m1 = m.with_stage(k, Stage::WriteBack);
                    if e.op.spec_is_load() {
                        RobModel { loaded: m.loaded.insert(a), ..m1 }
                    } else {
                        RobModel { stored: m.stored.insert(a), ..m1 }
                    }
                },
                None => m.with_stage(k, Stage::WriteBack),
            }
        },
        None => m,
    }
}

/// Well-formedness does not depend on the rename table.
pub proof fn lemma_wf_mapping_change(m: RobModel, mp: Map<Register, usize>)
    requires
        m.wf(),
    ensures
        (RobModel { mapping: mp, ..m }).wf(),
        forall|j: int|
            0 <= j < m.used ==> (RobModel { mapping: mp, ..m }).ent(j) == #[trigger] m.ent(j),
{
    let n = RobModel { mapping: mp, ..m };
    assert forall|j: int| 0 <= j < m.used implies n.ent(j) == #[trigger] m.ent(j) by {}
    assert(n.rank_seq() =~= m.rank_seq());
    assert forall|j: int| 0 <= j < n.used implies (#[trigger] n.entries[n.slot(j)]) is Some by {
        assert(m.entries[m.slot(j)] is Some);
    }
    assert forall|j: int| 0 <= j < n.used implies (#[trigger] n.ent(j)).seq == n.issue_count
        - n.used + j && n.ent(j).op.dst_well_formed() && (n.ent(j).stage is MemAccess ==> n.ent(
        j,
    ).op.spec_accesses_memory()) && (n.ent(j).stage is WriteBack ==> n.ent(
        j,
    ).op.spec_writes_back()) by {
        assert(n.ent(j) == m.ent(j));
        assert(m.ent(j).op.dst_well_formed());
    }
    assert forall|j: int|
        0 <= j < n.used && (#[trigger] n.ent(j)).stage is Commit implies n.all_older_commit(
        j,
    ) by {
        assert(m.ent(j).stage is Commit);
        assert(m.all_older_commit(j));
        assert forall|j2: int| 0 <= j2 < j implies (#[trigger] n.ent(j2)).stage is Commit by {
            assert(m.ent(j2).stage is Commit);
        }
    }
    assert forall|a: u64| n.loaded.contains(a) implies exists|j: int|
        0 <= j < n.used && (#[trigger] n.ent(j)).op.spec_is_load() && n.ent(j).op.spec_addr()
            == Some(a) && (n.ent(j).stage is WriteBack || n.ent(j).stage is WaitingToCommit
            || n.ent(j).stage is Commit) by {
        let j = choose|j: int|
            0 <= j < m.used && (#[trigger] m.ent(j)).op.spec_is_load() && m.ent(j).op.spec_addr()
                == Some(a) && (m.ent(j).stage is WriteBack || m.ent(j).stage is WaitingToCommit
                || m.ent(j).stage is Commit);
        assert(n.ent(j) == m.ent(j));
    }
    assert forall|a: u64| n.stored.contains(a) implies exists|j: int|
        0 <= j < n.used && (#[trigger] n.ent(j)).op.spec_is_store() && n.ent(j).op.spec_addr()
            == Some(a) && (n.ent(j).stage is WriteBack || n.ent(j).stage is WaitingToCommit
            || n.ent(j).stage is Commit) by {
        let j = choose|j: int|
            0 <= j < m.used && (#[trigger] m.ent(j)).op.spec_is_store() && m.ent(j).op.spec_addr()
                == Some(a) && (m.ent(j).stage is WriteBack || m.ent(j).stage is WaitingToCommit
                || m.ent(j).stage is Commit);
        assert(n.ent(j) == m.ent(j));
    }
}

/// The stage-change lemma specialized to moves that neither take nor
/// return a reservation station.
pub proof fn lemma_with_stage_wf(m: RobModel, k: int, s: Stage)
    requires
        m.wf(),
        0 <= k < m.used,
        s is MemAccess ==> m.ent(k).op.spec_accesses_memory(),
        s is WriteBack ==> m.ent(k).op.spec_writes_back(),
        s is Commit ==> m.all_older_commit(k),
        m.ent(k).stage is Commit ==> s is Commit,
        (s is Issue || s is Execute) <==> (m.ent(k).stage is Issue || m.ent(k).stage
            is Execute),
        (m.ent(k).stage is WriteBack || m.ent(k).stage is WaitingToCommit || m.ent(k).stage
            is Commit) ==> (s is WriteBack || s is WaitingToCommit || s is Commit),
    ensures
        m.with_stage(k, s).wf(),
        m.with_stage(k, s).ent(k) == (RobEntry { stage: s, ..m.ent(k) }),
        forall|j: int|
            0 <= j < m.used && j != k ==> #[trigger] m.with_stage(k, s).ent(j) == m.ent(j),
{
    lemma_stage_change_wf(m, k, s, m.avail);
    assert(RobModel { avail: m.avail, ..m.with_stage(k, s) } =~= m.with_stage(k, s));
}

/// The engine.  All mutation happens in `add` and `tick`; snapshots are
/// plain values.
pub struct ReorderBuffer {
    register_mapping: RegisterMap,
    addresses_stored: AddressSet,
    addresses_loaded: AddressSet,
    available_stations: ReservationStations,
    capacity: ReservationStations,
    entries: Vec<Option<RobEntry>>,
    issue_count: usize,
    head: usize,
    tail: usize,
    size: usize,
    entries_used: usize,
    entries_committed: usize,
}

impl View for ReorderBuffer {
    type V = RobModel;

    closed spec fn view(&self) -> RobModel {
        RobModel {
            entries: self.entries@,
            mapping: self.register_mapping@,
            loaded: self.addresses_loaded@,
            stored: self.addresses_stored@,
            avail: self.available_stations,
            cap: self.capacity,
            head: self.head as int,
            tail: self.tail as int,
            size: self.size as int,
            used: self.entries_used as int,
            committed: self.entries_committed as int,
            issue_count: self.issue_count as int,
        }
    }
}

impl ReorderBuffer {
    /// Representation invariants of the backing collections.
    pub closed spec fn inv_rep(&self) -> bool {
        self.register_mapping.inv() && self.addresses_loaded.inv() && self.addresses_stored.inv()
    }

    /// Well-formedness: the representation invariants together with the
    /// model invariants.
    pub open spec fn wf(&self) -> bool {
        self.inv_rep() && self@.wf()
    }

    /// Builds an empty engine for a configuration.
    #[verifier::loop_isolation(false)]
    pub fn new(config: &Config) -> (r: ReorderBuffer)
        requires
            config.reorder_buffer_entries <= usize::MAX,
            config.int_buffer_entries <= usize::MAX,
            config.eff_addr_buffer_entries <= usize::MAX,
            config.fp_add_buffer_entries <= usize::MAX,
            config.fp_mul_buffer_entries <= usize::MAX,
        ensures
            r.wf(),
            r@ == init_model(*config),
    {
        let size = config.reorder_buffer_entries as usize;
        let mut entries: Vec<Option<RobEntry>> = Vec::new();
        let mut i: usize = 0;
        while i < size
            invariant
                i <= size,
                entries@.len() == i,
                forall|j: int| 0 <= j < i ==> (#[trigger] entries@[j]) is None,
            decreases size - i,
        {
            entries.push(None);
            i = i + 1;
        }
        let stations = ReservationStations {
            alu: config.int_buffer_entries as usize,
            effect_addr: config.eff_addr_buffer_entries as usize,
            fpu_add: config.fp_add_buffer_entries as usize,
            fpu_mul: config.fp_mul_buffer_entries as usize,
        };
        let r = ReorderBuffer {
            register_mapping: RegisterMap::new(),
            addresses_stored: AddressSet::new(),
            addresses_loaded: AddressSet::new(),
            available_stations: stations,
            capacity: stations,
            entries,
            issue_count: 0,
            head: 0,
            tail: 0,
            size,
            entries_used: 0,
            entries_committed: 0,
        };
        proof {
            assert(r@.entries =~= init_model(*config).entries);
            assert(r@ =~= init_model(*config));
            assert(r@.rank_seq() =~= Seq::<RobEntry>::empty());
            assert forall|c: FunctionalUnit| #[trigger] r@.avail.spec_get(c) + count_holders(
                r@.rank_seq(),
                c,
            ) == r@.cap.spec_get(c) by {
                assert(count_holders(r@.rank_seq(), c) == 0);
            }
        }
        r
    }

    /// The total number of instructions that have committed and freed
    /// their slot.
    pub fn get_finished_instructions(&self) -> (r: usize)
        ensures
            r as int == self@.committed,
    {
        self.entries_committed
    }

    /// Attempts to issue an instruction this cycle.  Succeeds, and
    /// performs the issue, exactly when `can_issue` holds of the current
    /// state; fails without side effect otherwise.
    pub fn add(&mut self, op: RiscVOp) -> (r: Result<(), ()>)
        requires
            old(self).wf(),
            op.dst_well_formed(),
            old(self)@.issue_count < usize::MAX,
        ensures
            final(self).wf(),
            (r is Ok) == old(self)@.can_issue(op),
            r is Ok ==> final(self)@ == old(self)@.issue(op),
            r is Err ==> final(self)@ == old(self)@,
    {
        if self.entries_used >= self.size {
            return Err(());
        }
        let fu = op.functional_unit();
        let avail_fu = self.available_stations.get(fu);
        if avail_fu == 0 {
            return Err(());
        }
        if let Some(a) = op.addr() {
            if self.addresses_loaded.contains(a) {
                return Err(());
            }
            if self.addresses_stored.contains(a) {
                return Err(());
            }
        }
        let ghost m0 = self@;
        self.available_stations.set(fu, avail_fu - 1);
        if let Some(dst) = op.dst() {
            let dst_reg = dst.as_reg();
            self.register_mapping.insert(dst_reg, self.head);
        }
        let e = RobEntry { seq: self.issue_count, op, stage: Stage::Issue };
        self.entries[self.head] = Some(e);
        self.head = if self.head + 1 == self.size {
            0
        } else {
            self.head + 1
        };
        self.entries_used = self.entries_used + 1;
        self.issue_count = self.issue_count + 1;
        proof {
            assert(self@ =~= m0.issue(op));
            lemma_issue_wf(m0, op);
        }
        Ok(())
    }

    /// The slot index of the `k`-th oldest in-flight entry.
    fn slot_index(&self, k: usize) -> (i: usize)
        requires
            0 < self@.size,
            0 <= self@.tail < self@.size,
            k as int <= self@.size,
        ensures
            i as int == self@.slot(k as int),
            i < self@.size,
    {
        if k >= self.size - self.tail {
            k - (self.size - self.tail)
        } else {
            self.tail + k
        }
    }

    /// A snapshot of every in-flight instruction in oldest-first order:
    /// issue sequence number, operation, and current stage.
    #[verifier::loop_isolation(false)]
    pub fn get_stages(&self) -> (r: Vec<(usize, RiscVOp, Stage)>)
        requires
            self.wf(),
        ensures
            r@.len() == self@.used,
            forall|k: int|
                0 <= k < self@.used ==> #[trigger] r@[k] == (
                    self@.ent(k).seq,
                    self@.ent(k).op,
                    self@.ent(k).stage,
                ),
    {
        let mut result: Vec<(usize, RiscVOp, Stage)> = Vec::new();
        let mut k: usize = 0;
        while k < self.entries_used
            invariant
                k <= self@.used,
                result@.len() == k,
                forall|j: int|
                    0 <= j < k ==> #[trigger] result@[j] == (
                        self@.ent(j).seq,
                        self@.ent(j).op,
                        self@.ent(j).stage,
                    ),
            decreases self@.used - k,
        {
            let i = self.slot_index(k);
            match &self.entries[i] {
                Some(e) => {
                    result.push((e.seq, e.op, e.stage));
                },
                None => {
                    proof {
                        assert(false);
                    }
                },
            }
            k = k + 1;
        }
        result
    }

    /// The slot indices and operations of every in-flight instruction in
    /// the given stage, oldest first.
    #[verifier::loop_isolation(false)]
    pub fn get_all_in_stage(&self, stage: Stage) -> (r: Vec<(usize, RiscVOp)>)
        requires
            self.wf(),
        ensures
            r@ == self@.in_stage_list(stage, 0),
    {
        let mut result: Vec<(usize, RiscVOp)> = Vec::new();
        let mut k: usize = 0;
        while k < self.entries_used
            invariant
                k <= self@.used,
                result@ + self@.in_stage_list(stage, k as int) == self@.in_stage_list(stage, 0),
            decreases self@.used - k,
        {
            let i = self.slot_index(k);
            match &self.entries[i] {
                Some(e) => {
                    if e.stage == stage {
                        result.push((i, e.op));
                    }
                },
                None => {
                    proof {
                        assert(false);
                    }
                },
            }
            proof {
                assert(result@ + self@.in_stage_list(stage, k + 1) =~= self@.in_stage_list(
                    stage,
                    0,
                ));
            }
            k = k + 1;
        }
        proof {
            assert(result@ =~= result@ + self@.in_stage_list(stage, self@.used));
        }
        result
    }

    /// The slot indices and operations of every in-flight instruction in
    /// the execute stage, oldest first.
    #[verifier::loop_isolation(false)]
    pub fn get_all_in_ex(&self) -> (r: Vec<(usize, RiscVOp)>)
        requires
            self.wf(),
        ensures
            r@ == self@.in_ex_list(0),
    {
        let mut result: Vec<(usize, RiscVOp)> = Vec::new();
        let mut k: usize = 0;
        while k < self.entries_used
            invariant
                k <= self@.used,
                result@ + self@.in_ex_list(k as int) == self@.in_ex_list(0),
            decreases self@.used - k,
        {
            let i = self.slot_index(k);
            match &self.entries[i] {
                Some(e) => {
                    match e.stage {
                        Stage::Execute(_) => {
                            result.push((i, e.op));
                        },
                        _ => {},
                    }
                },
                None => {
                    proof {
                        assert(false);
                    }
                },
            }
            proof {
                assert(result@ + self@.in_ex_list(k + 1) =~= self@.in_ex_list(0));
            }
            k = k + 1;
        }
        proof {
            assert(result@ =~= result@ + self@.in_ex_list(self@.used));
        }
        result
    }

    /// Whether the entry in slot `i` was issued before the entry in slot
    /// `j`: its position counted from the tail along the occupied
    /// circular range [tail, head) is smaller.
    pub fn is_earlier_than(&self, i: usize, j: usize) -> (r: bool)
        requires
            self.wf(),
        ensures
            r == spec_earlier(self@, i as int, j as int),
            r == (self@.rank_of(i as int) < self@.rank_of(j as int)),
    {
        let ri = if i >= self.tail {
            i - self.tail
        } else {
            i + (self.size - self.tail)
        };
        let rj = if j >= self.tail {
            j - self.tail
        } else {
            j + (self.size - self.tail)
        };
        ri < rj
    }

    /// Lets the entry in slot `i` broadcast on the common data bus: an
    /// entry in the write-back stage advances to Commit when every older
    /// in-flight entry has committed, and to WaitingToCommit otherwise.
    /// Returns whether the slot held a write-back entry.
    #[verifier::loop_isolation(false)]
    pub fn write_to_cdb(&mut self, i: usize) -> (r: bool)
        requires
            old(self).wf(),
            i < old(self)@.size,
        ensures
            final(self).wf(),
            r == (old(self)@.entries[i as int] matches Some(e) && e.stage is WriteBack),
            r ==> final(self)@ == old(self)@.with_stage(
                old(self)@.rank_of(i as int),
                if old(self)@.all_older_commit(old(self)@.rank_of(i as int)) {
                    Stage::Commit
                } else {
                    Stage::WaitingToCommit
                },
            ),
            !r ==> final(self)@ == old(self)@,
    {
        let ghost m0 = self@;
        let is_wb = match &self.entries[i] {
            Some(e) => matches!(e.stage, Stage::WriteBack),
            None => false,
        };
        if !is_wb {
            return false;
        }
        proof {
            lemma_rank_slot(m0, i as int);
        }
        let ghost k = m0.rank_of(i as int);
        // scan the older in-flight entries for one that has not committed
        let rank = if i >= self.tail {
            i - self.tail
        } else {
            i + (self.size - self.tail)
        };
        let mut j: usize = 0;
        let mut all_committed = true;
        while j < rank
            invariant
                j <= rank,
                rank as int == k,
                all_committed == (forall|j2: int|
                    0 <= j2 < j ==> (#[trigger] m0.ent(j2)).stage is Commit),
            decreases rank - j,
        {
            let s = self.slot_index(j);
            let committed_here = match &self.entries[s] {
                Some(e) => matches!(e.stage, Stage::Commit),
                None => {
                    proof {
                        assert(false);
                    }
                    false
                },
            };
            proof {
                assert(committed_here == m0.ent(j as int).stage is Commit);
            }
            if !committed_here {
                all_committed = false;
            }
            j = j + 1;
        }
        let target = if all_committed {
            Stage::Commit
        } else {
            Stage::WaitingToCommit
        };
        let seq0 = match &self.entries[i] {
            Some(e) => e.seq,
            None => 0,
        };
        let op0 = match &self.entries[i] {
            Some(e) => e.op,
            None => {
                proof {
                    assert(false);
                }
                RiscVOp::Add(Operand::Absent, Operand::Absent, Operand::Absent)
            },
        };
        self.entries[i] = Some(RobEntry { seq: seq0, op: op0, stage: target });
        proof {
            assert(self@ =~= m0.with_stage(k, target));
            lemma_with_stage_wf(m0, k, target);
        }
        true
    }

    /// The oldest in-flight entry.
    fn front_entry(&self) -> (e: RobEntry)
        requires
            self.wf(),
            self@.used > 0,
        ensures
            e == self@.ent(0),
    {
        proof {
            assert(self@.slot(0) == self@.tail as int);
            assert(self@.entries[self@.tail as int] is Some);
        }
        match &self.entries[self.tail] {
            Some(e) => *e,
            None => {
                proof {
                    assert(false);
                }
                RobEntry {
                    seq: 0,
                    op: RiscVOp::Add(Operand::Absent, Operand::Absent, Operand::Absent),
                    stage: Stage::Issue,
                }
            },
        }
    }

    /// The `k`-th oldest in-flight entry.
    fn entry_at(&self, k: usize) -> (e: RobEntry)
        requires
            self.wf(),
            (k as int) < self@.used,
        ensures
            e == self@.ent(k as int),
    {
        let i = self.slot_index(k);
        match &self.entries[i] {
            Some(e) => *e,
            None => {
                proof {
                    assert(false);
                }
                RobEntry {
                    seq: 0,
                    op: RiscVOp::Add(Operand::Absent, Operand::Absent, Operand::Absent),
                    stage: Stage::Issue,
                }
            },
        }
    }

    /// Release phase: frees the slot of every entry that sits in the
    /// commit stage at the start of the tick.
    #[verifier::loop_isolation(false)]
    fn phase_release(&mut self)
        requires
            old(self).wf(),
        ensures
            final(self).wf(),
            final(self)@ == phase_release(old(self)@),
    {
        loop
            invariant
                self.wf(),
                phase_release(self@) == phase_release(old(self)@),
            decreases self@.used,
        {
            if self.entries_used == 0 {
                break ;
            }
            let e0 = self.front_entry();
            if !matches!(e0.stage, Stage::Commit) {
                break ;
            }
            let ghost mp = self@;
            if let Some(a) = e0.op.addr() {
                if e0.op.is_load() {
                    self.addresses_loaded.remove(a);
                } else {
                    self.addresses_stored.remove(a);
                }
            }
            self.entries[self.tail] = None;
            self.tail = if self.tail + 1 == self.size {
                0
            } else {
                self.tail + 1
            };
            self.entries_used = self.entries_used - 1;
            self.entries_committed = self.entries_committed + 1;
            proof {
                assert(mp.slot(0) == mp.tail);
                assert(self@ =~= mp.release_front());
                lemma_release_front_wf(mp);
            }
        }
    }

    /// Commit-promotion phase: promotes the oldest eligible
    /// waiting-to-commit entry, if any.  Returns whether something
    /// committed.
    #[verifier::loop_isolation(false)]
    fn phase_promote(&mut self) -> (r: bool)
        requires
            old(self).wf(),
        ensures
            final(self).wf(),
            final(self)@ == phase_promote(old(self)@),
            r == (find_promotable(old(self)@, 0) is Some),
    {
        let ghost m0 = self@;
        let mut k: usize = 0;
        let mut older_commit = true;
        while k < self.entries_used
            invariant
                self.wf(),
                self@ == m0,
                k as int <= m0.used,
                older_commit == m0.all_older_commit(k as int),
                find_promotable(m0, 0) == find_promotable(m0, k as int),
            decreases m0.used - k,
        {
            let e = self.entry_at(k);
            if matches!(e.stage, Stage::WaitingToCommit) && older_commit {
                let i = self.slot_index(k);
                self.entries[i] = Some(RobEntry { stage: Stage::Commit, ..e });
                proof {
                    assert(find_promotable(m0, k as int) == Some(k as int));
                    assert(self@ =~= m0.with_stage(k as int, Stage::Commit));
                    lemma_with_stage_wf(m0, k as int, Stage::Commit);
                }
                return true;
            }
            proof {
                if older_commit && e.stage is Commit {
                    assert forall|j: int| 0 <= j < k + 1 implies (#[trigger] m0.ent(j)).stage
                        is Commit by {
                        if j == k as int {
                            assert(m0.ent(j) == e);
                        }
                    }
                    assert(m0.all_older_commit(k + 1));
                } else {
                    assert(!m0.all_older_commit(k + 1)) by {
                        if m0.all_older_commit(k + 1) {
                            assert forall|j: int| 0 <= j < k implies (#[trigger] m0.ent(j)).stage
                                is Commit by {}
                            assert(m0.ent(k as int).stage is Commit);
                        }
                    }
                }
            }
            older_commit = older_commit && matches!(e.stage, Stage::Commit);
            k = k + 1;
        }
        proof {
            assert(find_promotable(m0, k as int) is None);
        }
        false
    }

    /// Common-data-bus phase: lets the oldest write-back entry, if any,
    /// broadcast and leave the write-back stage.  Returns whether
    /// something has committed this tick.
    #[verifier::loop_isolation(false)]
    fn phase_cdb(&mut self, committed: bool) -> (r: bool)
        requires
            old(self).wf(),
        ensures
            final(self).wf(),
            final(self)@ == phase_cdb(old(self)@, committed).0,
            r == phase_cdb(old(self)@, committed).1,
    {
        let ghost m0 = self@;
        let mut k: usize = 0;
        let mut older_commit = true;
        while k < self.entries_used
            invariant
                self.wf(),
                self@ == m0,
                k as int <= m0.used,
                older_commit == m0.all_older_commit(k as int),
                find_first_in_stage(m0, Stage::WriteBack, 0) == find_first_in_stage(
                    m0,
                    Stage::WriteBack,
                    k as int,
                ),
            decreases m0.used - k,
        {
            let e = self.entry_at(k);
            if matches!(e.stage, Stage::WriteBack) {
                proof {
                    assert(find_first_in_stage(m0, Stage::WriteBack, k as int) == Some(k as int));
                }
                let eligible = older_commit && !committed;
                let target = if eligible {
                    Stage::Commit
                } else {
                    Stage::WaitingToCommit
                };
                let i = self.slot_index(k);
                self.entries[i] = Some(RobEntry { stage: target, ..e });
                let ghost m1 = m0.with_stage(k as int, target);
                proof {
                    assert(self@ =~= m1);
                    lemma_with_stage_wf(m0, k as int, target);
                }
                if let Some(dst) = e.op.dst() {
                    let dst_reg = dst.as_reg();
                    let clear = match self.register_mapping.get(dst_reg) {
                        Some(v) => v == i,
                        None => false,
                    };
                    if clear {
                        self.register_mapping.remove(dst_reg);
                        proof {
                            assert(self@ =~= RobModel {
                                mapping: m0.mapping.remove(dst_reg),
                                ..m1
                            });
                            lemma_wf_mapping_change(m1, m0.mapping.remove(dst_reg));
                        }
                    }
                }
                return eligible || committed;
            }
            proof {
                if older_commit && e.stage is Commit {
                    assert forall|j: int| 0 <= j < k + 1 implies (#[trigger] m0.ent(j)).stage
                        is Commit by {
                        if j == k as int {
                            assert(m0.ent(j) == e);
                        }
                    }
                    assert(m0.all_older_commit(k + 1));
                } else {
                    assert(!m0.all_older_commit(k + 1)) by {
                        if m0.all_older_commit(k + 1) {
                            assert forall|j: int| 0 <= j < k implies (#[trigger] m0.ent(j)).stage
                                is Commit by {}
                            assert(m0.ent(k as int).stage is Commit);
                        }
                    }
                }
            }
            older_commit = older_commit && matches!(e.stage, Stage::Commit);
            k = k + 1;
        }
        proof {
            assert(find_first_in_stage(m0, Stage::WriteBack, k as int) is None);
        }
        committed
    }

    /// Memory phase: advances the oldest memory-access entry to
    /// write-back when its address is free of store conflicts, recording
    /// the address.
    #[verifier::loop_isolation(false)]
    fn phase_mem(&mut self)
        requires
            old(self).wf(),
        ensures
            final(self).wf(),
            final(self)@ == phase_mem(old(self)@),
    {
        let ghost m0 = self@;
        let mut k: usize = 0;
        while k < self.entries_used
            invariant
                self.wf(),
                self@ == m0,
                k as int <= m0.used,
                find_first_in_stage(m0, Stage::MemAccess, 0) == find_first_in_stage(
                    m0,
                    Stage::MemAccess,
                    k as int,
                ),
            decreases m0.used - k,
        {
            let e = self.entry_at(k);
            if matches!(e.stage, Stage::MemAccess) {
                proof {
                    assert(find_first_in_stage(m0, Stage::MemAccess, k as int) == Some(k as int));
                }
                match e.op.addr() {
                    Some(a) => {
                        if self.addresses_stored.contains(a) {
                            return ;
                        }
                        let i = self.slot_index(k);
                        self.entries[i] = Some(RobEntry { stage: Stage::WriteBack, ..e });
                        let ghost m1 = m0.with_stage(k as int, Stage::WriteBack);
                        proof {
                            assert(self@ =~= m1);
                            lemma_with_stage_wf(m0, k as int, Stage::WriteBack);
                        }
                        if e.op.is_load() {
                            self.addresses_loaded.insert(a);
                            proof {
                                assert(self@ =~= RobModel { loaded: m1.loaded.insert(a), ..m1 });
                                lemma_wf_addr_insert(m1, k as int, a, true);
                            }
                        } else {
                            self.addresses_stored.insert(a);
                            proof {
                                assert(self@ =~= RobModel { stored: m1.stored.insert(a), ..m1 });
                                lemma_wf_addr_insert(m1, k as int, a, false);
                            }
                        }
                    },
                    None => {
                        proof {
                            assert(m0.ent(k as int).op.spec_accesses_memory());
                            assert(false);
                        }
                    },
                }
                return ;
            }
            k = k + 1;
        }
        proof {
            assert(find_first_in_stage(m0, Stage::MemAccess, k as int) is None);
        }
    }

    /// Execute phase: decrements every execute countdown and moves each
    /// finished instruction onward, returning its reservation station.
    /// Returns whether something has committed this tick.
    #[verifier::loop_isolation(false)]
    fn phase_execute(&mut self, committed: bool) -> (r: bool)
        requires
            old(self).wf(),
        ensures
            final(self).wf(),
            final(self)@ == phase_execute(old(self)@, committed).0,
            r == phase_execute(old(self)@, committed).1,
    {
        let ghost m0 = self@;
        let mut flag = committed;
        let mut older_commit = true;
        let mut k: usize = 0;
        while k < self.entries_used
            invariant
                self.wf(),
                k as int <= m0.used,
                self@.used == m0.used,
                self@.tail == m0.tail,
                self@.size == m0.size,
                self@ == phase_execute_upto(m0, committed, k as int).0,
                flag == phase_execute_upto(m0, committed, k as int).1,
                older_commit == self@.all_older_commit(k as int),
            decreases m0.used - k,
        {
            let ghost mc = self@;
            let ghost flag0 = flag;
            proof {
                lemma_phase_execute_upto_wf(m0, committed, k as int);
            }
            let e = self.entry_at(k);
            let commit_now: bool;
            match e.stage {
                Stage::Execute(c) => {
                    let c1: u64 = if c > 0 {
                        c - 1
                    } else {
                        0
                    };
                    if c1 == 0 {
                        let fu = e.op.functional_unit();
                        let cur = self.available_stations.get(fu);
                        proof {
                            assert(station_holder(e, fu));
                            assert(mc.rank_seq()[k as int] == e);
                            lemma_count_holders_at_least_one(mc.rank_seq(), k as int, fu);
                            assert(cur + 1 <= mc.cap.spec_get(fu));
                        }
                        self.available_stations.set(fu, cur + 1);
                        let target: Stage;
                        if e.op.accesses_memory() {
                            target = Stage::MemAccess;
                        } else if e.op.writes_back() {
                            target = Stage::WriteBack;
                        } else if older_commit && !flag {
                            target = Stage::Commit;
                            flag = true;
                        } else {
                            target = Stage::WaitingToCommit;
                        }
                        let i = self.slot_index(k);
                        self.entries[i] = Some(RobEntry { stage: target, ..e });
                        commit_now = matches!(target, Stage::Commit);
                        proof {
                            assert(self@ =~= exec_step(mc, flag0, k as int).0);
                            lemma_exec_step_wf(mc, flag0, k as int);
                        }
                    } else {
                        let i = self.slot_index(k);
                        self.entries[i] = Some(RobEntry { stage: Stage::Execute(c1), ..e });
                        commit_now = false;
                        proof {
                            assert(self@ =~= exec_step(mc, flag0, k as int).0);
                            lemma_exec_step_wf(mc, flag0, k as int);
                        }
                    }
                },
                _ => {
                    commit_now = matches!(e.stage, Stage::Commit);
                    proof {
                        assert(exec_step(mc, flag0, k as int).0 =~= mc);
                    }
                },
            }
            proof {
                let mn = self@;
                assert(mn == phase_execute_upto(m0, committed, k + 1).0);
                assert(mn.ent(k as int).stage is Commit <==> commit_now);
                if older_commit && commit_now {
                    assert forall|j: int| 0 <= j < k + 1 implies (#[trigger] mn.ent(j)).stage
                        is Commit by {
                        if j < k as int {
                            assert(mc.ent(j).stage is Commit);
                            lemma_exec_step_wf(mc, flag0, k as int);
                            assert(mn.ent(j) == mc.ent(j));
                        }
                    }
                    assert(mn.all_older_commit(k + 1));
                } else {
                    assert(!mn.all_older_commit(k + 1)) by {
                        if mn.all_older_commit(k + 1) {
                            if !commit_now {
                                assert(mn.ent(k as int).stage is Commit);
                            } else {
                                assert(!older_commit);
                                let j = choose|j: int|
                                    0 <= j < k && !((#[trigger] mc.ent(j)).stage is Commit);
                                lemma_exec_step_wf(mc, flag0, k as int);
                                assert(mn.ent(j) == mc.ent(j));
                                assert(mn.ent(j).stage is Commit);
                            }
                        }
                    }
                }
            }
            older_commit = older_commit && commit_now;
            k = k + 1;
        }
        flag
    }

    /// Issue phase: moves every issue-stage instruction whose register
    /// dependencies are clear into the execute stage.
    #[verifier::loop_isolation(false)]
    fn phase_issue(&mut self, config: &Config)
        requires
            old(self).wf(),
        ensures
            final(self).wf(),
            final(self)@ == phase_issue(old(self)@, *config),
    {
        let ghost m0 = self@;
        let mut k: usize = 0;
        while k < self.entries_used
            invariant
                self.wf(),
                k as int <= m0.used,
                self@.used == m0.used,
                self@.tail == m0.tail,
                self@.size == m0.size,
                self@ == phase_issue_upto(m0, *config, k as int),
            decreases m0.used - k,
        {
            let ghost mc = self@;
            let e = self.entry_at(k);
            if matches!(e.stage, Stage::Issue) {
                proof {
                    assert(mc.ent(k as int).op.dst_well_formed());
                }
                let blocked1 = match e.op.src1().dep_reg() {
                    Some(r) => {
                        let self_dep = match e.op.dst() {
                            Some(d) => d.as_reg() == r,
                            None => false,
                        };
                        !self_dep && self.register_mapping.contains_key(r)
                    },
                    None => false,
                };
                let blocked2 = match e.op.src2().dep_reg() {
                    Some(r) => {
                        let self_dep = match e.op.dst() {
                            Some(d) => d.as_reg() == r,
                            None => false,
                        };
                        !self_dep && self.register_mapping.contains_key(r)
                    },
                    None => false,
                };
                proof {
                    assert(blocked1 == operand_blocks(mc, e.op, e.op.spec_src1()));
                    assert(blocked2 == operand_blocks(mc, e.op, e.op.spec_src2()));
                }
                if !blocked1 && !blocked2 {
                    let lat: u64 = if e.op.is_fp_div() {
                        config.fp_div_buffer_latency
                    } else if e.op.is_fp_mul() {
                        config.fp_mul_buffer_latency
                    } else if e.op.is_fp_add() {
                        config.fp_add_buffer_latency
                    } else {
                        1
                    };
                    let i = self.slot_index(k);
                    self.entries[i] = Some(RobEntry { stage: Stage::Execute(lat), ..e });
                    proof {
                        assert(self@ =~= issue_step(mc, *config, k as int));
                        lemma_issue_step_wf(mc, *config, k as int);
                    }
                } else {
                    proof {
                        assert(issue_step(mc, *config, k as int) == mc);
                    }
                }
            } else {
                proof {
                    assert(issue_step(mc, *config, k as int) == mc);
                }
            }
            k = k + 1;
        }
    }

    /// Advances the simulation by one cycle.
    pub fn tick(&mut self, config: &Config)
        requires
            old(self).wf(),
        ensures
            final(self).wf(),
            final(self)@ == tick_spec(old(self)@, *config),
    {
        self.phase_release();
        let promoted = self.phase_promote();
        let wrote = self.phase_cdb(promoted);
        self.phase_mem();
        let _committed = self.phase_execute(wrote);
        self.phase_issue(config);
    }
}

pub proof fn lemma_count_holders_at_least_one(s: Seq<RobEntry>, i: int, c: FunctionalUnit)
    requires
        0 <= i < s.len(),
        station_holder(s[i], c),
    ensures
        count_holders(s, c) >= 1,
    decreases s.len(),
{
    if i == 0 {
        lemma_count_holders_nonneg(s.drop_first(), c);
    } else {
        lemma_count_holders_at_least_one(s.drop_first(), i - 1, c);
    }
}

/// One step of the execute phase, acting on the entry at position `k`:
/// an execute countdown decrements; an entry whose countdown reaches
/// zero leaves the execute stage, returning its reservation station, and
/// enters the memory stage (loads), the write-back stage (other
/// producers), or the commit path (branches and stores).
pub open spec fn exec_step(m: RobModel, committed: bool, k: int) -> (RobModel, bool) {
    let e = m.ent(k);
    match e.stage {
        Stage::Execute(c) => {
            let c1: u64 = if c > 0 {
                (c - 1) as u64
            } else {
                0u64
            };
            if c1 == 0 {
                let fu = e.op.spec_functional_unit();
                let freed = m.avail.spec_set(fu, (m.avail.spec_get(fu) + 1) as usize);
                if e.op.spec_accesses_memory() {
                    (RobModel { avail: freed, ..m.with_stage(k, Stage::MemAccess) }, committed)
                } else if e.op.spec_writes_back() {
                    (RobModel { avail: freed, ..m.with_stage(k, Stage::WriteBack) }, committed)
                } else if m.all_older_commit(k) && !committed {
                    (RobModel { avail: freed, ..m.with_stage(k, Stage::Commit) }, true)
                } else {
                    (
                        RobModel { avail: freed, ..m.with_stage(k, Stage::WaitingToCommit) },
                        committed,
                    )
                }
            } else {
                (m.with_stage(k, Stage::Execute(c1)), committed)
            }
        },
        _ => (m, committed),
    }
}

/// The execute phase applied to the first `k` in-flight entries in
/// oldest-first order.
pub open spec fn phase_execute_upto(m: RobModel, committed: bool, k: int) -> (RobModel, bool)
    decreases k,
{
    if k <= 0 {
        (m, committed)
    } else {
        let prev = phase_execute_upto(m, committed, k - 1);
        exec_step(prev.0, prev.1, k - 1)
    }
}

/// Execute phase: every execute countdown advances; each instruction
/// whose countdown reaches zero moves on and returns its reservation
/// station.
pub open spec fn phase_execute(m: RobModel, committed: bool) -> (RobModel, bool) {
    phase_execute_upto(m, committed, m.used)
}

pub proof fn lemma_exec_step_wf(m: RobModel, committed: bool, k: int)
    requires
        m.wf(),
        0 <= k < m.used,
    ensures
        exec_step(m, committed, k).0.wf(),
        exec_step(m, committed, k).0 == (RobModel {
            entries: exec_step(m, committed, k).0.entries,
            avail: exec_step(m, committed, k).0.avail,
            ..m
        }),
        forall|j: int|
            0 <= j < m.used && j != k ==> exec_step(m, committed, k).0.ent(j) == #[trigger] m.ent(
                j,
            ),
        exec_step(m, committed, k).0.ent(k).stage == m.ent(k).stage || (m.ent(k).stage is Execute
            && !(exec_step(m, committed, k).0.ent(k).stage is Issue)),
        exec_step(m, committed, k).0.ent(k).op == m.ent(k).op,
        exec_step(m, committed, k).0.ent(k).seq == m.ent(k).seq,
{
    let e = m.ent(k);
    let n = exec_step(m, committed, k).0;
    match e.stage {
        Stage::Execute(c) => {
            let c1: u64 = if c > 0 {
                (c - 1) as u64
            } else {
                0u64
            };
            if c1 == 0 {
                let fu = e.op.spec_functional_unit();
                assert(station_holder(e, fu));
                assert(m.rank_seq()[k] == e);
                lemma_count_holders_at_least_one(m.rank_seq(), k, fu);
                assert(m.avail.spec_get(fu) + 1 <= m.cap.spec_get(fu));
                let freed = m.avail.spec_set(fu, (m.avail.spec_get(fu) + 1) as usize);
                let target = if e.op.spec_accesses_memory() {
                    Stage::MemAccess
                } else if e.op.spec_writes_back() {
                    Stage::WriteBack
                } else if m.all_older_commit(k) && !committed {
                    Stage::Commit
                } else {
                    Stage::WaitingToCommit
                };
                assert forall|c2: FunctionalUnit|
                    #[trigger] freed.spec_get(c2) + (if station_holder(
                        RobEntry { stage: target, ..e },
                        c2,
                    ) {
                        1int
                    } else {
                        0int
                    }) == m.avail.spec_get(c2) + (if station_holder(e, c2) {
                        1int
                    } else {
                        0int
                    }) by {}
                lemma_stage_change_wf(m, k, target, freed);
                assert(n == RobModel { avail: freed, ..m.with_stage(k, target) });
            } else {
                lemma_with_stage_wf(m, k, Stage::Execute(c1));
            }
        },
        _ => {},
    }
}

pub proof fn lemma_phase_execute_upto_wf(m: RobModel, committed: bool, k: int)
    requires
        m.wf(),
        0 <= k <= m.used,
    ensures
        phase_execute_upto(m, committed, k).0.wf(),
        phase_execute_upto(m, committed, k).0 == (RobModel {
            entries: phase_execute_upto(m, committed, k).0.entries,
            avail: phase_execute_upto(m, committed, k).0.avail,
            ..m
        }),
        forall|j: int|
            k <= j < m.used ==> phase_execute_upto(m, committed, k).0.ent(j) == #[trigger] m.ent(
                j,
            ),
    decreases k,
{
    if k > 0 {
        lemma_phase_execute_upto_wf(m, committed, k - 1);
        let prev = phase_execute_upto(m, committed, k - 1);
        lemma_exec_step_wf(prev.0, prev.1, k - 1);
        assert forall|j: int| k <= j < m.used implies phase_execute_upto(m, committed, k).0.ent(j)
            == #[trigger] m.ent(j) by {
            assert(prev.0.ent(j) == m.ent(j));
            assert(exec_step(prev.0, prev.1, k - 1).0.ent(j) == prev.0.ent(j));
        }
    }
}

/// Whether one source operand keeps its instruction in the issue stage:
/// its register has a pending producer in the rename table and is not
/// the instruction's own destination.
pub open spec fn operand_blocks(m: RobModel, op: RiscVOp, o: Operand) -> bool {
    match o.spec_dep_reg() {
        Some(r) => m.mapping.dom().contains(r) && op.spec_dst_reg() != Some(r),
        None => false,
    }
}

/// Whether an issued instruction may enter the execute stage: neither
/// source register waits on a pending producer.
pub open spec fn ready_to_execute(m: RobModel, op: RiscVOp) -> bool {
    !operand_blocks(m, op, op.spec_src1()) && !operand_blocks(m, op, op.spec_src2())
}

/// The execute-latency schedule: floating-point divides, multiplies, and
/// adds take their configured latencies — floating-point subtraction
/// shares the adder's — and everything else takes one cycle.
pub open spec fn latency_of(op: RiscVOp, config: Config) -> u64 {
    if op.spec_is_fp_div() {
        config.fp_div_buffer_latency
    } else if op.spec_is_fp_mul() {
        config.fp_mul_buffer_latency
    } else if op.spec_is_fp_add() {
        config.fp_add_buffer_latency
    } else {
        1u64
    }
}

/// One step of the issue phase: the entry at position `k` enters the
/// execute stage when it is in the issue stage and both of its register
/// dependencies are clear.
pub open spec fn issue_step(m: RobModel, config: Config, k: int) -> RobModel {
    let e = m.ent(k);
    if e.stage is Issue && ready_to_execute(m, e.op) {
        m.with_stage(k, Stage::Execute(latency_of(e.op, config)))
    } else {
        m
    }
}

/// The issue phase applied to the first `k` in-flight entries.
pub open spec fn phase_issue_upto(m: RobModel, config: Config, k: int) -> RobModel
    decreases k,
{
    if k <= 0 {
        m
    } else {
        issue_step(phase_issue_upto(m, config, k - 1), config, k - 1)
    }
}

/// Issue phase: every issue-stage instruction whose register
/// dependencies are clear enters the execute stage with its scheduled
/// latency.
pub open spec fn phase_issue(m: RobModel, config: Config) -> RobModel {
    phase_issue_upto(m, config, m.used)
}

pub proof fn lemma_issue_step_wf(m: RobModel, config: Config, k: int)
    requires
        m.wf(),
        0 <= k < m.used,
    ensures
        issue_step(m, config, k).wf(),
        issue_step(m, config, k) == (RobModel { entries: issue_step(m, config, k).entries, ..m }),
        forall|j: int|
            0 <= j < m.used && j != k ==> issue_step(m, config, k).ent(j) == #[trigger] m.ent(j),
        issue_step(m, config, k).ent(k).stage == m.ent(k).stage || (m.ent(k).stage is Issue
            && issue_step(m, config, k).ent(k).stage is Execute),
        issue_step(m, config, k).ent(k).op == m.ent(k).op,
        issue_step(m, config, k).ent(k).seq == m.ent(k).seq,
{
    let e = m.ent(k);
    if e.stage is Issue && ready_to_execute(m, e.op) {
        lemma_with_stage_wf(m, k, Stage::Execute(latency_of(e.op, config)));
    }
}

pub proof fn lemma_phase_issue_upto_wf(m: RobModel, config: Config, k: int)
    requires
        m.wf(),
        0 <= k <= m.used,
    ensures
        phase_issue_upto(m, config, k).wf(),
        phase_issue_upto(m, config, k) == (RobModel {
            entries: phase_issue_upto(m, config, k).entries,
            ..m
        }),
        forall|j: int|
            k <= j < m.used ==> phase_issue_upto(m, config, k).ent(j) == #[trigger] m.ent(j),
    decreases k,
{
    if k > 0 {
        lemma_phase_issue_upto_wf(m, config, k - 1);
        let prev = phase_issue_upto(m, config, k - 1);
        lemma_issue_step_wf(prev, config, k - 1);
        assert forall|j: int| k <= j < m.used implies phase_issue_upto(m, config, k).ent(j)
            == #[trigger] m.ent(j) by {
            assert(prev.ent(j) == m.ent(j));
            assert(issue_step(prev, config, k - 1).ent(j) == prev.ent(j));
        }
    }
}

/// One simulated cycle: release committed entries, promote at most one
/// waiting entry to the commit stage, let the oldest write-back entry
/// broadcast on the common data bus, advance at most one memory access,
/// run every execute countdown, and finally move ready issue-stage
/// instructions into execution.
pub open spec fn tick_spec(m: RobModel, config: Config) -> RobModel {
    let m1 = phase_release(m);
    let m2 = phase_promote(m1);
    let promoted = find_promotable(m1, 0) is Some;
    let p3 = phase_cdb(m2, promoted);
    let m4 = phase_mem(p3.0);
    let p5 = phase_execute(m4, p3.1);
    phase_issue(p5.0, config)
}

/// Recording the address of an in-flight memory operation that has just
/// advanced to write-back preserves well-formedness.
pub proof fn lemma_wf_addr_insert(m: RobModel, k: int, a: u64, load: bool)
    requires
        m.wf(),
        0 <= k < m.used,
        m.ent(k).op.spec_addr() == Some(a),
        load == m.ent(k).op.spec_is_load(),
        !load ==> m.ent(k).op.spec_is_store(),
        m.ent(k).stage is WriteBack || m.ent(k).stage is WaitingToCommit || m.ent(k).stage
            is Commit,
    ensures
        load ==> (RobModel { loaded: m.loaded.insert(a), ..m }).wf(),
        !load ==> (RobModel { stored: m.stored.insert(a), ..m }).wf(),
{
    if load {
        let n = RobModel { loaded: m.loaded.insert(a), ..m };
        assert forall|j: int| 0 <= j < m.used implies n.ent(j) == #[trigger] m.ent(j) by {}
        assert(n.rank_seq() =~= m.rank_seq());
        assert forall|j: int| 0 <= j < n.used implies (#[trigger] n.entries[n.slot(j)]) is Some by {
            assert(m.entries[m.slot(j)] is Some);
        }
        assert forall|j: int| 0 <= j < n.used implies (#[trigger] n.ent(j)).seq == n.issue_count
            - n.used + j && n.ent(j).op.dst_well_formed() && (n.ent(j).stage is MemAccess
            ==> n.ent(j).op.spec_accesses_memory()) && (n.ent(j).stage is WriteBack ==> n.ent(
            j,
        ).op.spec_writes_back()) by {
            assert(n.ent(j) == m.ent(j));
            assert(m.ent(j).op.dst_well_formed());
        }
        assert forall|j: int|
            0 <= j < n.used && (#[trigger] n.ent(j)).stage is Commit implies n.all_older_commit(
            j,
        ) by {
            assert(m.ent(j).stage is Commit);
            assert(m.all_older_commit(j));
            assert forall|j2: int| 0 <= j2 < j implies (#[trigger] n.ent(j2)).stage is Commit by {
                assert(m.ent(j2).stage is Commit);
            }
        }
        assert forall|a2: u64| n.stored.contains(a2) implies exists|j: int|
            0 <= j < n.used && (#[trigger] n.ent(j)).op.spec_is_store() && n.ent(j).op.spec_addr()
                == Some(a2) && (n.ent(j).stage is WriteBack || n.ent(j).stage is WaitingToCommit
                || n.ent(j).stage is Commit) by {
            let j = choose|j: int|
                0 <= j < m.used && (#[trigger] m.ent(j)).op.spec_is_store() && m.ent(
                    j,
                ).op.spec_addr() == Some(a2) && (m.ent(j).stage is WriteBack || m.ent(j).stage
                    is WaitingToCommit || m.ent(j).stage is Commit);
            assert(n.ent(j) == m.ent(j));
        }
        assert forall|a2: u64| n.loaded.contains(a2) implies exists|j: int|
            0 <= j < n.used && (#[trigger] n.ent(j)).op.spec_is_load() && n.ent(j).op.spec_addr()
                == Some(a2) && (n.ent(j).stage is WriteBack || n.ent(j).stage is WaitingToCommit
                || n.ent(j).stage is Commit) by {
            if a2 == a {
                assert(n.ent(k).op.spec_is_load() && n.ent(k).op.spec_addr() == Some(a2) && (n.ent(
                    k,
                ).stage is WriteBack || n.ent(k).stage is WaitingToCommit || n.ent(k).stage
                    is Commit));
            } else {
                let j = choose|j: int|
                    0 <= j < m.used && (#[trigger] m.ent(j)).op.spec_is_load() && m.ent(
                        j,
                    ).op.spec_addr() == Some(a2) && (m.ent(j).stage is WriteBack || m.ent(j).stage
                        is WaitingToCommit || m.ent(j).stage is Commit);
                assert(n.ent(j) == m.ent(j));
            }
        }
    } else {
        let n = RobModel { stored: m.stored.insert(a), ..m };
        assert forall|j: int| 0 <= j < m.used implies n.ent(j) == #[trigger] m.ent(j) by {}
        assert(n.rank_seq() =~= m.rank_seq());
        assert forall|j: int| 0 <= j < n.used implies (#[trigger] n.entries[n.slot(j)]) is Some by {
            assert(m.entries[m.slot(j)] is Some);
        }
        assert forall|j: int| 0 <= j < n.used implies (#[trigger] n.ent(j)).seq == n.issue_count
            - n.used + j && n.ent(j).op.dst_well_formed() && (n.ent(j).stage is MemAccess
            ==> n.ent(j).op.spec_accesses_memory()) && (n.ent(j).stage is WriteBack ==> n.ent(
            j,
        ).op.spec_writes_back()) by {
            assert(n.ent(j) == m.ent(j));
            assert(m.ent(j).op.dst_well_formed());
        }
        assert forall|j: int|
            0 <= j < n.used && (#[trigger] n.ent(j)).stage is Commit implies n.all_older_commit(
            j,
        ) by {
            assert(m.ent(j).stage is Commit);
            assert(m.all_older_commit(j));
            assert forall|j2: int| 0 <= j2 < j implies (#[trigger] n.ent(j2)).stage is Commit by {
                assert(m.ent(j2).stage is Commit);
            }
        }
        assert forall|a2: u64| n.loaded.contains(a2) implies exists|j: int|
            0 <= j < n.used && (#[trigger] n.ent(j)).op.spec_is_load() && n.ent(j).op.spec_addr()
                == Some(a2) && (n.ent(j).stage is WriteBack || n.ent(j).stage is WaitingToCommit
                || n.ent(j).stage is Commit) by {
            let j = choose|j: int|
                0 <= j < m.used && (#[trigger] m.ent(j)).op.spec_is_load() && m.ent(
                    j,
                ).op.spec_addr() == Some(a2) && (m.ent(j).stage is WriteBack || m.ent(j).stage
                    is WaitingToCommit || m.ent(j).stage is Commit);
            assert(n.ent(j) == m.ent(j));
        }
        assert forall|a2: u64| n.stored.contains(a2) implies exists|j: int|
            0 <= j < n.used && (#[trigger] n.ent(j)).op.spec_is_store() && n.ent(j).op.spec_addr()
                == Some(a2) && (n.ent(j).stage is WriteBack || n.ent(j).stage is WaitingToCommit
                || n.ent(j).stage is Commit) by {
            if a2 == a {
                assert(n.ent(k).op.spec_is_store() && n.ent(k).op.spec_addr() == Some(a2) && (
                n.ent(k).stage is WriteBack || n.ent(k).stage is WaitingToCommit || n.ent(k).stage
                    is Commit));
            } else {
                let j = choose|j: int|
                    0 <= j < m.used && (#[trigger] m.ent(j)).op.spec_is_store() && m.ent(
                        j,
                    ).op.spec_addr() == Some(a2) && (m.ent(j).stage is WriteBack || m.ent(j).stage
                        is WaitingToCommit || m.ent(j).stage is Commit);
                assert(n.ent(j) == m.ent(j));
            }
        }
    }
}

} // verus!
