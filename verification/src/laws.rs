//! The engine's guarantees, stated and proved once over the model: slot
//! accounting, reservation-station accounting, in-order commit, the
//! single common data bus, the single memory port, and memory
//! disambiguation.

use vstd::prelude::*;

use crate::config::Config;
use crate::op::FunctionalUnit;
use crate::op::RiscVOp;
use crate::pipeline::count_holders;
use crate::pipeline::exec_step;
use crate::pipeline::find_first_in_stage;
use crate::pipeline::find_promotable;
use crate::pipeline::issue_step;
use crate::pipeline::lemma_exec_step_wf;
use crate::pipeline::lemma_issue_step_wf;
use crate::pipeline::lemma_phase_execute_upto_wf;
use crate::pipeline::lemma_phase_issue_upto_wf;
use crate::pipeline::lemma_rank_slot;
use crate::pipeline::lemma_release_front_wf;
use crate::pipeline::lemma_wf_addr_insert;
use crate::pipeline::lemma_wf_mapping_change;
use crate::pipeline::lemma_with_stage_wf;
use crate::pipeline::phase_cdb;
use crate::pipeline::phase_execute;
use crate::pipeline::phase_execute_upto;
use crate::pipeline::phase_issue;
use crate::pipeline::phase_issue_upto;
use crate::pipeline::phase_mem;
use crate::pipeline::phase_promote;
use crate::pipeline::phase_release;
use crate::pipeline::tick_spec;
use crate::pipeline::RobEntry;
use crate::pipeline::RobModel;
use crate::pipeline::Stage;

verus! {

/// Whether the instruction with issue sequence number `q` is still in
/// the buffer.
pub open spec fn seq_live(m: RobModel, q: int) -> bool {
    m.committed <= q < m.issue_count
}

/// The stage of the live instruction with issue sequence number `q`.
pub open spec fn stage_of(m: RobModel, q: int) -> Stage {
    m.ent(q - m.committed).stage
}

/// The operation of the live instruction with issue sequence number `q`.
pub open spec fn op_of(m: RobModel, q: int) -> RiscVOp {
    m.ent(q - m.committed).op
}

/// In a well-formed state the live instructions, oldest first, carry
/// exactly the consecutive sequence numbers [committed, issue_count).
pub proof fn lemma_seq_rank(m: RobModel, q: int)
    requires
        m.wf(),
        seq_live(m, q),
    ensures
        0 <= q - m.committed < m.used,
        m.ent(q - m.committed).seq == q,
{
}

proof fn lemma_release_frame(m: RobModel)
    requires
        m.wf(),
    ensures
        phase_release(m).wf(),
        phase_release(m).committed >= m.committed,
        phase_release(m).issue_count == m.issue_count,
        phase_release(m).mapping == m.mapping,
        forall|q: int|
            seq_live(m, q) && !((#[trigger] stage_of(m, q)) is Commit) ==> seq_live(
                phase_release(m),
                q,
            ) && stage_of(phase_release(m), q) == stage_of(m, q),
        forall|q: int|
            #[trigger] seq_live(m, q) && !seq_live(phase_release(m), q) ==> stage_of(m, q)
                is Commit,
        forall|q: int|
            #[trigger] seq_live(phase_release(m), q) ==> seq_live(m, q) && !(stage_of(m, q)
                is Commit) && stage_of(phase_release(m), q) == stage_of(m, q) && op_of(
                phase_release(m),
                q,
            ) == op_of(m, q),
    decreases m.used,
{
    if m.used > 0 && m.ent(0).stage is Commit {
        lemma_release_front_wf(m);
        let m1 = m.release_front();
        lemma_release_frame(m1);
        assert forall|q: int|
            seq_live(m, q) && !((#[trigger] stage_of(m, q)) is Commit) implies seq_live(
            phase_release(m),
            q,
        ) && stage_of(phase_release(m), q) == stage_of(m, q) by {
            assert(q != m.committed);
            assert(m1.ent(q - m1.committed) == m.ent(q - m.committed));
            assert(stage_of(m1, q) == stage_of(m, q));
        }
        assert forall|q: int|
            #[trigger] seq_live(m, q) && !seq_live(phase_release(m), q) implies stage_of(m, q)
                is Commit by {
            if q == m.committed {
            } else {
                assert(m1.ent(q - m1.committed) == m.ent(q - m.committed));
                assert(stage_of(m1, q) == stage_of(m, q));
            }
        }
        assert forall|q: int| #[trigger] seq_live(phase_release(m), q) implies seq_live(m, q)
            && !(stage_of(m, q) is Commit) && stage_of(phase_release(m), q) == stage_of(m, q)
            && op_of(phase_release(m), q) == op_of(m, q) by {
            assert(seq_live(m1, q));
            assert(q != m.committed);
            assert(m1.ent(q - m1.committed) == m.ent(q - m.committed));
            assert(stage_of(m1, q) == stage_of(m, q));
            assert(op_of(m1, q) == op_of(m, q));
            if stage_of(m, q) is Commit {
                assert(m.all_older_commit(q - m.committed));
            }
        }
    } else {
        assert forall|q: int| #[trigger] seq_live(phase_release(m), q) implies seq_live(m, q)
            && !(stage_of(m, q) is Commit) && stage_of(phase_release(m), q) == stage_of(m, q)
            && op_of(phase_release(m), q) == op_of(m, q) by {
            if stage_of(m, q) is Commit {
                lemma_seq_rank(m, q);
                assert(m.all_older_commit(q - m.committed));
                assert(m.ent(0).stage is Commit);
            }
        }
    }
}

proof fn lemma_promote_frame(m: RobModel)
    requires
        m.wf(),
    ensures
        phase_promote(m).wf(),
        phase_promote(m).committed == m.committed,
        phase_promote(m).issue_count == m.issue_count,
        phase_promote(m).used == m.used,
        phase_promote(m).tail == m.tail,
        forall|q: int|
            seq_live(m, q) && !((#[trigger] stage_of(m, q)) is WaitingToCommit) ==> stage_of(
                phase_promote(m),
                q,
            ) == stage_of(m, q),
        forall|q: int|
            #[trigger] seq_live(m, q) ==> stage_of(phase_promote(m), q) == stage_of(m, q) || (
            stage_of(m, q) is WaitingToCommit && stage_of(phase_promote(m), q) is Commit),
        forall|q: int|
            #[trigger] seq_live(m, q) && (find_promotable(m, 0) is None || q - m.committed
                != find_promotable(m, 0)->Some_0) ==> stage_of(phase_promote(m), q) == stage_of(
                m,
                q,
            ),
        forall|q: int|
            #[trigger] seq_live(m, q) ==> op_of(phase_promote(m), q) == op_of(m, q),
{
    lemma_find_promotable_props(m, 0);
    match find_promotable(m, 0) {
        Some(k) => {
            lemma_with_stage_wf(m, k, Stage::Commit);
            assert forall|q: int|
                seq_live(m, q) && !((#[trigger] stage_of(m, q)) is WaitingToCommit) implies
                stage_of(phase_promote(m), q) == stage_of(m, q) by {
                lemma_seq_rank(m, q);
                assert(q - m.committed != k);
            }
            assert forall|q: int| #[trigger] seq_live(m, q) implies stage_of(phase_promote(m), q)
                == stage_of(m, q) || (stage_of(m, q) is WaitingToCommit && stage_of(
                phase_promote(m),
                q,
            ) is Commit) by {
                lemma_seq_rank(m, q);
            }
            assert forall|q: int|
                #[trigger] seq_live(m, q) && q - m.committed != k implies stage_of(
                phase_promote(m),
                q,
            ) == stage_of(m, q) by {
                lemma_seq_rank(m, q);
            }
            assert forall|q: int| #[trigger] seq_live(m, q) implies op_of(phase_promote(m), q)
                == op_of(m, q) by {
                lemma_seq_rank(m, q);
            }
        },
        None => {},
    }
}

proof fn lemma_find_promotable_props(m: RobModel, k0: int)
    requires
        m.wf(),
        0 <= k0,
    ensures
        find_promotable(m, k0) matches Some(k) ==> k0 <= k < m.used && m.ent(k).stage
            is WaitingToCommit && m.all_older_commit(k),
    decreases m.used - k0,
{
    if k0 < m.used {
        if !(m.ent(k0).stage is WaitingToCommit && m.all_older_commit(k0)) {
            lemma_find_promotable_props(m, k0 + 1);
        }
    }
}

proof fn lemma_find_first_props(m: RobModel, q: Stage, k0: int)
    requires
        m.wf(),
        0 <= k0,
    ensures
        find_first_in_stage(m, q, k0) matches Some(k) ==> k0 <= k < m.used && m.ent(k).stage == q,
        find_first_in_stage(m, q, k0) is None ==> forall|j: int|
            k0 <= j < m.used ==> (#[trigger] m.ent(j)).stage != q,
    decreases m.used - k0,
{
    if k0 < m.used {
        if m.ent(k0).stage != q {
            lemma_find_first_props(m, q, k0 + 1);
        }
    }
}

proof fn lemma_cdb_frame(m: RobModel, committed: bool)
    requires
        m.wf(),
    ensures
        phase_cdb(m, committed).0.wf(),
        phase_cdb(m, committed).0.committed == m.committed,
        phase_cdb(m, committed).0.issue_count == m.issue_count,
        phase_cdb(m, committed).0.used == m.used,
        phase_cdb(m, committed).0.tail == m.tail,
        phase_cdb(m, committed).0.loaded == m.loaded,
        phase_cdb(m, committed).0.stored == m.stored,
        forall|q1: int, q2: int|
            q1 != q2 && seq_live(m, q1) && (#[trigger] stage_of(m, q1)) is WriteBack && seq_live(
                m,
                q2,
            ) && (#[trigger] stage_of(m, q2)) is WriteBack ==> stage_of(phase_cdb(m, committed).0, q1)
                is WriteBack || stage_of(phase_cdb(m, committed).0, q2) is WriteBack,
        forall|q: int|
            seq_live(m, q) && !((#[trigger] stage_of(m, q)) is WriteBack) ==> stage_of(
                phase_cdb(m, committed).0,
                q,
            ) == stage_of(m, q),
        forall|q: int|
            seq_live(m, q) && !((#[trigger] stage_of(m, q)) is MemAccess) ==> !(stage_of(
                phase_cdb(m, committed).0,
                q,
            ) is MemAccess),
        forall|q: int|
            #[trigger] seq_live(m, q) ==> stage_of(phase_cdb(m, committed).0, q) == stage_of(m, q)
                || (stage_of(m, q) is WriteBack && (stage_of(phase_cdb(m, committed).0, q)
                is WaitingToCommit || stage_of(phase_cdb(m, committed).0, q) is Commit)),
        forall|q: int|
            #[trigger] seq_live(m, q) && (find_first_in_stage(m, Stage::WriteBack, 0) is None || q
                - m.committed != find_first_in_stage(m, Stage::WriteBack, 0)->Some_0)
                ==> stage_of(phase_cdb(m, committed).0, q) == stage_of(m, q),
        forall|q: int|
            #[trigger] seq_live(m, q) && stage_of(phase_cdb(m, committed).0, q) is Commit && !(
            stage_of(m, q) is Commit) ==> !committed && phase_cdb(m, committed).1,
        committed ==> phase_cdb(m, committed).1,
        forall|q: int|
            #[trigger] seq_live(m, q) ==> op_of(phase_cdb(m, committed).0, q) == op_of(m, q),
{
    lemma_find_first_props(m, Stage::WriteBack, 0);
    match find_first_in_stage(m, Stage::WriteBack, 0) {
        Some(k) => {
            let eligible = m.all_older_commit(k) && !committed;
            let target = if eligible {
                Stage::Commit
            } else {
                Stage::WaitingToCommit
            };
            lemma_with_stage_wf(m, k, target);
            let m1 = m.with_stage(k, target);
            let n = phase_cdb(m, committed).0;
            match m.ent(k).op.spec_dst_reg() {
                Some(r) => {
                    if m.mapping.dom().contains(r) && m.mapping[r] as int == m.slot(k) {
                        lemma_wf_mapping_change(m1, m.mapping.remove(r));
                    }
                },
                None => {},
            }
            assert forall|q: int| seq_live(m, q) && q - m.committed != k implies stage_of(n, q)
                == stage_of(m, q) by {
                lemma_seq_rank(m, q);
                assert(m1.ent(q - m.committed) == m.ent(q - m.committed));
            }
            assert forall|q1: int, q2: int|
                q1 != q2 && seq_live(m, q1) && (#[trigger] stage_of(m, q1)) is WriteBack
                    && seq_live(m, q2) && (#[trigger] stage_of(m, q2)) is WriteBack implies
                stage_of(n, q1) is WriteBack || stage_of(n, q2) is WriteBack by {
                if q1 - m.committed != k {
                    assert(stage_of(n, q1) == stage_of(m, q1));
                } else {
                    assert(stage_of(n, q2) == stage_of(m, q2));
                }
            }
            assert forall|q: int| #[trigger] seq_live(m, q) implies stage_of(n, q) == stage_of(
                m,
                q,
            ) || (stage_of(m, q) is WriteBack && (stage_of(n, q) is WaitingToCommit || stage_of(
                n,
                q,
            ) is Commit)) by {
                lemma_seq_rank(m, q);
            }
            assert forall|q: int| #[trigger] seq_live(m, q) implies op_of(n, q) == op_of(
                m,
                q,
            ) by {
                lemma_seq_rank(m, q);
            }
            assert forall|q: int|
                #[trigger] seq_live(m, q) && q - m.committed != k implies stage_of(n, q)
                    == stage_of(m, q) by {
                lemma_seq_rank(m, q);
            }
        },
        None => {},
    }
}

proof fn lemma_mem_frame(m: RobModel)
    requires
        m.wf(),
    ensures
        phase_mem(m).wf(),
        phase_mem(m).committed == m.committed,
        phase_mem(m).issue_count == m.issue_count,
        phase_mem(m).used == m.used,
        phase_mem(m).tail == m.tail,
        phase_mem(m).mapping == m.mapping,
        forall|q1: int, q2: int|
            q1 != q2 && seq_live(m, q1) && (#[trigger] stage_of(m, q1)) is MemAccess && seq_live(
                m,
                q2,
            ) && (#[trigger] stage_of(m, q2)) is MemAccess ==> stage_of(phase_mem(m), q1)
                is MemAccess || stage_of(phase_mem(m), q2) is MemAccess,
        forall|q: int|
            seq_live(m, q) && !((#[trigger] stage_of(m, q)) is MemAccess) ==> stage_of(
                phase_mem(m),
                q,
            ) == stage_of(m, q),
        forall|q: int|
            #[trigger] seq_live(m, q) ==> stage_of(phase_mem(m), q) == stage_of(m, q) || (
            stage_of(m, q) is MemAccess && stage_of(phase_mem(m), q) is WriteBack),
        forall|q: int| #[trigger] seq_live(m, q) ==> op_of(phase_mem(m), q) == op_of(m, q),
{
    lemma_find_first_props(m, Stage::MemAccess, 0);
    match find_first_in_stage(m, Stage::MemAccess, 0) {
        Some(k) => {
            let e = m.ent(k);
            let n = phase_mem(m);
            lemma_with_stage_wf(m, k, Stage::WriteBack);
            let m1 = m.with_stage(k, Stage::WriteBack);
            match e.op.spec_addr() {
                Some(a) => {
                    if !m.stored.contains(a) {
                        if e.op.spec_is_load() {
                            lemma_wf_addr_insert(m1, k, a, true);
                        } else {
                            assert(e.op.spec_accesses_memory());
                            assert(false);
                        }
                    }
                },
                None => {
                    assert(e.op.spec_accesses_memory());
                    assert(false);
                },
            }
            assert forall|q: int| seq_live(m, q) && q - m.committed != k implies stage_of(n, q)
                == stage_of(m, q) by {
                lemma_seq_rank(m, q);
                assert(m1.ent(q - m.committed) == m.ent(q - m.committed));
            }
            assert forall|q1: int, q2: int|
                q1 != q2 && seq_live(m, q1) && (#[trigger] stage_of(m, q1)) is MemAccess
                    && seq_live(m, q2) && (#[trigger] stage_of(m, q2)) is MemAccess implies
                stage_of(n, q1) is MemAccess || stage_of(n, q2) is MemAccess by {
                if q1 - m.committed != k {
                    assert(stage_of(n, q1) == stage_of(m, q1));
                } else {
                    assert(stage_of(n, q2) == stage_of(m, q2));
                }
            }
            assert forall|q: int| #[trigger] seq_live(m, q) implies stage_of(n, q) == stage_of(
                m,
                q,
            ) || (stage_of(m, q) is MemAccess && stage_of(n, q) is WriteBack) by {
                lemma_seq_rank(m, q);
            }
            assert forall|q: int| #[trigger] seq_live(m, q) implies op_of(n, q) == op_of(
                m,
                q,
            ) by {
                lemma_seq_rank(m, q);
            }
        },
        None => {},
    }
}

proof fn lemma_execute_frame(m: RobModel, committed: bool, k: int)
    requires
        m.wf(),
        0 <= k <= m.used,
    ensures
        phase_execute_upto(m, committed, k).0.wf(),
        phase_execute_upto(m, committed, k).0.committed == m.committed,
        phase_execute_upto(m, committed, k).0.issue_count == m.issue_count,
        phase_execute_upto(m, committed, k).0.used == m.used,
        forall|j: int|
            0 <= j < m.used && !((#[trigger] m.ent(j)).stage is Execute) ==> phase_execute_upto(
                m,
                committed,
                k,
            ).0.ent(j) == m.ent(j),
        forall|j: int|
            0 <= j < m.used ==> ((#[trigger] phase_execute_upto(m, committed, k).0.ent(j)).stage
                == m.ent(j).stage || (m.ent(j).stage is Execute && !(phase_execute_upto(
                m,
                committed,
                k,
            ).0.ent(j).stage is Issue))),
        committed ==> phase_execute_upto(m, committed, k).1,
        forall|j: int|
            0 <= j < m.used && (#[trigger] phase_execute_upto(m, committed, k).0.ent(j)).stage
                is Commit && !(m.ent(j).stage is Commit) ==> !committed && phase_execute_upto(
                m,
                committed,
                k,
            ).1,
        forall|j1: int, j2: int|
            0 <= j1 < j2 < m.used ==> !((#[trigger] phase_execute_upto(m, committed, k).0.ent(
                j1,
            )).stage is Commit && !(m.ent(j1).stage is Commit) && (
            #[trigger] phase_execute_upto(m, committed, k).0.ent(j2)).stage is Commit && !(m.ent(
                j2,
            ).stage is Commit)),
        forall|j: int|
            0 <= j < m.used ==> (#[trigger] phase_execute_upto(m, committed, k).0.ent(j)).op
                == m.ent(j).op,
    decreases k,
{
    lemma_phase_execute_upto_wf(m, committed, k);
    if k > 0 {
        lemma_execute_frame(m, committed, k - 1);
        let prev = phase_execute_upto(m, committed, k - 1);
        lemma_exec_step_wf(prev.0, prev.1, k - 1);
        assert forall|j: int|
            0 <= j < m.used && !((#[trigger] m.ent(j)).stage is Execute) implies phase_execute_upto(
            m,
            committed,
            k,
        ).0.ent(j) == m.ent(j) by {
            if j == k - 1 {
                assert(prev.0.ent(j) == m.ent(j));
                assert(exec_step(prev.0, prev.1, j).0 == prev.0);
            } else {
                assert(exec_step(prev.0, prev.1, k - 1).0.ent(j) == prev.0.ent(j));
            }
        }
        assert forall|j: int| 0 <= j < m.used implies ((#[trigger] phase_execute_upto(
            m,
            committed,
            k,
        ).0.ent(j)).stage == m.ent(j).stage || (m.ent(j).stage is Execute && !(phase_execute_upto(
            m,
            committed,
            k,
        ).0.ent(j).stage is Issue))) by {
            assert(phase_execute_upto(m, committed, k).0 == exec_step(prev.0, prev.1, k - 1).0);
            if j != k - 1 {
                assert(exec_step(prev.0, prev.1, k - 1).0.ent(j) == prev.0.ent(j));
                assert(phase_execute_upto(m, committed, k - 1).0.ent(j) == prev.0.ent(j));
                assert(prev.0.ent(j).stage == m.ent(j).stage || (m.ent(j).stage is Execute && !(
                prev.0.ent(j).stage is Issue)));
            } else {
                lemma_phase_execute_upto_wf(m, committed, k - 1);
                assert(prev.0.ent(j) == m.ent(j));
                assert(exec_step(prev.0, prev.1, k - 1).0.ent(k - 1).stage == prev.0.ent(
                    k - 1,
                ).stage || (prev.0.ent(k - 1).stage is Execute && !(exec_step(
                    prev.0,
                    prev.1,
                    k - 1,
                ).0.ent(k - 1).stage is Issue)));
            }
        }
        let cur = phase_execute_upto(m, committed, k);
        assert(cur == exec_step(prev.0, prev.1, k - 1));
        lemma_phase_execute_upto_wf(m, committed, k - 1);
        assert forall|j: int|
            0 <= j < m.used && (#[trigger] cur.0.ent(j)).stage is Commit && !(m.ent(j).stage
                is Commit) implies !committed && cur.1 by {
            if j != k - 1 {
                assert(exec_step(prev.0, prev.1, k - 1).0.ent(j) == prev.0.ent(j));
                assert(prev.0.ent(j).stage is Commit);
                assert(!committed && prev.1);
            } else {
                assert(prev.0.ent(j) == m.ent(j));
                assert(!(prev.0.ent(j).stage is Commit));
                assert(!prev.1);
                assert(!committed);
            }
        }
        assert forall|j: int|
            0 <= j < m.used implies (#[trigger] cur.0.ent(j)).op == m.ent(j).op by {
            if j != k - 1 {
                assert(exec_step(prev.0, prev.1, k - 1).0.ent(j) == prev.0.ent(j));
                assert(prev.0.ent(j).op == m.ent(j).op);
            } else {
                assert(prev.0.ent(j) == m.ent(j));
                assert(exec_step(prev.0, prev.1, k - 1).0.ent(k - 1).op == prev.0.ent(k - 1).op);
            }
        }
        assert forall|j1: int, j2: int|
            0 <= j1 < j2 < m.used implies !((#[trigger] cur.0.ent(j1)).stage is Commit && !(m.ent(
                j1,
            ).stage is Commit) && (#[trigger] cur.0.ent(j2)).stage is Commit && !(m.ent(j2).stage
                is Commit)) by {
            if cur.0.ent(j1).stage is Commit && !(m.ent(j1).stage is Commit) && cur.0.ent(
                j2,
            ).stage is Commit && !(m.ent(j2).stage is Commit) {
                if j1 != k - 1 && j2 != k - 1 {
                    assert(exec_step(prev.0, prev.1, k - 1).0.ent(j1) == prev.0.ent(j1));
                    assert(exec_step(prev.0, prev.1, k - 1).0.ent(j2) == prev.0.ent(j2));
                } else if j1 == k - 1 {
                    assert(prev.0.ent(j1) == m.ent(j1));
                    assert(!prev.1);
                    assert(exec_step(prev.0, prev.1, k - 1).0.ent(j2) == prev.0.ent(j2));
                    assert(prev.0.ent(j2).stage is Commit);
                    assert(prev.1);
                } else {
                    assert(prev.0.ent(j2) == m.ent(j2));
                    assert(!prev.1);
                    assert(exec_step(prev.0, prev.1, k - 1).0.ent(j1) == prev.0.ent(j1));
                    assert(prev.0.ent(j1).stage is Commit);
                    assert(prev.1);
                }
            }
        }
    }
}

proof fn lemma_issue_frame(m: RobModel, config: Config, k: int)
    requires
        m.wf(),
        0 <= k <= m.used,
    ensures
        phase_issue_upto(m, config, k).wf(),
        phase_issue_upto(m, config, k).committed == m.committed,
        phase_issue_upto(m, config, k).issue_count == m.issue_count,
        phase_issue_upto(m, config, k).used == m.used,
        forall|j: int|
            0 <= j < m.used && !((#[trigger] m.ent(j)).stage is Issue) ==> phase_issue_upto(
                m,
                config,
                k,
            ).ent(j) == m.ent(j),
        forall|j: int|
            0 <= j < m.used ==> ((#[trigger] phase_issue_upto(m, config, k).ent(j)).stage == m.ent(
                j,
            ).stage || (m.ent(j).stage is Issue && phase_issue_upto(m, config, k).ent(j).stage
                is Execute)),
        forall|j: int|
            0 <= j < m.used ==> (#[trigger] phase_issue_upto(m, config, k).ent(j)).op == m.ent(
                j,
            ).op,
    decreases k,
{
    lemma_phase_issue_upto_wf(m, config, k);
    if k > 0 {
        lemma_issue_frame(m, config, k - 1);
        let prev = phase_issue_upto(m, config, k - 1);
        lemma_issue_step_wf(prev, config, k - 1);
        assert forall|j: int|
            0 <= j < m.used && !((#[trigger] m.ent(j)).stage is Issue) implies phase_issue_upto(
            m,
            config,
            k,
        ).ent(j) == m.ent(j) by {
            if j == k - 1 {
                assert(prev.ent(j) == m.ent(j));
                assert(issue_step(prev, config, j) == prev);
            } else {
                assert(issue_step(prev, config, k - 1).ent(j) == prev.ent(j));
            }
        }
        assert forall|j: int|
            0 <= j < m.used implies (#[trigger] phase_issue_upto(m, config, k).ent(j)).op
                == m.ent(j).op by {
            assert(phase_issue_upto(m, config, k) == issue_step(prev, config, k - 1));
            if j != k - 1 {
                assert(issue_step(prev, config, k - 1).ent(j) == prev.ent(j));
                assert(prev.ent(j).op == m.ent(j).op);
            } else {
                lemma_phase_issue_upto_wf(m, config, k - 1);
                assert(prev.ent(j) == m.ent(j));
                assert(issue_step(prev, config, k - 1).ent(k - 1).op == prev.ent(k - 1).op);
            }
        }
        assert forall|j: int| 0 <= j < m.used implies ((#[trigger] phase_issue_upto(
            m,
            config,
            k,
        ).ent(j)).stage == m.ent(j).stage || (m.ent(j).stage is Issue && phase_issue_upto(
            m,
            config,
            k,
        ).ent(j).stage is Execute)) by {
            assert(phase_issue_upto(m, config, k) == issue_step(prev, config, k - 1));
            if j != k - 1 {
                assert(issue_step(prev, config, k - 1).ent(j) == prev.ent(j));
                assert(phase_issue_upto(m, config, k - 1).ent(j) == prev.ent(j));
                assert(prev.ent(j).stage == m.ent(j).stage || (m.ent(j).stage is Issue
                    && prev.ent(j).stage is Execute));
            } else {
                lemma_phase_issue_upto_wf(m, config, k - 1);
                assert(prev.ent(j) == m.ent(j));
                assert(issue_step(prev, config, k - 1).ent(k - 1).stage == prev.ent(k - 1).stage
                    || (prev.ent(k - 1).stage is Issue && issue_step(prev, config, k - 1).ent(
                    k - 1,
                ).stage is Execute));
            }
        }
    }
}

/// How many of the first `n` slots hold an entry.
pub open spec fn count_occupied(s: Seq<Option<RobEntry>>, n: int) -> int
    decreases n,
{
    if n <= 0 {
        0
    } else {
        count_occupied(s, n - 1) + (if s[n - 1] is Some {
            1int
        } else {
            0int
        })
    }
}

proof fn lemma_count_occupied_below(m: RobModel, n: int)
    requires
        m.wf(),
        m.size > 0,
        0 <= n <= m.size,
    ensures
        count_occupied(m.entries, n) == ({
            let lo = if m.tail + m.used - m.size > 0 {
                m.tail + m.used - m.size
            } else {
                0
            };
            let hi = if m.tail + m.used < m.size {
                m.tail + m.used
            } else {
                m.size
            };
            (if n < lo {
                n
            } else {
                lo
            }) + (if n < m.tail {
                0
            } else if n < hi {
                n - m.tail
            } else {
                hi - m.tail
            })
        }),
    decreases n,
{
    if n > 0 {
        lemma_count_occupied_below(m, n - 1);
        let lo = if m.tail + m.used - m.size > 0 {
            m.tail + m.used - m.size
        } else {
            0
        };
        let hi = if m.tail + m.used < m.size {
            m.tail + m.used
        } else {
            m.size
        };
        let i = n - 1;
        if m.entries[i] is Some {
            assert(m.rank_of(i) < m.used);
            assert(i < lo || (m.tail <= i < hi));
        } else {
            if i < lo || (m.tail <= i < hi) {
                lemma_rank_slot(m, i);
                assert(m.rank_of(i) < m.used);
                assert(m.entries[m.slot(m.rank_of(i))] is Some);
                assert(false);
            }
        }
    }
}

/// LAW (slot accounting): in every well-formed state `entries_used`
/// equals the number of occupied slots, and, when the buffer is not
/// full, also equals head minus tail modulo the buffer size.
pub proof fn law_entries_used_matches_occupancy(m: RobModel)
    requires
        m.wf(),
    ensures
        count_occupied(m.entries, m.size) == m.used,
        m.used < m.size ==> m.used == (if m.head >= m.tail {
            m.head - m.tail
        } else {
            m.head - m.tail + m.size
        }),
{
    if m.size > 0 {
        lemma_count_occupied_below(m, m.size);
    }
}

/// LAW (reservation-station accounting): for every functional-unit
/// class, the free stations plus the in-flight instructions of that
/// class still holding one — those in the issue or execute stage —
/// equal the configured capacity.
pub proof fn law_reservation_station_accounting(m: RobModel, c: FunctionalUnit)
    requires
        m.wf(),
    ensures
        m.avail.spec_get(c) + count_holders(m.rank_seq(), c) == m.cap.spec_get(c),
{
}

/// LAW (commit order equals issue order): live instructions carry the
/// consecutive sequence numbers [committed, issue_count) oldest first,
/// so the instructions that have committed and left the buffer are
/// precisely those issued first; committed entries still inside form a
/// prefix of issue order; and a tick only releases the oldest live
/// instructions, so whenever a later-issued instruction has left the
/// buffer after a tick, every earlier-issued one has too.
pub proof fn law_commit_order_is_issue_order(m: RobModel, config: Config, q1: int, q2: int)
    requires
        m.wf(),
        q1 < q2,
        seq_live(m, q1),
        seq_live(m, q2),
    ensures
        m.ent(q1 - m.committed).seq == q1,
        stage_of(m, q2) is Commit ==> stage_of(m, q1) is Commit,
        !seq_live(tick_spec(m, config), q2) ==> !seq_live(tick_spec(m, config), q1),
{
    lemma_seq_rank(m, q1);
    lemma_seq_rank(m, q2);
    if stage_of(m, q2) is Commit {
        assert(m.all_older_commit(q2 - m.committed));
        assert(m.ent(q1 - m.committed).stage is Commit);
    }
    lemma_tick_wf(m, config);
}

/// LAW (single common data bus): in one tick at most one instruction
/// leaves the write-back stage: of any two distinct live write-back
/// instructions, at least one is still live and in write-back after the
/// tick.
pub proof fn law_single_cdb_writer(m: RobModel, config: Config, q1: int, q2: int)
    requires
        m.wf(),
        q1 != q2,
        seq_live(m, q1) && stage_of(m, q1) is WriteBack,
        seq_live(m, q2) && stage_of(m, q2) is WriteBack,
    ensures
        (seq_live(tick_spec(m, config), q1) && stage_of(tick_spec(m, config), q1) is WriteBack)
            || (seq_live(tick_spec(m, config), q2) && stage_of(tick_spec(m, config), q2)
            is WriteBack),
{
    lemma_release_frame(m);
    let m1 = phase_release(m);
    lemma_promote_frame(m1);
    let m2 = phase_promote(m1);
    let promoted = find_promotable(m1, 0) is Some;
    lemma_cdb_frame(m2, promoted);
    let p3 = phase_cdb(m2, promoted);
    lemma_mem_frame(p3.0);
    let m4 = phase_mem(p3.0);
    lemma_execute_frame(m4, p3.1, m4.used);
    let p5 = phase_execute(m4, p3.1);
    lemma_issue_frame(p5.0, config, p5.0.used);
    let n = tick_spec(m, config);
    let qs = if stage_of(p3.0, q1) is WriteBack {
        q1
    } else {
        q2
    };
    assert(stage_of(p3.0, qs) is WriteBack);
    assert(stage_of(m4, qs) == stage_of(p3.0, qs));
    let j = qs - m4.committed;
    lemma_seq_rank(m4, qs);
    assert(p5.0.ent(j) == m4.ent(j));
    assert(n.ent(j) == p5.0.ent(j));
    assert(stage_of(n, qs) is WriteBack);
}

/// LAW (single memory port): in one tick at most one instruction leaves
/// the memory-access stage: of any two distinct live memory-access
/// instructions, at least one is still live and in memory access after
/// the tick.
pub proof fn law_single_memory_access(m: RobModel, config: Config, q1: int, q2: int)
    requires
        m.wf(),
        q1 != q2,
        seq_live(m, q1) && stage_of(m, q1) is MemAccess,
        seq_live(m, q2) && stage_of(m, q2) is MemAccess,
    ensures
        (seq_live(tick_spec(m, config), q1) && stage_of(tick_spec(m, config), q1) is MemAccess)
            || (seq_live(tick_spec(m, config), q2) && stage_of(tick_spec(m, config), q2)
            is MemAccess),
{
    lemma_release_frame(m);
    let m1 = phase_release(m);
    lemma_promote_frame(m1);
    let m2 = phase_promote(m1);
    let promoted = find_promotable(m1, 0) is Some;
    lemma_cdb_frame(m2, promoted);
    let p3 = phase_cdb(m2, promoted);
    lemma_mem_frame(p3.0);
    let m4 = phase_mem(p3.0);
    lemma_execute_frame(m4, p3.1, m4.used);
    let p5 = phase_execute(m4, p3.1);
    lemma_issue_frame(p5.0, config, p5.0.used);
    let n = tick_spec(m, config);
    let qs = if stage_of(m4, q1) is MemAccess {
        q1
    } else {
        q2
    };
    assert(stage_of(m4, qs) is MemAccess);
    let j = qs - m4.committed;
    lemma_seq_rank(m4, qs);
    assert(p5.0.ent(j) == m4.ent(j));
    assert(n.ent(j) == p5.0.ent(j));
    assert(stage_of(n, qs) is MemAccess);
}

/// LAW (memory disambiguation, as far as the engine enforces it): an
/// instruction whose effective address is currently recorded is refused
/// at issue, and every recorded address belongs to a live memory
/// operation that has advanced past the memory stage and not yet
/// committed.  The refusal covers recorded addresses only: an address is
/// recorded when its operation passes the memory stage, not at issue,
/// so two live memory operations may briefly share an address.
pub proof fn law_memory_disambiguation(m: RobModel, op: RiscVOp, a: u64)
    requires
        m.wf(),
        op.spec_addr() == Some(a),
        m.loaded.contains(a) || m.stored.contains(a),
    ensures
        !m.can_issue(op),
        m.loaded.contains(a) ==> exists|k: int|
            0 <= k < m.used && (#[trigger] m.ent(k)).op.spec_is_load() && m.ent(k).op.spec_addr()
                == Some(a) && !(m.ent(k).stage is Issue) && !(m.ent(k).stage is Execute) && !(
            m.ent(k).stage is MemAccess),
{
    if m.loaded.contains(a) {
        let k = choose|k: int|
            0 <= k < m.used && (#[trigger] m.ent(k)).op.spec_is_load() && m.ent(k).op.spec_addr()
                == Some(a) && (m.ent(k).stage is WriteBack || m.ent(k).stage is WaitingToCommit
                || m.ent(k).stage is Commit);
        assert(0 <= k < m.used && m.ent(k).op.spec_is_load() && m.ent(k).op.spec_addr() == Some(a)
            && !(m.ent(k).stage is Issue) && !(m.ent(k).stage is Execute) && !(m.ent(k).stage
            is MemAccess));
    }
}

/// The forward order of the pipeline stages.
pub open spec fn stage_ord(s: Stage) -> int {
    match s {
        Stage::Issue => 0,
        Stage::Execute(_) => 1,
        Stage::MemAccess => 2,
        Stage::WriteBack => 3,
        Stage::WaitingToCommit => 4,
        Stage::Commit => 5,
    }
}

/// Across one tick a live instruction never moves backward through the
/// stages, and it leaves the buffer only from the commit stage.
pub proof fn lemma_tick_stage_monotone(m: RobModel, config: Config, q: int)
    requires
        m.wf(),
        seq_live(m, q),
    ensures
        seq_live(tick_spec(m, config), q) ==> stage_ord(stage_of(tick_spec(m, config), q))
            >= stage_ord(stage_of(m, q)),
        seq_live(tick_spec(m, config), q) ==> !(stage_of(m, q) is Commit),
        !seq_live(tick_spec(m, config), q) ==> stage_of(m, q) is Commit,
{
    lemma_release_frame(m);
    let m1 = phase_release(m);
    lemma_promote_frame(m1);
    let m2 = phase_promote(m1);
    let promoted = find_promotable(m1, 0) is Some;
    lemma_cdb_frame(m2, promoted);
    let p3 = phase_cdb(m2, promoted);
    lemma_mem_frame(p3.0);
    let m4 = phase_mem(p3.0);
    lemma_execute_frame(m4, p3.1, m4.used);
    let p5 = phase_execute(m4, p3.1);
    lemma_issue_frame(p5.0, config, p5.0.used);
    let n = tick_spec(m, config);
    if seq_live(n, q) {
        assert(seq_live(m1, q));
        assert(stage_of(m1, q) == stage_of(m, q));
        assert(seq_live(m2, q) && seq_live(p3.0, q) && seq_live(m4, q) && seq_live(p5.0, q));
        assert(stage_ord(stage_of(m2, q)) >= stage_ord(stage_of(m1, q)));
        assert(stage_ord(stage_of(p3.0, q)) >= stage_ord(stage_of(m2, q)));
        assert(stage_ord(stage_of(m4, q)) >= stage_ord(stage_of(p3.0, q)));
        let j = q - m4.committed;
        lemma_seq_rank(m4, q);
        assert(p5.0.ent(j).stage == m4.ent(j).stage || (m4.ent(j).stage is Execute && !(
        p5.0.ent(j).stage is Issue)));
        assert(stage_ord(stage_of(p5.0, q)) >= stage_ord(stage_of(m4, q)));
        assert(n.ent(j).stage == p5.0.ent(j).stage || (p5.0.ent(j).stage is Issue && n.ent(
            j,
        ).stage is Execute));
        assert(stage_ord(stage_of(n, q)) >= stage_ord(stage_of(p5.0, q)));
    }
}

/// After a tick at most one live instruction sits in the commit stage:
/// commits are serialized, one per cycle.
#[verifier::rlimit(100)]
#[verifier::spinoff_prover]
pub proof fn lemma_tick_single_commit(m: RobModel, config: Config, q1: int, q2: int)
    requires
        m.wf(),
        q1 != q2,
        seq_live(tick_spec(m, config), q1),
        seq_live(tick_spec(m, config), q2),
    ensures
        !(stage_of(tick_spec(m, config), q1) is Commit && stage_of(tick_spec(m, config), q2)
            is Commit),
{
    lemma_release_frame(m);
    let m1 = phase_release(m);
    lemma_promote_frame(m1);
    let m2 = phase_promote(m1);
    let promoted = find_promotable(m1, 0) is Some;
    lemma_cdb_frame(m2, promoted);
    let p3 = phase_cdb(m2, promoted);
    lemma_mem_frame(p3.0);
    let m4 = phase_mem(p3.0);
    lemma_execute_frame(m4, p3.1, m4.used);
    let p5 = phase_execute(m4, p3.1);
    lemma_issue_frame(p5.0, config, p5.0.used);
    let n = tick_spec(m, config);
    if stage_of(n, q1) is Commit && stage_of(n, q2) is Commit {
        assert forall|q: int| seq_live(n, q) && (#[trigger] stage_of(n, q)) is Commit implies
            stage_of(p5.0, q) is Commit by {
            lemma_seq_rank(m4, q);
            let j = q - p5.0.committed;
            assert(phase_issue_upto(p5.0, config, p5.0.used).ent(j).stage == p5.0.ent(j).stage
                || (p5.0.ent(j).stage is Issue && phase_issue_upto(p5.0, config, p5.0.used).ent(
                j,
            ).stage is Execute));
        }
        assert forall|q: int| seq_live(n, q) && (#[trigger] stage_of(p5.0, q)) is Commit && !(
        stage_of(m4, q) is Commit) implies !p3.1 by {
            lemma_seq_rank(m4, q);
        }
        assert forall|q: int| seq_live(n, q) && (#[trigger] stage_of(m4, q)) is Commit implies
            stage_of(p3.0, q) is Commit && p3.1 by {
            assert(seq_live(p3.0, q));
            assert(seq_live(m2, q));
            assert(seq_live(m1, q));
            assert(!(stage_of(m1, q) is Commit));
            assert(!(stage_of(p3.0, q) is MemAccess) ==> stage_of(m4, q) == stage_of(p3.0, q));
            if stage_of(p3.0, q) is MemAccess {
                assert(stage_of(m4, q) == stage_of(p3.0, q) || (stage_of(p3.0, q) is MemAccess
                    && stage_of(m4, q) is WriteBack));
                assert(false);
            }
            // a commit present after the bus phase implies the tick's
            // commit flag
            if stage_of(m2, q) is Commit {
                assert(promoted) by {
                    if find_promotable(m1, 0) is None {
                        assert(stage_of(m2, q) == stage_of(m1, q));
                    }
                }
                assert(p3.1);
            } else {
                assert(stage_of(p3.0, q) is Commit);
                assert(p3.1);
            }
        }
        // at most one new commit per phase, and each phase's commit sets
        // the flag the later phases test
        let c1 = stage_of(p5.0, q1) is Commit;
        let c2 = stage_of(p5.0, q2) is Commit;
        assert(c1 && c2);
        let new1 = !(stage_of(m4, q1) is Commit);
        let new2 = !(stage_of(m4, q2) is Commit);
        lemma_seq_rank(m4, q1);
        lemma_seq_rank(m4, q2);
        if new1 && new2 {
            let j1 = q1 - m4.committed;
            let j2 = q2 - m4.committed;
            assert(p5.0.ent(j1).stage is Commit && !(m4.ent(j1).stage is Commit));
            assert(p5.0.ent(j2).stage is Commit && !(m4.ent(j2).stage is Commit));
            assert(false);
        } else if new1 {
            assert(!p3.1);
            assert(stage_of(m4, q2) is Commit);
            assert(p3.1);
            assert(false);
        } else if new2 {
            assert(!p3.1);
            assert(stage_of(m4, q1) is Commit);
            assert(p3.1);
            assert(false);
        } else {
            // both commits predate the execute phase
            assert(stage_of(p3.0, q1) is Commit && stage_of(p3.0, q2) is Commit);
            let kp = if find_promotable(m1, 0) is Some {
                find_promotable(m1, 0)->Some_0
            } else {
                0
            };
            let kc = if find_first_in_stage(m2, Stage::WriteBack, 0) is Some {
                find_first_in_stage(m2, Stage::WriteBack, 0)->Some_0
            } else {
                0
            };
            assert forall|q: int|
                seq_live(n, q) && (#[trigger] stage_of(p3.0, q)) is Commit implies (stage_of(
                    m2,
                    q,
                ) is Commit && q - m1.committed == kp && promoted) || (!(stage_of(m2, q)
                    is Commit) && q - m2.committed == kc && !promoted) by {
                assert(seq_live(m1, q));
                assert(seq_live(m2, q));
                assert(!(stage_of(m1, q) is Commit));
                if stage_of(m2, q) is Commit {
                    if find_promotable(m1, 0) is None || q - m1.committed != kp {
                        assert(stage_of(m2, q) == stage_of(m1, q));
                        assert(false);
                    }
                } else {
                    if find_first_in_stage(m2, Stage::WriteBack, 0) is None || q - m2.committed
                        != kc {
                        assert(stage_of(p3.0, q) == stage_of(m2, q));
                        assert(false);
                    }
                }
            }
            assert(false);
        }
    }
}

/// A live instruction keeps its operation across a tick: only its stage
/// ever changes while it is in flight.
pub proof fn lemma_tick_op_preserved(m: RobModel, config: Config, q: int)
    requires
        m.wf(),
        seq_live(m, q),
        seq_live(tick_spec(m, config), q),
    ensures
        op_of(tick_spec(m, config), q) == op_of(m, q),
{
    lemma_release_frame(m);
    let m1 = phase_release(m);
    lemma_promote_frame(m1);
    let m2 = phase_promote(m1);
    let promoted = find_promotable(m1, 0) is Some;
    lemma_cdb_frame(m2, promoted);
    let p3 = phase_cdb(m2, promoted);
    lemma_mem_frame(p3.0);
    let m4 = phase_mem(p3.0);
    lemma_execute_frame(m4, p3.1, m4.used);
    let p5 = phase_execute(m4, p3.1);
    lemma_issue_frame(p5.0, config, p5.0.used);
    let n = tick_spec(m, config);
    assert(seq_live(m1, q));
    assert(op_of(m1, q) == op_of(m, q));
    assert(seq_live(m2, q) && seq_live(p3.0, q) && seq_live(m4, q) && seq_live(p5.0, q));
    assert(op_of(m2, q) == op_of(m1, q));
    assert(op_of(p3.0, q) == op_of(m2, q));
    assert(op_of(m4, q) == op_of(p3.0, q));
    let j = q - m4.committed;
    lemma_seq_rank(m4, q);
    assert(p5.0.ent(j).op == m4.ent(j).op);
    assert(n.ent(j).op == p5.0.ent(j).op);
}

/// A tick preserves well-formedness, never un-issues an instruction, and
/// only ever grows the count of committed instructions.
pub proof fn lemma_tick_wf(m: RobModel, config: Config)
    requires
        m.wf(),
    ensures
        tick_spec(m, config).wf(),
        tick_spec(m, config).committed >= m.committed,
        tick_spec(m, config).issue_count == m.issue_count,
{
    lemma_release_frame(m);
    let m1 = phase_release(m);
    lemma_promote_frame(m1);
    let m2 = phase_promote(m1);
    let promoted = find_promotable(m1, 0) is Some;
    lemma_cdb_frame(m2, promoted);
    let p3 = phase_cdb(m2, promoted);
    lemma_mem_frame(p3.0);
    let m4 = phase_mem(p3.0);
    lemma_execute_frame(m4, p3.1, m4.used);
    let p5 = phase_execute(m4, p3.1);
    lemma_issue_frame(p5.0, config, p5.0.used);
}

} // verus!
