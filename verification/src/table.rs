//! The timing-table recorder: drives the engine cycle by cycle, trying
//! to issue the next instruction of the trace each cycle, and records
//! the cycle at which each instruction is observed in each stage.

use vstd::prelude::*;

use crate::config::Config;
use crate::laws::lemma_seq_rank;
use crate::laws::lemma_tick_op_preserved;
use crate::laws::lemma_tick_single_commit;
use crate::laws::lemma_tick_stage_monotone;
use crate::laws::lemma_tick_wf;
use crate::laws::op_of;
use crate::laws::seq_live;
use crate::laws::stage_of;
use crate::laws::stage_ord;
use crate::op::RiscVOp;
use crate::pipeline::init_model;
use crate::pipeline::lemma_issue_wf;
use crate::pipeline::tick_spec;
use crate::pipeline::ReorderBuffer;
use crate::pipeline::RobModel;
use crate::pipeline::Stage;

verus! {

/// One line of the timing table: the cycles at which the instruction
/// entered each pipeline stage (for the execute stage, its first and
/// last cycle).  A missing value means the stage was never observed.
#[derive(Clone, Copy, Debug, PartialEq, Eq)]
pub struct Row {
    pub op: Option<RiscVOp>,
    pub issued: Option<u64>,
    pub start_ex: Option<u64>,
    pub end_ex: Option<u64>,
    pub mem_access: Option<u64>,
    pub write_back: Option<u64>,
    pub committed: Option<u64>,
}

/// When both cycles are recorded, the earlier stage's is at most the
/// later stage's.
pub open spec fn in_order(a: Option<u64>, b: Option<u64>) -> bool {
    match (a, b) {
        (Some(x), Some(y)) => x <= y,
        _ => true,
    }
}

/// The recorded cycles of a row respect the stage order
/// issue, execute start, execute end, memory access, write-back,
/// commit, pairwise over the fields that are set.
pub open spec fn row_monotone(r: Row) -> bool {
    &&& (r.end_ex is Some ==> r.start_ex is Some)
    &&& in_order(r.issued, r.start_ex)
    &&& in_order(r.issued, r.end_ex)
    &&& in_order(r.issued, r.mem_access)
    &&& in_order(r.issued, r.write_back)
    &&& in_order(r.issued, r.committed)
    &&& in_order(r.start_ex, r.end_ex)
    &&& in_order(r.start_ex, r.mem_access)
    &&& in_order(r.start_ex, r.write_back)
    &&& in_order(r.start_ex, r.committed)
    &&& in_order(r.end_ex, r.mem_access)
    &&& in_order(r.end_ex, r.write_back)
    &&& in_order(r.end_ex, r.committed)
    &&& in_order(r.mem_access, r.write_back)
    &&& in_order(r.mem_access, r.committed)
    &&& in_order(r.write_back, r.committed)
}

/// Every recorded cycle is at most `cycle`.
pub open spec fn row_bounded(r: Row, cycle: u64) -> bool {
    &&& (r.issued matches Some(x) ==> x <= cycle)
    &&& (r.start_ex matches Some(x) ==> x <= cycle)
    &&& (r.end_ex matches Some(x) ==> x <= cycle)
    &&& (r.mem_access matches Some(x) ==> x <= cycle)
    &&& (r.write_back matches Some(x) ==> x <= cycle)
    &&& (r.committed matches Some(x) ==> x <= cycle)
}

/// The row a newly issued instruction starts with: only its issue cycle
/// recorded.
pub open spec fn fresh_row(cycle: u64) -> Row {
    Row {
        op: None,
        issued: Some(cycle),
        start_ex: None,
        end_ex: None,
        mem_access: None,
        write_back: None,
        committed: None,
    }
}

/// The recorder's stamping rule for one observed instruction: the first
/// cycle in the execute stage sets its start, its last cycle (count one
/// left) sets its end, and the memory, write-back, and commit stages
/// stamp their columns; the issue and waiting stages record nothing.
pub open spec fn stamp_row(r: Row, op: RiscVOp, stage: Stage, cycle: u64) -> Row {
    let r1 = Row { op: Some(op), ..r };
    match stage {
        Stage::Execute(c) => {
            let r2 = if r1.start_ex is None {
                Row { start_ex: Some(cycle), ..r1 }
            } else {
                r1
            };
            if c == 1 {
                Row { end_ex: Some(cycle), ..r2 }
            } else {
                r2
            }
        },
        Stage::MemAccess => Row { mem_access: Some(cycle), ..r1 },
        Stage::WriteBack => Row { write_back: Some(cycle), ..r1 },
        Stage::Commit => Row { committed: Some(cycle), ..r1 },
        _ => r1,
    }
}

/// One snapshot pass applied to the first `k` live entries, oldest
/// first: each stamps the row at its issue sequence number.
pub open spec fn snapshot_upto(rows: Seq<Row>, m: RobModel, cycle: u64, k: int) -> Seq<Row>
    decreases k,
{
    if k <= 0 {
        rows
    } else {
        let prev = snapshot_upto(rows, m, cycle, k - 1);
        let e = m.ent(k - 1);
        prev.update(e.seq as int, stamp_row(prev[e.seq as int], e.op, e.stage, cycle))
    }
}

/// One full snapshot of the engine into the rows.
pub open spec fn snapshot_spec(rows: Seq<Row>, m: RobModel, cycle: u64) -> Seq<Row> {
    snapshot_upto(rows, m, cycle, m.used)
}

/// The driver itself, from an intermediate state: stop successfully
/// once every instruction has committed, give up when the cycle counter
/// is exhausted, and otherwise offer the engine the next unissued
/// instruction, snapshot, tick, and snapshot again with the next cycle
/// number.
pub open spec fn run_from(
    rows: Seq<Row>,
    m: RobModel,
    next: int,
    cycle: u64,
    instructions: Seq<RiscVOp>,
    config: Config,
) -> (Seq<Row>, bool)
    decreases u64::MAX - cycle,
{
    if m.committed >= instructions.len() {
        (rows, true)
    } else if cycle == u64::MAX {
        (rows, false)
    } else {
        let issue_now = next < instructions.len() && m.can_issue(instructions[next]);
        let rows1 = if issue_now {
            rows.push(fresh_row(cycle))
        } else {
            rows
        };
        let m1 = if issue_now {
            m.issue(instructions[next])
        } else {
            m
        };
        let next1 = if issue_now {
            next + 1
        } else {
            next
        };
        let rows2 = snapshot_spec(rows1, m1, cycle);
        let m2 = tick_spec(m1, config);
        let rows3 = snapshot_spec(rows2, m2, (cycle + 1) as u64);
        run_from(rows3, m2, next1, (cycle + 1) as u64, instructions, config)
    }
}

/// What a whole simulation yields: the rows and whether it completed,
/// starting from an empty table, a fresh engine, the first instruction,
/// and cycle one.
pub open spec fn run_spec(instructions: Seq<RiscVOp>, config: Config) -> (Seq<Row>, bool) {
    run_from(Seq::empty(), init_model(config), 0, 1, instructions, config)
}

/// At most one live instruction sits in the commit stage.
pub open spec fn single_commit(m: RobModel) -> bool {
    forall|q1: int, q2: int|
        seq_live(m, q1) && seq_live(m, q2) && q1 != q2 ==> !((#[trigger] stage_of(m, q1))
            is Commit && (#[trigger] stage_of(m, q2)) is Commit)
}

/// Among the rows whose commit cycle is recorded, the cycles follow row
/// order — and rows are in issue order, so commit order equals issue
/// order.
pub open spec fn commits_in_order(rows: Seq<Row>) -> bool {
    forall|n1: int, n2: int|
        0 <= n1 < n2 < rows.len() && (#[trigger] rows[n1]).committed is Some && (
        #[trigger] rows[n2]).committed is Some ==> rows[n1].committed->Some_0
            <= rows[n2].committed->Some_0
}

/// How the rows relate to the engine: one row per issued instruction,
/// and a row records a stage only once its instruction has reached it.
pub open spec fn rows_track_engine(rows: Seq<Row>, m: RobModel) -> bool {
    &&& rows.len() == m.issue_count
    &&& forall|q: int|
        m.committed <= q < m.issue_count ==> (((#[trigger] rows[q]).mem_access is Some
            ==> stage_ord(stage_of(m, q)) >= 2) && (rows[q].write_back is Some ==> stage_ord(
            stage_of(m, q),
        ) >= 3) && (rows[q].committed is Some ==> stage_of(m, q) is Commit))
    &&& forall|q: int| 0 <= q < m.committed ==> (#[trigger] rows[q]).committed is Some
    &&& forall|n: int| 0 <= n < rows.len() ==> (#[trigger] rows[n]).issued is Some
}

/// Records one snapshot of the engine into the rows: for each live
/// instruction, the stage it currently sits in is stamped with `cycle`
/// as the recorder rules prescribe.
#[verifier::loop_isolation(false)]
fn record_snapshot(rows: &mut Vec<Row>, rb: &ReorderBuffer, cycle: u64)
    requires
        rb.wf(),
        single_commit(rb@),
        commits_in_order(old(rows)@),
        rows_track_engine(old(rows)@, rb@),
        forall|n: int|
            0 <= n < old(rows)@.len() ==> row_monotone(#[trigger] old(rows)@[n]) && row_bounded(
                old(rows)@[n],
                cycle,
            ),
    ensures
        final(rows)@ == snapshot_spec(old(rows)@, rb@, cycle),
        final(rows)@.len() == old(rows)@.len(),
        forall|n: int|
            0 <= n < final(rows)@.len() ==> (#[trigger] final(rows)@[n]).issued == old(
                rows,
            )@[n].issued,
        forall|q: int|
            seq_live(rb@, q) ==> (#[trigger] final(rows)@[q]).op == Some(op_of(rb@, q)),
        forall|n: int|
            0 <= n < final(rows)@.len() ==> ((#[trigger] final(rows)@[n]).op == old(rows)@[n].op
                || (seq_live(rb@, n) && final(rows)@[n].op == Some(op_of(rb@, n)))),
        commits_in_order(final(rows)@),
        rows_track_engine(final(rows)@, rb@),
        forall|n: int|
            0 <= n < final(rows)@.len() ==> row_monotone(#[trigger] final(rows)@[n])
                && row_bounded(final(rows)@[n], cycle),
        forall|q: int|
            seq_live(rb@, q) && stage_of(rb@, q) is Commit ==> (#[trigger] final(rows)@[q]).committed is Some,
{
    let ghost m = rb@;
    let stages = rb.get_stages();
    let mut k: usize = 0;
    while k < stages.len()
        invariant
            rows@.len() == old(rows)@.len(),
            k as int <= m.used,
            rows@ == snapshot_upto(old(rows)@, m, cycle, k as int),
            forall|n: int|
                0 <= n < rows@.len() ==> (#[trigger] rows@[n]).issued == old(rows)@[n].issued,
            forall|j: int|
                0 <= j < k ==> (#[trigger] rows@[(m.committed + j)]).op == Some(m.ent(j).op),
            forall|n: int|
                0 <= n < rows@.len() ==> ((#[trigger] rows@[n]).op == old(rows)@[n].op || (
                seq_live(m, n) && rows@[n].op == Some(op_of(m, n)))),
            rows_track_engine(rows@, m),
            commits_in_order(rows@),
            forall|n: int|
                0 <= n < rows@.len() ==> row_monotone(#[trigger] rows@[n]) && row_bounded(
                    rows@[n],
                    cycle,
                ),
            forall|j: int|
                0 <= j < k ==> (stage_of(m, m.committed + j) is Commit ==> (#[trigger] rows@[(
                m.committed + j)]).committed is Some),
        decreases m.used - k,
    {
        let (n, op2, stage) = stages[k];
        proof {
            assert(stages@[k as int] == (m.ent(k as int).seq, m.ent(k as int).op, m.ent(
                k as int,
            ).stage));
            assert(m.ent(k as int).seq == m.committed + k);
            assert(seq_live(m, n as int));
            assert(stage_of(m, n as int) == stage);
        }
        let mut row = rows[n];
        let ghost old_row = row;
        proof {
            assert(old_row == rows@[n as int]);
            assert(row_monotone(old_row) && row_bounded(old_row, cycle));
        }
        row.op = Some(op2);
        match stage {
            Stage::Execute(c) => {
                proof {
                    assert(stage_ord(stage) == 1);
                    assert(old_row.mem_access is None);
                    assert(old_row.write_back is None);
                    assert(old_row.committed is None);
                }
                if row.start_ex.is_none() {
                    row.start_ex = Some(cycle);
                }
                if c == 1 {
                    row.end_ex = Some(cycle);
                }
            },
            Stage::MemAccess => {
                proof {
                    assert(stage_ord(stage) == 2);
                    assert(old_row.write_back is None);
                    assert(old_row.committed is None);
                }
                row.mem_access = Some(cycle);
            },
            Stage::WriteBack => {
                proof {
                    assert(stage_ord(stage) == 3);
                    assert(old_row.committed is None);
                }
                row.write_back = Some(cycle);
            },
            Stage::Commit => {
                row.committed = Some(cycle);
                proof {
                    assert forall|n2: int|
                        (n as int) < n2 < rows@.len() && (#[trigger] rows@[n2]).committed
                            is Some implies false by {
                        if n2 < m.committed {
                            assert((n as int) < m.committed);
                        } else if n2 < m.issue_count {
                            assert(stage_of(m, n2) is Commit);
                            assert(seq_live(m, n as int) && seq_live(m, n2));
                        }
                    }
                }
            },
            _ => {},
        }
        proof {
            assert(row_monotone(row));
            assert(row_bounded(row, cycle));
            assert(row == stamp_row(old_row, op2, stage, cycle));
        }
        rows[n] = row;
        proof {
            assert(rows@ =~= snapshot_upto(old(rows)@, m, cycle, k + 1));
        }
        k = k + 1;
    }
    proof {
        assert forall|q: int|
            seq_live(rb@, q) && stage_of(rb@, q) is Commit implies (#[trigger] rows@[q]).committed
                is Some by {
            let j = q - m.committed;
            assert(0 <= j < m.used);
            assert(stage_of(m, m.committed + j) is Commit);
        }
        assert forall|q: int| seq_live(rb@, q) implies (#[trigger] rows@[q]).op == Some(
            op_of(rb@, q),
        ) by {
            let j = q - m.committed;
            assert(0 <= j < m.used);
            assert(rows@[(m.committed + j)].op == Some(m.ent(j).op));
        }
    }
}

/// The timing table.
pub struct TomasuloTable {
    pub rows: Vec<Row>,
}

impl TomasuloTable {
    /// An empty table.
    pub fn new() -> (r: TomasuloTable)
        ensures
            r.rows@.len() == 0,
    {
        TomasuloTable { rows: Vec::new() }
    }

    /// Runs the simulation: each cycle the recorder offers the engine
    /// the next unissued instruction, snapshots the stages before and
    /// after the engine's tick, and stamps each instruction's row.  The
    /// rows and the completion flag equal `run_spec` exactly: the table
    /// is the one the engine produces when iterated by `tick_spec` from
    /// `init_model` under the issue rule, and `false` comes back only
    /// when the cycle counter is exhausted before the trace commits.
    /// Beyond that exact description, the contract restates the
    /// table-level guarantees directly: one row per issued instruction
    /// with its own operation, issue cycles strictly increasing and each
    /// at least its index plus one, stage cycles in pipeline order per
    /// row, commit cycles following issue order, and on completion every
    /// row closed out.
    #[verifier::loop_isolation(false)]
    #[verifier::rlimit(100)]
    #[verifier::spinoff_prover]
    pub fn run(&mut self, instructions: Vec<RiscVOp>, config: &Config) -> (completed: bool)
        requires
            old(self).rows@.len() == 0,
            forall|i: int|
                0 <= i < instructions@.len() ==> (#[trigger] instructions@[i]).dst_well_formed(),
            config.reorder_buffer_entries <= usize::MAX,
            config.int_buffer_entries <= usize::MAX,
            config.eff_addr_buffer_entries <= usize::MAX,
            config.fp_add_buffer_entries <= usize::MAX,
            config.fp_mul_buffer_entries <= usize::MAX,
        ensures
            final(self).rows@ == run_spec(instructions@, *config).0,
            completed == run_spec(instructions@, *config).1,
            final(self).rows@.len() <= instructions@.len(),
            forall|n: int|
                0 <= n < final(self).rows@.len() ==> (#[trigger] final(self).rows@[n]).issued
                    is Some && n + 1 <= final(self).rows@[n].issued->Some_0,
            forall|n1: int, n2: int|
                0 <= n1 < n2 < final(self).rows@.len() ==> (#[trigger] final(self).rows@[n1]).issued->Some_0
                    < (#[trigger] final(self).rows@[n2]).issued->Some_0,
            commits_in_order(final(self).rows@),
            forall|n: int|
                0 <= n < final(self).rows@.len() ==> row_monotone(#[trigger] final(self).rows@[n]),
            completed ==> final(self).rows@.len() == instructions@.len(),
            completed ==> forall|n: int|
                0 <= n < final(self).rows@.len() ==> (#[trigger] final(self).rows@[n]).issued is Some
                    && final(self).rows@[n].committed is Some && final(self).rows@[n].op == Some(
                    instructions@[n],
                ),
    {
        let mut rb = ReorderBuffer::new(config);
        let mut i: usize = 0;
        let mut cycle: u64 = 1;
        proof {
            assert(self.rows@ =~= Seq::<Row>::empty());
        }
        loop
            invariant
                rb.wf(),
                i as int == rb@.issue_count,
                i <= instructions@.len(),
                self.rows@.len() == i,
                cycle >= 1,
                single_commit(rb@),
                forall|q: int|
                    seq_live(rb@, q) ==> op_of(rb@, q) == #[trigger] instructions@[q],
                forall|n: int|
                    0 <= n < self.rows@.len() ==> ((#[trigger] self.rows@[n]).op is None
                        || self.rows@[n].op == Some(instructions@[n])),
                forall|n: int| 0 <= n < rb@.committed ==> (#[trigger] self.rows@[n]).op is Some,
                run_from(self.rows@, rb@, i as int, cycle, instructions@, *config) == run_spec(
                    instructions@,
                    *config,
                ),
                forall|n: int|
                    0 <= n < self.rows@.len() ==> (#[trigger] self.rows@[n]).issued is Some && n
                        + 1 <= self.rows@[n].issued->Some_0 < cycle,
                forall|n1: int, n2: int|
                    0 <= n1 < n2 < self.rows@.len() ==> (
                    #[trigger] self.rows@[n1]).issued->Some_0 < (
                    #[trigger] self.rows@[n2]).issued->Some_0,
                commits_in_order(self.rows@),
                rows_track_engine(self.rows@, rb@),
                forall|n: int|
                    0 <= n < self.rows@.len() ==> row_monotone(#[trigger] self.rows@[n])
                        && row_bounded(self.rows@[n], cycle),

            decreases u64::MAX - cycle,
        {
            if rb.get_finished_instructions() >= instructions.len() {
                proof {
                    assert(rb@.committed == instructions@.len());
                    assert(i == instructions@.len());
                    assert(run_from(self.rows@, rb@, i as int, cycle, instructions@, *config)
                        == (self.rows@, true));
                }
                return true;
            }
            if cycle == u64::MAX {
                proof {
                    assert(run_from(self.rows@, rb@, i as int, cycle, instructions@, *config)
                        == (self.rows@, false));
                }
                return false;
            }
            let ghost rows0 = self.rows@;
            let ghost m0 = rb@;
            let ghost i0 = i as int;
            let ghost cycle0 = cycle;
            let ghost issue_now = i0 < instructions@.len() && m0.can_issue(instructions@[i0]);
            if i < instructions.len() {
                let op = instructions[i];
                let ghost m_before = rb@;
                let accepted = match rb.add(op) {
                    Ok(_) => true,
                    Err(_) => false,
                };
                proof {
                    if accepted {
                        lemma_issue_wf(m_before, op);
                        assert forall|q1: int, q2: int|
                            seq_live(rb@, q1) && seq_live(rb@, q2) && q1 != q2 implies !((
                        #[trigger] stage_of(rb@, q1)) is Commit && (#[trigger] stage_of(
                            rb@,
                            q2,
                        )) is Commit) by {
                            lemma_seq_rank(m_before.issue(op), q1);
                            lemma_seq_rank(m_before.issue(op), q2);
                            if q1 < m_before.issue_count && q2 < m_before.issue_count {
                                assert(stage_of(rb@, q1) == stage_of(m_before, q1));
                                assert(stage_of(rb@, q2) == stage_of(m_before, q2));
                            } else if q1 == m_before.issue_count {
                                assert(stage_of(rb@, q1) is Issue);
                            } else {
                                assert(q2 == m_before.issue_count);
                                assert(stage_of(rb@, q2) is Issue);
                            }
                        }
                        assert forall|q: int| seq_live(rb@, q) implies op_of(rb@, q)
                            == #[trigger] instructions@[q] by {
                            lemma_seq_rank(m_before.issue(op), q);
                            if q < m_before.issue_count {
                                lemma_seq_rank(m_before, q);
                                assert(rb@.ent(q - rb@.committed) == m_before.ent(
                                    q - m_before.committed,
                                ));
                            } else {
                                assert(q - rb@.committed == m_before.used);
                                assert(rb@.ent(m_before.used).op == op);
                            }
                        }
                    }
                }
                if accepted {
                    self.rows.push(
                        Row {
                            op: None,
                            issued: Some(cycle),
                            start_ex: None,
                            end_ex: None,
                            mem_access: None,
                            write_back: None,
                            committed: None,
                        },
                    );
                    i = i + 1;
                    proof {
                        assert(self.rows@ == rows0.push(fresh_row(cycle0)));
                    }
                }
            }
            proof {
                assert(issue_now == (self.rows@ != rows0));
                assert(self.rows@ == (if issue_now {
                    rows0.push(fresh_row(cycle0))
                } else {
                    rows0
                }));
                assert(rb@ == (if issue_now {
                    m0.issue(instructions@[i0])
                } else {
                    m0
                }));
                assert(i as int == (if issue_now {
                    i0 + 1
                } else {
                    i0
                }));
            }
            record_snapshot(&mut self.rows, &rb, cycle);
            let ghost m_pre = rb@;
            let ghost rows_pre = self.rows@;
            rb.tick(config);
            proof {
                lemma_tick_wf(m_pre, *config);
                let m_post = rb@;
                assert forall|q1: int, q2: int|
                    seq_live(m_post, q1) && seq_live(m_post, q2) && q1 != q2 implies !((
                #[trigger] stage_of(m_post, q1)) is Commit && (#[trigger] stage_of(
                    m_post,
                    q2,
                )) is Commit) by {
                    lemma_tick_single_commit(m_pre, *config, q1, q2);
                }
                assert forall|q: int|
                    m_post.committed <= q < m_post.issue_count implies (((
                #[trigger] self.rows@[q]).mem_access is Some ==> stage_ord(stage_of(m_post, q))
                    >= 2) && (self.rows@[q].write_back is Some ==> stage_ord(stage_of(m_post, q))
                    >= 3) && (self.rows@[q].committed is Some ==> stage_of(m_post, q)
                    is Commit)) by {
                    lemma_tick_stage_monotone(m_pre, *config, q);
                    if self.rows@[q].committed is Some {
                        assert(stage_of(m_pre, q) is Commit);
                    }
                }
                assert forall|n: int| 0 <= n < m_post.committed implies (
                #[trigger] self.rows@[n]).committed is Some by {
                    if n >= m_pre.committed {
                        lemma_tick_stage_monotone(m_pre, *config, n);
                        assert(stage_of(m_pre, n) is Commit);
                        assert(seq_live(m_pre, n) && stage_of(m_pre, n) is Commit);
                    }
                }
                assert forall|q: int| seq_live(m_post, q) implies op_of(m_post, q)
                    == #[trigger] instructions@[q] by {
                    lemma_tick_op_preserved(m_pre, *config, q);
                    assert(seq_live(m_pre, q));
                }
                assert forall|n: int| 0 <= n < m_post.committed implies (
                #[trigger] self.rows@[n]).op is Some by {
                    if n >= m_pre.committed {
                        assert(seq_live(m_pre, n));
                        assert(self.rows@[n].op == Some(op_of(m_pre, n)));
                    }
                }
            }
            cycle = cycle + 1;
            record_snapshot(&mut self.rows, &rb, cycle);
            proof {
                let ghost pushed = if issue_now {
                    rows0.push(fresh_row(cycle0))
                } else {
                    rows0
                };
                assert forall|n: int|
                    0 <= n < self.rows@.len() implies (#[trigger] self.rows@[n]).issued is Some
                        && n + 1 <= self.rows@[n].issued->Some_0 < cycle by {
                    assert(self.rows@[n].issued == rows_pre[n].issued);
                    assert(rows_pre[n].issued == pushed[n].issued);
                    if n < rows0.len() {
                        assert(pushed[n].issued == rows0[n].issued);
                        assert(rows0[n].issued is Some && n + 1 <= rows0[n].issued->Some_0
                            < cycle0);
                    } else {
                        assert(pushed[n].issued == Some(cycle0));
                        if i0 > 0 {
                            assert(rows0[i0 - 1].issued is Some && i0
                                <= rows0[i0 - 1].issued->Some_0 < cycle0);
                        }
                    }
                }
                assert forall|n1: int, n2: int|
                    0 <= n1 < n2 < self.rows@.len() implies (
                #[trigger] self.rows@[n1]).issued->Some_0 < (
                #[trigger] self.rows@[n2]).issued->Some_0 by {
                    assert(self.rows@[n1].issued == pushed[n1].issued);
                    assert(self.rows@[n2].issued == pushed[n2].issued);
                    if n2 < rows0.len() {
                        assert(rows0[n1].issued->Some_0 < rows0[n2].issued->Some_0);
                    } else if n1 < rows0.len() {
                        assert(pushed[n2].issued == Some(cycle0));
                        assert(rows0[n1].issued->Some_0 < cycle0);
                    }
                }
                assert(run_from(rows0, m0, i0, cycle0, instructions@, *config) == run_from(
                    self.rows@,
                    rb@,
                    i as int,
                    cycle,
                    instructions@,
                    *config,
                ));
            }
        }
    }
}

} // verus!
