//! Tests for the reorder-buffer engine itself.

use tomasulos::Config;
use tomasulos::Operand;
use tomasulos::Register;
use tomasulos::ReorderBuffer;
use tomasulos::RiscVOp;
use tomasulos::Stage;

fn test_config() -> Config {
    Config {
        eff_addr_buffer_entries: 2,
        fp_add_buffer_entries: 3,
        fp_mul_buffer_entries: 3,
        int_buffer_entries: 2,
        reorder_buffer_entries: 5,
        fp_add_buffer_latency: 2,
        fp_sub_buffer_latency: 2,
        fp_mul_buffer_latency: 5,
        fp_div_buffer_latency: 10,
    }
}

fn fadd(dst: u64, a: u64, b: u64) -> RiscVOp {
    RiscVOp::FloatAdd(
        Operand::Register(Register::FP(dst)),
        Operand::Register(Register::FP(a)),
        Operand::Register(Register::FP(b)),
    )
}

fn load(dst: u64, base: u64, off: u64, addr: u64) -> RiscVOp {
    RiscVOp::LoadFloat(
        Operand::Register(Register::FP(dst)),
        Operand::Indirect(Register::GP(base), off),
        addr,
    )
}

#[test]
fn accepts_until_buffer_is_full() {
    let config = test_config();
    let mut rb = ReorderBuffer::new(&config);
    // five slots; the adder pool has three stations, so alternate classes
    let ops = vec![
        fadd(2, 0, 1),
        fadd(3, 0, 1),
        fadd(4, 0, 1),
        RiscVOp::Add(
            Operand::Register(Register::GP(1)),
            Operand::Register(Register::GP(2)),
            Operand::Register(Register::GP(3)),
        ),
        RiscVOp::Add(
            Operand::Register(Register::GP(4)),
            Operand::Register(Register::GP(5)),
            Operand::Register(Register::GP(6)),
        ),
    ];
    for op in &ops {
        assert!(rb.add(*op).is_ok());
    }
    // a sixth instruction is refused: the buffer is full
    assert!(rb.add(fadd(9, 0, 1)).is_err());
    assert_eq!(rb.get_stages().len(), 5);
}

#[test]
fn refuses_when_no_station_is_free() {
    let config = test_config();
    let mut rb = ReorderBuffer::new(&config);
    assert!(rb.add(fadd(2, 0, 1)).is_ok());
    assert!(rb.add(fadd(3, 0, 1)).is_ok());
    assert!(rb.add(fadd(4, 0, 1)).is_ok());
    // all three floating-point adder stations are taken
    assert!(rb.add(fadd(5, 0, 1)).is_err());
}

#[test]
fn snapshot_reports_issue_order_and_stage() {
    let config = test_config();
    let mut rb = ReorderBuffer::new(&config);
    rb.add(fadd(2, 0, 1)).unwrap();
    rb.add(fadd(3, 0, 1)).unwrap();
    let stages = rb.get_stages();
    assert_eq!(stages.len(), 2);
    assert_eq!(stages[0].0, 0);
    assert_eq!(stages[1].0, 1);
    assert!(matches!(stages[0].2, Stage::Issue));
    assert!(matches!(stages[1].2, Stage::Issue));
    assert_eq!(rb.get_finished_instructions(), 0);
}

#[test]
fn tick_advances_independent_instruction_to_completion() {
    let config = test_config();
    let mut rb = ReorderBuffer::new(&config);
    rb.add(fadd(2, 0, 1)).unwrap();
    // Issue -> Execute(2) -> Execute(1) -> WriteBack -> Commit -> released
    let mut ticks = 0;
    while rb.get_finished_instructions() < 1 {
        rb.tick(&config);
        ticks += 1;
        assert!(ticks < 32, "instruction never committed");
    }
    assert_eq!(rb.get_finished_instructions(), 1);
    assert_eq!(rb.get_stages().len(), 0);
}

#[test]
fn recorded_load_address_blocks_issue() {
    let config = test_config();
    let mut rb = ReorderBuffer::new(&config);
    rb.add(load(6, 2, 32, 8)).unwrap();
    // run the load past the memory stage so its address is recorded
    rb.tick(&config); // Issue -> Execute(1)
    rb.tick(&config); // Execute -> MemAccess
    rb.tick(&config); // MemAccess -> WriteBack, address recorded
    // a second memory operation on the same address is refused at issue
    assert!(rb.add(load(7, 3, 0, 8)).is_err());
    // a different address is accepted
    assert!(rb.add(load(7, 3, 0, 12)).is_ok());
}

#[test]
fn dependent_instruction_waits_in_issue() {
    let config = test_config();
    let mut rb = ReorderBuffer::new(&config);
    rb.add(fadd(2, 0, 1)).unwrap();
    rb.add(fadd(3, 2, 1)).unwrap(); // reads f2, produced by the first
    rb.tick(&config);
    let stages = rb.get_stages();
    assert!(matches!(stages[0].2, Stage::Execute(_)));
    // the dependent instruction stays in Issue while f2 is pending
    assert!(matches!(stages[1].2, Stage::Issue));
}

#[test]
fn self_dependency_does_not_block() {
    let config = test_config();
    let mut rb = ReorderBuffer::new(&config);
    rb.add(fadd(2, 2, 1)).unwrap(); // f2 is both source and destination
    rb.tick(&config);
    let stages = rb.get_stages();
    assert!(matches!(stages[0].2, Stage::Execute(_)));
}

#[test]
fn is_earlier_than_orders_the_circular_range() {
    let config = test_config();
    let rb = ReorderBuffer::new(&config);
    // with tail at zero the order is plain index order
    assert!(rb.is_earlier_than(0, 1));
    assert!(!rb.is_earlier_than(1, 0));
    assert!(!rb.is_earlier_than(2, 2));
}

#[test]
fn is_earlier_than_treats_wrapped_slots_as_younger() {
    let config = test_config();
    let mut rb = ReorderBuffer::new(&config);
    // commit one instruction so the tail advances past slot zero
    rb.add(fadd(2, 0, 1)).unwrap();
    let mut ticks = 0;
    while rb.get_finished_instructions() < 1 {
        rb.tick(&config);
        ticks += 1;
        assert!(ticks < 32, "instruction never committed");
    }
    // the tail now sits at slot one; slot zero belongs to the wrapped,
    // younger end of the range, so slot one is the earlier of the two
    assert!(rb.is_earlier_than(1, 0));
    assert!(!rb.is_earlier_than(0, 1));
}

#[test]
fn write_to_cdb_moves_a_writeback_entry() {
    let config = test_config();
    let mut rb = ReorderBuffer::new(&config);
    rb.add(fadd(2, 0, 1)).unwrap();
    rb.tick(&config); // Issue -> Execute(2)
    rb.tick(&config); // Execute(2) -> Execute(1)
    rb.tick(&config); // Execute(1) -> WriteBack
    let stages = rb.get_stages();
    assert!(matches!(stages[0].2, Stage::WriteBack));
    // slot zero holds the entry; it is the oldest, so it commits
    assert!(rb.write_to_cdb(0));
    let stages = rb.get_stages();
    assert!(matches!(stages[0].2, Stage::Commit));
    // a slot that holds no write-back entry reports false
    assert!(!rb.write_to_cdb(1));
}
