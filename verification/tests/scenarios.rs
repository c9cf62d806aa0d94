//! End-to-end simulation scenarios driven through the timing-table
//! recorder, checking issue order, in-order commit, the single common
//! data bus, the single memory port, and per-row stage ordering.

use tomasulos::Config;
use tomasulos::Row;
use tomasulos::RiscVOp;
use tomasulos::TomasuloTable;

fn example_config() -> Config {
    Config {
        eff_addr_buffer_entries: 2,
        fp_add_buffer_entries: 3,
        fp_mul_buffer_entries: 3,
        int_buffer_entries: 2,
        reorder_buffer_entries: 5,
        fp_add_buffer_latency: 2,
        fp_sub_buffer_latency: 2,
        fp_mul_buffer_latency: 5,
        fp_div_buffer_latency: 10,
    }
}

fn parse_trace(lines: &[&[u8]]) -> Vec<RiscVOp> {
    lines
        .iter()
        .map(|l| RiscVOp::parse(l).expect("trace line must parse"))
        .collect()
}

fn run_trace(lines: &[&[u8]], config: &Config) -> Vec<Row> {
    let trace = parse_trace(lines);
    let mut table = TomasuloTable::new();
    let completed = table.run(trace, config);
    assert!(completed, "simulation must finish");
    table.rows
}

fn assert_row_ordered(row: &Row) {
    let fields = [
        row.issued,
        row.start_ex,
        row.end_ex,
        row.mem_access,
        row.write_back,
        row.committed,
    ];
    let mut prev: Option<u64> = None;
    for f in fields {
        if let Some(v) = f {
            if let Some(p) = prev {
                assert!(p <= v, "row stages out of order: {:?}", row);
            }
            prev = Some(v);
        }
    }
}

fn assert_common_properties(rows: &[Row]) {
    // every row is complete and internally ordered
    for row in rows {
        assert!(row.issued.is_some());
        assert!(row.committed.is_some());
        assert_row_ordered(row);
    }
    // issue order and commit order both follow trace order
    for pair in rows.windows(2) {
        assert!(pair[0].issued.unwrap() < pair[1].issued.unwrap());
        assert!(pair[0].committed.unwrap() <= pair[1].committed.unwrap());
    }
    // single common data bus: write-back cycles are pairwise distinct
    let wbs: Vec<u64> = rows.iter().filter_map(|r| r.write_back).collect();
    for i in 0..wbs.len() {
        for j in 0..i {
            assert!(wbs[i] != wbs[j], "two instructions wrote back at once");
        }
    }
    // single memory port: memory-access cycles are pairwise distinct
    let mems: Vec<u64> = rows.iter().filter_map(|r| r.mem_access).collect();
    for i in 0..mems.len() {
        for j in 0..i {
            assert!(mems[i] != mems[j], "two memory accesses at once");
        }
    }
}

#[test]
fn canonical_example_commits_in_order() {
    let rows = run_trace(
        &[
            b"flw f6,32(x2):0",
            b"flw f2,48(x3):4",
            b"fmul f0,f2,f4",
            b"fsub f8,f6,f2",
            b"fdiv f10,f0,f6",
            b"fadd f6,f8,f2",
            b"fdiv f13,f10,f6",
        ],
        &example_config(),
    );
    assert_eq!(rows.len(), 7);
    assert_common_properties(&rows);
    // the multiply waits in issue for the second load's result
    assert!(rows[2].start_ex.unwrap() > rows[1].write_back.unwrap());
    // the first divide waits for the multiply's result
    assert!(rows[4].start_ex.unwrap() > rows[2].write_back.unwrap());
    // renaming lets the add run ahead of the divide, yet it commits later
    assert!(rows[5].end_ex.unwrap() < rows[4].end_ex.unwrap());
    assert!(rows[5].committed.unwrap() > rows[4].committed.unwrap());
}

#[test]
fn full_buffer_applies_backpressure() {
    let lines: Vec<&[u8]> = vec![
        b"fadd f1,f0,f0",
        b"fadd f2,f0,f0",
        b"fadd f3,f0,f0",
        b"fadd f4,f0,f0",
        b"fadd f5,f0,f0",
        b"fadd f6,f0,f0",
        b"fadd f7,f0,f0",
        b"fadd f8,f0,f0",
    ];
    let rows = run_trace(&lines, &example_config());
    assert_eq!(rows.len(), 8);
    assert_common_properties(&rows);
    // with five slots the sixth instruction issues only after the first
    // has committed and freed its slot
    assert!(rows[5].issued.unwrap() > rows[0].committed.unwrap());
}

#[test]
fn reservation_stations_saturate() {
    let lines: Vec<&[u8]> = vec![
        b"fmul f2,f0,f1",
        b"fmul f3,f0,f1",
        b"fmul f4,f0,f1",
        b"fmul f5,f0,f1",
    ];
    let rows = run_trace(&lines, &example_config());
    assert_common_properties(&rows);
    // three multiplier stations: the fourth multiply issues only after an
    // earlier one has left the execute stage
    assert!(rows[3].issued.unwrap() > rows[0].end_ex.unwrap());
}

#[test]
fn store_then_load_on_same_address() {
    // A store never passes through the memory stage, so it records no
    // effective address and the load is issued on the very next cycle:
    // the conservative refusal covers only addresses recorded by loads
    // that have passed the memory stage.
    let lines: Vec<&[u8]> = vec![b"sw x1,0(x2):8", b"lw x3,0(x4):8"];
    let rows = run_trace(&lines, &example_config());
    assert_common_properties(&rows);
    assert_eq!(rows[0].issued.unwrap(), 1);
    assert_eq!(rows[1].issued.unwrap(), 2);
}

#[test]
fn single_cdb_serializes_write_back() {
    let lines: Vec<&[u8]> = vec![b"add x1,x4,x5", b"add x2,x6,x7"];
    let rows = run_trace(&lines, &example_config());
    assert_common_properties(&rows);
    let wb0 = rows[0].write_back.unwrap();
    let wb1 = rows[1].write_back.unwrap();
    assert!(wb1 > wb0, "write-backs must take separate cycles");
}

#[test]
fn out_of_order_completion_commits_in_order() {
    let lines: Vec<&[u8]> = vec![b"fdiv f10,f0,f6", b"fadd f6,f8,f2"];
    let rows = run_trace(&lines, &example_config());
    assert_common_properties(&rows);
    // the add finishes executing long before the divide
    assert!(rows[1].end_ex.unwrap() < rows[0].end_ex.unwrap());
    // and still commits strictly after it
    assert!(rows[1].committed.unwrap() > rows[0].committed.unwrap());
}

#[test]
fn two_loads_with_one_memory_port() {
    let lines: Vec<&[u8]> = vec![b"flw f1,0(x2):0", b"flw f2,8(x2):8"];
    let rows = run_trace(&lines, &example_config());
    assert_common_properties(&rows);
    assert!(rows[0].mem_access.is_some());
    assert!(rows[1].mem_access.is_some());
}
