//! Tests for the instruction and operand parsers and the renderer.

use tomasulos::Operand;
use tomasulos::Register;
use tomasulos::RiscVOp;
use tomasulos::GLOBAL_NAME_SIZE;

fn reg_x(n: u64) -> Operand {
    Operand::Register(Register::GP(n))
}

fn reg_f(n: u64) -> Operand {
    Operand::Register(Register::FP(n))
}

#[test]
fn parses_gp_register() {
    let s = b" x12 ";
    assert_eq!(Register::parse(s, 0, s.len()), Some(Register::GP(12)));
}

#[test]
fn parses_fp_register() {
    let s = b"f6";
    assert_eq!(Register::parse(s, 0, s.len()), Some(Register::FP(6)));
}

#[test]
fn rejects_register_without_index() {
    let s = b"x";
    assert_eq!(Register::parse(s, 0, s.len()), None);
    let t = b"q4";
    assert_eq!(Register::parse(t, 0, t.len()), None);
}

#[test]
fn parses_decimal_immediate() {
    let s = b"42";
    assert_eq!(Operand::parse(s, 0, s.len()), Some(Operand::Immediate(42)));
}

#[test]
fn parses_hex_immediate() {
    let s = b"0x1f";
    assert_eq!(Operand::parse(s, 0, s.len()), Some(Operand::Immediate(31)));
}

#[test]
fn parses_indirect_operand() {
    let s = b"32(x2)";
    assert_eq!(
        Operand::parse(s, 0, s.len()),
        Some(Operand::Indirect(Register::GP(2), 32))
    );
}

#[test]
fn parses_global_operand() {
    let s = b"loop_top";
    let parsed = Operand::parse(s, 0, s.len()).unwrap();
    match parsed {
        Operand::Global(buf) => {
            assert_eq!(&buf[..8], b"loop_top");
            assert!(buf[8..].iter().all(|b| *b == 0));
        }
        other => panic!("expected a global, got {:?}", other),
    }
}

#[test]
fn rejects_overlong_global() {
    let s = [b'a'; GLOBAL_NAME_SIZE + 1];
    assert_eq!(Operand::parse(&s, 0, s.len()), None);
}

#[test]
fn rejects_indirect_with_bad_offset() {
    let s = b"zz(x2)";
    assert_eq!(Operand::parse(s, 0, s.len()), None);
}

#[test]
fn parses_fmul_line() {
    let op = RiscVOp::parse(b"fmul f0,f2,f4");
    assert_eq!(op, Some(RiscVOp::FloatMul(reg_f(0), reg_f(2), reg_f(4))));
}

#[test]
fn parses_suffixed_mnemonic_identically() {
    assert_eq!(
        RiscVOp::parse(b"fadd.s f6,f8,f2"),
        RiscVOp::parse(b"fadd f6,f8,f2")
    );
}

#[test]
fn parses_load_with_address_suffix() {
    let op = RiscVOp::parse(b"flw f6,32(x2):0");
    assert_eq!(
        op,
        Some(RiscVOp::LoadFloat(
            reg_f(6),
            Operand::Indirect(Register::GP(2), 32),
            0
        ))
    );
    let op2 = RiscVOp::parse(b"flw f2,48(x3):4");
    assert_eq!(
        op2,
        Some(RiscVOp::LoadFloat(
            reg_f(2),
            Operand::Indirect(Register::GP(3), 48),
            4
        ))
    );
}

#[test]
fn missing_address_suffix_defaults_to_zero() {
    let op = RiscVOp::parse(b"lw x1,8(x2)").unwrap();
    assert_eq!(op.addr(), Some(0));
}

#[test]
fn parses_store_and_alu_and_branch() {
    assert_eq!(
        RiscVOp::parse(b"sw x1,0(x2):8"),
        Some(RiscVOp::StoreWord(
            reg_x(1),
            Operand::Indirect(Register::GP(2), 0),
            8
        ))
    );
    assert_eq!(
        RiscVOp::parse(b"add x1,x2,x3"),
        Some(RiscVOp::Add(reg_x(1), reg_x(2), reg_x(3)))
    );
    assert_eq!(
        RiscVOp::parse(b"beq x1,x2,12"),
        Some(RiscVOp::BranchEqual(
            reg_x(1),
            reg_x(2),
            Operand::Immediate(12)
        ))
    );
}

#[test]
fn rejects_unknown_mnemonic() {
    assert_eq!(RiscVOp::parse(b"mul x1,x2,x3"), None);
}

#[test]
fn rejects_missing_operands() {
    assert_eq!(RiscVOp::parse(b"add x1"), None);
    assert_eq!(RiscVOp::parse(b"add x1,x2"), None);
    assert_eq!(RiscVOp::parse(b""), None);
}

#[test]
fn rejects_bad_address_suffix() {
    assert_eq!(RiscVOp::parse(b"lw x1,8(x2):zz"), None);
}

#[test]
fn renders_registers_and_operands() {
    assert_eq!(Register::GP(7).render(), b"x7".to_vec());
    assert_eq!(Register::FP(13).render(), b"f13".to_vec());
    assert_eq!(Operand::Immediate(90).render(), b"90".to_vec());
    assert_eq!(
        Operand::Indirect(Register::GP(2), 32).render(),
        b"32(x2)".to_vec()
    );
}

#[test]
fn renders_instruction_text() {
    let op = RiscVOp::FloatMul(reg_f(0), reg_f(2), reg_f(4));
    assert_eq!(op.render(), b"fmul.s f0,f2,f4".to_vec());
    let lw = RiscVOp::LoadWord(reg_x(1), Operand::Indirect(Register::GP(2), 8), 4);
    assert_eq!(lw.render(), b"lw     x1,8(x2):4".to_vec());
    let sw = RiscVOp::StoreWord(reg_x(1), Operand::Indirect(Register::GP(2), 0), 8);
    assert_eq!(sw.render(), b"sw     x1,0(x2):8".to_vec());
}

#[test]
fn operand_round_trip_on_values() {
    let cases = vec![
        Operand::Immediate(0),
        Operand::Immediate(17),
        Operand::Register(Register::GP(0)),
        Operand::Register(Register::FP(31)),
        Operand::Indirect(Register::GP(2), 32),
        Operand::Indirect(Register::FP(9), 0),
    ];
    for o in cases {
        let text = o.render();
        assert_eq!(Operand::parse(&text, 0, text.len()), Some(o));
    }
}

#[test]
fn instruction_round_trip_on_values() {
    let lines: Vec<&[u8]> = vec![
        b"flw f6,32(x2):0",
        b"fmul f0,f2,f4",
        b"sw x1,0(x2):8",
        b"add x1,x2,x3",
        b"fdiv f13,f10,f6",
    ];
    for line in lines {
        let op = RiscVOp::parse(line).unwrap();
        let text = op.render();
        assert_eq!(RiscVOp::parse(&text), Some(op));
    }
}
