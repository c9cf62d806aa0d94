//! The instruction model: registers, operands, decoded operations, and the
//! classification predicates the pipeline engine relies on.

use vstd::prelude::*;

use crate::text::all_digits;
use crate::text::dec_val;
use crate::text::find_byte;
use crate::text::find_byte_exec;
use crate::text::find_space;
use crate::text::find_space_exec;
use crate::text::is_digit;
use crate::text::is_space;
use crate::text::lemma_dec_val_window;
use crate::text::lemma_find_byte_at;
use crate::text::lemma_find_byte_none;
use crate::text::lemma_find_space_at;
use crate::text::lemma_find_space_none;
use crate::text::lemma_skip_spaces_run;
use crate::text::parse_hex_u64;
use crate::text::parse_hex_u64_exec;
use crate::text::parse_u64;
use crate::text::parse_u64_exec;
use crate::text::rtrim;
use crate::text::rtrim_exec;
use crate::text::skip_byte;
use crate::text::skip_byte_exec;
use crate::text::skip_spaces;
use crate::text::skip_spaces_exec;
use crate::text::window_eq;
use crate::text::window_is;

verus! {

/// The functional-unit classes an instruction may draw a reservation
/// station from.
#[derive(Clone, Copy, Debug, PartialEq, Eq, Structural)]
pub enum FunctionalUnit {
    ALU,
    EffectAddr,
    FPUMul,
    FPUAdd,
}

/// An architectural register: general-purpose (`xN`) or floating-point
/// (`fN`), compared by (kind, index).
#[derive(Clone, Copy, Debug, PartialEq, Eq, Structural)]
pub enum Register {
    GP(u64),
    FP(u64),
}

/// Capacity of the character buffer that holds a symbolic global name.
pub const GLOBAL_NAME_SIZE: usize = 64;

/// An instruction operand.  `Absent` stands for the missing source of a
/// two-operand form.
#[derive(Clone, Copy, Debug, PartialEq, Eq)]
pub enum Operand {
    Immediate(u64),
    Register(Register),
    Indirect(Register, u64),
    Global([u8; GLOBAL_NAME_SIZE]),
    Absent,
}

/// The padded name buffer a symbolic global stores: the name itself
/// followed by zero bytes up to `GLOBAL_NAME_SIZE`.
pub open spec fn padded_global_name(name: Seq<u8>) -> Seq<u8> {
    name + Seq::new((GLOBAL_NAME_SIZE - name.len()) as nat, |i: int| 0u8)
}

impl Operand {
    /// Builds a `Global` operand from a name of at most `GLOBAL_NAME_SIZE`
    /// bytes, zero-padding the buffer.
    pub fn global(name: &[u8]) -> (r: Operand)
        requires
            name@.len() <= GLOBAL_NAME_SIZE,
        ensures
            (r matches Operand::Global(buf) && buf@ == padded_global_name(name@)),
    {
        let mut buf = [0u8; GLOBAL_NAME_SIZE];
        let mut i: usize = 0;
        while i < name.len()
            invariant
                i <= name@.len() <= GLOBAL_NAME_SIZE,
                buf@.len() == GLOBAL_NAME_SIZE,
                forall|j: int| 0 <= j < i ==> buf@[j] == name@[j],
                forall|j: int| i <= j < GLOBAL_NAME_SIZE ==> buf@[j] == 0u8,
            decreases name@.len() - i,
        {
            buf[i] = name[i];
            i = i + 1;
        }
        proof {
            assert(buf@ =~= padded_global_name(name@));
        }
        Operand::Global(buf)
    }

    pub open spec fn spec_is_reg(&self) -> bool {
        self is Register
    }

    /// Whether the operand is a bare register.
    #[verifier::when_used_as_spec(spec_is_reg)]
    pub fn is_reg(&self) -> (r: bool)
        ensures
            r == self.spec_is_reg(),
    {
        match self {
            Operand::Register(_) => true,
            _ => false,
        }
    }

    /// The register of a `Register` operand.
    pub fn as_reg(&self) -> (r: Register)
        requires
            self.spec_is_reg(),
        ensures
            *self == Operand::Register(r),
    {
        match self {
            Operand::Register(reg) => *reg,
            _ => {
                proof {
                    assert(false);
                }
                Register::GP(0)
            },
        }
    }

    pub open spec fn spec_dep_reg(&self) -> Option<Register> {
        match *self {
            Operand::Register(reg) => Some(reg),
            Operand::Indirect(reg, _) => Some(reg),
            _ => None,
        }
    }

    /// The register this operand makes its instruction depend on, if any.
    #[verifier::when_used_as_spec(spec_dep_reg)]
    pub fn dep_reg(&self) -> (r: Option<Register>)
        ensures
            r == self.spec_dep_reg(),
    {
        match self {
            Operand::Register(reg) => Some(*reg),
            Operand::Indirect(reg, _) => Some(*reg),
            _ => None,
        }
    }
}

/// A decoded operation.  Loads and stores carry a pre-resolved numeric
/// effective address used for memory disambiguation; every other form
/// carries a destination and two source operands.
#[derive(Clone, Copy, Debug, PartialEq, Eq)]
pub enum RiscVOp {
    LoadWord(Operand, Operand, u64),
    StoreWord(Operand, Operand, u64),
    LoadFloat(Operand, Operand, u64),
    StoreFloat(Operand, Operand, u64),
    Add(Operand, Operand, Operand),
    Sub(Operand, Operand, Operand),
    BranchEqual(Operand, Operand, Operand),
    BranchNotEqual(Operand, Operand, Operand),
    FloatAdd(Operand, Operand, Operand),
    FloatSub(Operand, Operand, Operand),
    FloatMul(Operand, Operand, Operand),
    FloatDiv(Operand, Operand, Operand),
}

impl RiscVOp {
    pub open spec fn spec_is_load(&self) -> bool {
        self is LoadWord || self is LoadFloat
    }

    /// Whether the operation is a load.
    #[verifier::when_used_as_spec(spec_is_load)]
    pub fn is_load(&self) -> (r: bool)
        ensures
            r == self.spec_is_load(),
    {
        match self {
            RiscVOp::LoadWord(_, _, _) => true,
            RiscVOp::LoadFloat(_, _, _) => true,
            _ => false,
        }
    }

    pub open spec fn spec_is_store(&self) -> bool {
        self is StoreWord || self is StoreFloat
    }

    /// Whether the operation is a store.
    #[verifier::when_used_as_spec(spec_is_store)]
    pub fn is_store(&self) -> (r: bool)
        ensures
            r == self.spec_is_store(),
    {
        match self {
            RiscVOp::StoreWord(_, _, _) => true,
            RiscVOp::StoreFloat(_, _, _) => true,
            _ => false,
        }
    }

    pub open spec fn spec_is_data_transfer(&self) -> bool {
        self.spec_is_load() || self.spec_is_store()
    }

    /// Whether the operation moves data between registers and memory.
    #[verifier::when_used_as_spec(spec_is_data_transfer)]
    pub fn is_data_transfer(&self) -> (r: bool)
        ensures
            r == self.spec_is_data_transfer(),
    {
        self.is_load() || self.is_store()
    }

    pub open spec fn spec_is_branch(&self) -> bool {
        self is BranchEqual || self is BranchNotEqual
    }

    /// Whether the operation is a conditional branch.
    #[verifier::when_used_as_spec(spec_is_branch)]
    pub fn is_branch(&self) -> (r: bool)
        ensures
            r == self.spec_is_branch(),
    {
        match self {
            RiscVOp::BranchEqual(_, _, _) => true,
            RiscVOp::BranchNotEqual(_, _, _) => true,
            _ => false,
        }
    }

    pub open spec fn spec_is_alu(&self) -> bool {
        self is Add || self is Sub
    }

    /// Whether the operation is an integer ALU operation.
    #[verifier::when_used_as_spec(spec_is_alu)]
    pub fn is_alu(&self) -> (r: bool)
        ensures
            r == self.spec_is_alu(),
    {
        match self {
            RiscVOp::Add(_, _, _) => true,
            RiscVOp::Sub(_, _, _) => true,
            _ => false,
        }
    }

    pub open spec fn spec_is_fp(&self) -> bool {
        self is FloatAdd || self is FloatSub || self is FloatMul || self is FloatDiv
    }

    /// Whether the operation is a floating-point arithmetic operation.
    #[verifier::when_used_as_spec(spec_is_fp)]
    pub fn is_fp(&self) -> (r: bool)
        ensures
            r == self.spec_is_fp(),
    {
        match self {
            RiscVOp::FloatAdd(_, _, _) => true,
            RiscVOp::FloatSub(_, _, _) => true,
            RiscVOp::FloatMul(_, _, _) => true,
            RiscVOp::FloatDiv(_, _, _) => true,
            _ => false,
        }
    }

    pub open spec fn spec_is_fp_add(&self) -> bool {
        self is FloatAdd || self is FloatSub
    }

    /// Whether the operation uses the floating-point adder.
    #[verifier::when_used_as_spec(spec_is_fp_add)]
    pub fn is_fp_add(&self) -> (r: bool)
        ensures
            r == self.spec_is_fp_add(),
    {
        match self {
            RiscVOp::FloatAdd(_, _, _) => true,
            RiscVOp::FloatSub(_, _, _) => true,
            _ => false,
        }
    }

    pub open spec fn spec_is_fp_mul(&self) -> bool {
        self is FloatMul || self is FloatDiv
    }

    /// Whether the operation uses the floating-point multiplier.
    #[verifier::when_used_as_spec(spec_is_fp_mul)]
    pub fn is_fp_mul(&self) -> (r: bool)
        ensures
            r == self.spec_is_fp_mul(),
    {
        match self {
            RiscVOp::FloatMul(_, _, _) => true,
            RiscVOp::FloatDiv(_, _, _) => true,
            _ => false,
        }
    }

    pub open spec fn spec_is_fp_div(&self) -> bool {
        self is FloatDiv
    }

    /// Whether the operation is a floating-point divide.
    #[verifier::when_used_as_spec(spec_is_fp_div)]
    pub fn is_fp_div(&self) -> (r: bool)
        ensures
            r == self.spec_is_fp_div(),
    {
        match self {
            RiscVOp::FloatDiv(_, _, _) => true,
            _ => false,
        }
    }

    pub open spec fn spec_functional_unit(&self) -> FunctionalUnit {
        if self.spec_is_branch() {
            FunctionalUnit::EffectAddr
        } else if self.spec_is_alu() {
            FunctionalUnit::ALU
        } else if self.spec_is_fp_add() {
            FunctionalUnit::FPUAdd
        } else if self.spec_is_fp_mul() {
            FunctionalUnit::FPUMul
        } else {
            FunctionalUnit::EffectAddr
        }
    }

    /// The functional-unit class whose reservation stations the operation
    /// competes for: branches and memory operations use the effective
    /// address unit, integer operations the ALU, and floating-point
    /// operations the adder or the multiplier.
    #[verifier::when_used_as_spec(spec_functional_unit)]
    pub fn functional_unit(&self) -> (r: FunctionalUnit)
        ensures
            r == self.spec_functional_unit(),
    {
        if self.is_branch() {
            FunctionalUnit::EffectAddr
        } else if self.is_alu() {
            FunctionalUnit::ALU
        } else if self.is_fp_add() {
            FunctionalUnit::FPUAdd
        } else if self.is_fp_mul() {
            FunctionalUnit::FPUMul
        } else {
            FunctionalUnit::EffectAddr
        }
    }

    pub open spec fn spec_accesses_memory(&self) -> bool {
        self.spec_is_load()
    }

    /// Whether the operation passes through the memory-access stage.
    /// Only loads do: in this timing model stores retire without a
    /// separate memory stage.
    #[verifier::when_used_as_spec(spec_accesses_memory)]
    pub fn accesses_memory(&self) -> (r: bool)
        ensures
            r == self.spec_accesses_memory(),
    {
        self.is_load()
    }

    pub open spec fn spec_writes_back(&self) -> bool {
        self.spec_is_alu() || self.spec_is_fp() || self.spec_is_load()
            && !self.spec_is_branch()
    }

    /// Whether the operation broadcasts a result on the common data bus:
    /// ALU, floating-point, and load operations do; branches and stores
    /// do not.
    #[verifier::when_used_as_spec(spec_writes_back)]
    pub fn writes_back(&self) -> (r: bool)
        ensures
            r == self.spec_writes_back(),
    {
        self.is_alu() || self.is_fp() || self.is_load() && !self.is_branch()
    }

    pub open spec fn spec_addr(&self) -> Option<u64> {
        match *self {
            RiscVOp::LoadWord(_, _, addr) => Some(addr),
            RiscVOp::StoreWord(_, _, addr) => Some(addr),
            RiscVOp::LoadFloat(_, _, addr) => Some(addr),
            RiscVOp::StoreFloat(_, _, addr) => Some(addr),
            _ => None,
        }
    }

    /// The pre-resolved effective address of a load or store.
    #[verifier::when_used_as_spec(spec_addr)]
    pub fn addr(&self) -> (r: Option<u64>)
        ensures
            r == self.spec_addr(),
    {
        match self {
            RiscVOp::LoadWord(_, _, addr) => Some(*addr),
            RiscVOp::StoreWord(_, _, addr) => Some(*addr),
            RiscVOp::LoadFloat(_, _, addr) => Some(*addr),
            RiscVOp::StoreFloat(_, _, addr) => Some(*addr),
            _ => None,
        }
    }

    pub open spec fn spec_dst(&self) -> Option<Operand> {
        match *self {
            RiscVOp::LoadWord(dst, _, _) => Some(dst),
            RiscVOp::StoreWord(_, _, _) => None,
            RiscVOp::LoadFloat(dst, _, _) => Some(dst),
            RiscVOp::StoreFloat(_, _, _) => None,
            RiscVOp::Add(dst, _, _) => Some(dst),
            RiscVOp::Sub(dst, _, _) => Some(dst),
            RiscVOp::BranchEqual(dst, _, _) => Some(dst),
            RiscVOp::BranchNotEqual(dst, _, _) => Some(dst),
            RiscVOp::FloatAdd(dst, _, _) => Some(dst),
            RiscVOp::FloatSub(dst, _, _) => Some(dst),
            RiscVOp::FloatMul(dst, _, _) => Some(dst),
            RiscVOp::FloatDiv(dst, _, _) => Some(dst),
        }
    }

    /// The destination operand, absent for stores.
    #[verifier::when_used_as_spec(spec_dst)]
    pub fn dst(&self) -> (r: Option<Operand>)
        ensures
            r == self.spec_dst(),
    {
        match self {
            RiscVOp::LoadWord(dst, _, _) => Some(*dst),
            RiscVOp::StoreWord(_, _, _) => None,
            RiscVOp::LoadFloat(dst, _, _) => Some(*dst),
            RiscVOp::StoreFloat(_, _, _) => None,
            RiscVOp::Add(dst, _, _) => Some(*dst),
            RiscVOp::Sub(dst, _, _) => Some(*dst),
            RiscVOp::BranchEqual(dst, _, _) => Some(*dst),
            RiscVOp::BranchNotEqual(dst, _, _) => Some(*dst),
            RiscVOp::FloatAdd(dst, _, _) => Some(*dst),
            RiscVOp::FloatSub(dst, _, _) => Some(*dst),
            RiscVOp::FloatMul(dst, _, _) => Some(*dst),
            RiscVOp::FloatDiv(dst, _, _) => Some(*dst),
        }
    }

    /// The destination register, when the destination operand is a bare
    /// register.
    pub open spec fn spec_dst_reg(&self) -> Option<Register> {
        match self.spec_dst() {
            Some(Operand::Register(r)) => Some(r),
            _ => None,
        }
    }

    /// Whether the destination operand, if present, is a bare register —
    /// the shape the renaming engine requires.
    pub open spec fn dst_well_formed(self) -> bool {
        match self.spec_dst() {
            Some(o) => o is Register,
            None => true,
        }
    }

    pub open spec fn spec_src1(&self) -> Operand {
        match *self {
            RiscVOp::LoadWord(_, src, _) => src,
            RiscVOp::StoreWord(_, src, _) => src,
            RiscVOp::LoadFloat(_, src, _) => src,
            RiscVOp::StoreFloat(_, src, _) => src,
            RiscVOp::Add(_, src1, _) => src1,
            RiscVOp::Sub(_, src1, _) => src1,
            RiscVOp::BranchEqual(_, src1, _) => src1,
            RiscVOp::BranchNotEqual(_, src1, _) => src1,
            RiscVOp::FloatAdd(_, src1, _) => src1,
            RiscVOp::FloatSub(_, src1, _) => src1,
            RiscVOp::FloatMul(_, src1, _) => src1,
            RiscVOp::FloatDiv(_, src1, _) => src1,
        }
    }

    /// The first source operand.
    #[verifier::when_used_as_spec(spec_src1)]
    pub fn src1(&self) -> (r: Operand)
        ensures
            r == self.spec_src1(),
    {
        match self {
            RiscVOp::LoadWord(_, src, _) => *src,
            RiscVOp::StoreWord(_, src, _) => *src,
            RiscVOp::LoadFloat(_, src, _) => *src,
            RiscVOp::StoreFloat(_, src, _) => *src,
            RiscVOp::Add(_, src1, _) => *src1,
            RiscVOp::Sub(_, src1, _) => *src1,
            RiscVOp::BranchEqual(_, src1, _) => *src1,
            RiscVOp::BranchNotEqual(_, src1, _) => *src1,
            RiscVOp::FloatAdd(_, src1, _) => *src1,
            RiscVOp::FloatSub(_, src1, _) => *src1,
            RiscVOp::FloatMul(_, src1, _) => *src1,
            RiscVOp::FloatDiv(_, src1, _) => *src1,
        }
    }

    pub open spec fn spec_src2(&self) -> Operand {
        match *self {
            RiscVOp::LoadWord(_, _, _) => Operand::Absent,
            RiscVOp::StoreWord(_, _, _) => Operand::Absent,
            RiscVOp::LoadFloat(_, _, _) => Operand::Absent,
            RiscVOp::StoreFloat(_, _, _) => Operand::Absent,
            RiscVOp::Add(_, _, src2) => src2,
            RiscVOp::Sub(_, _, src2) => src2,
            RiscVOp::BranchEqual(_, _, src2) => src2,
            RiscVOp::BranchNotEqual(_, _, src2) => src2,
            RiscVOp::FloatAdd(_, _, src2) => src2,
            RiscVOp::FloatSub(_, _, src2) => src2,
            RiscVOp::FloatMul(_, _, src2) => src2,
            RiscVOp::FloatDiv(_, _, src2) => src2,
        }
    }

    /// The second source operand, absent for memory operations.
    #[verifier::when_used_as_spec(spec_src2)]
    pub fn src2(&self) -> (r: Operand)
        ensures
            r == self.spec_src2(),
    {
        match self {
            RiscVOp::LoadWord(_, _, _) => Operand::Absent,
            RiscVOp::StoreWord(_, _, _) => Operand::Absent,
            RiscVOp::LoadFloat(_, _, _) => Operand::Absent,
            RiscVOp::StoreFloat(_, _, _) => Operand::Absent,
            RiscVOp::Add(_, _, src2) => *src2,
            RiscVOp::Sub(_, _, src2) => *src2,
            RiscVOp::BranchEqual(_, _, src2) => *src2,
            RiscVOp::BranchNotEqual(_, _, src2) => *src2,
            RiscVOp::FloatAdd(_, _, src2) => *src2,
            RiscVOp::FloatSub(_, _, src2) => *src2,
            RiscVOp::FloatMul(_, _, src2) => *src2,
            RiscVOp::FloatDiv(_, _, src2) => *src2,
        }
    }
}

/// The first position after the repeated prefix `0x` within [i, hi).
pub open spec fn skip_hex_marker(s: Seq<u8>, i: int, hi: int) -> int
    decreases hi - i,
{
    if i + 1 < hi && 0 <= i && i + 1 < s.len() && s[i] == 48 && s[i + 1] == 120 {
        skip_hex_marker(s, i + 2, hi)
    } else {
        i
    }
}

/// Executable form of `skip_hex_marker`.
#[verifier::loop_isolation(false)]
fn skip_hex_marker_exec(s: &[u8], i: usize, hi: usize) -> (r: usize)
    requires
        i <= hi <= s@.len(),
    ensures
        r as int == skip_hex_marker(s@, i as int, hi as int),
        i <= r <= hi,
{
    let mut j = i;
    while j < hi && j + 1 < hi && s[j] == 48 && s[j + 1] == 120
        invariant
            i <= j <= hi,
            skip_hex_marker(s@, i as int, hi as int) == skip_hex_marker(s@, j as int, hi as int),
        decreases hi - j,
    {
        j = j + 2;
    }
    j
}

impl Register {
    /// What parsing a general-purpose register from the window [lo, hi)
    /// yields: after trimming, an `x` followed by a decimal index; every
    /// leading `x` is consumed.
    pub open spec fn spec_parse_gp_at(s: Seq<u8>, lo: int, hi: int) -> Option<Register> {
        let a = skip_spaces(s, lo, hi);
        let b = rtrim(s, a, hi);
        if a < b && s[a] == 120 {
            match parse_u64(s, skip_byte(s, a, b, 120), b) {
                Some(v) => Some(Register::GP(v)),
                None => None,
            }
        } else {
            None
        }
    }

    /// As `spec_parse_gp_at`, for a floating-point register tagged `f`.
    pub open spec fn spec_parse_fp_at(s: Seq<u8>, lo: int, hi: int) -> Option<Register> {
        let a = skip_spaces(s, lo, hi);
        let b = rtrim(s, a, hi);
        if a < b && s[a] == 102 {
            match parse_u64(s, skip_byte(s, a, b, 102), b) {
                Some(v) => Some(Register::FP(v)),
                None => None,
            }
        } else {
            None
        }
    }

    /// A register is a general-purpose form or, failing that, a
    /// floating-point form.
    pub open spec fn spec_parse_at(s: Seq<u8>, lo: int, hi: int) -> Option<Register> {
        match Register::spec_parse_gp_at(s, lo, hi) {
            Some(r) => Some(r),
            None => Register::spec_parse_fp_at(s, lo, hi),
        }
    }

    /// Parses a general-purpose register, `xN`, from the window.
    pub fn parse_gp(s: &[u8], lo: usize, hi: usize) -> (r: Option<Register>)
        requires
            lo <= hi <= s@.len(),
        ensures
            r == Register::spec_parse_gp_at(s@, lo as int, hi as int),
    {
        let a = skip_spaces_exec(s, lo, hi);
        let b = rtrim_exec(s, a, hi);
        if a < b && s[a] == 120 {
            let c = skip_byte_exec(s, a, b, 120);
            match parse_u64_exec(s, c, b) {
                Some(v) => Some(Register::GP(v)),
                None => None,
            }
        } else {
            None
        }
    }

    /// Parses a floating-point register, `fN`, from the window.
    pub fn parse_fp(s: &[u8], lo: usize, hi: usize) -> (r: Option<Register>)
        requires
            lo <= hi <= s@.len(),
        ensures
            r == Register::spec_parse_fp_at(s@, lo as int, hi as int),
    {
        let a = skip_spaces_exec(s, lo, hi);
        let b = rtrim_exec(s, a, hi);
        if a < b && s[a] == 102 {
            let c = skip_byte_exec(s, a, b, 102);
            match parse_u64_exec(s, c, b) {
                Some(v) => Some(Register::FP(v)),
                None => None,
            }
        } else {
            None
        }
    }

    /// Parses either register form from the window.
    pub fn parse(s: &[u8], lo: usize, hi: usize) -> (r: Option<Register>)
        requires
            lo <= hi <= s@.len(),
        ensures
            r == Register::spec_parse_at(s@, lo as int, hi as int),
    {
        match Register::parse_gp(s, lo, hi) {
            Some(r) => Some(r),
            None => Register::parse_fp(s, lo, hi),
        }
    }

    /// The canonical text of the register: its tag letter and decimal
    /// index.
    pub open spec fn spec_render(&self) -> Seq<u8> {
        match *self {
            Register::GP(v) => seq![120u8] + dec_digits(v as int),
            Register::FP(v) => seq![102u8] + dec_digits(v as int),
        }
    }

    /// Renders the register as text.
    pub fn render(&self) -> (r: Vec<u8>)
        ensures
            r@ == self.spec_render(),
    {
        let mut r: Vec<u8> = Vec::new();
        match self {
            Register::GP(v) => {
                r.push(120);
                let ds = render_u64(*v);
                let mut i: usize = 0;
                while i < ds.len()
                    invariant
                        i <= ds@.len(),
                        r@ == seq![120u8] + ds@.subrange(0, i as int),
                    decreases ds@.len() - i,
                {
                    r.push(ds[i]);
                    proof {
                        assert(r@ =~= seq![120u8] + ds@.subrange(0, i + 1));
                    }
                    i = i + 1;
                }
                proof {
                    assert(ds@.subrange(0, ds@.len() as int) =~= ds@);
                }
            },
            Register::FP(v) => {
                r.push(102);
                let ds = render_u64(*v);
                let mut i: usize = 0;
                while i < ds.len()
                    invariant
                        i <= ds@.len(),
                        r@ == seq![102u8] + ds@.subrange(0, i as int),
                    decreases ds@.len() - i,
                {
                    r.push(ds[i]);
                    proof {
                        assert(r@ =~= seq![102u8] + ds@.subrange(0, i + 1));
                    }
                    i = i + 1;
                }
                proof {
                    assert(ds@.subrange(0, ds@.len() as int) =~= ds@);
                }
            },
        }
        r
    }
}

/// The name buffer holding the given byte sequence, which must have
/// length `GLOBAL_NAME_SIZE`; buffers are determined by their contents.
pub open spec fn global_buffer(s: Seq<u8>) -> [u8; GLOBAL_NAME_SIZE] {
    choose|a: [u8; GLOBAL_NAME_SIZE]| a@ == s
}

impl Operand {
    /// What parsing the memory or symbolic form from the trimmed window
    /// [a, b) yields: an `offset(register)` indirect reference, or, when
    /// no parenthesis occurs, a symbolic global name of at most
    /// `GLOBAL_NAME_SIZE` bytes.
    pub open spec fn spec_parse_mem_at(s: Seq<u8>, a: int, b: int) -> Option<Operand> {
        let i = find_byte(s, a, b, 40);
        if i == b {
            if b - a <= GLOBAL_NAME_SIZE {
                Some(Operand::Global(global_buffer(padded_global_name(s.subrange(a, b)))))
            } else {
                None
            }
        } else {
            let off = parse_u64(s, skip_spaces(s, a, i), rtrim(s, skip_spaces(s, a, i), i));
            let j = find_byte(s, i + 1, b, 41);
            let reg = Register::spec_parse_at(s, i + 1, j);
            if off is Some && reg is Some {
                Some(Operand::Indirect(reg->Some_0, off->Some_0))
            } else {
                None
            }
        }
    }

    /// What parsing an operand from the window [lo, hi) yields: a
    /// register, a hexadecimal immediate marked `0x`, a decimal
    /// immediate, an indirect reference, or a symbolic global name.
    pub open spec fn spec_parse_at(s: Seq<u8>, lo: int, hi: int) -> Option<Operand> {
        let a = skip_spaces(s, lo, hi);
        let b = rtrim(s, a, hi);
        if Register::spec_parse_at(s, lo, hi) is Some {
            Some(Operand::Register(Register::spec_parse_at(s, lo, hi)->Some_0))
        } else if a + 1 < b && s[a] == 48 && s[a + 1] == 120 && ({
            let c = skip_hex_marker(s, a, b);
            parse_hex_u64(s, skip_spaces(s, c, b), rtrim(s, skip_spaces(s, c, b), b)) is Some
        }) {
            let c = skip_hex_marker(s, a, b);
            Some(
                Operand::Immediate(
                    parse_hex_u64(
                        s,
                        skip_spaces(s, c, b),
                        rtrim(s, skip_spaces(s, c, b), b),
                    )->Some_0,
                ),
            )
        } else if parse_u64(s, a, b) is Some {
            Some(Operand::Immediate(parse_u64(s, a, b)->Some_0))
        } else {
            Operand::spec_parse_mem_at(s, a, b)
        }
    }

    /// Parses an operand from the window [lo, hi); fails where the text
    /// fits none of the operand forms.
    pub fn parse(s: &[u8], lo: usize, hi: usize) -> (r: Option<Operand>)
        requires
            lo <= hi <= s@.len(),
        ensures
            r == Operand::spec_parse_at(s@, lo as int, hi as int),
    {
        let a = skip_spaces_exec(s, lo, hi);
        let b = rtrim_exec(s, a, hi);
        if let Some(reg) = Register::parse(s, lo, hi) {
            return Some(Operand::Register(reg));
        }
        if a < b && a + 1 < b && s[a] == 48 && s[a + 1] == 120 {
            let c = skip_hex_marker_exec(s, a, b);
            let c2 = skip_spaces_exec(s, c, b);
            let b2 = rtrim_exec(s, c2, b);
            if let Some(v) = parse_hex_u64_exec(s, c2, b2) {
                return Some(Operand::Immediate(v));
            }
        }
        if let Some(v) = parse_u64_exec(s, a, b) {
            return Some(Operand::Immediate(v));
        }
        let i = find_byte_exec(s, a, b, 40);
        if i == b {
            if b - a <= GLOBAL_NAME_SIZE {
                let mut buf = [0u8; GLOBAL_NAME_SIZE];
                let mut k: usize = 0;
                while k < b - a
                    invariant
                        a <= b <= s@.len(),
                        k <= b - a <= GLOBAL_NAME_SIZE,
                        buf@.len() == GLOBAL_NAME_SIZE,
                        forall|j: int| 0 <= j < k ==> buf@[j] == s@[a + j],
                        forall|j: int| k <= j < GLOBAL_NAME_SIZE ==> buf@[j] == 0u8,
                    decreases b - a - k,
                {
                    buf[k] = s[a + k];
                    k = k + 1;
                }
                proof {
                    assert(buf@ =~= padded_global_name(s@.subrange(a as int, b as int)));
                    let bb = global_buffer(padded_global_name(s@.subrange(a as int, b as int)));
                    assert(bb@ == buf@);
                    assert(bb =~= buf);
                }
                Some(Operand::Global(buf))
            } else {
                None
            }
        } else {
            let oa = skip_spaces_exec(s, a, i);
            let ob = rtrim_exec(s, oa, i);
            let off = parse_u64_exec(s, oa, ob);
            let j = find_byte_exec(s, i + 1, b, 41);
            let reg = Register::parse(s, i + 1, j);
            match (off, reg) {
                (Some(o), Some(rg)) => Some(Operand::Indirect(rg, o)),
                _ => None,
            }
        }
    }
}

/// Whether the window spells the given mnemonic, with or without a `.s`
/// suffix.
pub open spec fn fp_mnemonic_is(s: Seq<u8>, lo: int, hi: int, base: Seq<u8>) -> bool {
    window_is(s, lo, hi, base) || window_is(s, lo, hi, base + seq![46u8, 115u8])
}

impl RiscVOp {
    /// What parsing one instruction line yields.  The first whitespace
    /// token is the mnemonic; the second, up to a comma, the
    /// destination; the comma-separated fields after the first comma are
    /// the sources; an optional `:N` suffix carries the pre-resolved
    /// effective address, zero when absent.  An unknown mnemonic, a
    /// missing field, or an unparseable operand or address fails.
    pub open spec fn spec_parse(s: Seq<u8>) -> Option<RiscVOp> {
        let n = s.len() as int;
        let t1a = skip_spaces(s, 0, n);
        let t1b = find_space(s, t1a, n);
        let t2a = skip_spaces(s, t1b, n);
        let t2b = find_space(s, t2a, n);
        let c1 = find_byte(s, 0, n, 44);
        if t1a >= n || t2a >= n || c1 >= n {
            None
        } else {
            let dst = Operand::spec_parse_at(s, t2a, find_byte(s, t2a, t2b, 44));
            let c2 = find_byte(s, c1 + 1, n, 44);
            let arg1 = Operand::spec_parse_at(s, c1 + 1, c2);
            let arg2 = if c2 < n {
                Operand::spec_parse_at(s, c2 + 1, find_byte(s, c2 + 1, n, 44))
            } else {
                None
            };
            let k1 = find_byte(s, 0, n, 58);
            let addr = if k1 >= n {
                Some(0u64)
            } else {
                parse_u64(s, k1 + 1, find_byte(s, k1 + 1, n, 58))
            };
            if dst is None || arg1 is None || addr is None {
                None
            } else if window_is(s, t1a, t1b, seq![108u8, 119u8]) {
                // lw
                Some(RiscVOp::LoadWord(dst->Some_0, arg1->Some_0, addr->Some_0))
            } else if window_is(s, t1a, t1b, seq![115u8, 119u8]) {
                // sw
                Some(RiscVOp::StoreWord(dst->Some_0, arg1->Some_0, addr->Some_0))
            } else if window_is(s, t1a, t1b, seq![102u8, 108u8, 119u8]) {
                // flw
                Some(RiscVOp::LoadFloat(dst->Some_0, arg1->Some_0, addr->Some_0))
            } else if window_is(s, t1a, t1b, seq![102u8, 115u8, 119u8]) {
                // fsw
                Some(RiscVOp::StoreFloat(dst->Some_0, arg1->Some_0, addr->Some_0))
            } else if arg2 is None {
                None
            } else if window_is(s, t1a, t1b, seq![97u8, 100u8, 100u8]) {
                // add
                Some(RiscVOp::Add(dst->Some_0, arg1->Some_0, arg2->Some_0))
            } else if window_is(s, t1a, t1b, seq![115u8, 117u8, 98u8]) {
                // sub
                Some(RiscVOp::Sub(dst->Some_0, arg1->Some_0, arg2->Some_0))
            } else if window_is(s, t1a, t1b, seq![98u8, 101u8, 113u8]) {
                // beq
                Some(RiscVOp::BranchEqual(dst->Some_0, arg1->Some_0, arg2->Some_0))
            } else if window_is(s, t1a, t1b, seq![98u8, 110u8, 101u8]) {
                // bne
                Some(RiscVOp::BranchNotEqual(dst->Some_0, arg1->Some_0, arg2->Some_0))
            } else if fp_mnemonic_is(s, t1a, t1b, seq![102u8, 97u8, 100u8, 100u8]) {
                // fadd / fadd.s
                Some(RiscVOp::FloatAdd(dst->Some_0, arg1->Some_0, arg2->Some_0))
            } else if fp_mnemonic_is(s, t1a, t1b, seq![102u8, 115u8, 117u8, 98u8]) {
                // fsub / fsub.s
                Some(RiscVOp::FloatSub(dst->Some_0, arg1->Some_0, arg2->Some_0))
            } else if fp_mnemonic_is(s, t1a, t1b, seq![102u8, 109u8, 117u8, 108u8]) {
                // fmul / fmul.s
                Some(RiscVOp::FloatMul(dst->Some_0, arg1->Some_0, arg2->Some_0))
            } else if fp_mnemonic_is(s, t1a, t1b, seq![102u8, 100u8, 105u8, 118u8]) {
                // fdiv / fdiv.s
                Some(RiscVOp::FloatDiv(dst->Some_0, arg1->Some_0, arg2->Some_0))
            } else {
                None
            }
        }
    }

    /// Parses one instruction line.
    pub fn parse(s: &[u8]) -> (r: Option<RiscVOp>)
        ensures
            r == RiscVOp::spec_parse(s@),
    {
        let n = s.len();
        let t1a = skip_spaces_exec(s, 0, n);
        let t1b = find_space_exec(s, t1a, n);
        let t2a = skip_spaces_exec(s, t1b, n);
        let t2b = find_space_exec(s, t2a, n);
        let c1 = find_byte_exec(s, 0, n, 44);
        if t1a >= n || t2a >= n || c1 >= n {
            return None;
        }
        let d_end = find_byte_exec(s, t2a, t2b, 44);
        let dst = Operand::parse(s, t2a, d_end);
        let c2 = find_byte_exec(s, c1 + 1, n, 44);
        let arg1 = Operand::parse(s, c1 + 1, c2);
        let arg2 = if c2 < n {
            let c3 = find_byte_exec(s, c2 + 1, n, 44);
            Operand::parse(s, c2 + 1, c3)
        } else {
            None
        };
        let k1 = find_byte_exec(s, 0, n, 58);
        let addr = if k1 >= n {
            Some(0u64)
        } else {
            let k2 = find_byte_exec(s, k1 + 1, n, 58);
            parse_u64_exec(s, k1 + 1, k2)
        };
        let (dst, arg1, addr) = match (dst, arg1, addr) {
            (Some(d), Some(a1), Some(ad)) => (d, a1, ad),
            _ => {
                return None;
            },
        };
        if window_eq(s, t1a, t1b, &vec![108u8, 119u8]) {
            return Some(RiscVOp::LoadWord(dst, arg1, addr));
        }
        if window_eq(s, t1a, t1b, &vec![115u8, 119u8]) {
            return Some(RiscVOp::StoreWord(dst, arg1, addr));
        }
        if window_eq(s, t1a, t1b, &vec![102u8, 108u8, 119u8]) {
            return Some(RiscVOp::LoadFloat(dst, arg1, addr));
        }
        if window_eq(s, t1a, t1b, &vec![102u8, 115u8, 119u8]) {
            return Some(RiscVOp::StoreFloat(dst, arg1, addr));
        }
        let arg2 = match arg2 {
            Some(a2) => a2,
            None => {
                return None;
            },
        };
        if window_eq(s, t1a, t1b, &vec![97u8, 100u8, 100u8]) {
            return Some(RiscVOp::Add(dst, arg1, arg2));
        }
        if window_eq(s, t1a, t1b, &vec![115u8, 117u8, 98u8]) {
            return Some(RiscVOp::Sub(dst, arg1, arg2));
        }
        if window_eq(s, t1a, t1b, &vec![98u8, 101u8, 113u8]) {
            return Some(RiscVOp::BranchEqual(dst, arg1, arg2));
        }
        if window_eq(s, t1a, t1b, &vec![98u8, 110u8, 101u8]) {
            return Some(RiscVOp::BranchNotEqual(dst, arg1, arg2));
        }
        proof {
            assert(seq![102u8, 97u8, 100u8, 100u8] + seq![46u8, 115u8] =~= seq![
                102u8,
                97u8,
                100u8,
                100u8,
                46u8,
                115u8,
            ]);
            assert(seq![102u8, 115u8, 117u8, 98u8] + seq![46u8, 115u8] =~= seq![
                102u8,
                115u8,
                117u8,
                98u8,
                46u8,
                115u8,
            ]);
            assert(seq![102u8, 109u8, 117u8, 108u8] + seq![46u8, 115u8] =~= seq![
                102u8,
                109u8,
                117u8,
                108u8,
                46u8,
                115u8,
            ]);
            assert(seq![102u8, 100u8, 105u8, 118u8] + seq![46u8, 115u8] =~= seq![
                102u8,
                100u8,
                105u8,
                118u8,
                46u8,
                115u8,
            ]);
        }
        if window_eq(s, t1a, t1b, &vec![102u8, 97u8, 100u8, 100u8]) || window_eq(
            s,
            t1a,
            t1b,
            &vec![102u8, 97u8, 100u8, 100u8, 46u8, 115u8],
        ) {
            return Some(RiscVOp::FloatAdd(dst, arg1, arg2));
        }
        if window_eq(s, t1a, t1b, &vec![102u8, 115u8, 117u8, 98u8]) || window_eq(
            s,
            t1a,
            t1b,
            &vec![102u8, 115u8, 117u8, 98u8, 46u8, 115u8],
        ) {
            return Some(RiscVOp::FloatSub(dst, arg1, arg2));
        }
        if window_eq(s, t1a, t1b, &vec![102u8, 109u8, 117u8, 108u8]) || window_eq(
            s,
            t1a,
            t1b,
            &vec![102u8, 109u8, 117u8, 108u8, 46u8, 115u8],
        ) {
            return Some(RiscVOp::FloatMul(dst, arg1, arg2));
        }
        if window_eq(s, t1a, t1b, &vec![102u8, 100u8, 105u8, 118u8]) || window_eq(
            s,
            t1a,
            t1b,
            &vec![102u8, 100u8, 105u8, 118u8, 46u8, 115u8],
        ) {
            return Some(RiscVOp::FloatDiv(dst, arg1, arg2));
        }
        None
    }
}

/// The decimal numeral of a non-negative value.
pub open spec fn dec_digits(v: int) -> Seq<u8>
    decreases v,
{
    if v < 10 {
        seq![(48 + if v >= 0 {
            v
        } else {
            0
        }) as u8]
    } else {
        dec_digits(v / 10).push((48 + v % 10) as u8)
    }
}

/// Renders a value in decimal.
pub fn render_u64(v: u64) -> (r: Vec<u8>)
    ensures
        r@ == dec_digits(v as int),
    decreases v,
{
    if v < 10 {
        let mut r: Vec<u8> = Vec::new();
        r.push(48 + (v as u8));
        r
    } else {
        let mut r = render_u64(v / 10);
        r.push(48 + ((v % 10) as u8));
        r
    }
}

pub proof fn lemma_dec_digits_props(v: int)
    requires
        0 <= v,
    ensures
        dec_digits(v).len() >= 1,
        forall|i: int| 0 <= i < dec_digits(v).len() ==> is_digit(#[trigger] dec_digits(v)[i]),
        dec_val(dec_digits(v), 0, dec_digits(v).len() as int) == v,
        v >= 1 ==> dec_digits(v)[0] != 48,
    decreases v,
{
    let t = dec_digits(v);
    if v < 10 {
        assert(t =~= seq![(48 + v) as u8]);
        assert(dec_val(t, 0, 1) == dec_val(t, 0, 0) * 10 + (t[0] - 48));
    } else {
        lemma_dec_digits_props(v / 10);
        let s = dec_digits(v / 10);
        assert(t == s.push((48 + v % 10) as u8));
        assert forall|i: int| 0 <= i < t.len() implies is_digit(#[trigger] t[i]) by {
            if i < s.len() {
                assert(t[i] == s[i]);
            }
        }
        lemma_dec_val_window(t, s, 0, 0, s.len() as int);
        assert(dec_val(t, 0, t.len() as int) == dec_val(t, 0, s.len() as int) * 10 + (t[
        s.len() as int] - 48));
        assert(t[0] == s[0]);
    }
}

/// A numeral written with `dec_digits` parses back to its value.
pub proof fn lemma_parse_u64_at(s: Seq<u8>, lo: int, v: u64)
    requires
        0 <= lo,
        lo + dec_digits(v as int).len() <= s.len(),
        forall|k: int|
            0 <= k < dec_digits(v as int).len() ==> s[lo + k] == #[trigger] dec_digits(
                v as int,
            )[k],
    ensures
        parse_u64(s, lo, lo + dec_digits(v as int).len()) == Some(v),
{
    let dd = dec_digits(v as int);
    lemma_dec_digits_props(v as int);
    lemma_dec_val_window(s, dd, lo, 0, dd.len() as int);
    assert forall|i: int| lo <= i < lo + dd.len() implies is_digit(#[trigger] s[i]) by {
        assert(s[i] == dd[i - lo]);
    }
}

/// Appends all bytes of `src`.
#[verifier::loop_isolation(false)]
pub fn push_all(dst: &mut Vec<u8>, src: &[u8])
    ensures
        final(dst)@ == old(dst)@ + src@,
{
    let mut i: usize = 0;
    while i < src.len()
        invariant
            i <= src@.len(),
            dst@ == old(dst)@ + src@.subrange(0, i as int),
        decreases src@.len() - i,
    {
        dst.push(src[i]);
        proof {
            assert(dst@ =~= old(dst)@ + src@.subrange(0, i + 1));
        }
        i = i + 1;
    }
    proof {
        assert(old(dst)@ + src@.subrange(0, src@.len() as int) =~= old(dst)@ + src@);
    }
}

impl Operand {
    /// The canonical text of the operand: a decimal immediate, a
    /// register, an `offset(register)` indirect reference, the name of
    /// a global up to its first padding byte, or nothing.
    pub open spec fn spec_render(&self) -> Seq<u8> {
        match *self {
            Operand::Immediate(v) => dec_digits(v as int),
            Operand::Register(r) => r.spec_render(),
            Operand::Indirect(r, off) => dec_digits(off as int) + seq![40u8] + r.spec_render()
                + seq![41u8],
            Operand::Global(buf) => buf@.subrange(0, find_byte(buf@, 0, buf@.len() as int, 0)),
            Operand::Absent => seq![],
        }
    }

    /// Renders the operand as text.
    pub fn render(&self) -> (r: Vec<u8>)
        ensures
            r@ == self.spec_render(),
    {
        let mut out: Vec<u8> = Vec::new();
        match self {
            Operand::Immediate(v) => {
                let ds = render_u64(*v);
                push_all(&mut out, ds.as_slice());
                proof {
                    assert(out@ =~= self.spec_render());
                }
            },
            Operand::Register(r) => {
                let rs = r.render();
                push_all(&mut out, rs.as_slice());
                proof {
                    assert(out@ =~= self.spec_render());
                }
            },
            Operand::Indirect(r, off) => {
                let ds = render_u64(*off);
                push_all(&mut out, ds.as_slice());
                out.push(40);
                let rs = r.render();
                push_all(&mut out, rs.as_slice());
                out.push(41);
                proof {
                    assert(out@ =~= self.spec_render());
                }
            },
            Operand::Global(buf) => {
                let end = find_byte_exec(buf.as_slice(), 0, buf.len(), 0);
                let mut i: usize = 0;
                while i < end
                    invariant
                        end <= buf@.len(),
                        i <= end,
                        out@ == buf@.subrange(0, i as int),
                    decreases end - i,
                {
                    out.push(buf[i]);
                    proof {
                        assert(out@ =~= buf@.subrange(0, i + 1));
                    }
                    i = i + 1;
                }
                proof {
                    assert(out@ =~= self.spec_render());
                }
            },
            Operand::Absent => {
                proof {
                    assert(out@ =~= self.spec_render());
                }
            },
        }
        out
    }
}

impl RiscVOp {
    /// The mnemonic column of the operation, padded with spaces to seven
    /// bytes, floating-point forms carrying their `.s` suffix.
    pub open spec fn spec_mnemonic(&self) -> Seq<u8> {
        match *self {
            RiscVOp::LoadWord(_, _, _) => seq![108u8, 119u8, 32u8, 32u8, 32u8, 32u8, 32u8],
            RiscVOp::StoreWord(_, _, _) => seq![115u8, 119u8, 32u8, 32u8, 32u8, 32u8, 32u8],
            RiscVOp::LoadFloat(_, _, _) => seq![102u8, 108u8, 119u8, 32u8, 32u8, 32u8, 32u8],
            RiscVOp::StoreFloat(_, _, _) => seq![102u8, 115u8, 119u8, 32u8, 32u8, 32u8, 32u8],
            RiscVOp::Add(_, _, _) => seq![97u8, 100u8, 100u8, 32u8, 32u8, 32u8, 32u8],
            RiscVOp::Sub(_, _, _) => seq![115u8, 117u8, 98u8, 32u8, 32u8, 32u8, 32u8],
            RiscVOp::BranchEqual(_, _, _) => seq![98u8, 101u8, 113u8, 32u8, 32u8, 32u8, 32u8],
            RiscVOp::BranchNotEqual(_, _, _) => seq![98u8, 110u8, 101u8, 32u8, 32u8, 32u8, 32u8],
            RiscVOp::FloatAdd(_, _, _) => seq![102u8, 97u8, 100u8, 100u8, 46u8, 115u8, 32u8],
            RiscVOp::FloatSub(_, _, _) => seq![102u8, 115u8, 117u8, 98u8, 46u8, 115u8, 32u8],
            RiscVOp::FloatMul(_, _, _) => seq![102u8, 109u8, 117u8, 108u8, 46u8, 115u8, 32u8],
            RiscVOp::FloatDiv(_, _, _) => seq![102u8, 100u8, 105u8, 118u8, 46u8, 115u8, 32u8],
        }
    }

    /// The canonical text of the operation: the padded mnemonic, then
    /// for memory operations `dst,src:addr` and for every other form
    /// `dst,src1,src2`.
    pub open spec fn spec_render(&self) -> Seq<u8> {
        if self.spec_is_data_transfer() {
            self.spec_mnemonic() + self.spec_dst_or_store_target().spec_render() + seq![44u8]
                + self.spec_src1().spec_render() + seq![58u8] + dec_digits(
                self.spec_addr()->Some_0 as int,
            )
        } else {
            self.spec_mnemonic() + self.spec_dst()->Some_0.spec_render() + seq![44u8]
                + self.spec_src1().spec_render() + seq![44u8] + self.spec_src2().spec_render()
        }
    }

    /// The first written operand: the destination, except that a store,
    /// which has none, writes the register it stores from in the same
    /// column.
    pub open spec fn spec_dst_or_store_target(&self) -> Operand {
        match *self {
            RiscVOp::StoreWord(target, _, _) => target,
            RiscVOp::StoreFloat(target, _, _) => target,
            _ => self.spec_dst()->Some_0,
        }
    }

    /// The first written operand, as executable code.
    pub fn dst_or_store_target(&self) -> (r: Operand)
        ensures
            r == self.spec_dst_or_store_target(),
    {
        match self {
            RiscVOp::StoreWord(target, _, _) => *target,
            RiscVOp::StoreFloat(target, _, _) => *target,
            _ => match self.dst() {
                Some(d) => d,
                None => {
                    proof {
                        assert(false);
                    }
                    Operand::Absent
                },
            },
        }
    }

    /// Renders the operation as text.
    pub fn render(&self) -> (r: Vec<u8>)
        ensures
            r@ == self.spec_render(),
    {
        let mut out: Vec<u8> = Vec::new();
        let mn: Vec<u8> = match self {
            RiscVOp::LoadWord(_, _, _) => vec![108u8, 119u8, 32u8, 32u8, 32u8, 32u8, 32u8],
            RiscVOp::StoreWord(_, _, _) => vec![115u8, 119u8, 32u8, 32u8, 32u8, 32u8, 32u8],
            RiscVOp::LoadFloat(_, _, _) => vec![102u8, 108u8, 119u8, 32u8, 32u8, 32u8, 32u8],
            RiscVOp::StoreFloat(_, _, _) => vec![102u8, 115u8, 119u8, 32u8, 32u8, 32u8, 32u8],
            RiscVOp::Add(_, _, _) => vec![97u8, 100u8, 100u8, 32u8, 32u8, 32u8, 32u8],
            RiscVOp::Sub(_, _, _) => vec![115u8, 117u8, 98u8, 32u8, 32u8, 32u8, 32u8],
            RiscVOp::BranchEqual(_, _, _) => vec![98u8, 101u8, 113u8, 32u8, 32u8, 32u8, 32u8],
            RiscVOp::BranchNotEqual(_, _, _) => vec![98u8, 110u8, 101u8, 32u8, 32u8, 32u8, 32u8],
            RiscVOp::FloatAdd(_, _, _) => vec![102u8, 97u8, 100u8, 100u8, 46u8, 115u8, 32u8],
            RiscVOp::FloatSub(_, _, _) => vec![102u8, 115u8, 117u8, 98u8, 46u8, 115u8, 32u8],
            RiscVOp::FloatMul(_, _, _) => vec![102u8, 109u8, 117u8, 108u8, 46u8, 115u8, 32u8],
            RiscVOp::FloatDiv(_, _, _) => vec![102u8, 100u8, 105u8, 118u8, 46u8, 115u8, 32u8],
        };
        push_all(&mut out, mn.as_slice());
        if self.is_data_transfer() {
            let d = self.dst_or_store_target().render();
            push_all(&mut out, d.as_slice());
            out.push(44);
            let s1 = self.src1().render();
            push_all(&mut out, s1.as_slice());
            out.push(58);
            let a = match self.addr() {
                Some(a) => a,
                None => {
                    proof {
                        assert(false);
                    }
                    0
                },
            };
            let ds = render_u64(a);
            push_all(&mut out, ds.as_slice());
            proof {
                assert(out@ =~= self.spec_render());
            }
        } else {
            let d = match self.dst() {
                Some(d) => d,
                None => {
                    proof {
                        assert(false);
                    }
                    Operand::Absent
                },
            };
            let dv = d.render();
            push_all(&mut out, dv.as_slice());
            out.push(44);
            let s1 = self.src1().render();
            push_all(&mut out, s1.as_slice());
            out.push(44);
            let s2 = self.src2().render();
            push_all(&mut out, s2.as_slice());
            proof {
                assert(out@ =~= self.spec_render());
            }
        }
        out
    }
}

/// A register written with `spec_render` parses back to itself from any
/// window holding exactly that text.
pub proof fn lemma_register_round_trip_at(s: Seq<u8>, lo: int, hi: int, r: Register)
    requires
        0 <= lo <= hi <= s.len(),
        hi - lo == r.spec_render().len(),
        forall|k: int| 0 <= k < hi - lo ==> (#[trigger] s[lo + k]) == r.spec_render()[k],
    ensures
        Register::spec_parse_at(s, lo, hi) == Some(r),
{
    let rr = r.spec_render();
    match r {
        Register::GP(v) => {
            lemma_dec_digits_props(v as int);
            let dd = dec_digits(v as int);
            assert(s[lo + 0] == rr[0]);
            assert(s[lo] == 120);
            assert forall|k: int| 0 <= k < dd.len() implies (#[trigger] s[lo + 1 + k]) == dd[k] by {
                assert(s[lo + (1 + k)] == rr[1 + k]);
            }
            assert(!is_space(s[lo]));
            assert(skip_spaces(s, lo, hi) == lo);
            assert(s[lo + (hi - lo - 1)] == rr[hi - lo - 1]);
            assert(is_digit(s[hi - 1]));
            assert(!is_space(s[hi - 1]));
            assert(rtrim(s, lo, hi) == hi);
            assert(s[lo + 1] == dd[0]);
            assert(is_digit(s[lo + 1]));
            assert(skip_byte(s, lo + 1, hi, 120) == lo + 1);
            assert(skip_byte(s, lo, hi, 120) == skip_byte(s, lo + 1, hi, 120));
            lemma_parse_u64_at(s, lo + 1, v);
            assert(Register::spec_parse_gp_at(s, lo, hi) == Some(Register::GP(v)));
        },
        Register::FP(v) => {
            lemma_dec_digits_props(v as int);
            let dd = dec_digits(v as int);
            assert(s[lo + 0] == rr[0]);
            assert(s[lo] == 102);
            assert forall|k: int| 0 <= k < dd.len() implies (#[trigger] s[lo + 1 + k]) == dd[k] by {
                assert(s[lo + (1 + k)] == rr[1 + k]);
            }
            assert(!is_space(s[lo]));
            assert(skip_spaces(s, lo, hi) == lo);
            assert(s[lo + (hi - lo - 1)] == rr[hi - lo - 1]);
            assert(is_digit(s[hi - 1]));
            assert(!is_space(s[hi - 1]));
            assert(rtrim(s, lo, hi) == hi);
            assert(Register::spec_parse_gp_at(s, lo, hi) is None);
            assert(s[lo + 1] == dd[0]);
            assert(is_digit(s[lo + 1]));
            assert(skip_byte(s, lo + 1, hi, 102) == lo + 1);
            assert(skip_byte(s, lo, hi, 102) == skip_byte(s, lo + 1, hi, 102));
            lemma_parse_u64_at(s, lo + 1, v);
            assert(Register::spec_parse_fp_at(s, lo, hi) == Some(Register::FP(v)));
        },
    }
}

/// LAW (parse and print round trip, register and numeric operands):
/// printing a register, immediate, or indirect operand and parsing the
/// text back yields the operand unchanged.  Symbolic global names are
/// outside the law: a name may itself contain separators, or spell a
/// register or numeral, and then parses as one.
pub proof fn law_operand_round_trip(o: Operand)
    requires
        o is Register || o is Immediate || o is Indirect,
    ensures
        Operand::spec_parse_at(o.spec_render(), 0, o.spec_render().len() as int) == Some(o),
{
    let s = o.spec_render();
    let n = s.len() as int;
    lemma_operand_round_trip_at(s, 0, n, o);
}

/// The windowed form of the operand round trip.
pub proof fn lemma_operand_round_trip_at(s: Seq<u8>, lo: int, hi: int, o: Operand)
    requires
        o is Register || o is Immediate || o is Indirect,
        0 <= lo <= hi <= s.len(),
        hi - lo == o.spec_render().len(),
        forall|k: int| 0 <= k < hi - lo ==> (#[trigger] s[lo + k]) == o.spec_render()[k],
    ensures
        Operand::spec_parse_at(s, lo, hi) == Some(o),
        !(o is Register) ==> Register::spec_parse_at(s, lo, hi) is None,
{
    let rr = o.spec_render();
    match o {
        Operand::Register(r) => {
            lemma_register_round_trip_at(s, lo, hi, r);
            assert(Operand::spec_parse_at(s, lo, hi) == Some(o));
        },
        Operand::Immediate(v) => {
            lemma_dec_digits_props(v as int);
            let dd = dec_digits(v as int);
            assert forall|k: int| 0 <= k < dd.len() implies (#[trigger] s[lo + k]) == dd[k] by {}
            assert(s[lo + 0] == dd[0]);
            assert(is_digit(s[lo]));
            assert(!is_space(s[lo]));
            assert(skip_spaces(s, lo, hi) == lo);
            assert(s[lo + (hi - lo - 1)] == dd[hi - lo - 1]);
            assert(is_digit(s[hi - 1]));
            assert(rtrim(s, lo, hi) == hi);
            assert(Register::spec_parse_gp_at(s, lo, hi) is None);
            assert(Register::spec_parse_fp_at(s, lo, hi) is None);
            if lo + 1 < hi && s[lo] == 48 {
                assert(dd[0] == 48);
                assert(v as int >= 1 ==> dd[0] != 48);
                assert(v == 0);
                assert(dd =~= seq![48u8]);
                assert(false);
            }
            lemma_parse_u64_at(s, lo, v);
            assert(parse_u64(s, lo, hi) == Some(v));
            assert(Operand::spec_parse_at(s, lo, hi) == Some(o));
        },
        Operand::Indirect(r, off) => {
            lemma_dec_digits_props(off as int);
            let dd = dec_digits(off as int);
            let m = dd.len() as int;
            let reg = r.spec_render();
            let rl = reg.len() as int;
            assert(hi - lo == m + 1 + rl + 1);
            assert forall|k: int| 0 <= k < m implies (#[trigger] s[lo + k]) == dd[k] by {
                assert(rr[k] == dd[k]);
            }
            assert(s[lo + m] == rr[m]);
            assert(s[lo + m] == 40);
            assert forall|k: int| 0 <= k < rl implies (#[trigger] s[lo + m + 1 + k]) == reg[k] by {
                assert(s[lo + (m + 1 + k)] == rr[m + 1 + k]);
            }
            assert(s[lo + (hi - lo - 1)] == rr[hi - lo - 1]);
            assert(s[hi - 1] == 41);
            // the register text is a tag letter then digits
            match r {
                Register::GP(v2) => {
                    lemma_dec_digits_props(v2 as int);
                    assert(reg[0] == 120);
                    assert forall|k: int| 1 <= k < rl implies is_digit(#[trigger] reg[k]) by {
                        assert(reg[k] == dec_digits(v2 as int)[k - 1]);
                    }
                },
                Register::FP(v2) => {
                    lemma_dec_digits_props(v2 as int);
                    assert(reg[0] == 102);
                    assert forall|k: int| 1 <= k < rl implies is_digit(#[trigger] reg[k]) by {
                        assert(reg[k] == dec_digits(v2 as int)[k - 1]);
                    }
                },
            }
            assert(s[lo + 0] == dd[0]);
            assert(is_digit(s[lo]));
            assert(skip_spaces(s, lo, hi) == lo);
            assert(rtrim(s, lo, hi) == hi);
            assert(Register::spec_parse_gp_at(s, lo, hi) is None);
            assert(Register::spec_parse_fp_at(s, lo, hi) is None);
            if lo + 1 < hi && s[lo] == 48 && s[lo + 1] == 120 {
                assert(dd[0] == 48);
                assert(off == 0);
                assert(m == 1);
                assert(s[lo + 1] == 40);
                assert(false);
            }
            assert(parse_u64(s, lo, hi) is None) by {
                assert(s[lo + m] == 40);
                assert(!is_digit(s[lo + m]));
            }
            assert(find_byte(s, lo, hi, 40) == lo + m) by {
                assert forall|k: int| lo <= k < lo + m implies (#[trigger] s[k]) != 40 by {
                    assert(s[lo + (k - lo)] == dd[k - lo]);
                    assert(is_digit(s[k]));
                }
                lemma_find_byte_at(s, lo, hi, 40, lo + m);
            }
            let i = lo + m;
            assert(skip_spaces(s, lo, i) == lo);
            assert(s[lo + (m - 1)] == dd[m - 1]);
            assert(is_digit(s[i - 1]));
            assert(rtrim(s, lo, i) == i);
            lemma_parse_u64_at(s, lo, off);
            assert(parse_u64(s, lo, i) == Some(off));
            assert(find_byte(s, i + 1, hi, 41) == hi - 1) by {
                assert forall|k: int| i + 1 <= k < hi - 1 implies (#[trigger] s[k]) != 41 by {
                    assert(s[lo + m + 1 + (k - (i + 1))] == reg[k - (i + 1)]);
                }
                lemma_find_byte_at(s, i + 1, hi, 41, hi - 1);
            }
            lemma_register_round_trip_at(s, i + 1, hi - 1, r);
            assert(Operand::spec_parse_mem_at(s, lo, hi) == Some(Operand::Indirect(r, off)));
            assert(Operand::spec_parse_at(s, lo, hi) == Some(o));
        },
        _ => {},
    }
}

/// An operand that takes part in the round-trip law: one whose text
/// contains no separator bytes and parses back unambiguously.
pub open spec fn round_trippable(o: Operand) -> bool {
    o is Register || o is Immediate || o is Indirect
}

/// Every byte a round-trippable operand renders to is a digit, a
/// register tag, or a parenthesis — never whitespace, a comma, or a
/// colon.
pub proof fn lemma_operand_render_bytes(o: Operand)
    requires
        round_trippable(o),
    ensures
        o.spec_render().len() >= 1,
        forall|k: int|
            0 <= k < o.spec_render().len() ==> (is_digit(#[trigger] o.spec_render()[k])
                || o.spec_render()[k] == 120 || o.spec_render()[k] == 102 || o.spec_render()[k]
                == 40 || o.spec_render()[k] == 41),
{
    let rr = o.spec_render();
    match o {
        Operand::Immediate(v) => {
            lemma_dec_digits_props(v as int);
        },
        Operand::Register(r) => {
            let idx = match r {
                Register::GP(v) => v,
                Register::FP(v) => v,
            };
            lemma_dec_digits_props(idx as int);
            assert forall|k: int| 0 <= k < rr.len() implies (is_digit(#[trigger] rr[k]) || rr[k]
                == 120 || rr[k] == 102 || rr[k] == 40 || rr[k] == 41) by {
                if k >= 1 {
                    assert(rr[k] == dec_digits(idx as int)[k - 1]);
                }
            }
        },
        Operand::Indirect(r, off) => {
            lemma_dec_digits_props(off as int);
            let dd = dec_digits(off as int);
            let m = dd.len() as int;
            let reg = r.spec_render();
            let idx = match r {
                Register::GP(v) => v,
                Register::FP(v) => v,
            };
            lemma_dec_digits_props(idx as int);
            assert forall|k: int| 0 <= k < rr.len() implies (is_digit(#[trigger] rr[k]) || rr[k]
                == 120 || rr[k] == 102 || rr[k] == 40 || rr[k] == 41) by {
                if k < m {
                    assert(rr[k] == dd[k]);
                } else if k == m {
                    assert(rr[k] == 40);
                } else if k < m + 1 + reg.len() {
                    assert(rr[k] == reg[k - (m + 1)]);
                    if k - (m + 1) >= 1 {
                        assert(reg[k - (m + 1)] == dec_digits(idx as int)[k - (m + 1) - 1]);
                    }
                } else {
                    assert(rr[k] == 41);
                }
            }
        },
        _ => {},
    }
}

/// An indirect operand followed by a colon-and-digits address suffix
/// still parses to the indirect operand: the suffix lies beyond the
/// closing parenthesis and is ignored.
pub proof fn lemma_indirect_with_tail_at(s: Seq<u8>, lo: int, hi: int, r: Register, off: u64, addr: u64)
    requires
        0 <= lo <= hi <= s.len(),
        hi - lo == Operand::Indirect(r, off).spec_render().len() + 1 + dec_digits(
            addr as int,
        ).len(),
        forall|k: int|
            0 <= k < Operand::Indirect(r, off).spec_render().len() ==> (#[trigger] s[lo + k])
                == Operand::Indirect(r, off).spec_render()[k],
        s[lo + Operand::Indirect(r, off).spec_render().len()] == 58,
        forall|k: int|
            0 <= k < dec_digits(addr as int).len() ==> (#[trigger] s[lo + Operand::Indirect(
                r,
                off,
            ).spec_render().len() + 1 + k]) == dec_digits(addr as int)[k],
    ensures
        Operand::spec_parse_at(s, lo, hi) == Some(Operand::Indirect(r, off)),
{
    let o = Operand::Indirect(r, off);
    let rr = o.spec_render();
    let rl = rr.len() as int;
    lemma_dec_digits_props(off as int);
    lemma_dec_digits_props(addr as int);
    let dd = dec_digits(off as int);
    let m = dd.len() as int;
    let reg = r.spec_render();
    let regl = reg.len() as int;
    let ad = dec_digits(addr as int);
    lemma_operand_render_bytes(o);
    assert forall|k: int| 0 <= k < m implies (#[trigger] s[lo + k]) == dd[k] by {
        assert(s[lo + k] == rr[k]);
    }
    assert(s[lo + m] == rr[m]);
    assert(s[lo + m] == 40);
    assert forall|k: int| 0 <= k < regl implies (#[trigger] s[lo + m + 1 + k]) == reg[k] by {
        assert(s[lo + (m + 1 + k)] == rr[m + 1 + k]);
    }
    assert(s[lo + (rl - 1)] == rr[rl - 1]);
    assert(s[lo + rl - 1] == 41);
    // trimming is the identity: the window starts with a digit and ends
    // with a digit of the address suffix
    assert(s[lo + 0] == rr[0]);
    assert(is_digit(s[lo]));
    assert(skip_spaces(s, lo, hi) == lo);
    assert(s[lo + rl + 1 + (ad.len() - 1)] == ad[ad.len() - 1]);
    assert(is_digit(s[hi - 1]));
    assert(rtrim(s, lo, hi) == hi);
    // not a register: the first byte is a digit
    assert(Register::spec_parse_gp_at(s, lo, hi) is None);
    assert(Register::spec_parse_fp_at(s, lo, hi) is None);
    // not a hexadecimal immediate: a zero offset is followed by the
    // opening parenthesis
    if lo + 1 < hi && s[lo] == 48 && s[lo + 1] == 120 {
        assert(dd[0] == 48);
        assert(off == 0);
        assert(m == 1);
        assert(s[lo + 1] == 40);
        assert(false);
    }
    // not a decimal immediate: the parenthesis is not a digit
    assert(parse_u64(s, lo, hi) is None) by {
        assert(!is_digit(s[lo + m]));
    }
    // the memory form: offset, register, and an ignored suffix
    assert(find_byte(s, lo, hi, 40) == lo + m) by {
        assert forall|k: int| lo <= k < lo + m implies (#[trigger] s[k]) != 40 by {
            assert(s[lo + (k - lo)] == dd[k - lo]);
            assert(is_digit(s[k]));
        }
        lemma_find_byte_at(s, lo, hi, 40, lo + m);
    }
    let i = lo + m;
    assert(skip_spaces(s, lo, i) == lo);
    assert(s[lo + (m - 1)] == dd[m - 1]);
    assert(is_digit(s[i - 1]));
    assert(rtrim(s, lo, i) == i);
    lemma_parse_u64_at(s, lo, off);
    assert(parse_u64(s, lo, i) == Some(off));
    assert(find_byte(s, i + 1, hi, 41) == lo + rl - 1) by {
        assert forall|k: int| i + 1 <= k < lo + rl - 1 implies (#[trigger] s[k]) != 41 by {
            assert(s[lo + m + 1 + (k - (i + 1))] == reg[k - (i + 1)]);
            let idx = match r {
                Register::GP(v) => v,
                Register::FP(v) => v,
            };
            lemma_dec_digits_props(idx as int);
            if k - (i + 1) >= 1 {
                assert(reg[k - (i + 1)] == dec_digits(idx as int)[k - (i + 1) - 1]);
            }
        }
        lemma_find_byte_at(s, i + 1, hi, 41, lo + rl - 1);
    }
    lemma_register_round_trip_at(s, i + 1, lo + rl - 1, r);
    assert(Operand::spec_parse_mem_at(s, lo, hi) == Some(Operand::Indirect(r, off)));
}

#[verifier::rlimit(100)]
proof fn lemma_line_facts_mem(s: Seq<u8>, lts: int, d: Operand, r1: Register, off1: u64, addr: u64)
    requires
        2 <= lts <= 6,
        round_trippable(d),
        s.len() == 7 + d.spec_render().len() + 1 + Operand::Indirect(r1, off1).spec_render().len()
            + 1 + dec_digits(addr as int).len(),
        forall|k: int|
            0 <= k < lts ==> !is_space(#[trigger] s[k]) && s[k] != 44 && s[k] != 58,
        forall|k: int| lts <= k < 7 ==> (#[trigger] s[k]) == 32u8,
        forall|k: int|
            0 <= k < d.spec_render().len() ==> (#[trigger] s[7 + k]) == d.spec_render()[k],
        s[7 + d.spec_render().len() as int] == 44,
        forall|k: int|
            0 <= k < Operand::Indirect(r1, off1).spec_render().len() ==> (#[trigger] s[7
                + d.spec_render().len() + 1 + k]) == Operand::Indirect(r1, off1).spec_render()[k],
        s[7 + d.spec_render().len() + 1 + Operand::Indirect(r1, off1).spec_render().len() as int]
            == 58,
        forall|k: int|
            0 <= k < dec_digits(addr as int).len() ==> (#[trigger] s[7 + d.spec_render().len() + 1
                + Operand::Indirect(r1, off1).spec_render().len() + 1 + k]) == dec_digits(
                addr as int,
            )[k],
    ensures
        ({
            let n = s.len() as int;
            let dl = d.spec_render().len() as int;
            let s1l = Operand::Indirect(r1, off1).spec_render().len() as int;
            &&& skip_spaces(s, 0, n) == 0
            &&& find_space(s, 0, n) == lts
            &&& skip_spaces(s, lts, n) == 7
            &&& find_space(s, 7, n) == n
            &&& 0 < n && 7 < n
            &&& find_byte(s, 0, n, 44) == 7 + dl
            &&& 7 + dl < n
            &&& find_byte(s, 7, n, 44) == 7 + dl
            &&& Operand::spec_parse_at(s, 7, 7 + dl) == Some(d)
            &&& find_byte(s, 7 + dl + 1, n, 44) == n
            &&& Operand::spec_parse_at(s, 7 + dl + 1, n) == Some(Operand::Indirect(r1, off1))
            &&& find_byte(s, 0, n, 58) == 7 + dl + 1 + s1l
            &&& 7 + dl + 1 + s1l < n
            &&& find_byte(s, 7 + dl + 1 + s1l + 1, n, 58) == n
            &&& parse_u64(s, 7 + dl + 1 + s1l + 1, n) == Some(addr)
        }),
{
    let n = s.len() as int;
    let dr = d.spec_render();
    let dl = dr.len() as int;
    let s1 = Operand::Indirect(r1, off1);
    let s1r = s1.spec_render();
    let s1l = s1r.len() as int;
    lemma_operand_render_bytes(d);
    let ad = dec_digits(addr as int);
    let al = ad.len() as int;
    lemma_dec_digits_props(addr as int);
    lemma_operand_render_bytes(s1);
    assert(s[7 + 0int] == dr[0]);
    assert(!is_space(s[7int]));
    assert(skip_spaces(s, 0, n) == 0);
    assert(is_space(s[lts]));
    lemma_find_space_at(s, 0, n, lts);
    lemma_skip_spaces_run(s, lts, n, 7);
    assert forall|k: int| 7 <= k < n implies !is_space(#[trigger] s[k]) by {
        if k < 7 + dl {
            assert(s[7 + (k - 7)] == dr[k - 7]);
        } else if k == 7 + dl {
        } else if k < 7 + dl + 1 + s1l {
            assert(s[7 + dl + 1 + (k - (7 + dl + 1))] == s1r[k - (7 + dl + 1)]);
        } else if k == 7 + dl + 1 + s1l {
        } else {
            assert(s[7 + dl + 1 + s1l + 1 + (k - (7 + dl + 1 + s1l + 1))] == ad[k - (7 + dl + 1
                + s1l + 1)]);
        }
    }
    lemma_find_space_none(s, 7, n);
    assert(find_byte(s, 0, n, 44) == 7 + dl) by {
        assert forall|k: int| 0 <= k < 7 + dl implies (#[trigger] s[k]) != 44 by {
            if k >= 7 {
                assert(s[7 + (k - 7)] == dr[k - 7]);
            }
        }
        lemma_find_byte_at(s, 0, n, 44, 7 + dl);
    }
    assert(find_byte(s, 7, n, 44) == 7 + dl) by {
        assert forall|k: int| 7 <= k < 7 + dl implies (#[trigger] s[k]) != 44 by {
            assert(s[7 + (k - 7)] == dr[k - 7]);
        }
        lemma_find_byte_at(s, 7, n, 44, 7 + dl);
    }
    lemma_operand_round_trip_at(s, 7, 7 + dl, d);
    let c1 = 7 + dl;
    assert(find_byte(s, c1 + 1, n, 44) == n) by {
        assert forall|k: int| c1 + 1 <= k < n implies (#[trigger] s[k]) != 44 by {
            if k < 7 + dl + 1 + s1l {
                assert(s[7 + dl + 1 + (k - (7 + dl + 1))] == s1r[k - (7 + dl + 1)]);
            } else if k == 7 + dl + 1 + s1l {
            } else {
                assert(s[7 + dl + 1 + s1l + 1 + (k - (7 + dl + 1 + s1l + 1))] == ad[k - (7 + dl
                    + 1 + s1l + 1)]);
            }
        }
        lemma_find_byte_none(s, c1 + 1, n, 44);
    }
    lemma_indirect_with_tail_at(s, c1 + 1, n, r1, off1, addr);
    assert(find_byte(s, 0, n, 58) == 7 + dl + 1 + s1l) by {
        assert forall|k: int| 0 <= k < 7 + dl + 1 + s1l implies (#[trigger] s[k]) != 58 by {
            if 7 <= k < 7 + dl {
                assert(s[7 + (k - 7)] == dr[k - 7]);
            } else if 7 + dl + 1 <= k < 7 + dl + 1 + s1l {
                assert(s[7 + dl + 1 + (k - (7 + dl + 1))] == s1r[k - (7 + dl + 1)]);
            }
        }
        lemma_find_byte_at(s, 0, n, 58, 7 + dl + 1 + s1l);
    }
    let k1 = 7 + dl + 1 + s1l;
    assert(find_byte(s, k1 + 1, n, 58) == n) by {
        assert forall|k: int| k1 + 1 <= k < n implies (#[trigger] s[k]) != 58 by {
            assert(s[7 + dl + 1 + s1l + 1 + (k - (k1 + 1))] == ad[k - (k1 + 1)]);
        }
        lemma_find_byte_none(s, k1 + 1, n, 58);
    }
    lemma_parse_u64_at(s, k1 + 1, addr);
}

#[verifier::rlimit(100)]
proof fn lemma_line_facts_three(s: Seq<u8>, lts: int, d: Operand, s1: Operand, s2: Operand)
    requires
        2 <= lts <= 6,
        round_trippable(d),
        round_trippable(s1),
        round_trippable(s2),
        s.len() == 7 + d.spec_render().len() + 1 + s1.spec_render().len() + 1
            + s2.spec_render().len(),
        forall|k: int|
            0 <= k < lts ==> !is_space(#[trigger] s[k]) && s[k] != 44 && s[k] != 58,
        forall|k: int| lts <= k < 7 ==> (#[trigger] s[k]) == 32u8,
        forall|k: int|
            0 <= k < d.spec_render().len() ==> (#[trigger] s[7 + k]) == d.spec_render()[k],
        s[7 + d.spec_render().len() as int] == 44,
        forall|k: int|
            0 <= k < s1.spec_render().len() ==> (#[trigger] s[7 + d.spec_render().len() + 1 + k])
                == s1.spec_render()[k],
        s[7 + d.spec_render().len() + 1 + s1.spec_render().len() as int] == 44,
        forall|k: int|
            0 <= k < s2.spec_render().len() ==> (#[trigger] s[7 + d.spec_render().len() + 1
                + s1.spec_render().len() + 1 + k]) == s2.spec_render()[k],
    ensures
        ({
            let n = s.len() as int;
            let dl = d.spec_render().len() as int;
            let s1l = s1.spec_render().len() as int;
            &&& skip_spaces(s, 0, n) == 0
            &&& find_space(s, 0, n) == lts
            &&& skip_spaces(s, lts, n) == 7
            &&& find_space(s, 7, n) == n
            &&& 0 < n && 7 < n
            &&& find_byte(s, 0, n, 44) == 7 + dl
            &&& 7 + dl < n
            &&& find_byte(s, 7, n, 44) == 7 + dl
            &&& Operand::spec_parse_at(s, 7, 7 + dl) == Some(d)
            &&& find_byte(s, 7 + dl + 1, n, 44) == 7 + dl + 1 + s1l
            &&& 7 + dl + 1 + s1l < n
            &&& Operand::spec_parse_at(s, 7 + dl + 1, 7 + dl + 1 + s1l) == Some(s1)
            &&& find_byte(s, 7 + dl + 1 + s1l + 1, n, 44) == n
            &&& Operand::spec_parse_at(s, 7 + dl + 1 + s1l + 1, n) == Some(s2)
            &&& find_byte(s, 0, n, 58) == n
        }),
{
    let n = s.len() as int;
    let dr = d.spec_render();
    let dl = dr.len() as int;
    let s1r = s1.spec_render();
    let s1l = s1r.len() as int;
    let s2r = s2.spec_render();
    let s2l = s2r.len() as int;
    lemma_operand_render_bytes(d);
    lemma_operand_render_bytes(s1);
    lemma_operand_render_bytes(s2);
    assert(s[7 + 0int] == dr[0]);
    assert(!is_space(s[7int]));
    assert(skip_spaces(s, 0, n) == 0);
    assert(is_space(s[lts]));
    lemma_find_space_at(s, 0, n, lts);
    lemma_skip_spaces_run(s, lts, n, 7);
    assert forall|k: int| 7 <= k < n implies !is_space(#[trigger] s[k]) && s[k] != 58 by {
        if k < 7 + dl {
            assert(s[7 + (k - 7)] == dr[k - 7]);
        } else if k == 7 + dl {
        } else if k < 7 + dl + 1 + s1l {
            assert(s[7 + dl + 1 + (k - (7 + dl + 1))] == s1r[k - (7 + dl + 1)]);
        } else if k == 7 + dl + 1 + s1l {
        } else {
            assert(s[7 + dl + 1 + s1l + 1 + (k - (7 + dl + 1 + s1l + 1))] == s2r[k - (7 + dl + 1
                + s1l + 1)]);
        }
    }
    lemma_find_space_none(s, 7, n);
    assert(find_byte(s, 0, n, 44) == 7 + dl) by {
        assert forall|k: int| 0 <= k < 7 + dl implies (#[trigger] s[k]) != 44 by {
            if k >= 7 {
                assert(s[7 + (k - 7)] == dr[k - 7]);
            }
        }
        lemma_find_byte_at(s, 0, n, 44, 7 + dl);
    }
    assert(find_byte(s, 7, n, 44) == 7 + dl) by {
        assert forall|k: int| 7 <= k < 7 + dl implies (#[trigger] s[k]) != 44 by {
            assert(s[7 + (k - 7)] == dr[k - 7]);
        }
        lemma_find_byte_at(s, 7, n, 44, 7 + dl);
    }
    lemma_operand_round_trip_at(s, 7, 7 + dl, d);
    let c1 = 7 + dl;
    let c2 = 7 + dl + 1 + s1l;
    assert(find_byte(s, c1 + 1, n, 44) == c2) by {
        assert forall|k: int| c1 + 1 <= k < c2 implies (#[trigger] s[k]) != 44 by {
            assert(s[7 + dl + 1 + (k - (7 + dl + 1))] == s1r[k - (7 + dl + 1)]);
        }
        lemma_find_byte_at(s, c1 + 1, n, 44, c2);
    }
    lemma_operand_round_trip_at(s, c1 + 1, c2, s1);
    assert(find_byte(s, c2 + 1, n, 44) == n) by {
        assert forall|k: int| c2 + 1 <= k < n implies (#[trigger] s[k]) != 44 by {
            assert(s[7 + dl + 1 + s1l + 1 + (k - (c2 + 1))] == s2r[k - (c2 + 1)]);
        }
        lemma_find_byte_none(s, c2 + 1, n, 44);
    }
    lemma_operand_round_trip_at(s, c2 + 1, n, s2);
    assert(find_byte(s, 0, n, 58) == n) by {
        assert forall|k: int| 0 <= k < n implies (#[trigger] s[k]) != 58 by {}
        lemma_find_byte_none(s, 0, n, 58);
    }
}

#[verifier::rlimit(100)]
#[verifier::spinoff_prover]
proof fn lemma_round_trip_load_word(d: Operand, s1: Operand, addr: u64)
    requires
        round_trippable(d),
        s1 is Indirect,
    ensures
        RiscVOp::spec_parse(RiscVOp::LoadWord(d, s1, addr).spec_render()) == Some(
            RiscVOp::LoadWord(d, s1, addr),
        ),
{
    let op = RiscVOp::LoadWord(d, s1, addr);
    let s = op.spec_render();
    let n = s.len() as int;
    let r1 = s1->Indirect_0;
    let off1 = s1->Indirect_1;
    let dl = d.spec_render().len() as int;
    let s1l = s1.spec_render().len() as int;
    assert forall|k: int| 0 <= k < 2 implies !is_space(#[trigger] s[k]) && s[k] != 44 && s[k]
        != 58 by {}
    assert forall|k: int| 2 <= k < 7 implies (#[trigger] s[k]) == 32u8 by {}
    assert forall|k: int| 0 <= k < dl implies (#[trigger] s[7 + k]) == d.spec_render()[k] by {}
    assert forall|k: int| 0 <= k < s1l implies (#[trigger] s[7 + dl + 1 + k])
        == s1.spec_render()[k] by {}
    assert forall|k: int|
        0 <= k < dec_digits(addr as int).len() implies (#[trigger] s[7 + dl + 1 + s1l + 1 + k])
            == dec_digits(addr as int)[k] by {}
    lemma_line_facts_mem(s, 2, d, r1, off1, addr);
    assert(s.subrange(0, 2) =~= seq![108u8, 119u8]);
}

#[verifier::rlimit(100)]
#[verifier::spinoff_prover]
proof fn lemma_round_trip_store_word(d: Operand, s1: Operand, addr: u64)
    requires
        round_trippable(d),
        s1 is Indirect,
    ensures
        RiscVOp::spec_parse(RiscVOp::StoreWord(d, s1, addr).spec_render()) == Some(
            RiscVOp::StoreWord(d, s1, addr),
        ),
{
    let op = RiscVOp::StoreWord(d, s1, addr);
    let s = op.spec_render();
    let n = s.len() as int;
    let r1 = s1->Indirect_0;
    let off1 = s1->Indirect_1;
    let dl = d.spec_render().len() as int;
    let s1l = s1.spec_render().len() as int;
    assert forall|k: int| 0 <= k < 2 implies !is_space(#[trigger] s[k]) && s[k] != 44 && s[k]
        != 58 by {}
    assert forall|k: int| 2 <= k < 7 implies (#[trigger] s[k]) == 32u8 by {}
    assert forall|k: int| 0 <= k < dl implies (#[trigger] s[7 + k]) == d.spec_render()[k] by {}
    assert forall|k: int| 0 <= k < s1l implies (#[trigger] s[7 + dl + 1 + k])
        == s1.spec_render()[k] by {}
    assert forall|k: int|
        0 <= k < dec_digits(addr as int).len() implies (#[trigger] s[7 + dl + 1 + s1l + 1 + k])
            == dec_digits(addr as int)[k] by {}
    lemma_line_facts_mem(s, 2, d, r1, off1, addr);
    assert(s.subrange(0, 2) =~= seq![115u8, 119u8]);
}

#[verifier::rlimit(100)]
#[verifier::spinoff_prover]
proof fn lemma_round_trip_load_float(d: Operand, s1: Operand, addr: u64)
    requires
        round_trippable(d),
        s1 is Indirect,
    ensures
        RiscVOp::spec_parse(RiscVOp::LoadFloat(d, s1, addr).spec_render()) == Some(
            RiscVOp::LoadFloat(d, s1, addr),
        ),
{
    let op = RiscVOp::LoadFloat(d, s1, addr);
    let s = op.spec_render();
    let n = s.len() as int;
    let r1 = s1->Indirect_0;
    let off1 = s1->Indirect_1;
    let dl = d.spec_render().len() as int;
    let s1l = s1.spec_render().len() as int;
    assert forall|k: int| 0 <= k < 3 implies !is_space(#[trigger] s[k]) && s[k] != 44 && s[k]
        != 58 by {}
    assert forall|k: int| 3 <= k < 7 implies (#[trigger] s[k]) == 32u8 by {}
    assert forall|k: int| 0 <= k < dl implies (#[trigger] s[7 + k]) == d.spec_render()[k] by {}
    assert forall|k: int| 0 <= k < s1l implies (#[trigger] s[7 + dl + 1 + k])
        == s1.spec_render()[k] by {}
    assert forall|k: int|
        0 <= k < dec_digits(addr as int).len() implies (#[trigger] s[7 + dl + 1 + s1l + 1 + k])
            == dec_digits(addr as int)[k] by {}
    lemma_line_facts_mem(s, 3, d, r1, off1, addr);
    assert(s.subrange(0, 3) =~= seq![102u8, 108u8, 119u8]);
}

#[verifier::rlimit(100)]
#[verifier::spinoff_prover]
proof fn lemma_round_trip_store_float(d: Operand, s1: Operand, addr: u64)
    requires
        round_trippable(d),
        s1 is Indirect,
    ensures
        RiscVOp::spec_parse(RiscVOp::StoreFloat(d, s1, addr).spec_render()) == Some(
            RiscVOp::StoreFloat(d, s1, addr),
        ),
{
    let op = RiscVOp::StoreFloat(d, s1, addr);
    let s = op.spec_render();
    let n = s.len() as int;
    let r1 = s1->Indirect_0;
    let off1 = s1->Indirect_1;
    let dl = d.spec_render().len() as int;
    let s1l = s1.spec_render().len() as int;
    assert forall|k: int| 0 <= k < 3 implies !is_space(#[trigger] s[k]) && s[k] != 44 && s[k]
        != 58 by {}
    assert forall|k: int| 3 <= k < 7 implies (#[trigger] s[k]) == 32u8 by {}
    assert forall|k: int| 0 <= k < dl implies (#[trigger] s[7 + k]) == d.spec_render()[k] by {}
    assert forall|k: int| 0 <= k < s1l implies (#[trigger] s[7 + dl + 1 + k])
        == s1.spec_render()[k] by {}
    assert forall|k: int|
        0 <= k < dec_digits(addr as int).len() implies (#[trigger] s[7 + dl + 1 + s1l + 1 + k])
            == dec_digits(addr as int)[k] by {}
    lemma_line_facts_mem(s, 3, d, r1, off1, addr);
    assert(s.subrange(0, 3) =~= seq![102u8, 115u8, 119u8]);
}

#[verifier::rlimit(100)]
#[verifier::spinoff_prover]
proof fn lemma_round_trip_add_op(d: Operand, s1: Operand, s2: Operand)
    requires
        round_trippable(d),
        round_trippable(s1),
        round_trippable(s2),
    ensures
        RiscVOp::spec_parse(RiscVOp::Add(d, s1, s2).spec_render()) == Some(
            RiscVOp::Add(d, s1, s2),
        ),
{
    let op = RiscVOp::Add(d, s1, s2);
    let s = op.spec_render();
    let n = s.len() as int;
    let dl = d.spec_render().len() as int;
    let s1l = s1.spec_render().len() as int;
    let s2l = s2.spec_render().len() as int;
    assert forall|k: int| 0 <= k < 3 implies !is_space(#[trigger] s[k]) && s[k] != 44 && s[k]
        != 58 by {}
    assert forall|k: int| 3 <= k < 7 implies (#[trigger] s[k]) == 32u8 by {}
    assert forall|k: int| 0 <= k < dl implies (#[trigger] s[7 + k]) == d.spec_render()[k] by {}
    assert forall|k: int| 0 <= k < s1l implies (#[trigger] s[7 + dl + 1 + k])
        == s1.spec_render()[k] by {}
    assert forall|k: int| 0 <= k < s2l implies (#[trigger] s[7 + dl + 1 + s1l + 1 + k])
        == s2.spec_render()[k] by {}
    lemma_line_facts_three(s, 3, d, s1, s2);
    assert(s.subrange(0, 3) =~= seq![97u8, 100u8, 100u8]);
}

#[verifier::rlimit(100)]
#[verifier::spinoff_prover]
proof fn lemma_round_trip_sub_op(d: Operand, s1: Operand, s2: Operand)
    requires
        round_trippable(d),
        round_trippable(s1),
        round_trippable(s2),
    ensures
        RiscVOp::spec_parse(RiscVOp::Sub(d, s1, s2).spec_render()) == Some(
            RiscVOp::Sub(d, s1, s2),
        ),
{
    let op = RiscVOp::Sub(d, s1, s2);
    let s = op.spec_render();
    let n = s.len() as int;
    let dl = d.spec_render().len() as int;
    let s1l = s1.spec_render().len() as int;
    let s2l = s2.spec_render().len() as int;
    assert forall|k: int| 0 <= k < 3 implies !is_space(#[trigger] s[k]) && s[k] != 44 && s[k]
        != 58 by {}
    assert forall|k: int| 3 <= k < 7 implies (#[trigger] s[k]) == 32u8 by {}
    assert forall|k: int| 0 <= k < dl implies (#[trigger] s[7 + k]) == d.spec_render()[k] by {}
    assert forall|k: int| 0 <= k < s1l implies (#[trigger] s[7 + dl + 1 + k])
        == s1.spec_render()[k] by {}
    assert forall|k: int| 0 <= k < s2l implies (#[trigger] s[7 + dl + 1 + s1l + 1 + k])
        == s2.spec_render()[k] by {}
    lemma_line_facts_three(s, 3, d, s1, s2);
    assert(s.subrange(0, 3) =~= seq![115u8, 117u8, 98u8]);
}

#[verifier::rlimit(100)]
#[verifier::spinoff_prover]
proof fn lemma_round_trip_branch_equal(d: Operand, s1: Operand, s2: Operand)
    requires
        round_trippable(d),
        round_trippable(s1),
        round_trippable(s2),
    ensures
        RiscVOp::spec_parse(RiscVOp::BranchEqual(d, s1, s2).spec_render()) == Some(
            RiscVOp::BranchEqual(d, s1, s2),
        ),
{
    let op = RiscVOp::BranchEqual(d, s1, s2);
    let s = op.spec_render();
    let n = s.len() as int;
    let dl = d.spec_render().len() as int;
    let s1l = s1.spec_render().len() as int;
    let s2l = s2.spec_render().len() as int;
    assert forall|k: int| 0 <= k < 3 implies !is_space(#[trigger] s[k]) && s[k] != 44 && s[k]
        != 58 by {}
    assert forall|k: int| 3 <= k < 7 implies (#[trigger] s[k]) == 32u8 by {}
    assert forall|k: int| 0 <= k < dl implies (#[trigger] s[7 + k]) == d.spec_render()[k] by {}
    assert forall|k: int| 0 <= k < s1l implies (#[trigger] s[7 + dl + 1 + k])
        == s1.spec_render()[k] by {}
    assert forall|k: int| 0 <= k < s2l implies (#[trigger] s[7 + dl + 1 + s1l + 1 + k])
        == s2.spec_render()[k] by {}
    lemma_line_facts_three(s, 3, d, s1, s2);
    assert(s.subrange(0, 3) =~= seq![98u8, 101u8, 113u8]);
}

#[verifier::rlimit(100)]
#[verifier::spinoff_prover]
proof fn lemma_round_trip_branch_not_equal(d: Operand, s1: Operand, s2: Operand)
    requires
        round_trippable(d),
        round_trippable(s1),
        round_trippable(s2),
    ensures
        RiscVOp::spec_parse(RiscVOp::BranchNotEqual(d, s1, s2).spec_render()) == Some(
            RiscVOp::BranchNotEqual(d, s1, s2),
        ),
{
    let op = RiscVOp::BranchNotEqual(d, s1, s2);
    let s = op.spec_render();
    let n = s.len() as int;
    let dl = d.spec_render().len() as int;
    let s1l = s1.spec_render().len() as int;
    let s2l = s2.spec_render().len() as int;
    assert forall|k: int| 0 <= k < 3 implies !is_space(#[trigger] s[k]) && s[k] != 44 && s[k]
        != 58 by {}
    assert forall|k: int| 3 <= k < 7 implies (#[trigger] s[k]) == 32u8 by {}
    assert forall|k: int| 0 <= k < dl implies (#[trigger] s[7 + k]) == d.spec_render()[k] by {}
    assert forall|k: int| 0 <= k < s1l implies (#[trigger] s[7 + dl + 1 + k])
        == s1.spec_render()[k] by {}
    assert forall|k: int| 0 <= k < s2l implies (#[trigger] s[7 + dl + 1 + s1l + 1 + k])
        == s2.spec_render()[k] by {}
    lemma_line_facts_three(s, 3, d, s1, s2);
    assert(s.subrange(0, 3) =~= seq![98u8, 110u8, 101u8]);
}

#[verifier::rlimit(100)]
#[verifier::spinoff_prover]
proof fn lemma_round_trip_float_add(d: Operand, s1: Operand, s2: Operand)
    requires
        round_trippable(d),
        round_trippable(s1),
        round_trippable(s2),
    ensures
        RiscVOp::spec_parse(RiscVOp::FloatAdd(d, s1, s2).spec_render()) == Some(
            RiscVOp::FloatAdd(d, s1, s2),
        ),
{
    let op = RiscVOp::FloatAdd(d, s1, s2);
    let s = op.spec_render();
    let n = s.len() as int;
    let dl = d.spec_render().len() as int;
    let s1l = s1.spec_render().len() as int;
    let s2l = s2.spec_render().len() as int;
    assert forall|k: int| 0 <= k < 6 implies !is_space(#[trigger] s[k]) && s[k] != 44 && s[k]
        != 58 by {}
    assert forall|k: int| 6 <= k < 7 implies (#[trigger] s[k]) == 32u8 by {}
    assert forall|k: int| 0 <= k < dl implies (#[trigger] s[7 + k]) == d.spec_render()[k] by {}
    assert forall|k: int| 0 <= k < s1l implies (#[trigger] s[7 + dl + 1 + k])
        == s1.spec_render()[k] by {}
    assert forall|k: int| 0 <= k < s2l implies (#[trigger] s[7 + dl + 1 + s1l + 1 + k])
        == s2.spec_render()[k] by {}
    lemma_line_facts_three(s, 6, d, s1, s2);
    assert(s.subrange(0, 6) =~= seq![102u8, 97u8, 100u8, 100u8, 46u8, 115u8]);
    assert(s.subrange(0, 6) =~= seq![102u8, 97u8, 100u8, 100u8] + seq![46u8, 115u8]);
}

#[verifier::rlimit(100)]
#[verifier::spinoff_prover]
proof fn lemma_round_trip_float_sub(d: Operand, s1: Operand, s2: Operand)
    requires
        round_trippable(d),
        round_trippable(s1),
        round_trippable(s2),
    ensures
        RiscVOp::spec_parse(RiscVOp::FloatSub(d, s1, s2).spec_render()) == Some(
            RiscVOp::FloatSub(d, s1, s2),
        ),
{
    let op = RiscVOp::FloatSub(d, s1, s2);
    let s = op.spec_render();
    let n = s.len() as int;
    let dl = d.spec_render().len() as int;
    let s1l = s1.spec_render().len() as int;
    let s2l = s2.spec_render().len() as int;
    assert forall|k: int| 0 <= k < 6 implies !is_space(#[trigger] s[k]) && s[k] != 44 && s[k]
        != 58 by {}
    assert forall|k: int| 6 <= k < 7 implies (#[trigger] s[k]) == 32u8 by {}
    assert forall|k: int| 0 <= k < dl implies (#[trigger] s[7 + k]) == d.spec_render()[k] by {}
    assert forall|k: int| 0 <= k < s1l implies (#[trigger] s[7 + dl + 1 + k])
        == s1.spec_render()[k] by {}
    assert forall|k: int| 0 <= k < s2l implies (#[trigger] s[7 + dl + 1 + s1l + 1 + k])
        == s2.spec_render()[k] by {}
    lemma_line_facts_three(s, 6, d, s1, s2);
    assert(s.subrange(0, 6) =~= seq![102u8, 115u8, 117u8, 98u8, 46u8, 115u8]);
    assert(s.subrange(0, 6) =~= seq![102u8, 115u8, 117u8, 98u8] + seq![46u8, 115u8]);
}

#[verifier::rlimit(100)]
#[verifier::spinoff_prover]
proof fn lemma_round_trip_float_mul(d: Operand, s1: Operand, s2: Operand)
    requires
        round_trippable(d),
        round_trippable(s1),
        round_trippable(s2),
    ensures
        RiscVOp::spec_parse(RiscVOp::FloatMul(d, s1, s2).spec_render()) == Some(
            RiscVOp::FloatMul(d, s1, s2),
        ),
{
    let op = RiscVOp::FloatMul(d, s1, s2);
    let s = op.spec_render();
    let n = s.len() as int;
    let dl = d.spec_render().len() as int;
    let s1l = s1.spec_render().len() as int;
    let s2l = s2.spec_render().len() as int;
    assert forall|k: int| 0 <= k < 6 implies !is_space(#[trigger] s[k]) && s[k] != 44 && s[k]
        != 58 by {}
    assert forall|k: int| 6 <= k < 7 implies (#[trigger] s[k]) == 32u8 by {}
    assert forall|k: int| 0 <= k < dl implies (#[trigger] s[7 + k]) == d.spec_render()[k] by {}
    assert forall|k: int| 0 <= k < s1l implies (#[trigger] s[7 + dl + 1 + k])
        == s1.spec_render()[k] by {}
    assert forall|k: int| 0 <= k < s2l implies (#[trigger] s[7 + dl + 1 + s1l + 1 + k])
        == s2.spec_render()[k] by {}
    lemma_line_facts_three(s, 6, d, s1, s2);
    assert(s.subrange(0, 6) =~= seq![102u8, 109u8, 117u8, 108u8, 46u8, 115u8]);
    assert(s.subrange(0, 6) =~= seq![102u8, 109u8, 117u8, 108u8] + seq![46u8, 115u8]);
}

#[verifier::rlimit(100)]
#[verifier::spinoff_prover]
proof fn lemma_round_trip_float_div(d: Operand, s1: Operand, s2: Operand)
    requires
        round_trippable(d),
        round_trippable(s1),
        round_trippable(s2),
    ensures
        RiscVOp::spec_parse(RiscVOp::FloatDiv(d, s1, s2).spec_render()) == Some(
            RiscVOp::FloatDiv(d, s1, s2),
        ),
{
    let op = RiscVOp::FloatDiv(d, s1, s2);
    let s = op.spec_render();
    let n = s.len() as int;
    let dl = d.spec_render().len() as int;
    let s1l = s1.spec_render().len() as int;
    let s2l = s2.spec_render().len() as int;
    assert forall|k: int| 0 <= k < 6 implies !is_space(#[trigger] s[k]) && s[k] != 44 && s[k]
        != 58 by {}
    assert forall|k: int| 6 <= k < 7 implies (#[trigger] s[k]) == 32u8 by {}
    assert forall|k: int| 0 <= k < dl implies (#[trigger] s[7 + k]) == d.spec_render()[k] by {}
    assert forall|k: int| 0 <= k < s1l implies (#[trigger] s[7 + dl + 1 + k])
        == s1.spec_render()[k] by {}
    assert forall|k: int| 0 <= k < s2l implies (#[trigger] s[7 + dl + 1 + s1l + 1 + k])
        == s2.spec_render()[k] by {}
    lemma_line_facts_three(s, 6, d, s1, s2);
    assert(s.subrange(0, 6) =~= seq![102u8, 100u8, 105u8, 118u8, 46u8, 115u8]);
    assert(s.subrange(0, 6) =~= seq![102u8, 100u8, 105u8, 118u8] + seq![46u8, 115u8]);
}

/// LAW (parse and print round trip, instructions): an instruction whose
/// operands are registers, immediates, or indirect references — with a
/// memory operation's source in its natural indirect form — prints to
/// text that parses back to exactly the same instruction.  The printed
/// floating-point mnemonics carry the `.s` suffix, which the parser
/// treats as the plain form: the two spellings name one operation.
/// Symbolic global names stay outside the law, as for operands.
pub proof fn law_instruction_round_trip(op: RiscVOp)
    requires
        round_trippable(op.spec_dst_or_store_target()),
        op.spec_is_data_transfer() ==> op.spec_src1() is Indirect,
        !op.spec_is_data_transfer() ==> round_trippable(op.spec_src1()) && round_trippable(
            op.spec_src2(),
        ),
    ensures
        RiscVOp::spec_parse(op.spec_render()) == Some(op),
{
    match op {
        RiscVOp::LoadWord(d, s1, addr) => lemma_round_trip_load_word(d, s1, addr),
        RiscVOp::StoreWord(d, s1, addr) => lemma_round_trip_store_word(d, s1, addr),
        RiscVOp::LoadFloat(d, s1, addr) => lemma_round_trip_load_float(d, s1, addr),
        RiscVOp::StoreFloat(d, s1, addr) => lemma_round_trip_store_float(d, s1, addr),
        RiscVOp::Add(d, s1, s2) => lemma_round_trip_add_op(d, s1, s2),
        RiscVOp::Sub(d, s1, s2) => lemma_round_trip_sub_op(d, s1, s2),
        RiscVOp::BranchEqual(d, s1, s2) => lemma_round_trip_branch_equal(d, s1, s2),
        RiscVOp::BranchNotEqual(d, s1, s2) => lemma_round_trip_branch_not_equal(d, s1, s2),
        RiscVOp::FloatAdd(d, s1, s2) => lemma_round_trip_float_add(d, s1, s2),
        RiscVOp::FloatSub(d, s1, s2) => lemma_round_trip_float_sub(d, s1, s2),
        RiscVOp::FloatMul(d, s1, s2) => lemma_round_trip_float_mul(d, s1, s2),
        RiscVOp::FloatDiv(d, s1, s2) => lemma_round_trip_float_div(d, s1, s2),
    }
}

} // verus!
