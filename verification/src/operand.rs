use vstd::prelude::*;

verus! {

/// The scalar type carried by a register or a value.
#[derive(Clone, Copy, PartialEq, Eq, Structural, Debug, Hash)]
pub enum ScalarType {
    Void,
    Int,
    Float,
}

/// Number of integer (and of float) argument registers (a0-a7 / fa0-fa7).
pub const ARG_REG_COUNT: i32 = 8;
/// Number of physical registers of one kind.
pub const REG_COUNT: i32 = 32;
/// Physical float register `fN` has id `FLOAT_BASE + N`.
pub const FLOAT_BASE: i32 = 32;

/// Whether `imm` fits a signed 12-bit immediate field.
pub open spec fn spec_is_imm_12bs(imm: int) -> bool {
    -2048 <= imm <= 2047
}

pub fn is_imm_12bs(imm: i32) -> (r: bool)
    ensures
        r == spec_is_imm_12bs(imm as int),
{
    -2048 <= imm && imm <= 2047
}

/// An integer immediate.
#[derive(Clone, Copy, PartialEq, Eq, Structural, Debug, Hash)]
pub struct IImm {
    pub data: i32,
}

impl IImm {
    pub fn new(data: i32) -> (r: IImm)
        ensures
            r.data == data,
    {
        IImm { data }
    }

    pub fn get_data(&self) -> (r: i32)
        ensures
            r == self.data,
    {
        self.data
    }
}

/// A float immediate, held by the bit pattern of its IEEE-754 single value.
#[derive(Clone, Copy, PartialEq, Eq, Structural, Debug, Hash)]
pub struct FImm {
    pub bits: u32,
}

impl FImm {
    pub fn new(bits: u32) -> (r: FImm)
        ensures
            r.bits == bits,
    {
        FImm { bits }
    }

    pub fn get_bits(&self) -> (r: u32)
        ensures
            r == self.bits,
    {
        self.bits
    }
}

/// A register: physical registers have ids `0..64` (floats from `FLOAT_BASE`),
/// virtual registers have larger ids.
#[derive(Clone, Copy, PartialEq, Eq, Structural, Debug, Hash)]
pub struct Reg {
    pub id: i32,
    pub r_type: ScalarType,
}

/// Caller-saved integer registers: ra, t0-t2, a0-a7, t3-t6.
pub open spec fn spec_caller_color(c: int) -> bool {
    c == 1 || (5 <= c <= 7) || (10 <= c <= 17) || (28 <= c <= 31)
}

/// Callee-saved integer registers: sp, s0-s1, s2-s11.
pub open spec fn spec_callee_color(c: int) -> bool {
    c == 2 || (8 <= c <= 9) || (18 <= c <= 27)
}

impl Reg {
    pub fn new(id: i32, r_type: ScalarType) -> (r: Reg)
        ensures
            r.id == id,
            r.r_type == r_type,
    {
        Reg { id, r_type }
    }

    pub fn get_id(&self) -> (r: i32)
        ensures
            r == self.id,
    {
        self.id
    }

    pub fn get_type(&self) -> (r: ScalarType)
        ensures
            r == self.r_type,
    {
        self.r_type
    }

    pub open spec fn spec_is_physic(self) -> bool {
        0 <= self.id < 2 * REG_COUNT
    }

    pub fn is_physic(&self) -> (r: bool)
        ensures
            r == self.spec_is_physic(),
    {
        0 <= self.id && self.id < 2 * REG_COUNT
    }

    /// The colour of a physical register is its id.
    pub fn get_color(&self) -> (r: i32)
        ensures
            r == self.id,
    {
        self.id
    }

    /// The physical register of colour `color`.
    pub fn from_color(color: i32) -> (r: Reg)
        requires
            0 <= color < 2 * REG_COUNT,
        ensures
            r.id == color,
            r.r_type == (if color >= FLOAT_BASE { ScalarType::Float } else { ScalarType::Int }),
    {
        if color >= FLOAT_BASE {
            Reg { id: color, r_type: ScalarType::Float }
        } else {
            Reg { id: color, r_type: ScalarType::Int }
        }
    }

    pub open spec fn spec_is_caller_save(self) -> bool {
        &&& self.spec_is_physic()
        &&& if self.id >= FLOAT_BASE {
            spec_caller_color(self.id - FLOAT_BASE) && self.id - FLOAT_BASE != 1
        } else {
            spec_caller_color(self.id as int)
        }
    }

    pub open spec fn spec_is_callee_save(self) -> bool {
        &&& self.spec_is_physic()
        &&& if self.id >= FLOAT_BASE {
            spec_callee_color(self.id - FLOAT_BASE) && self.id - FLOAT_BASE != 2
        } else {
            spec_callee_color(self.id as int)
        }
    }

    pub fn is_caller_save(&self) -> (r: bool)
        ensures
            r == self.spec_is_caller_save(),
    {
        if !self.is_physic() {
            return false;
        }
        let c = if self.id >= FLOAT_BASE { self.id - FLOAT_BASE } else { self.id };
        if self.id >= FLOAT_BASE && c == 1 {
            return false;
        }
        c == 1 || (5 <= c && c <= 7) || (10 <= c && c <= 17) || (28 <= c && c <= 31)
    }

    pub fn is_callee_save(&self) -> (r: bool)
        ensures
            r == self.spec_is_callee_save(),
    {
        if !self.is_physic() {
            return false;
        }
        let c = if self.id >= FLOAT_BASE { self.id - FLOAT_BASE } else { self.id };
        if self.id >= FLOAT_BASE && c == 2 {
            return false;
        }
        c == 2 || (8 <= c && c <= 9) || (18 <= c && c <= 27)
    }

    pub open spec fn spec_sp() -> Reg {
        Reg { id: 2, r_type: ScalarType::Int }
    }

    pub open spec fn spec_ra() -> Reg {
        Reg { id: 1, r_type: ScalarType::Int }
    }

    /// The stack pointer.
    pub fn get_sp() -> (r: Reg)
        ensures
            r == Reg::spec_sp(),
    {
        Reg { id: 2, r_type: ScalarType::Int }
    }

    /// The return-address register.
    pub fn get_ra() -> (r: Reg)
        ensures
            r == Reg::spec_ra(),
    {
        Reg { id: 1, r_type: ScalarType::Int }
    }

    /// Every physical caller-saved register, once.
    pub fn get_all_callers_saved() -> (r: Vec<Reg>)
        ensures
            forall|i: int, j: int| 0 <= i < r@.len() && 0 <= j < r@.len() && i != j ==> r@[i] != r@[j],
            forall|x: Reg| #[trigger] r@.contains(x) <==> x.spec_is_caller_save() && x.spec_has_own_class(),
    {
        Reg::all_of_class(true)
    }

    /// Every physical callee-saved register, once.
    pub fn get_all_callees_saved() -> (r: Vec<Reg>)
        ensures
            forall|i: int, j: int| 0 <= i < r@.len() && 0 <= j < r@.len() && i != j ==> r@[i] != r@[j],
            forall|x: Reg| #[trigger] r@.contains(x) <==> x.spec_is_callee_save() && x.spec_has_own_class(),
    {
        Reg::all_of_class(false)
    }

    /// A physical register carries the class of its bank.
    pub open spec fn spec_has_own_class(self) -> bool {
        self.r_type == (if self.id >= FLOAT_BASE { ScalarType::Float } else { ScalarType::Int })
    }

    fn all_of_class(callers: bool) -> (r: Vec<Reg>)
        ensures
            forall|i: int, j: int| 0 <= i < r@.len() && 0 <= j < r@.len() && i != j ==> r@[i] != r@[j],
            forall|x: Reg| #[trigger] r@.contains(x) <==> (if callers { x.spec_is_caller_save() } else { x.spec_is_callee_save() })
                && x.spec_has_own_class(),
    {
        let mut out: Vec<Reg> = Vec::new();
        let mut c: i32 = 0;
        while c < 2 * REG_COUNT
            invariant
                0 <= c <= 2 * REG_COUNT,
                forall|i: int| 0 <= i < out@.len() ==> 0 <= (#[trigger] out@[i]).id < c,
                forall|i: int, j: int| 0 <= i < out@.len() && 0 <= j < out@.len() && i != j ==> out@[i] != out@[j],
                forall|x: Reg| #[trigger] out@.contains(x) <==> (if callers { x.spec_is_caller_save() } else { x.spec_is_callee_save() })
                    && x.spec_has_own_class() && x.id < c,
            decreases 2 * REG_COUNT - c,
        {
            let r = Reg::from_color(c);
            let keep = if callers { r.is_caller_save() } else { r.is_callee_save() };
            let ghost before = out@;
            if keep {
                out.push(r);
            }
            proof {
                assert forall|i: int, j: int| 0 <= i < out@.len() && 0 <= j < out@.len() && i != j implies out@[i] != out@[j] by {
                    if keep && (i == before.len() || j == before.len()) {
                        if i == before.len() {
                            assert(out@[j].id < c);
                        } else {
                            assert(out@[i].id < c);
                        }
                    }
                }
                assert forall|x: Reg| #[trigger] out@.contains(x) <==> (if callers { x.spec_is_caller_save() } else { x.spec_is_callee_save() })
                    && x.spec_has_own_class() && x.id < c + 1 by {
                    if x.id == c && (if callers { x.spec_is_caller_save() } else { x.spec_is_callee_save() }) && x.spec_has_own_class() {
                        assert(x == r);
                        assert(out@[out@.len() - 1] == r);
                    }
                    if out@.contains(x) {
                        let i = choose|i: int| 0 <= i < out@.len() && out@[i] == x;
                        if i < before.len() {
                            assert(before.contains(x));
                        }
                    }
                    if before.contains(x) {
                        let i = choose|i: int| 0 <= i < before.len() && before[i] == x;
                        assert(out@[i] == x);
                    }
                }
            }
            c += 1;
        }
        out
    }
}

} // verus!
