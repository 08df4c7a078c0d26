use vstd::prelude::*;
use vstd::string::StringExecFns;
use crate::block::{decimal, i64_to_string, NUM_SIZE};

verus! {

/// Whether the operation keeps its name (no `w` suffix) in 32-bit code.
pub open spec fn full_width_op(op: Seq<char>, is_imm: bool) -> bool {
    ||| op == "or"@
    ||| op == "xor"@
    ||| op == "and"@
    ||| op == "slt"@
    ||| (!is_imm && op == "sh2add"@)
}

/// The lines of a two-operand instruction `op dest, lhs, rhs`; the float
/// comparisons RISC-V lacks (`fne.s`, `fgt.s`, `fge.s`) are written as the
/// opposite comparison followed by `xori dest, dest, 1`.
pub open spec fn op2_text(op: Seq<char>, dest: Seq<char>, lhs: Seq<char>, rhs: Seq<char>, is_imm: bool,
    is_double: bool) -> Seq<Seq<char>> {
    let flip = "    xori "@ + dest + ", "@ + dest + ", 1"@;
    if op == "fne.s"@ {
        seq!["    feq.s "@ + dest + ", "@ + lhs + ", "@ + rhs, flip]
    } else if op == "fgt.s"@ {
        seq!["    fle.s "@ + dest + ", "@ + lhs + ", "@ + rhs, flip]
    } else if op == "fge.s"@ {
        seq!["    flt.s "@ + dest + ", "@ + rhs + ", "@ + lhs, flip]
    } else {
        let name = if is_imm {
            if full_width_op(op, true) || is_double { op + "i"@ } else { op + "iw"@ }
        } else {
            if full_width_op(op, false) || is_double { op } else { op + "w"@ }
        };
        seq!["    "@ + name + " "@ + dest + ", "@ + lhs + ", "@ + rhs]
    }
}

/// The line of a one-operand instruction `op dest, src` (`fcvt.w.s` rounds
/// toward zero; `addiw` adds to `zero`).
pub open spec fn op1_text(op: Seq<char>, dest: Seq<char>, src: Seq<char>) -> Seq<char> {
    if op == "fcvt.w.s"@ {
        "    "@ + op + " "@ + dest + ", "@ + src + ", rtz"@
    } else if op == "addiw"@ {
        "    addiw "@ + dest + ", zero, "@ + src
    } else {
        "    "@ + op + " "@ + dest + ", "@ + src
    }
}

/// The store of `src` at `offset(addr)`: `fsw`, `sw` or `sd`.
pub open spec fn store_text(src: Seq<char>, addr: Seq<char>, offset: int, is_float: bool, is_double: bool)
    -> Seq<char> {
    let name = if is_float { "fsw "@ } else if !is_double { "sw "@ } else { "sd "@ };
    "\t"@ + name + src + ", "@ + decimal(offset) + "("@ + addr + ")"@
}

/// The load of `dest` from `offset(addr)`: `flw`, `lw` or `ld`.
pub open spec fn load_text(dest: Seq<char>, addr: Seq<char>, offset: int, is_float: bool, is_double: bool)
    -> Seq<char> {
    let name = if is_float { "flw "@ } else if !is_double { "lw "@ } else { "ld "@ };
    "\t"@ + name + dest + ", "@ + decimal(offset) + "("@ + addr + ")"@
}

/// The header of a function: section, alignment, symbol and label.
pub open spec fn show_func_text(label: Seq<char>) -> Seq<Seq<char>> {
    seq!["\t.text"@, "\t.align\t1"@, "\t.globl\t"@ + label, "    .type "@ + label + ", @function"@, label + ":"@]
}

fn same(a: &str, b: &str) -> (r: bool)
    ensures
        r == (a@ == b@),
{
    String::from_str(a) == String::from_str(b)
}

fn push_str(s: &mut String, t: &str)
    ensures
        final(s)@ == old(s)@ + t@,
{
    s.append(t);
}

/// `    ret`
pub fn ret_text() -> (r: String)
    ensures
        r@ == "    ret"@,
{
    String::from_str("    ret")
}

/// The lines of `op dest, lhs, rhs` (see `op2_text`).
pub fn op2_lines(op: &str, dest: &str, lhs: &str, rhs: &str, is_imm: bool, is_double: bool) -> (r: Vec<String>)
    ensures
        r@.len() == op2_text(op@, dest@, lhs@, rhs@, is_imm, is_double).len(),
        forall|i: int| 0 <= i < r@.len() ==> #[trigger] r@[i]@ == op2_text(op@, dest@, lhs@, rhs@, is_imm, is_double)[i],
{
    let mut r: Vec<String> = Vec::new();
    let fne = same(op, "fne.s");
    let fgt = same(op, "fgt.s");
    let fge = same(op, "fge.s");
    if fne || fgt || fge {
        let mut first = if fne { String::from_str("    feq.s ") } else if fgt { String::from_str("    fle.s ") }
            else { String::from_str("    flt.s ") };
        push_str(&mut first, dest);
        push_str(&mut first, ", ");
        let swap = !fne && !fgt;
        if swap { push_str(&mut first, rhs); } else { push_str(&mut first, lhs); }
        push_str(&mut first, ", ");
        if swap { push_str(&mut first, lhs); } else { push_str(&mut first, rhs); }
        let mut flip = String::from_str("    xori ");
        push_str(&mut flip, dest);
        push_str(&mut flip, ", ");
        push_str(&mut flip, dest);
        push_str(&mut flip, ", 1");
        r.push(first);
        r.push(flip);
        proof {
            let want = op2_text(op@, dest@, lhs@, rhs@, is_imm, is_double);
            assert(want.len() == 2);
            assert(r@[0]@ == want[0]);
            assert(r@[1]@ == want[1]);
        }
        return r;
    }
    let full = same(op, "or") || same(op, "xor") || same(op, "and") || same(op, "slt")
        || (!is_imm && same(op, "sh2add"));
    let mut line = String::from_str("    ");
    push_str(&mut line, op);
    if is_imm {
        if full || is_double { push_str(&mut line, "i"); } else { push_str(&mut line, "iw"); }
    } else if !(full || is_double) {
        push_str(&mut line, "w");
    }
    proof {
        let name = if is_imm {
            if full_width_op(op@, true) || is_double { op@ + "i"@ } else { op@ + "iw"@ }
        } else {
            if full_width_op(op@, false) || is_double { op@ } else { op@ + "w"@ }
        };
        assert(line@ == "    "@ + name);
    }
    push_str(&mut line, " ");
    push_str(&mut line, dest);
    push_str(&mut line, ", ");
    push_str(&mut line, lhs);
    push_str(&mut line, ", ");
    push_str(&mut line, rhs);
    r.push(line);
    proof {
        let want = op2_text(op@, dest@, lhs@, rhs@, is_imm, is_double);
        assert(want.len() == 1);
        assert(r@[0]@ == want[0]);
    }
    r
}

/// The line of `op dest, src` (see `op1_text`).
pub fn op1_line(op: &str, dest: &str, src: &str) -> (r: String)
    ensures
        r@ == op1_text(op@, dest@, src@),
{
    let fcvt = same(op, "fcvt.w.s");
    if !fcvt && same(op, "addiw") {
        let mut s = String::from_str("    addiw ");
        push_str(&mut s, dest);
        push_str(&mut s, ", zero, ");
        push_str(&mut s, src);
        return s;
    }
    let mut s = String::from_str("    ");
    push_str(&mut s, op);
    push_str(&mut s, " ");
    push_str(&mut s, dest);
    push_str(&mut s, ", ");
    push_str(&mut s, src);
    if fcvt {
        push_str(&mut s, ", rtz");
    }
    s
}

/// `    addi dest, opr, imm`
pub fn addi_line(dest: &str, opr: &str, imm: i32) -> (r: String)
    ensures
        r@ == "    addi "@ + dest@ + ", "@ + opr@ + ", "@ + decimal(imm as int),
{
    let mut s = String::from_str("    addi ");
    push_str(&mut s, dest);
    push_str(&mut s, ", ");
    push_str(&mut s, opr);
    push_str(&mut s, ", ");
    let n = i64_to_string(imm as i64);
    push_str(&mut s, n.as_str());
    s
}

/// The store of `src` at `offset(addr)` (see `store_text`).
pub fn store_line(src: &str, addr: &str, offset: i32, is_float: bool, is_double: bool) -> (r: String)
    ensures
        r@ == store_text(src@, addr@, offset as int, is_float, is_double),
{
    let mut s = String::from_str("\t");
    if is_float { push_str(&mut s, "fsw "); } else if !is_double { push_str(&mut s, "sw "); }
    else { push_str(&mut s, "sd "); }
    push_str(&mut s, src);
    push_str(&mut s, ", ");
    let n = i64_to_string(offset as i64);
    push_str(&mut s, n.as_str());
    push_str(&mut s, "(");
    push_str(&mut s, addr);
    push_str(&mut s, ")");
    s
}

/// The load of `dest` from `offset(addr)` (see `load_text`).
pub fn load_line(dest: &str, addr: &str, offset: i32, is_float: bool, is_double: bool) -> (r: String)
    ensures
        r@ == load_text(dest@, addr@, offset as int, is_float, is_double),
{
    let mut s = String::from_str("\t");
    if is_float { push_str(&mut s, "flw "); } else if !is_double { push_str(&mut s, "lw "); }
    else { push_str(&mut s, "ld "); }
    push_str(&mut s, dest);
    push_str(&mut s, ", ");
    let n = i64_to_string(offset as i64);
    push_str(&mut s, n.as_str());
    push_str(&mut s, "(");
    push_str(&mut s, addr);
    push_str(&mut s, ")");
    s
}

/// `    b<cond>    lhs, rhs, label`
pub fn branch_line(cond: &str, lhs: &str, rhs: &str, label: &str) -> (r: String)
    ensures
        r@ == "    b"@ + cond@ + "    "@ + lhs@ + ", "@ + rhs@ + ", "@ + label@,
{
    let mut s = String::from_str("    b");
    push_str(&mut s, cond);
    push_str(&mut s, "    ");
    push_str(&mut s, lhs);
    push_str(&mut s, ", ");
    push_str(&mut s, rhs);
    push_str(&mut s, ", ");
    push_str(&mut s, label);
    s
}

/// `    beqz reg, label`
pub fn beqz_line(reg: &str, label: &str) -> (r: String)
    ensures
        r@ == "    beqz "@ + reg@ + ", "@ + label@,
{
    let mut s = String::from_str("    beqz ");
    push_str(&mut s, reg);
    push_str(&mut s, ", ");
    push_str(&mut s, label);
    s
}

/// `    bnez reg, label`
pub fn bnez_line(reg: &str, label: &str) -> (r: String)
    ensures
        r@ == "    bnez "@ + reg@ + ", "@ + label@,
{
    let mut s = String::from_str("    bnez ");
    push_str(&mut s, reg);
    push_str(&mut s, ", ");
    push_str(&mut s, label);
    s
}

/// `\tj label`
pub fn jump_line(label: &str) -> (r: String)
    ensures
        r@ == "\tj "@ + label@,
{
    let mut s = String::from_str("\tj ");
    push_str(&mut s, label);
    s
}

/// `\tcall func`
pub fn call_line(func: &str) -> (r: String)
    ensures
        r@ == "\tcall "@ + func@,
{
    let mut s = String::from_str("\tcall ");
    push_str(&mut s, func);
    s
}

/// The header lines of the function `label` (see `show_func_text`).
pub fn show_func_lines(label: &str) -> (r: Vec<String>)
    ensures
        r@.len() == 5,
        forall|i: int| 0 <= i < 5 ==> #[trigger] r@[i]@ == show_func_text(label@)[i],
{
    let mut r: Vec<String> = Vec::new();
    r.push(String::from_str("\t.text"));
    r.push(String::from_str("\t.align\t1"));
    let mut g = String::from_str("\t.globl\t");
    push_str(&mut g, label);
    r.push(g);
    let mut t = String::from_str("    .type ");
    push_str(&mut t, label);
    push_str(&mut t, ", @function");
    r.push(t);
    let mut l = String::from_str(label);
    push_str(&mut l, ":");
    r.push(l);
    r
}

/// `label:`
pub fn show_block_line(label: &str) -> (r: String)
    ensures
        r@ == label@ + ":"@,
{
    let mut l = String::from_str(label);
    push_str(&mut l, ":");
    l
}

/// The lines of an integer array `name` of `size` words: its label, a
/// `.word` per given value, then `.zero` for the bytes of the words not
/// given (if any).
pub open spec fn array_text(array: Seq<i32>, name: Seq<char>, size: int) -> Seq<Seq<char>> {
    let zeros = size - array.len();
    seq![name + ":"@] + Seq::new(array.len(), |i: int| "\t.word\t"@ + decimal(array[i] as int))
        + (if zeros > 0 { seq!["\t.zero\t"@ + decimal(zeros * NUM_SIZE)] } else { Seq::empty() })
}

/// The lines of the integer array `name` (see `array_text`).
pub fn array_lines(array: &Vec<i32>, name: &str, size: i32) -> (r: Vec<String>)
    requires
        array@.len() <= i32::MAX,
        i32::MIN <= size - array@.len(),
        size - array@.len() > 0 ==> (size - array@.len()) * NUM_SIZE <= i32::MAX,
    ensures
        r@.len() == array_text(array@, name@, size as int).len(),
        forall|i: int| 0 <= i < r@.len() ==> #[trigger] r@[i]@ == array_text(array@, name@, size as int)[i],
{
    let ghost want = array_text(array@, name@, size as int);
    let mut r: Vec<String> = Vec::new();
    let mut l = String::from_str(name);
    push_str(&mut l, ":");
    r.push(l);
    let mut i: usize = 0;
    while i < array.len()
        invariant
            want == array_text(array@, name@, size as int),
            i <= array@.len(),
            r@.len() == i + 1,
            forall|k: int| 0 <= k < r@.len() ==> #[trigger] r@[k]@ == want[k],
        decreases array@.len() - i,
    {
        let mut w = String::from_str("\t.word\t");
        let n = i64_to_string(array[i] as i64);
        push_str(&mut w, n.as_str());
        r.push(w);
        i = i + 1;
    }
    let zeros: i32 = size - array.len() as i32;
    if zeros > 0 {
        let mut z = String::from_str("\t.zero\t");
        let n = i64_to_string((zeros * NUM_SIZE) as i64);
        push_str(&mut z, n.as_str());
        r.push(z);
    }
    r
}


/// Law: the logical operations `or`, `xor`, `and` and `slt` are written under
/// their own name (with `i` for an immediate) and never take a `w` suffix,
/// whatever the width.
pub proof fn lemma_logical_ops_keep_their_name(op: Seq<char>, dest: Seq<char>, lhs: Seq<char>, rhs: Seq<char>,
    is_double: bool)
    requires
        op == "or"@ || op == "xor"@ || op == "and"@ || op == "slt"@,
    ensures
        op2_text(op, dest, lhs, rhs, false, is_double) == seq!["    "@ + op + " "@ + dest + ", "@ + lhs + ", "@ + rhs],
        op2_text(op, dest, lhs, rhs, true, is_double) == seq!["    "@ + (op + "i"@) + " "@ + dest + ", "@ + lhs + ", "@ + rhs],
{
    reveal_strlit("or");
    reveal_strlit("xor");
    reveal_strlit("and");
    reveal_strlit("slt");
    reveal_strlit("fne.s");
    reveal_strlit("fgt.s");
    reveal_strlit("fge.s");
    assert(op != "fne.s"@ && op != "fgt.s"@ && op != "fge.s"@) by {
        assert(op.len() <= 3);
        assert("fne.s"@.len() == 5 && "fgt.s"@.len() == 5 && "fge.s"@.len() == 5);
    }
    assert(full_width_op(op, true) && full_width_op(op, false));
}

/// Law: a word operation such as `add` takes the `w` suffix in 32-bit code
/// and keeps its name in 64-bit code.
pub proof fn lemma_word_ops_take_w(dest: Seq<char>, lhs: Seq<char>, rhs: Seq<char>)
    ensures
        op2_text("add"@, dest, lhs, rhs, false, false) == seq!["    "@ + ("add"@ + "w"@) + " "@ + dest + ", "@ + lhs + ", "@ + rhs],
        op2_text("add"@, dest, lhs, rhs, false, true) == seq!["    "@ + "add"@ + " "@ + dest + ", "@ + lhs + ", "@ + rhs],
{
    reveal_strlit("add");
    reveal_strlit("or");
    reveal_strlit("xor");
    reveal_strlit("and");
    reveal_strlit("slt");
    reveal_strlit("sh2add");
    reveal_strlit("fne.s");
    reveal_strlit("fgt.s");
    reveal_strlit("fge.s");
    assert("add"@.len() == 3 && "fne.s"@.len() == 5 && "fgt.s"@.len() == 5 && "fge.s"@.len() == 5);
    assert("add"@ != "fne.s"@ && "add"@ != "fgt.s"@ && "add"@ != "fge.s"@);
    assert(!full_width_op("add"@, false)) by {
        assert("or"@.len() == 2 && "sh2add"@.len() == 6);
        assert("add"@[0] == 'a' && "xor"@[0] == 'x' && "slt"@[0] == 's');
        assert("add"@[1] == 'd' && "and"@[1] == 'n');
        assert("add"@ != "or"@);
        assert("add"@ != "xor"@);
        assert("add"@ != "and"@);
        assert("add"@ != "slt"@);
        assert("add"@ != "sh2add"@);
    }
}


/// Law: a load and a store with the same operands are written at the same
/// width: `ld`/`sd` for a 64-bit integer access, `lw`/`sw` for a 32-bit
/// one, `flw`/`fsw` for a float one; past that letter the lines agree.
pub proof fn lemma_load_store_widths(reg: Seq<char>, addr: Seq<char>, offset: int, is_float: bool, is_double: bool)
    ensures
        is_float ==> load_text(reg, addr, offset, is_float, is_double).subrange(0, 5) == "\tflw "@
            && store_text(reg, addr, offset, is_float, is_double).subrange(0, 5) == "\tfsw "@,
        !is_float && is_double ==> load_text(reg, addr, offset, is_float, is_double).subrange(0, 4) == "\tld "@
            && store_text(reg, addr, offset, is_float, is_double).subrange(0, 4) == "\tsd "@,
        !is_float && !is_double ==> load_text(reg, addr, offset, is_float, is_double).subrange(0, 4) == "\tlw "@
            && store_text(reg, addr, offset, is_float, is_double).subrange(0, 4) == "\tsw "@,
        load_text(reg, addr, offset, is_float, is_double).len() == store_text(reg, addr, offset, is_float, is_double).len(),
        load_text(reg, addr, offset, is_float, is_double).subrange(if is_float { 3int } else { 2int },
            load_text(reg, addr, offset, is_float, is_double).len() as int)
            == store_text(reg, addr, offset, is_float, is_double).subrange(if is_float { 3int } else { 2int },
            store_text(reg, addr, offset, is_float, is_double).len() as int),
{
    reveal_strlit("\t");
    reveal_strlit("flw ");
    reveal_strlit("fsw ");
    reveal_strlit("ld ");
    reveal_strlit("sd ");
    reveal_strlit("lw ");
    reveal_strlit("sw ");
    reveal_strlit("\tflw ");
    reveal_strlit("\tfsw ");
    reveal_strlit("\tld ");
    reveal_strlit("\tsd ");
    reveal_strlit("\tlw ");
    reveal_strlit("\tsw ");
    let rest = reg + ", "@ + decimal(offset) + "("@ + addr + ")"@;
    let l = load_text(reg, addr, offset, is_float, is_double);
    let s = store_text(reg, addr, offset, is_float, is_double);
    if is_float {
        assert(l =~= "\t"@ + "flw "@ + rest);
        assert(s =~= "\t"@ + "fsw "@ + rest);
        assert(l.subrange(0, 5) =~= "\tflw "@);
        assert(s.subrange(0, 5) =~= "\tfsw "@);
        assert(l.subrange(3, l.len() as int) =~= s.subrange(3, s.len() as int));
    } else if is_double {
        assert(l =~= "\t"@ + "ld "@ + rest);
        assert(s =~= "\t"@ + "sd "@ + rest);
        assert(l.subrange(0, 4) =~= "\tld "@);
        assert(s.subrange(0, 4) =~= "\tsd "@);
        assert(l.subrange(2, l.len() as int) =~= s.subrange(2, s.len() as int));
    } else {
        assert(l =~= "\t"@ + "lw "@ + rest);
        assert(s =~= "\t"@ + "sw "@ + rest);
        assert(l.subrange(0, 4) =~= "\tlw "@);
        assert(s.subrange(0, 4) =~= "\tsw "@);
        assert(l.subrange(2, l.len() as int) =~= s.subrange(2, s.len() as int));
    }
}


/// Law: the float comparisons RISC-V lacks are written as the opposite
/// comparison followed by an `xori` that flips the result: `fne.s` as
/// `feq.s`, `fgt.s` as `fle.s`, and `fge.s` as `flt.s` with the operands
/// swapped.
pub proof fn lemma_missing_float_compares(dest: Seq<char>, lhs: Seq<char>, rhs: Seq<char>, is_imm: bool, is_double: bool)
    ensures
        op2_text("fne.s"@, dest, lhs, rhs, is_imm, is_double)
            == seq!["    feq.s "@ + dest + ", "@ + lhs + ", "@ + rhs, "    xori "@ + dest + ", "@ + dest + ", 1"@],
        op2_text("fgt.s"@, dest, lhs, rhs, is_imm, is_double)
            == seq!["    fle.s "@ + dest + ", "@ + lhs + ", "@ + rhs, "    xori "@ + dest + ", "@ + dest + ", 1"@],
        op2_text("fge.s"@, dest, lhs, rhs, is_imm, is_double)
            == seq!["    flt.s "@ + dest + ", "@ + rhs + ", "@ + lhs, "    xori "@ + dest + ", "@ + dest + ", 1"@],
{
    reveal_strlit("fne.s");
    reveal_strlit("fgt.s");
    reveal_strlit("fge.s");
    assert("fne.s"@[1] == 'n' && "fgt.s"@[1] == 'g' && "fge.s"@[1] == 'g');
    assert("fgt.s"@[2] == 't' && "fge.s"@[2] == 'e');
    assert("fgt.s"@ != "fne.s"@);
    assert("fge.s"@ != "fne.s"@);
    assert("fge.s"@ != "fgt.s"@);
}

/// Law: any other operation takes `i` for an immediate, and in 32-bit code
/// the `w` suffix after that.
pub proof fn lemma_word_suffixes(op: Seq<char>, dest: Seq<char>, lhs: Seq<char>, rhs: Seq<char>, is_imm: bool, is_double: bool)
    requires
        op != "or"@ && op != "xor"@ && op != "and"@ && op != "slt"@ && op != "sh2add"@,
        op != "fne.s"@ && op != "fgt.s"@ && op != "fge.s"@,
    ensures
        op2_text(op, dest, lhs, rhs, is_imm, is_double) == seq!["    "@
            + (if is_imm { if is_double { op + "i"@ } else { op + "iw"@ } } else { if is_double { op } else { op + "w"@ } })
            + " "@ + dest + ", "@ + lhs + ", "@ + rhs],
{
}

/// Law: `fcvt.w.s` rounds toward zero, `addiw` of an immediate adds it to
/// `zero`, and any other one-operand instruction is written as it is.
pub proof fn lemma_op1_forms(op: Seq<char>, dest: Seq<char>, src: Seq<char>)
    ensures
        op1_text("fcvt.w.s"@, dest, src) == "    fcvt.w.s "@ + dest + ", "@ + src + ", rtz"@,
        op1_text("addiw"@, dest, src) == "    addiw "@ + dest + ", zero, "@ + src,
        op != "fcvt.w.s"@ && op != "addiw"@ ==> op1_text(op, dest, src) == "    "@ + op + " "@ + dest + ", "@ + src,
{
    reveal_strlit("fcvt.w.s");
    reveal_strlit("addiw");
    reveal_strlit("    fcvt.w.s ");
    reveal_strlit("    ");
    reveal_strlit(" ");
    assert("fcvt.w.s"@.len() == 8 && "addiw"@.len() == 5);
    assert("addiw"@ != "fcvt.w.s"@);
    assert("    "@ + "fcvt.w.s"@ + " "@ =~= "    fcvt.w.s "@);
}

} // verus!
