//! The pseudo-assembly output: a model of the emitted instructions, the text
//! each one renders to, and the executable emitters that append that text.

use vstd::prelude::*;

verus! {

/// One emitted pseudo-assembly instruction.
pub ghost enum InstrModel {
    /// Initializes a variable's slot with a literal.
    MemSetVar { slot: usize, value: usize, name: Seq<char> },
    /// Pulls a source slot's value into the scratch register.
    PullVar { src: usize },
    /// Stores the scratch register into a variable's slot.
    StoreVar { slot: usize },
    /// Initializes a scratch slot with an operand literal.
    ScratchSet { slot: usize, value: usize },
    /// Moves a scratch slot into the left operand register.
    MovLeft { slot: usize },
    /// Moves a scratch slot into the right operand register.
    MovRight { slot: usize },
    /// Compares the operand registers for equality.
    CompareEq,
    /// Inverts the comparison result to match the branch polarity.
    Invert,
    /// Branches past the block whose end has the given token index.
    Branch { target: usize },
    /// Marks the end of a block at the given token index.
    Label { index: usize },
}

/// The character a single digit renders to.
pub open spec fn digit_char(d: nat) -> char {
    if d == 0 {
        '0'
    } else if d == 1 {
        '1'
    } else if d == 2 {
        '2'
    } else if d == 3 {
        '3'
    } else if d == 4 {
        '4'
    } else if d == 5 {
        '5'
    } else if d == 6 {
        '6'
    } else if d == 7 {
        '7'
    } else if d == 8 {
        '8'
    } else {
        '9'
    }
}

/// The decimal rendering of a number, most significant digit first.
pub open spec fn dec(n: nat) -> Seq<char>
    decreases n,
{
    if n < 10 {
        seq![digit_char(n)]
    } else {
        dec(n / 10).push(digit_char(n % 10))
    }
}

/// The text one instruction renders to, trailing comment and newline
/// included.
pub open spec fn instr_text(ins: InstrModel) -> Seq<char> {
    match ins {
        InstrModel::MemSetVar { slot, value, name } => "memset "@ + dec(slot as nat) + " "@ + dec(
            value as nat,
        ) + " // VARIABLE : "@ + name + " // \n"@,
        InstrModel::PullVar { src } => "mov rax "@ + dec(src as nat) + " // MEMORY VALUE PULL // \n"@,
        InstrModel::StoreVar { slot } => "memset "@ + dec(slot as nat)
            + " rax // ASSIGN MEMORY TO VARIABLE //\n"@,
        InstrModel::ScratchSet { slot, value } => "memset "@ + dec(slot as nat) + " "@ + dec(
            value as nat,
        ) + " // COMPILER INTERNAL // \n"@,
        InstrModel::MovLeft { slot } => "mov rax "@ + dec(slot as nat) + " // COMPILER INTERNAL //\n"@,
        InstrModel::MovRight { slot } => "mov rbx "@ + dec(slot as nat) + "\n"@,
        InstrModel::CompareEq => "eq rcx rax rbx // COMPILER INTERNAL // \n"@,
        InstrModel::Invert => "inv rcx // EQUALITY // \n"@,
        InstrModel::Branch { target } => "cgt rcx "@ + dec(target as nat) + " // IF // \n"@,
        InstrModel::Label { index } => "label "@ + dec(index as nat) + " // IF END // \n"@,
    }
}

/// The text a whole instruction sequence renders to, in order.
pub open spec fn render_seq(s: Seq<InstrModel>) -> Seq<char>
    decreases s.len(),
{
    if s.len() == 0 {
        Seq::empty()
    } else {
        render_seq(s.drop_last()) + instr_text(s.last())
    }
}

/// Appending one instruction appends exactly its text.
pub broadcast proof fn lemma_render_push(s: Seq<InstrModel>, ins: InstrModel)
    ensures
        #[trigger] render_seq(s.push(ins)) == render_seq(s) + instr_text(ins),
{
    assert(s.push(ins).drop_last() =~= s);
    assert(s.push(ins).last() == ins);
}

/// Rendering a concatenation concatenates the renderings.
pub proof fn lemma_render_concat(a: Seq<InstrModel>, b: Seq<InstrModel>)
    ensures
        render_seq(a + b) == render_seq(a) + render_seq(b),
    decreases b.len(),
{
    if b.len() == 0 {
        assert(a + b =~= a);
        assert(render_seq(a) + Seq::<char>::empty() =~= render_seq(a));
    } else {
        lemma_render_concat(a, b.drop_last());
        assert((a + b).drop_last() =~= a + b.drop_last());
        assert((a + b).last() == b.last());
        assert(render_seq(a) + (render_seq(b.drop_last()) + instr_text(b.last())) =~= (render_seq(a)
            + render_seq(b.drop_last())) + instr_text(b.last()));
    }
}

/// The literal text of one digit.
fn digit_str(d: usize) -> (r: &'static str)
    requires
        d < 10,
    ensures
        r@ == seq![digit_char(d as nat)],
{
    proof {
        reveal_strlit("0");
        reveal_strlit("1");
        reveal_strlit("2");
        reveal_strlit("3");
        reveal_strlit("4");
        reveal_strlit("5");
        reveal_strlit("6");
        reveal_strlit("7");
        reveal_strlit("8");
        reveal_strlit("9");
    }
    let r: &'static str = if d == 0 {
        "0"
    } else if d == 1 {
        "1"
    } else if d == 2 {
        "2"
    } else if d == 3 {
        "3"
    } else if d == 4 {
        "4"
    } else if d == 5 {
        "5"
    } else if d == 6 {
        "6"
    } else if d == 7 {
        "7"
    } else if d == 8 {
        "8"
    } else {
        "9"
    };
    proof {
        assert(r@ =~= seq![digit_char(d as nat)]);
    }
    r
}

/// Renders a number in decimal.
pub fn dec_string(n: usize) -> (r: String)
    ensures
        r@ == dec(n as nat),
    decreases n,
{
    if n < 10 {
        String::from_str(digit_str(n))
    } else {
        assert(n / 10 < n && n / 10 >= 1) by (nonlinear_arith)
            requires
                n >= 10,
        ;
        let mut s = dec_string(n / 10);
        s.append(digit_str(n % 10));
        proof {
            assert(dec((n / 10) as nat) + seq![digit_char((n % 10) as nat)] =~= dec(
                (n / 10) as nat,
            ).push(digit_char((n % 10) as nat)));
        }
        s
    }
}

/// Appends the decimal rendering of `n`.
fn append_dec(out: &mut String, n: usize)
    ensures
        final(out)@ == old(out)@ + dec(n as nat),
{
    let s = dec_string(n);
    out.append(s.as_str());
}

/// Appends the slot-initialization instruction of a declaration.
pub fn emit_memset_var(out: &mut String, slot: usize, value: usize, name: &str)
    ensures
        final(out)@ == old(out)@ + instr_text((InstrModel::MemSetVar { slot, value, name: name@ })),
{
    out.append("memset ");
    append_dec(out, slot);
    out.append(" ");
    append_dec(out, value);
    out.append(" // VARIABLE : ");
    out.append(name);
    out.append(" // \n");
    proof {
        assert(out@ =~= old(out)@ + instr_text(
            (InstrModel::MemSetVar { slot, value, name: name@ }),
        ));
    }
}

/// Appends the register pull of a declaration whose source is a variable.
pub fn emit_pull_var(out: &mut String, src: usize)
    ensures
        final(out)@ == old(out)@ + instr_text((InstrModel::PullVar { src })),
{
    out.append("mov rax ");
    append_dec(out, src);
    out.append(" // MEMORY VALUE PULL // \n");
    proof {
        assert(out@ =~= old(out)@ + instr_text((InstrModel::PullVar { src })));
    }
}

/// Appends the register store into a freshly declared slot.
pub fn emit_store_var(out: &mut String, slot: usize)
    ensures
        final(out)@ == old(out)@ + instr_text((InstrModel::StoreVar { slot })),
{
    out.append("memset ");
    append_dec(out, slot);
    out.append(" rax // ASSIGN MEMORY TO VARIABLE //\n");
    proof {
        assert(out@ =~= old(out)@ + instr_text((InstrModel::StoreVar { slot })));
    }
}

/// Appends the scratch-slot initialization of one operand literal.
pub fn emit_scratch_set(out: &mut String, slot: usize, value: usize)
    ensures
        final(out)@ == old(out)@ + instr_text((InstrModel::ScratchSet { slot, value })),
{
    out.append("memset ");
    append_dec(out, slot);
    out.append(" ");
    append_dec(out, value);
    out.append(" // COMPILER INTERNAL // \n");
    proof {
        assert(out@ =~= old(out)@ + instr_text((InstrModel::ScratchSet { slot, value })));
    }
}

/// Appends the move of the left operand into its register.
pub fn emit_mov_left(out: &mut String, slot: usize)
    ensures
        final(out)@ == old(out)@ + instr_text((InstrModel::MovLeft { slot })),
{
    out.append("mov rax ");
    append_dec(out, slot);
    out.append(" // COMPILER INTERNAL //\n");
    proof {
        assert(out@ =~= old(out)@ + instr_text((InstrModel::MovLeft { slot })));
    }
}

/// Appends the move of the right operand into its register.
pub fn emit_mov_right(out: &mut String, slot: usize)
    ensures
        final(out)@ == old(out)@ + instr_text((InstrModel::MovRight { slot })),
{
    out.append("mov rbx ");
    append_dec(out, slot);
    out.append("\n");
    proof {
        assert(out@ =~= old(out)@ + instr_text((InstrModel::MovRight { slot })));
    }
}

/// Appends the equality comparison of the operand registers.
pub fn emit_compare_eq(out: &mut String)
    ensures
        final(out)@ == old(out)@ + instr_text(InstrModel::CompareEq),
{
    out.append("eq rcx rax rbx // COMPILER INTERNAL // \n");
}

/// Appends the inversion of the comparison result.
pub fn emit_invert(out: &mut String)
    ensures
        final(out)@ == old(out)@ + instr_text(InstrModel::Invert),
{
    out.append("inv rcx // EQUALITY // \n");
}

/// Appends the conditional branch to a block's end index.
pub fn emit_branch(out: &mut String, target: usize)
    ensures
        final(out)@ == old(out)@ + instr_text((InstrModel::Branch { target })),
{
    out.append("cgt rcx ");
    append_dec(out, target);
    out.append(" // IF // \n");
    proof {
        assert(out@ =~= old(out)@ + instr_text((InstrModel::Branch { target })));
    }
}

/// Appends the label that marks a block's end.
pub fn emit_label(out: &mut String, index: usize)
    ensures
        final(out)@ == old(out)@ + instr_text((InstrModel::Label { index })),
{
    out.append("label ");
    append_dec(out, index);
    out.append(" // IF END // \n");
    proof {
        assert(out@ =~= old(out)@ + instr_text((InstrModel::Label { index })));
    }
}

} // verus!
