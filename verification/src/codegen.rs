//! The code generator: walks the bracket-resolved token sequence with an
//! explicit cursor, keeps the symbol table and the slot table, and emits one
//! pseudo-assembly line after another. The first malformed construct aborts
//! the whole compilation.

use vstd::prelude::*;
use crate::errors::CompileError;
use crate::token::{Token, TokenModel, tview};
use crate::emit::{
    InstrModel, render_seq, lemma_render_push, lemma_render_concat, emit_memset_var,
    emit_pull_var, emit_store_var, emit_scratch_set, emit_mov_left, emit_mov_right,
    emit_compare_eq, emit_invert, emit_branch, emit_label,
};
use crate::slots::{spec_first_free, spec_alloc_state, allocate, free_index};
use crate::symbols::{SymbolTable, free};

verus! {

/// The state of one compilation: the live names with their slots, the slot
/// occupancy table, and the instructions emitted so far.
pub ghost struct CState {
    pub symtab: Map<Seq<char>, usize>,
    pub slots: Seq<bool>,
    pub out: Seq<InstrModel>,
}

/// The outcome of handling one statement-level construct.
pub ghost enum StepRes {
    /// The construct is malformed; compilation aborts with this error.
    Fail(CompileError),
    /// The construct was handled; the cursor moves and the state changes.
    Next(int, CState),
    /// The cursor has passed the last token; these are the instructions.
    Done(Seq<InstrModel>),
}

/// A declaration: allocate a slot, require an identifier that is not yet
/// live, require `=`, then either a literal or a live source variable.
pub open spec fn spec_let_step(ts: Seq<TokenModel>, i: int, st: CState) -> StepRes {
    let slot = spec_first_free(st.slots) as usize;
    let slots1 = spec_alloc_state(st.slots);
    if i + 1 >= ts.len() {
        StepRes::Fail(CompileError::ExpectedIdentifierAfterLet)
    } else {
        match ts[i + 1] {
            TokenModel::Identifier(name) => {
                if st.symtab.contains_key(name) {
                    StepRes::Fail(CompileError::Redefinition)
                } else if i + 2 >= ts.len() || !(ts[i + 2] is Assignment) {
                    StepRes::Fail(CompileError::ExpectedAssignment)
                } else if i + 3 >= ts.len() {
                    StepRes::Fail(CompileError::ExpectedValueAfterAssignment)
                } else {
                    match ts[i + 3] {
                        TokenModel::SizedLiteral(v) => StepRes::Next(
                            i + 4,
                            CState {
                                symtab: st.symtab.insert(name, slot),
                                slots: slots1,
                                out: st.out.push(
                                    InstrModel::MemSetVar { slot, value: v, name },
                                ),
                            },
                        ),
                        TokenModel::Identifier(src) => {
                            if !st.symtab.contains_key(src) {
                                StepRes::Fail(CompileError::UndefinedVariable)
                            } else {
                                StepRes::Next(
                                    i + 4,
                                    CState {
                                        symtab: st.symtab.insert(name, slot),
                                        slots: slots1,
                                        out: st.out.push(
                                            InstrModel::PullVar { src: st.symtab[src] },
                                        ).push(InstrModel::StoreVar { slot }),
                                    },
                                )
                            }
                        },
                        _ => StepRes::Fail(CompileError::ExpectedValueAfterAssignment),
                    }
                }
            },
            _ => StepRes::Fail(CompileError::ExpectedIdentifierAfterLet),
        }
    }
}

/// A release: require an identifier naming a live variable; its slot is
/// marked free and the name leaves the table. Nothing is emitted.
pub open spec fn spec_free_step(ts: Seq<TokenModel>, i: int, st: CState) -> StepRes {
    if i + 1 >= ts.len() {
        StepRes::Fail(CompileError::FreedNonIdentifier)
    } else {
        match ts[i + 1] {
            TokenModel::Identifier(name) => {
                if !st.symtab.contains_key(name) {
                    StepRes::Fail(CompileError::FreedUndefined)
                } else {
                    StepRes::Next(
                        i + 2,
                        CState {
                            symtab: st.symtab.remove(name),
                            slots: st.slots.update(st.symtab[name] as int, false),
                            out: st.out,
                        },
                    )
                }
            },
            TokenModel::SizedLiteral(_) => StepRes::Fail(CompileError::FreedLiteral),
            _ => StepRes::Fail(CompileError::FreedNonIdentifier),
        }
    }
}

/// The expression evaluator's contract: exactly the shape
/// `( literal == literal )`, entered with the cursor on the conditional
/// token. Both operands get a scratch slot, set and moved into their
/// registers; the comparison is emitted after the operands and inverted; the
/// scratch slots are freed at once, and the cursor lands just past the
/// closing delimiter.
pub open spec fn spec_expr(ts: Seq<TokenModel>, i: int, slots: Seq<bool>) -> Result<
    (Seq<InstrModel>, Seq<bool>, int),
    CompileError,
> {
    if i + 1 >= ts.len() || !(ts[i + 1] is ExprStart) {
        Err(CompileError::ExpectedExprStart)
    } else {
        let l = spec_first_free(slots) as usize;
        let slots_l = spec_alloc_state(slots);
        if i + 2 >= ts.len() || !(ts[i + 2] is SizedLiteral) {
            Err(CompileError::ExpectedLeftLiteral)
        } else if i + 3 >= ts.len() || !(ts[i + 3] is Equality) {
            Err(CompileError::ExpectedEquality)
        } else {
            let r = spec_first_free(slots_l) as usize;
            let slots_r = spec_alloc_state(slots_l);
            if i + 4 >= ts.len() || !(ts[i + 4] is SizedLiteral) {
                Err(CompileError::ExpectedRightLiteral)
            } else {
                Ok(
                    (
                        seq![
                            InstrModel::ScratchSet { slot: l, value: ts[i + 2]->SizedLiteral_0 },
                            InstrModel::MovLeft { slot: l },
                            InstrModel::ScratchSet { slot: r, value: ts[i + 4]->SizedLiteral_0 },
                            InstrModel::MovRight { slot: r },
                            InstrModel::CompareEq,
                            InstrModel::Invert,
                        ],
                        slots_r.update(l as int, false).update(r as int, false),
                        i + 6,
                    ),
                )
            }
        }
    }
}

/// A conditional: the expression evaluator runs first; the token at the
/// cursor must then be a block start, whose resolved end index becomes the
/// branch target.
pub open spec fn spec_cond_step(ts: Seq<TokenModel>, i: int, st: CState) -> StepRes {
    match spec_expr(ts, i, st.slots) {
        Err(e) => StepRes::Fail(e),
        Ok(tr) => {
            if tr.2 >= ts.len() || !(ts[tr.2] is BlockStart) {
                StepRes::Fail(CompileError::NoBlockAfterConditional)
            } else {
                StepRes::Next(
                    tr.2 + 1,
                    CState {
                        symtab: st.symtab,
                        slots: tr.1,
                        out: st.out + tr.0 + seq![
                            InstrModel::Branch { target: ts[tr.2]->BlockStart_0 },
                        ],
                    },
                )
            }
        },
    }
}

/// One statement-level construct: the dispatch of the code generator.
pub open spec fn spec_step(ts: Seq<TokenModel>, i: int, st: CState) -> StepRes {
    if i < 0 || i >= ts.len() {
        StepRes::Done(st.out)
    } else {
        match ts[i] {
            TokenModel::Let => spec_let_step(ts, i, st),
            TokenModel::Free => spec_free_step(ts, i, st),
            TokenModel::Conditional => spec_cond_step(ts, i, st),
            TokenModel::PreprocessorDirective(_) => StepRes::Next(i + 1, st),
            TokenModel::BlockStart(_) => StepRes::Next(i + 1, st),
            TokenModel::BlockEnd => StepRes::Next(
                i + 1,
                CState {
                    symtab: st.symtab,
                    slots: st.slots,
                    out: st.out.push(InstrModel::Label { index: i as usize }),
                },
            ),
            _ => StepRes::Fail(CompileError::UnrecognizedToken),
        }
    }
}

/// A handled construct always moves the cursor strictly forward, and never
/// past the end by more than the final advance.
pub proof fn lemma_step_advances(ts: Seq<TokenModel>, i: int, st: CState)
    ensures
        spec_step(ts, i, st) matches StepRes::Next(i2, st2) ==> i < i2 <= ts.len(),
{
}

/// The instructions of the whole token sequence from cursor `i` in state
/// `st`: step after step until the cursor passes the end or a construct
/// fails.
pub open spec fn spec_compile_from(ts: Seq<TokenModel>, i: int, st: CState) -> Result<
    Seq<InstrModel>,
    CompileError,
>
    decreases ts.len() - i,
    via spec_compile_from_dec
{
    match spec_step(ts, i, st) {
        StepRes::Fail(e) => Err(e),
        StepRes::Done(out) => Ok(out),
        StepRes::Next(i2, st2) => spec_compile_from(ts, i2, st2),
    }
}

#[via_fn]
proof fn spec_compile_from_dec(ts: Seq<TokenModel>, i: int, st: CState) {
    lemma_step_advances(ts, i, st);
}

/// The fresh state a compilation starts in.
pub open spec fn init_state() -> CState {
    CState { symtab: Map::empty(), slots: Seq::empty(), out: Seq::empty() }
}

/// The instructions of a whole bracket-resolved token sequence.
pub open spec fn spec_compile(ts: Seq<TokenModel>) -> Result<Seq<InstrModel>, CompileError> {
    spec_compile_from(ts, 0, init_state())
}

/// Every live name points below the slot table's end.
pub open spec fn state_wf(symtab: Map<Seq<char>, usize>, slots: Seq<bool>) -> bool {
    forall|k: Seq<char>| symtab.contains_key(k) ==> (symtab[k] as int) < slots.len()
}

/// Declaring a name that is already live fails with the redefinition error,
/// at any cursor position and in any state, and the whole compilation fails
/// with it.
pub proof fn lemma_redefinition_fails(ts: Seq<TokenModel>, i: int, st: CState, name: Seq<char>)
    requires
        0 <= i,
        i + 1 < ts.len(),
        ts[i] == TokenModel::Let,
        ts[i + 1] == TokenModel::Identifier(name),
        st.symtab.contains_key(name),
    ensures
        spec_step(ts, i, st) == StepRes::Fail(CompileError::Redefinition),
        spec_compile_from(ts, i, st) == Err::<Seq<InstrModel>, CompileError>(
            CompileError::Redefinition,
        ),
{
}

/// A live name stays live across every successful step except a `free` of
/// that very name: nothing but an intervening free clears the way for a
/// redeclaration.
pub proof fn lemma_step_keeps_names(ts: Seq<TokenModel>, i: int, st: CState, name: Seq<char>)
    requires
        st.symtab.contains_key(name),
        !(0 <= i && i + 1 < ts.len() && ts[i] == TokenModel::Free && ts[i + 1]
            == TokenModel::Identifier(name)),
    ensures
        spec_step(ts, i, st) matches StepRes::Next(i2, st2) ==> st2.symtab.contains_key(name),
{
}

/// Freeing a name that was never inserted fails with the corresponding
/// semantic error, and the whole compilation fails with it.
pub proof fn lemma_free_undefined_fails(ts: Seq<TokenModel>, i: int, st: CState, name: Seq<char>)
    requires
        0 <= i,
        i + 1 < ts.len(),
        ts[i] == TokenModel::Free,
        ts[i + 1] == TokenModel::Identifier(name),
        !st.symtab.contains_key(name),
    ensures
        spec_step(ts, i, st) == StepRes::Fail(CompileError::FreedUndefined),
        spec_compile_from(ts, i, st) == Err::<Seq<InstrModel>, CompileError>(
            CompileError::FreedUndefined,
        ),
{
}

/// Freeing a literal token fails with the corresponding semantic error, and
/// the whole compilation fails with it.
pub proof fn lemma_free_literal_fails(ts: Seq<TokenModel>, i: int, st: CState, v: usize)
    requires
        0 <= i,
        i + 1 < ts.len(),
        ts[i] == TokenModel::Free,
        ts[i + 1] == TokenModel::SizedLiteral(v),
    ensures
        spec_step(ts, i, st) == StepRes::Fail(CompileError::FreedLiteral),
        spec_compile_from(ts, i, st) == Err::<Seq<InstrModel>, CompileError>(
            CompileError::FreedLiteral,
        ),
{
}

/// The expression evaluator. On entry the cursor is at the conditional
/// token; on success it lands just past the closing expression delimiter and
/// the returned text holds the operand, comparison and inversion
/// instructions, with both scratch slots freed again.
pub fn compile_expression_recursive(
    malloc: &mut Vec<bool>,
    tokens: &Vec<Token>,
    index: &mut usize,
) -> (r: Result<String, CompileError>)
    requires
        tokens@.len() < usize::MAX,
        *old(index) < tokens@.len(),
    ensures
        match r {
            Ok(s) => {
                &&& spec_expr(tview(tokens@), *old(index) as int, old(malloc)@) matches Ok(tr)
                &&& s@ == render_seq(tr.0)
                &&& final(malloc)@ == tr.1
                &&& *final(index) as int == tr.2
            },
            Err(e) => spec_expr(tview(tokens@), *old(index) as int, old(malloc)@) == Err::<
                (Seq<InstrModel>, Seq<bool>, int),
                CompileError,
            >(e),
        },
{
    broadcast use lemma_render_push;

    let ghost ts = tview(tokens@);
    let ghost i0 = *old(index) as int;
    *index += 1;
    if *index >= tokens.len() {
        return Err(CompileError::ExpectedExprStart);
    }
    let _end_index = match &tokens[*index] {
        Token::ExprStart(u) => *u,
        _ => {
            return Err(CompileError::ExpectedExprStart);
        },
    };
    *index += 1;
    let lhs_tmp_ptr = allocate(malloc);
    if *index >= tokens.len() {
        return Err(CompileError::ExpectedLeftLiteral);
    }
    let lv = match &tokens[*index] {
        Token::SizedLiteral(v) => *v,
        _ => {
            return Err(CompileError::ExpectedLeftLiteral);
        },
    };
    *index += 1;
    if *index >= tokens.len() {
        return Err(CompileError::ExpectedEquality);
    }
    match &tokens[*index] {
        Token::Equality => {},
        _ => {
            return Err(CompileError::ExpectedEquality);
        },
    }
    *index += 1;
    let rhs_tmp_ptr = allocate(malloc);
    if *index >= tokens.len() {
        return Err(CompileError::ExpectedRightLiteral);
    }
    let rv = match &tokens[*index] {
        Token::SizedLiteral(v) => *v,
        _ => {
            return Err(CompileError::ExpectedRightLiteral);
        },
    };
    let mut expr_text = String::new();
    let ghost mut gout: Seq<InstrModel> = Seq::empty();
    emit_scratch_set(&mut expr_text, lhs_tmp_ptr, lv);
    proof {
        gout = gout.push(InstrModel::ScratchSet { slot: lhs_tmp_ptr, value: lv });
        assert(Seq::<InstrModel>::empty().push(
            InstrModel::ScratchSet { slot: lhs_tmp_ptr, value: lv },
        ).drop_last() =~= Seq::<InstrModel>::empty());
    }
    emit_mov_left(&mut expr_text, lhs_tmp_ptr);
    proof {
        gout = gout.push(InstrModel::MovLeft { slot: lhs_tmp_ptr });
    }
    emit_scratch_set(&mut expr_text, rhs_tmp_ptr, rv);
    proof {
        gout = gout.push(InstrModel::ScratchSet { slot: rhs_tmp_ptr, value: rv });
    }
    emit_mov_right(&mut expr_text, rhs_tmp_ptr);
    proof {
        gout = gout.push(InstrModel::MovRight { slot: rhs_tmp_ptr });
    }
    emit_compare_eq(&mut expr_text);
    proof {
        gout = gout.push(InstrModel::CompareEq);
    }
    emit_invert(&mut expr_text);
    proof {
        gout = gout.push(InstrModel::Invert);
    }
    free_index(malloc, lhs_tmp_ptr);
    free_index(malloc, rhs_tmp_ptr);
    *index += 2;
    proof {
        let tr = spec_expr(ts, i0, old(malloc)@)->Ok_0;
        assert(gout =~= tr.0);
    }
    Ok(expr_text)
}

/// The code generator: one statement-level construct per iteration, aborting
/// on the first malformed one. On success the returned text is exactly the
/// rendering of the instruction sequence the specification prescribes.
pub fn compile(tokens: Vec<Token>) -> (r: Result<String, CompileError>)
    requires
        tokens@.len() < usize::MAX,
    ensures
        match r {
            Ok(s) => {
                &&& spec_compile(tview(tokens@)) matches Ok(out)
                &&& s@ == render_seq(out)
            },
            Err(e) => spec_compile(tview(tokens@)) == Err::<Seq<InstrModel>, CompileError>(e),
        },
{
    broadcast use lemma_render_push;

    let ghost ts = tview(tokens@);
    let mut final_val = String::new();
    let mut var_mem_addr_table = SymbolTable::new();
    let mut malloc: Vec<bool> = Vec::new();
    let mut index: usize = 0;
    let mut index_labels: Vec<usize> = Vec::new();
    let ghost mut gout: Seq<InstrModel> = Seq::empty();
    while index < tokens.len()
        invariant
            ts == tview(tokens@),
            tokens@.len() < usize::MAX,
            0 <= index <= tokens@.len(),
            final_val@ == render_seq(gout),
            state_wf(var_mem_addr_table@, malloc@),
            spec_compile_from(
                ts,
                index as int,
                (CState { symtab: var_mem_addr_table@, slots: malloc@, out: gout }),
            ) == spec_compile(ts),
        decreases tokens@.len() - index,
    {
        let ghost i0 = index as int;
        let ghost pre = CState { symtab: var_mem_addr_table@, slots: malloc@, out: gout };
        match &tokens[index] {
            Token::Let => {
                let var_index = allocate(&mut malloc);
                index += 1;
                if index >= tokens.len() {
                    return Err(CompileError::ExpectedIdentifierAfterLet);
                }
                let name = match &tokens[index] {
                    Token::Identifier(x) => x.clone(),
                    _ => {
                        return Err(CompileError::ExpectedIdentifierAfterLet);
                    },
                };
                if var_mem_addr_table.contains(name.as_str()) {
                    return Err(CompileError::Redefinition);
                }
                index += 1;
                if index >= tokens.len() {
                    return Err(CompileError::ExpectedAssignment);
                }
                match &tokens[index] {
                    Token::Assignment => {},
                    _ => {
                        return Err(CompileError::ExpectedAssignment);
                    },
                }
                index += 1;
                if index >= tokens.len() {
                    return Err(CompileError::ExpectedValueAfterAssignment);
                }
                match &tokens[index] {
                    Token::SizedLiteral(v) => {
                        emit_memset_var(&mut final_val, var_index, *v, name.as_str());
                        proof {
                            lemma_render_push(
                                gout,
                                InstrModel::MemSetVar { slot: var_index, value: *v, name: name@ },
                            );
                            gout = gout.push(
                                InstrModel::MemSetVar { slot: var_index, value: *v, name: name@ },
                            );
                        }
                    },
                    Token::Identifier(x) => {
                        let src = match var_mem_addr_table.get(x.as_str()) {
                            Some(s) => s,
                            None => {
                                return Err(CompileError::UndefinedVariable);
                            },
                        };
                        emit_pull_var(&mut final_val, src);
                        emit_store_var(&mut final_val, var_index);
                        proof {
                            lemma_render_push(gout, InstrModel::PullVar { src });
                            lemma_render_push(
                                gout.push(InstrModel::PullVar { src }),
                                InstrModel::StoreVar { slot: var_index },
                            );
                            gout = gout.push(InstrModel::PullVar { src }).push(
                                InstrModel::StoreVar { slot: var_index },
                            );
                        }
                    },
                    _ => {
                        return Err(CompileError::ExpectedValueAfterAssignment);
                    },
                }
                var_mem_addr_table.insert(name, var_index);
                proof {
                    assert(spec_step(ts, i0, pre) == StepRes::Next(
                        i0 + 4,
                        (CState { symtab: var_mem_addr_table@, slots: malloc@, out: gout }),
                    ));
                }
            },
            Token::Free => {
                index += 1;
                if index >= tokens.len() {
                    return Err(CompileError::FreedNonIdentifier);
                }
                match &tokens[index] {
                    Token::Identifier(nm) => {
                        let nm2 = nm.clone();
                        match free(&mut var_mem_addr_table, &mut malloc, nm2) {
                            Ok(()) => {},
                            Err(e) => {
                                return Err(e);
                            },
                        }
                    },
                    Token::SizedLiteral(_) => {
                        return Err(CompileError::FreedLiteral);
                    },
                    _ => {
                        return Err(CompileError::FreedNonIdentifier);
                    },
                }
                proof {
                    assert(spec_step(ts, i0, pre) == StepRes::Next(
                        i0 + 2,
                        (CState { symtab: var_mem_addr_table@, slots: malloc@, out: gout }),
                    ));
                }
            },
            Token::Conditional => {
                let expr_text = match compile_expression_recursive(
                    &mut malloc,
                    &tokens,
                    &mut index,
                ) {
                    Ok(t) => t,
                    Err(e) => {
                        return Err(e);
                    },
                };
                final_val.append(expr_text.as_str());
                let ghost tr = spec_expr(ts, i0, pre.slots)->Ok_0;
                proof {
                    crate::slots::lemma_first_free_from(pre.slots, 0);
                    crate::slots::lemma_first_free_from(spec_alloc_state(pre.slots), 0);
                    lemma_render_concat(gout, tr.0);
                    gout = gout + tr.0;
                }
                if index >= tokens.len() {
                    return Err(CompileError::NoBlockAfterConditional);
                }
                let val = match &tokens[index] {
                    Token::BlockStart(u) => *u,
                    _ => {
                        return Err(CompileError::NoBlockAfterConditional);
                    },
                };
                emit_branch(&mut final_val, val);
                proof {
                    lemma_render_push(gout, InstrModel::Branch { target: val });
                    gout = gout.push(InstrModel::Branch { target: val });
                    assert(gout =~= pre.out + tr.0 + seq![InstrModel::Branch { target: val }]);
                    assert(spec_step(ts, i0, pre) == StepRes::Next(
                        index as int + 1,
                        (CState { symtab: var_mem_addr_table@, slots: malloc@, out: gout }),
                    ));
                }
            },
            Token::PreprocessorDirective(_) => {},
            Token::BlockStart(u) => {
                index_labels.push(*u);
            },
            Token::BlockEnd => {
                emit_label(&mut final_val, index);
                proof {
                    lemma_render_push(gout, InstrModel::Label { index });
                    gout = gout.push(InstrModel::Label { index });
                }
            },
            _ => {
                return Err(CompileError::UnrecognizedToken);
            },
        }
        index += 1;
    }
    Ok(final_val)
}

} // verus!
