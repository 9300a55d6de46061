//! The encoding of one instruction.
//!
//! An instruction is encoded against the formula that holds behind it: what
//! the instruction assigns becomes the premise of an implication whose
//! conclusion is that formula. Instructions are therefore taken last to
//! first.

use vstd::prelude::*;
use crate::codegen::codegen_call::{codegen_call, depth_left, encode_call};
use crate::formula::{
    bool_const, bool_names_equal, conjunction, equivalence, exclusive_or, ge, gt, implication,
    int_const, int_eq, int_lit, int_names_equal, le, lt, mk_and, mk_bool_names_equal, mk_ge, mk_gt,
    mk_iff, mk_implies, mk_int_eq, mk_int_lit, mk_int_names_equal, mk_le, mk_lt, mk_not,
    mk_remainder, mk_xor, named_bool, named_int, negation, remainder, Prop, Term,
};
use crate::ir::{Instruction, IntPredicate, Module, Opcode};
use crate::query::{Query, QueryState, Warning};
use crate::text::{concat_str, last_word, last_word_of, views};
use crate::utils::var_utils::{get_var_name, resolved, var_name};

verus! {

/// An instruction that is passed over: a warning, and the formula behind it unchanged.
pub open spec fn skipped(st: QueryState, w: Warning, post: Prop) -> (QueryState, Prop) {
    (st.warning(w), post)
}

/// The comparison of `a` and `b` that `predicate` asks for. Signed and
/// unsigned comparisons are one: the integers are unbounded.
pub open spec fn comparison(predicate: IntPredicate, a: Seq<char>, b: Seq<char>) -> Prop {
    match predicate {
        IntPredicate::EQ => int_eq(int_const(a), int_const(b)),
        IntPredicate::NE => negation(int_eq(int_const(a), int_const(b))),
        IntPredicate::SGE | IntPredicate::UGE => ge(int_const(a), int_const(b)),
        IntPredicate::SGT | IntPredicate::UGT => gt(int_const(a), int_const(b)),
        IntPredicate::SLE | IntPredicate::ULE => le(int_const(a), int_const(b)),
        IntPredicate::SLT | IntPredicate::ULT => lt(int_const(a), int_const(b)),
    }
}

/// A return: the return register takes the returned value; a void return adds nothing.
pub open spec fn encode_return(
    st: QueryState,
    post: Prop,
    i: Instruction,
    ns: Seq<char>,
    return_register: Seq<char>,
) -> (QueryState, Prop) {
    if i.operands.len() == 0 {
        (st, post)
    } else if i.operands.len() == 1 && i.has_value(0) {
        let v = i.value(0);
        let st1 = resolved(st, v.text@);
        if v.ty.is_bool() {
            (st1, implication(bool_names_equal(return_register, var_name(v.text@, ns)), post))
        } else if v.ty.is_int() {
            (st1, implication(int_names_equal(return_register, var_name(v.text@, ns)), post))
        } else {
            skipped(st1, Warning::UnsupportedType, post)
        }
    } else {
        skipped(st, Warning::MalformedInstruction, post)
    }
}

/// A load of an integer: the loaded register equals the slot. A load of
/// any other type is passed over with a warning.
pub open spec fn encode_load(st: QueryState, post: Prop, i: Instruction, ns: Seq<char>) -> (
    QueryState,
    Prop,
) {
    if !i.has_value(0) {
        skipped(st, Warning::MalformedInstruction, post)
    } else if i.ty.is_int() {
        let st1 = resolved(resolved(st, i.text@), i.value(0).text@);
        (
            st1,
            implication(
                int_names_equal(var_name(i.text@, ns), var_name(i.value(0).text@, ns)),
                post,
            ),
        )
    } else {
        skipped(st, Warning::UnsupportedType, post)
    }
}

/// A store of an integer: the stored value equals the slot. A store of a
/// value of any other type is passed over with a warning.
pub open spec fn encode_store(st: QueryState, post: Prop, i: Instruction, ns: Seq<char>) -> (
    QueryState,
    Prop,
) {
    if !(i.has_value(0) && i.has_value(1)) {
        skipped(st, Warning::MalformedInstruction, post)
    } else if i.value(0).ty.is_int() {
        let st1 = resolved(resolved(st, i.value(0).text@), i.value(1).text@);
        (
            st1,
            implication(
                int_names_equal(var_name(i.value(0).text@, ns), var_name(i.value(1).text@, ns)),
                post,
            ),
        )
    } else {
        skipped(st, Warning::UnsupportedType, post)
    }
}

/// An exclusive or of two booleans. One of any other type is passed over
/// with a warning.
pub open spec fn encode_xor(st: QueryState, post: Prop, i: Instruction, ns: Seq<char>) -> (
    QueryState,
    Prop,
) {
    if !(i.has_value(0) && i.has_value(1)) {
        skipped(st, Warning::MalformedInstruction, post)
    } else if i.ty.is_bool() {
        let st0 = resolved(resolved(st, i.value(0).text@), i.value(1).text@);
        let st1 = resolved(st0, i.text@);
        (
            st1,
            implication(
                equivalence(
                    bool_const(var_name(i.text@, ns)),
                    exclusive_or(
                        bool_const(var_name(i.value(0).text@, ns)),
                        bool_const(var_name(i.value(1).text@, ns)),
                    ),
                ),
                post,
            ),
        )
    } else {
        skipped(st, Warning::UnsupportedType, post)
    }
}

/// An integer comparison: the target boolean equals the comparison. One
/// of operands that are no integers, or whose result is no boolean, is
/// passed over with a warning.
pub open spec fn encode_icmp(st: QueryState, post: Prop, i: Instruction, ns: Seq<char>) -> (
    QueryState,
    Prop,
) {
    if !(i.has_value(0) && i.has_value(1) && i.predicate is Some) {
        skipped(st, Warning::MalformedInstruction, post)
    } else if !i.ty.is_bool() || !i.value(0).ty.is_int() || !i.value(1).ty.is_int() {
        skipped(st, Warning::UnsupportedType, post)
    } else {
        let st1 = resolved(resolved(resolved(st, i.text@), i.value(0).text@), i.value(1).text@);
        (
            st1,
            implication(
                equivalence(
                    bool_const(var_name(i.text@, ns)),
                    comparison(
                        i.predicate->Some_0,
                        var_name(i.value(0).text@, ns),
                        var_name(i.value(1).text@, ns),
                    ),
                ),
                post,
            ),
        )
    }
}

/// The name of a field of an aggregate: the name of the aggregate, a dot, and the field's number.
pub open spec fn field_name(aggregate: Seq<char>, field: Seq<char>) -> Seq<char> {
    aggregate + "."@ + field
}

/// The number of the field that an `extractvalue` printed as `text` takes: its last word.
pub open spec fn field_to_extract(text: Seq<char>) -> Seq<char> {
    last_word(text)
}

/// An `extractvalue`: the target equals the field of the aggregate.
pub open spec fn encode_extract_value(
    st: QueryState,
    post: Prop,
    i: Instruction,
    ns: Seq<char>,
) -> (QueryState, Prop) {
    if i.has_value(0) {
        let st1 = resolved(resolved(st, i.text@), i.value(0).text@);
        let field = field_name(var_name(i.value(0).text@, ns), field_to_extract(i.text@));
        if i.ty.is_bool() {
            (st1, implication(bool_names_equal(var_name(i.text@, ns), field), post))
        } else if i.ty.is_int() {
            (st1, implication(int_names_equal(var_name(i.text@, ns), field), post))
        } else {
            skipped(st1, Warning::UnsupportedType, post)
        }
    } else {
        skipped(st, Warning::MalformedInstruction, post)
    }
}

/// A truncation to one bit: the target boolean says whether the operand is odd.
pub open spec fn encode_trunc(st: QueryState, post: Prop, i: Instruction, ns: Seq<char>) -> (
    QueryState,
    Prop,
) {
    if !i.has_value(0) {
        skipped(st, Warning::MalformedInstruction, post)
    } else if !i.ty.is_bool() || !i.value(0).ty.is_int() {
        skipped(st, Warning::UnsupportedType, post)
    } else {
        let st1 = resolved(resolved(st, i.text@), i.value(0).text@);
        (
            st1,
            implication(
                equivalence(
                    bool_const(var_name(i.text@, ns)),
                    int_eq(
                        remainder(int_const(var_name(i.value(0).text@, ns)), int_lit(2)),
                        int_lit(1),
                    ),
                ),
                post,
            ),
        )
    }
}

/// A select: the target equals the second operand where the first holds,
/// and the third where it does not. One whose condition is no boolean, or
/// whose type is no integer, is passed over with a warning.
pub open spec fn encode_select(st: QueryState, post: Prop, i: Instruction, ns: Seq<char>) -> (
    QueryState,
    Prop,
) {
    if !(i.has_value(0) && i.has_value(1) && i.has_value(2)) {
        skipped(st, Warning::MalformedInstruction, post)
    } else if !i.value(0).ty.is_bool() || !i.ty.is_int() {
        skipped(st, Warning::UnsupportedType, post)
    } else {
        let st1 = resolved(
            resolved(resolved(st, i.value(0).text@), i.value(1).text@),
            i.value(2).text@,
        );
        let condition = bool_const(var_name(i.value(0).text@, ns));
        let target = var_name(i.text@, ns);
        let first = var_name(i.value(1).text@, ns);
        let second = var_name(i.value(2).text@, ns);
        if i.ty.is_bool() {
            (
                resolved(st1, i.text@),
                implication(
                    conjunction(
                        implication(condition, bool_names_equal(target, first)),
                        implication(negation(condition), bool_names_equal(target, second)),
                    ),
                    post,
                ),
            )
        } else {
            (
                resolved(st1, i.text@),
                implication(
                    conjunction(
                        implication(condition, int_names_equal(target, first)),
                        implication(negation(condition), int_names_equal(target, second)),
                    ),
                    post,
                ),
            )
        }
    }
}

/// A zero extension: of a boolean, the target is 1 where it holds and 0
/// where it does not; of an integer, the target equals it. One from or to
/// another type is passed over with a warning.
pub open spec fn encode_zext(st: QueryState, post: Prop, i: Instruction, ns: Seq<char>) -> (
    QueryState,
    Prop,
) {
    if !i.has_value(0) {
        skipped(st, Warning::MalformedInstruction, post)
    } else if !i.value(0).ty.is_int() || !i.ty.is_int() {
        skipped(st, Warning::UnsupportedType, post)
    } else {
        let operand = var_name(i.value(0).text@, ns);
        let target = var_name(i.text@, ns);
        if i.value(0).ty.is_bool() {
            (
                resolved(resolved(st, i.text@), i.value(0).text@),
                implication(
                    conjunction(
                        implication(bool_const(operand), int_eq(int_const(target), int_lit(1))),
                        implication(negation(bool_const(operand)), int_eq(int_const(target), int_lit(0))),
                    ),
                    post,
                ),
            )
        } else {
            (
                resolved(resolved(st, i.text@), i.value(0).text@),
                implication(int_names_equal(target, operand), post),
            )
        }
    }
}

/// The encoding of an instruction that is no call: the query after it, and
/// the formula that holds before it, given the formula `post` that holds
/// behind it. Terminators other than a return, and `alloca`, add nothing; a
/// phi and an opcode without encoding leave a warning.
pub open spec fn encode_plain(
    st: QueryState,
    post: Prop,
    i: Instruction,
    ns: Seq<char>,
    return_register: Seq<char>,
) -> (QueryState, Prop) {
    match i.opcode {
        Opcode::Unreachable | Opcode::Switch | Opcode::Br | Opcode::Alloca => (st, post),
        Opcode::Return => encode_return(st, post, i, ns, return_register),
        Opcode::Load => encode_load(st, post, i, ns),
        Opcode::Store => encode_store(st, post, i, ns),
        Opcode::Xor => encode_xor(st, post, i, ns),
        Opcode::ICmp => encode_icmp(st, post, i, ns),
        Opcode::ExtractValue => encode_extract_value(st, post, i, ns),
        Opcode::Trunc => encode_trunc(st, post, i, ns),
        Opcode::Select => encode_select(st, post, i, ns),
        Opcode::ZExt => encode_zext(st, post, i, ns),
        Opcode::Phi => skipped(st, Warning::UnexpectedPhi, post),
        _ => skipped(st, Warning::UnsupportedOpcode, post),
    }
}

/// Builds the comparison of the integers named `a` and `b` that `predicate` asks for.
pub fn make_comparison(predicate: IntPredicate, a: &str, b: &str) -> (r: Term)
    ensures
        r@ == comparison(predicate, a@, b@),
{
    match predicate {
        IntPredicate::EQ => mk_int_eq(named_int(a), named_int(b)),
        IntPredicate::NE => mk_not(mk_int_eq(named_int(a), named_int(b))),
        IntPredicate::SGE | IntPredicate::UGE => mk_ge(named_int(a), named_int(b)),
        IntPredicate::SGT | IntPredicate::UGT => mk_gt(named_int(a), named_int(b)),
        IntPredicate::SLE | IntPredicate::ULE => mk_le(named_int(a), named_int(b)),
        IntPredicate::SLT | IntPredicate::ULT => mk_lt(named_int(a), named_int(b)),
    }
}

/// Gives the number of the field that the `extractvalue` printed as `text` takes.
pub fn get_field_to_extract(text: &str) -> (field: String)
    ensures
        field@ == field_to_extract(text@),
{
    last_word_of(text)
}

/// Encodes a return.
pub fn codegen_return(
    node_var: Term,
    instruction: &Instruction,
    solver: &mut Query,
    namespace: &str,
    return_register: &str,
) -> (r: Term)
    ensures
        (final(solver)@, r@) == encode_return(
            old(solver)@,
            node_var@,
            *instruction,
            namespace@,
            return_register@,
        ),
{
    if instruction.operands.len() == 0 {
        return node_var;
    }
    if instruction.operands.len() == 1 {
        if let Some(v) = instruction.value_operand(0) {
            let name = get_var_name(v.text.as_str(), solver, namespace);
            if v.ty.bool_type() {
                return mk_implies(mk_bool_names_equal(return_register, name.as_str()), node_var);
            } else if v.ty.int_type() {
                return mk_implies(mk_int_names_equal(return_register, name.as_str()), node_var);
            } else {
                solver.warn(Warning::UnsupportedType);
                return node_var;
            }
        }
    }
    solver.warn(Warning::MalformedInstruction);
    node_var
}

/// Encodes a load.
pub fn codegen_load(
    node_var: Term,
    instruction: &Instruction,
    solver: &mut Query,
    namespace: &str,
) -> (r: Term)
    ensures
        (final(solver)@, r@) == encode_load(old(solver)@, node_var@, *instruction, namespace@),
{
    match instruction.value_operand(0) {
        Some(operand) => {
            if !instruction.ty.int_type() {
                solver.warn(Warning::UnsupportedType);
                return node_var;
            }
            let target = get_var_name(instruction.text.as_str(), solver, namespace);
            let slot = get_var_name(operand.text.as_str(), solver, namespace);
            mk_implies(mk_int_names_equal(target.as_str(), slot.as_str()), node_var)
        },
        None => {
            solver.warn(Warning::MalformedInstruction);
            node_var
        },
    }
}

/// Encodes a store.
pub fn codegen_store(
    node_var: Term,
    instruction: &Instruction,
    solver: &mut Query,
    namespace: &str,
) -> (r: Term)
    ensures
        (final(solver)@, r@) == encode_store(old(solver)@, node_var@, *instruction, namespace@),
{
    match (instruction.value_operand(0), instruction.value_operand(1)) {
        (Some(value), Some(slot)) => {
            if !value.ty.int_type() {
                solver.warn(Warning::UnsupportedType);
                return node_var;
            }
            let value_name = get_var_name(value.text.as_str(), solver, namespace);
            let slot_name = get_var_name(slot.text.as_str(), solver, namespace);
            mk_implies(mk_int_names_equal(value_name.as_str(), slot_name.as_str()), node_var)
        },
        _ => {
            solver.warn(Warning::MalformedInstruction);
            node_var
        },
    }
}

/// Encodes an exclusive or.
pub fn codegen_xor(
    node_var: Term,
    instruction: &Instruction,
    solver: &mut Query,
    namespace: &str,
) -> (r: Term)
    ensures
        (final(solver)@, r@) == encode_xor(old(solver)@, node_var@, *instruction, namespace@),
{
    match (instruction.value_operand(0), instruction.value_operand(1)) {
        (Some(a), Some(b)) => {
            if !instruction.ty.bool_type() {
                solver.warn(Warning::UnsupportedType);
                return node_var;
            }
            let first = get_var_name(a.text.as_str(), solver, namespace);
            let second = get_var_name(b.text.as_str(), solver, namespace);
            let target = get_var_name(instruction.text.as_str(), solver, namespace);
            let value = mk_xor(named_bool(first.as_str()), named_bool(second.as_str()));
            mk_implies(mk_iff(named_bool(target.as_str()), value), node_var)
        },
        _ => {
            solver.warn(Warning::MalformedInstruction);
            node_var
        },
    }
}

/// Encodes an integer comparison.
pub fn codegen_icmp(
    node_var: Term,
    instruction: &Instruction,
    solver: &mut Query,
    namespace: &str,
) -> (r: Term)
    ensures
        (final(solver)@, r@) == encode_icmp(old(solver)@, node_var@, *instruction, namespace@),
{
    match (instruction.value_operand(0), instruction.value_operand(1), instruction.predicate) {
        (Some(a), Some(b), Some(predicate)) => {
            if !instruction.ty.bool_type() || !a.ty.int_type() || !b.ty.int_type() {
                solver.warn(Warning::UnsupportedType);
                return node_var;
            }
            let target = get_var_name(instruction.text.as_str(), solver, namespace);
            let first = get_var_name(a.text.as_str(), solver, namespace);
            let second = get_var_name(b.text.as_str(), solver, namespace);
            let value = make_comparison(predicate, first.as_str(), second.as_str());
            mk_implies(mk_iff(named_bool(target.as_str()), value), node_var)
        },
        _ => {
            solver.warn(Warning::MalformedInstruction);
            node_var
        },
    }
}

/// Encodes an `extractvalue`.
pub fn codegen_extract_value(
    node_var: Term,
    instruction: &Instruction,
    solver: &mut Query,
    namespace: &str,
) -> (r: Term)
    ensures
        (final(solver)@, r@) == encode_extract_value(
            old(solver)@,
            node_var@,
            *instruction,
            namespace@,
        ),
{
    match instruction.value_operand(0) {
        Some(aggregate) => {
            let target = get_var_name(instruction.text.as_str(), solver, namespace);
            let aggregate_name = get_var_name(aggregate.text.as_str(), solver, namespace);
            let number = get_field_to_extract(instruction.text.as_str());
            let dotted = concat_str(aggregate_name.as_str(), ".");
            let field = concat_str(dotted.as_str(), number.as_str());
            if instruction.ty.bool_type() {
                mk_implies(mk_bool_names_equal(target.as_str(), field.as_str()), node_var)
            } else if instruction.ty.int_type() {
                mk_implies(mk_int_names_equal(target.as_str(), field.as_str()), node_var)
            } else {
                solver.warn(Warning::UnsupportedType);
                node_var
            }
        },
        None => {
            solver.warn(Warning::MalformedInstruction);
            node_var
        },
    }
}

/// Encodes a truncation.
pub fn codegen_trunc(
    node_var: Term,
    instruction: &Instruction,
    solver: &mut Query,
    namespace: &str,
) -> (r: Term)
    ensures
        (final(solver)@, r@) == encode_trunc(old(solver)@, node_var@, *instruction, namespace@),
{
    match instruction.value_operand(0) {
        Some(operand) => {
            if !instruction.ty.bool_type() || !operand.ty.int_type() {
                solver.warn(Warning::UnsupportedType);
                return node_var;
            }
            let target = get_var_name(instruction.text.as_str(), solver, namespace);
            let operand_name = get_var_name(operand.text.as_str(), solver, namespace);
            let low_bit = mk_remainder(named_int(operand_name.as_str()), mk_int_lit(2));
            mk_implies(
                mk_iff(named_bool(target.as_str()), mk_int_eq(low_bit, mk_int_lit(1))),
                node_var,
            )
        },
        None => {
            solver.warn(Warning::MalformedInstruction);
            node_var
        },
    }
}

/// Encodes a select.
pub fn codegen_select(
    node_var: Term,
    instruction: &Instruction,
    solver: &mut Query,
    namespace: &str,
) -> (r: Term)
    ensures
        (final(solver)@, r@) == encode_select(old(solver)@, node_var@, *instruction, namespace@),
{
    match (
        instruction.value_operand(0),
        instruction.value_operand(1),
        instruction.value_operand(2),
    ) {
        (Some(c), Some(a), Some(b)) => {
            if !c.ty.bool_type() || !instruction.ty.int_type() {
                solver.warn(Warning::UnsupportedType);
                return node_var;
            }
            let condition = get_var_name(c.text.as_str(), solver, namespace);
            let first = get_var_name(a.text.as_str(), solver, namespace);
            let second = get_var_name(b.text.as_str(), solver, namespace);
            if instruction.ty.bool_type() {
                let target = get_var_name(instruction.text.as_str(), solver, namespace);
                let taken = mk_implies(
                    named_bool(condition.as_str()),
                    mk_bool_names_equal(target.as_str(), first.as_str()),
                );
                let not_taken = mk_implies(
                    mk_not(named_bool(condition.as_str())),
                    mk_bool_names_equal(target.as_str(), second.as_str()),
                );
                mk_implies(mk_and(taken, not_taken), node_var)
            } else {
                let target = get_var_name(instruction.text.as_str(), solver, namespace);
                let taken = mk_implies(
                    named_bool(condition.as_str()),
                    mk_int_names_equal(target.as_str(), first.as_str()),
                );
                let not_taken = mk_implies(
                    mk_not(named_bool(condition.as_str())),
                    mk_int_names_equal(target.as_str(), second.as_str()),
                );
                mk_implies(mk_and(taken, not_taken), node_var)
            }
        },
        _ => {
            solver.warn(Warning::MalformedInstruction);
            node_var
        },
    }
}

/// Encodes a zero extension.
pub fn codegen_zext(
    node_var: Term,
    instruction: &Instruction,
    solver: &mut Query,
    namespace: &str,
) -> (r: Term)
    ensures
        (final(solver)@, r@) == encode_zext(old(solver)@, node_var@, *instruction, namespace@),
{
    match instruction.value_operand(0) {
        Some(operand) => {
            if !operand.ty.int_type() || !instruction.ty.int_type() {
                solver.warn(Warning::UnsupportedType);
                return node_var;
            }
            if operand.ty.bool_type() {
                let target = get_var_name(instruction.text.as_str(), solver, namespace);
                let source = get_var_name(operand.text.as_str(), solver, namespace);
                let set = mk_implies(
                    named_bool(source.as_str()),
                    mk_int_eq(named_int(target.as_str()), mk_int_lit(1)),
                );
                let clear = mk_implies(
                    mk_not(named_bool(source.as_str())),
                    mk_int_eq(named_int(target.as_str()), mk_int_lit(0)),
                );
                mk_implies(mk_and(set, clear), node_var)
            } else {
                let target = get_var_name(instruction.text.as_str(), solver, namespace);
                let source = get_var_name(operand.text.as_str(), solver, namespace);
                mk_implies(mk_int_names_equal(target.as_str(), source.as_str()), node_var)
            }
        },
        None => {
            solver.warn(Warning::MalformedInstruction);
            node_var
        },
    }
}

/// Encodes an instruction that is no call.
pub fn codegen_plain_instruction(
    node_var: Term,
    instruction: &Instruction,
    solver: &mut Query,
    namespace: &str,
    return_register: &str,
) -> (r: Term)
    ensures
        (final(solver)@, r@) == encode_plain(
            old(solver)@,
            node_var@,
            *instruction,
            namespace@,
            return_register@,
        ),
{
    match instruction.opcode {
        Opcode::Unreachable | Opcode::Switch | Opcode::Br | Opcode::Alloca => node_var,
        Opcode::Return => codegen_return(node_var, instruction, solver, namespace, return_register),
        Opcode::Load => codegen_load(node_var, instruction, solver, namespace),
        Opcode::Store => codegen_store(node_var, instruction, solver, namespace),
        Opcode::Xor => codegen_xor(node_var, instruction, solver, namespace),
        Opcode::ICmp => codegen_icmp(node_var, instruction, solver, namespace),
        Opcode::ExtractValue => codegen_extract_value(node_var, instruction, solver, namespace),
        Opcode::Trunc => codegen_trunc(node_var, instruction, solver, namespace),
        Opcode::Select => codegen_select(node_var, instruction, solver, namespace),
        Opcode::ZExt => codegen_zext(node_var, instruction, solver, namespace),
        Opcode::Phi => {
            solver.warn(Warning::UnexpectedPhi);
            node_var
        },
        _ => {
            solver.warn(Warning::UnsupportedOpcode);
            node_var
        },
    }
}

/// The encoding of an instruction: the query after it, and the formula
/// that holds before it, given the formula `post` that holds behind it.
pub open spec fn encode_instruction(
    m: Module,
    st: QueryState,
    post: Prop,
    i: Instruction,
    ns: Seq<char>,
    stack: Seq<Seq<char>>,
    return_register: Seq<char>,
) -> (QueryState, Prop)
    decreases depth_left(m, stack), 2nat, 0nat,
{
    if i.opcode == Opcode::Call {
        encode_call(m, st, post, i, ns, stack)
    } else {
        encode_plain(st, post, i, ns, return_register)
    }
}

/// Encodes one instruction: wraps what it assigns, as a premise, round the
/// formula `node_var` that holds behind it.
pub fn codegen_instruction(
    module: &Module,
    node_var: Term,
    instruction: &Instruction,
    solver: &mut Query,
    namespace: &str,
    call_stack: &Vec<String>,
    return_register: &str,
) -> (r: Term)
    ensures
        (final(solver)@, r@) == encode_instruction(
            *module,
            old(solver)@,
            node_var@,
            *instruction,
            namespace@,
            views(call_stack@),
            return_register@,
        ),
    decreases depth_left(*module, views(call_stack@)), 2nat, 0nat,
{
    match instruction.opcode {
        Opcode::Call => codegen_call(
            module,
            node_var,
            instruction,
            solver,
            namespace,
            call_stack,
        ),
        _ => codegen_plain_instruction(node_var, instruction, solver, namespace, return_register),
    }
}

/// Whether the warning `w` says that an instruction was passed over: its
/// opcode or a type in it is not supported, or it is not of the form that
/// its opcode asks for.
pub open spec fn passes_over(w: Warning) -> bool {
    w == Warning::UnsupportedOpcode || w == Warning::UnsupportedType || w
        == Warning::MalformedInstruction || w == Warning::UnexpectedPhi
}

/// Whether `after` has the warnings of `before` and, behind them, none
/// but warnings of literals without a value.
pub open spec fn warns_of_literals_only(before: QueryState, after: QueryState) -> bool {
    &&& before.warnings.is_prefix_of(after.warnings)
    &&& forall|k: int|
        before.warnings.len() <= k < after.warnings.len() ==> #[trigger] after.warnings[k]
            == Warning::UnsupportedLiteral
}

proof fn lemma_resolved_warns_of_literals_only(before: QueryState, st: QueryState, text: Seq<char>)
    requires
        warns_of_literals_only(before, st),
    ensures
        warns_of_literals_only(before, resolved(st, text)),
{
    let after = resolved(st, text);
    assert forall|k: int| before.warnings.len() <= k < after.warnings.len() implies
        #[trigger] after.warnings[k] == Warning::UnsupportedLiteral by {
        if k < st.warnings.len() {
            assert(after.warnings[k] == st.warnings[k]);
        }
    }
}

/// An instruction that is passed over leaves the formula behind it as it
/// is: wherever the encoding of an instruction that is no call warns of an
/// opcode, a type or a form that it cannot take, the formula before the
/// instruction is the formula behind it. A branch, a switch, an
/// `unreachable`, an `alloca` and a return without a value leave the query
/// unchanged as well.
pub proof fn lemma_passed_over_is_unchanged(
    st: QueryState,
    post: Prop,
    i: Instruction,
    ns: Seq<char>,
    return_register: Seq<char>,
)
    ensures
        (exists|k: int|
            st.warnings.len() <= k < encode_plain(st, post, i, ns, return_register).0.warnings.len()
                && passes_over(
                #[trigger] encode_plain(st, post, i, ns, return_register).0.warnings[k],
            )) ==> encode_plain(st, post, i, ns, return_register).1 == post,
        i.opcode == Opcode::Br || i.opcode == Opcode::Switch || i.opcode == Opcode::Unreachable
            || i.opcode == Opcode::Alloca || (i.opcode == Opcode::Return && i.operands.len() == 0)
            ==> encode_plain(st, post, i, ns, return_register) == (st, post),
{
    let r = encode_plain(st, post, i, ns, return_register);
    if r.1 != post {
        assert(warns_of_literals_only(st, st));
        assert(warns_of_literals_only(st, r.0)) by {
            lemma_literals_only_everywhere();
        }
    }
}

proof fn lemma_literals_only_everywhere()
    ensures
        forall|before: QueryState, st: QueryState, text: Seq<char>|
            #![trigger warns_of_literals_only(before, st), resolved(st, text)]
            warns_of_literals_only(before, st) ==> warns_of_literals_only(
                before,
                resolved(st, text),
            ),
{
    assert forall|before: QueryState, st: QueryState, text: Seq<char>|
        #![trigger warns_of_literals_only(before, st), resolved(st, text)]
        warns_of_literals_only(before, st) implies warns_of_literals_only(
        before,
        resolved(st, text),
    ) by {
        lemma_resolved_warns_of_literals_only(before, st, text);
    }
}

/// Whether an instruction with the opcode `opcode` has a result whose
/// type the encoding reads.
pub open spec fn has_typed_result(opcode: Opcode) -> bool {
    opcode == Opcode::Load || opcode == Opcode::Xor || opcode == Opcode::ICmp || opcode
        == Opcode::ExtractValue || opcode == Opcode::Trunc || opcode == Opcode::Select || opcode
        == Opcode::ZExt
}

/// An instruction whose result is of a type that the encoding does not
/// take is passed over: the formula before it is the formula behind it, and
/// the last warning says that it was passed over.
pub proof fn lemma_unsupported_result_is_passed_over(
    st: QueryState,
    post: Prop,
    i: Instruction,
    ns: Seq<char>,
    return_register: Seq<char>,
)
    requires
        has_typed_result(i.opcode),
        !i.ty.is_int(),
    ensures
        encode_plain(st, post, i, ns, return_register).1 == post,
        encode_plain(st, post, i, ns, return_register).0.warnings.len() > st.warnings.len(),
        passes_over(encode_plain(st, post, i, ns, return_register).0.warnings.last()),
{
    if i.opcode == Opcode::ExtractValue && i.has_value(0) {
        let st1 = resolved(st, i.text@);
        let st2 = resolved(st1, i.value(0).text@);
        assert(warns_of_literals_only(st, st));
        lemma_resolved_warns_of_literals_only(st, st, i.text@);
        lemma_resolved_warns_of_literals_only(st, st1, i.value(0).text@);
    }
}

} // verus!
