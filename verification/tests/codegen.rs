use wombat_symx::backward_symbolic_execution::backward_symbolic_execution;
use wombat_symx::codegen::codegen_basic_block::{
    codegen_basic_block, get_basic_block_by_name, get_entry_condition, is_panic_block,
};
use wombat_symx::codegen::codegen_call::{classify_call, codegen_call, CallKind};
use wombat_symx::codegen::codegen_function::codegen_function;
use wombat_symx::codegen::codegen_instruction::{codegen_instruction, get_field_to_extract};
use wombat_symx::codegen::function_codegen;
use wombat_symx::control_flow_graph::{get_backward_edges, get_forward_edges};
use wombat_symx::formula::{clone_formula, Formula, IntExpr, Term};
use wombat_symx::ir::{
    BasicBlock, Function, Instruction, IntPredicate, IrType, Module, Opcode, Operand, Value,
};
use wombat_symx::query::{Query, Warning};

const BOOL: IrType = IrType::Int(1);
const I32: IrType = IrType::Int(32);

fn b(name: &str) -> Term {
    Formula::Const(name.to_string())
}

fn i(name: &str) -> IntExpr<String> {
    IntExpr::Const(name.to_string())
}

fn n(v: i64) -> IntExpr<String> {
    IntExpr::Lit(v)
}

fn t() -> Term {
    Formula::Lit(true)
}

fn implies(a: Term, c: Term) -> Term {
    Formula::Implies(Box::new(a), Box::new(c))
}

fn and(a: Term, c: Term) -> Term {
    Formula::And(Box::new(a), Box::new(c))
}

fn or(a: Term, c: Term) -> Term {
    Formula::Or(Box::new(a), Box::new(c))
}

fn not(a: Term) -> Term {
    Formula::Not(Box::new(a))
}

fn iff(a: Term, c: Term) -> Term {
    Formula::Iff(Box::new(a), Box::new(c))
}

fn eq(a: IntExpr<String>, c: IntExpr<String>) -> Term {
    Formula::IntEq(Box::new(a), Box::new(c))
}

fn post() -> Term {
    b("post")
}

fn reg(name: &str, ty: IrType) -> Operand {
    Operand::Value(Value { text: format!("ty %{}", name), name: name.to_string(), ty })
}

fn lit(text: &str, ty: IrType) -> Operand {
    Operand::Value(Value { text: format!("ty {}", text), name: String::new(), ty })
}

fn callee(symbol: &str) -> Operand {
    Operand::Value(Value {
        text: format!("ptr @{}", symbol),
        name: symbol.to_string(),
        ty: IrType::Pointer,
    })
}

fn to(name: &str) -> Operand {
    Operand::Block(name.to_string())
}

fn instruction(opcode: Opcode, text: &str, ty: IrType, operands: Vec<Operand>) -> Instruction {
    Instruction {
        opcode,
        text: text.to_string(),
        ty,
        operands,
        predicate: None,
        incoming: Vec::new(),
    }
}

fn empty_module() -> Module {
    Module { name: "dir/unit.bc".to_string(), functions: Vec::new() }
}

fn encode(instruction: &Instruction) -> (Term, Query) {
    let mut solver = Query::new();
    let stack = vec!["caller".to_string()];
    let r = codegen_instruction(
        &empty_module(),
        post(),
        instruction,
        &mut solver,
        "n.",
        &stack,
        "result",
    );
    (r, solver)
}

fn encoded(instruction: &Instruction) -> Term {
    let (r, solver) = encode(instruction);
    assert!(solver.warnings.is_empty(), "{:?}", solver.warnings);
    r
}

fn skipped(instruction: &Instruction) -> Vec<Warning> {
    let (r, solver) = encode(instruction);
    assert_eq!(r, post());
    assert!(solver.assertions.is_empty());
    solver.warnings
}

#[test]
fn terminators_and_alloca_add_nothing() {
    for opcode in [Opcode::Unreachable, Opcode::Switch, Opcode::Br, Opcode::Alloca] {
        let (r, solver) = encode(&instruction(opcode, "  x", I32, vec![reg("c", BOOL)]));
        assert_eq!(r, post());
        assert!(solver.assertions.is_empty());
        assert!(solver.warnings.is_empty());
    }
}

#[test]
fn return_binds_the_return_register() {
    let int = instruction(Opcode::Return, "  ret", IrType::Other, vec![reg("v", I32)]);
    assert_eq!(encoded(&int), implies(eq(i("result"), i("n.%v")), post()));
    let boolean = instruction(Opcode::Return, "  ret", IrType::Other, vec![reg("v", BOOL)]);
    assert_eq!(encoded(&boolean), implies(iff(b("result"), b("n.%v")), post()));
    let void = instruction(Opcode::Return, "  ret void", IrType::Other, vec![]);
    assert_eq!(encoded(&void), post());
    let float = instruction(Opcode::Return, "  ret", IrType::Other, vec![reg("v", IrType::Other)]);
    assert_eq!(skipped(&float), vec![Warning::UnsupportedType]);
    let two = instruction(Opcode::Return, "  ret", I32, vec![reg("v", I32), reg("w", I32)]);
    assert_eq!(skipped(&two), vec![Warning::MalformedInstruction]);
}

#[test]
fn load_and_store_alias_the_slot() {
    let load = instruction(Opcode::Load, "  %v = load", I32, vec![reg("p", IrType::Pointer)]);
    assert_eq!(encoded(&load), implies(eq(i("n.%v"), i("n.%p")), post()));
    let store = instruction(
        Opcode::Store,
        "  store",
        IrType::Other,
        vec![reg("v", I32), reg("p", IrType::Pointer)],
    );
    assert_eq!(encoded(&store), implies(eq(i("n.%v"), i("n.%p")), post()));
    let constant = instruction(
        Opcode::Store,
        "  store",
        IrType::Other,
        vec![lit("7", I32), reg("p", IrType::Pointer)],
    );
    let (r, solver) = encode(&constant);
    assert_eq!(r, implies(eq(i("const_7"), i("n.%p")), post()));
    assert_eq!(solver.assertions, vec![eq(i("const_7"), n(7))]);
    assert_eq!(skipped(&instruction(Opcode::Load, "  %v = load", I32, vec![])), vec![
        Warning::MalformedInstruction
    ]);
}

#[test]
fn instruction_of_another_type_is_passed_over_with_a_warning() {
    let load =
        instruction(Opcode::Load, "  %v = load", IrType::Other, vec![reg("p", IrType::Pointer)]);
    assert_eq!(skipped(&load), vec![Warning::UnsupportedType]);
    let of_pointer =
        instruction(Opcode::Load, "  %v = load", IrType::Pointer, vec![reg("p", IrType::Pointer)]);
    assert_eq!(skipped(&of_pointer), vec![Warning::UnsupportedType]);
    let store = instruction(
        Opcode::Store,
        "  store",
        IrType::Other,
        vec![lit("7", IrType::Other), reg("p", IrType::Pointer)],
    );
    assert_eq!(skipped(&store), vec![Warning::UnsupportedType]);
    let xor = instruction(Opcode::Xor, "  %r = xor", I32, vec![reg("a", I32), lit("1", I32)]);
    assert_eq!(skipped(&xor), vec![Warning::UnsupportedType]);
    let on_integer = instruction(
        Opcode::Select,
        "  %r = select",
        I32,
        vec![reg("c", I32), reg("a", I32), lit("0", I32)],
    );
    assert_eq!(skipped(&on_integer), vec![Warning::UnsupportedType]);
    let of_other = instruction(
        Opcode::Select,
        "  %r = select",
        IrType::Other,
        vec![reg("c", BOOL), reg("a", I32), lit("0", I32)],
    );
    assert_eq!(skipped(&of_other), vec![Warning::UnsupportedType]);
}

#[test]
fn integer_of_another_width_is_passed_over_with_a_warning() {
    let wide = IrType::Int(128);
    let load = instruction(Opcode::Load, "  %v = load", wide, vec![reg("p", IrType::Pointer)]);
    assert_eq!(skipped(&load), vec![Warning::UnsupportedType]);
    let odd =
        instruction(Opcode::Load, "  %v = load", IrType::Int(24), vec![reg("p", IrType::Pointer)]);
    assert_eq!(skipped(&odd), vec![Warning::UnsupportedType]);
    let mut compare =
        instruction(Opcode::ICmp, "  %c = icmp", BOOL, vec![reg("a", wide), lit("1", wide)]);
    compare.predicate = Some(IntPredicate::SLT);
    assert_eq!(skipped(&compare), vec![Warning::UnsupportedType]);
    let mut of_pointers = instruction(
        Opcode::ICmp,
        "  %c = icmp",
        BOOL,
        vec![reg("a", IrType::Pointer), reg("b", IrType::Pointer)],
    );
    of_pointers.predicate = Some(IntPredicate::EQ);
    assert_eq!(skipped(&of_pointers), vec![Warning::UnsupportedType]);
    let mut of_vectors = instruction(
        Opcode::ICmp,
        "  %c = icmp",
        IrType::Other,
        vec![reg("a", I32), reg("b", I32)],
    );
    of_vectors.predicate = Some(IntPredicate::EQ);
    assert_eq!(skipped(&of_vectors), vec![Warning::UnsupportedType]);
    let trunc = instruction(Opcode::Trunc, "  %c = trunc", BOOL, vec![reg("a", wide)]);
    assert_eq!(skipped(&trunc), vec![Warning::UnsupportedType]);
    let zext = instruction(Opcode::ZExt, "  %r = zext", wide, vec![reg("c", BOOL)]);
    assert_eq!(skipped(&zext), vec![Warning::UnsupportedType]);
    let ret = instruction(Opcode::Return, "  ret", IrType::Other, vec![reg("v", wide)]);
    assert_eq!(skipped(&ret), vec![Warning::UnsupportedType]);
    for width in [1, 8, 16, 32, 64] {
        let ty = IrType::Int(width);
        assert!(ty.int_type());
        let load = instruction(Opcode::Load, "  %v = load", ty, vec![reg("p", IrType::Pointer)]);
        assert_eq!(encoded(&load), implies(eq(i("n.%v"), i("n.%p")), post()));
    }
    for width in [0, 2, 7, 24, 65, 128] {
        assert!(!IrType::Int(width).int_type());
    }
}

#[test]
fn comparison_follows_the_predicate() {
    let compare = |p: IntPredicate| {
        let mut c = instruction(Opcode::ICmp, "  %c = icmp", BOOL, vec![reg("a", I32), reg("b", I32)]);
        c.predicate = Some(p);
        encoded(&c)
    };
    let a = || Box::new(i("n.%a"));
    let c = || Box::new(i("n.%b"));
    let expect = |f: Term| implies(iff(b("n.%c"), f), post());
    assert_eq!(compare(IntPredicate::EQ), expect(Formula::IntEq(a(), c())));
    assert_eq!(compare(IntPredicate::NE), expect(not(Formula::IntEq(a(), c()))));
    assert_eq!(compare(IntPredicate::SLT), expect(Formula::Lt(a(), c())));
    assert_eq!(compare(IntPredicate::ULT), expect(Formula::Lt(a(), c())));
    assert_eq!(compare(IntPredicate::SLE), expect(Formula::Le(a(), c())));
    assert_eq!(compare(IntPredicate::ULE), expect(Formula::Le(a(), c())));
    assert_eq!(compare(IntPredicate::SGT), expect(Formula::Gt(a(), c())));
    assert_eq!(compare(IntPredicate::UGT), expect(Formula::Gt(a(), c())));
    assert_eq!(compare(IntPredicate::SGE), expect(Formula::Ge(a(), c())));
    assert_eq!(compare(IntPredicate::UGE), expect(Formula::Ge(a(), c())));
    let without = instruction(Opcode::ICmp, "  %c = icmp", BOOL, vec![reg("a", I32), reg("b", I32)]);
    assert_eq!(skipped(&without), vec![Warning::MalformedInstruction]);
}

#[test]
fn xor_is_boolean() {
    let x = instruction(Opcode::Xor, "  %c = xor", BOOL, vec![reg("a", BOOL), lit("true", BOOL)]);
    let (r, solver) = encode(&x);
    assert_eq!(
        r,
        implies(
            iff(b("n.%c"), Formula::Xor(Box::new(b("n.%a")), Box::new(b("const_true")))),
            post()
        )
    );
    assert_eq!(solver.assertions, vec![iff(b("const_true"), t())]);
}

#[test]
fn extractvalue_names_the_field() {
    let text = "  %v = extractvalue { i32, i1 } %agg, 0";
    let value = instruction(Opcode::ExtractValue, text, I32, vec![reg("agg", IrType::Other)]);
    assert_eq!(encoded(&value), implies(eq(i("n.%v"), i("n.%agg.0")), post()));
    let text = "  %o = extractvalue { i32, i1 } %agg, 1";
    let flag = instruction(Opcode::ExtractValue, text, BOOL, vec![reg("agg", IrType::Other)]);
    assert_eq!(encoded(&flag), implies(iff(b("n.%o"), b("n.%agg.1")), post()));
    assert_eq!(get_field_to_extract(text), "1");
    let other =
        instruction(Opcode::ExtractValue, text, IrType::Other, vec![reg("agg", IrType::Other)]);
    assert_eq!(skipped(&other), vec![Warning::UnsupportedType]);
}

#[test]
fn trunc_to_one_bit_takes_the_lowest_bit() {
    let trunc = instruction(Opcode::Trunc, "  %c = trunc", BOOL, vec![reg("a", I32)]);
    assert_eq!(
        encoded(&trunc),
        implies(
            iff(
                b("n.%c"),
                eq(IntExpr::Mod(Box::new(i("n.%a")), Box::new(n(2))), n(1))
            ),
            post()
        )
    );
    let wide = instruction(Opcode::Trunc, "  %c = trunc", IrType::Int(8), vec![reg("a", I32)]);
    assert_eq!(skipped(&wide), vec![Warning::UnsupportedType]);
}

#[test]
fn select_binds_the_target_on_both_sides() {
    let operands = || vec![reg("c", BOOL), reg("a", I32), lit("0", I32)];
    let (r, solver) = encode(&instruction(Opcode::Select, "  %r = select", I32, operands()));
    assert_eq!(
        r,
        implies(
            and(
                implies(b("n.%c"), eq(i("n.%r"), i("n.%a"))),
                implies(not(b("n.%c")), eq(i("n.%r"), i("const_0")))
            ),
            post()
        )
    );
    assert_eq!(solver.assertions, vec![eq(i("const_0"), n(0))]);
    let booleans = vec![reg("c", BOOL), reg("a", BOOL), reg("b", BOOL)];
    assert_eq!(
        encoded(&instruction(Opcode::Select, "  %r = select", BOOL, booleans)),
        implies(
            and(
                implies(b("n.%c"), iff(b("n.%r"), b("n.%a"))),
                implies(not(b("n.%c")), iff(b("n.%r"), b("n.%b")))
            ),
            post()
        )
    );
    let (_, other) = encode(&instruction(Opcode::Select, "  %r = select", IrType::Other, operands()));
    assert_eq!(other.warnings, vec![Warning::UnsupportedType]);
}

#[test]
fn zext_of_a_boolean_is_one_or_zero() {
    let z = instruction(Opcode::ZExt, "  %r = zext", I32, vec![reg("c", BOOL)]);
    assert_eq!(
        encoded(&z),
        implies(
            and(
                implies(b("n.%c"), eq(i("n.%r"), n(1))),
                implies(not(b("n.%c")), eq(i("n.%r"), n(0)))
            ),
            post()
        )
    );
    let wide = instruction(Opcode::ZExt, "  %r = zext", IrType::Int(64), vec![reg("a", I32)]);
    assert_eq!(encoded(&wide), implies(eq(i("n.%r"), i("n.%a")), post()));
    let float = instruction(Opcode::ZExt, "  %r = zext", I32, vec![reg("a", IrType::Other)]);
    assert_eq!(skipped(&float), vec![Warning::UnsupportedType]);
}

#[test]
fn phi_and_unknown_opcodes_leave_a_warning() {
    assert_eq!(skipped(&instruction(Opcode::Phi, "  %r = phi", I32, vec![])), vec![
        Warning::UnexpectedPhi
    ]);
    assert_eq!(skipped(&instruction(Opcode::Other, "  %r = add", I32, vec![])), vec![
        Warning::UnsupportedOpcode
    ]);
    assert_eq!(skipped(&instruction(Opcode::Invoke, "  invoke", I32, vec![])), vec![
        Warning::UnsupportedOpcode
    ]);
}

fn checked_call(symbol: &str) -> Instruction {
    instruction(
        Opcode::Call,
        "  %r = call { i32, i1 } @f(i32 %a, i32 1)",
        IrType::Other,
        vec![reg("a", I32), lit("1", I32), callee(symbol)],
    )
}

fn checked_formula(result: IntExpr<String>, again: IntExpr<String>, third: IntExpr<String>,
    min: i64, max: i64) -> Term
{
    implies(
        and(
            eq(i("n.%r.0"), result),
            iff(
                b("n.%r.1"),
                or(
                    Formula::Gt(Box::new(again), Box::new(n(max))),
                    Formula::Lt(Box::new(third), Box::new(n(min)))
                )
            )
        ),
        post()
    )
}

#[test]
fn checked_arithmetic_sets_value_and_flag() {
    let sum = || IntExpr::Add(Box::new(i("n.%a")), Box::new(i("const_1")));
    let (r, solver) = encode(&checked_call("llvm.sadd.with.overflow.i32"));
    assert_eq!(r, checked_formula(sum(), sum(), sum(), i32::MIN as i64, i32::MAX as i64));
    assert_eq!(solver.assertions, vec![eq(i("const_1"), n(1))]);
    let difference = || IntExpr::Sub(Box::new(i("n.%a")), Box::new(i("const_1")));
    assert_eq!(
        encode(&checked_call("llvm.ssub.with.overflow.i8")).0,
        checked_formula(difference(), difference(), difference(), -128, 127)
    );
    let product = || IntExpr::Mul(Box::new(i("n.%a")), Box::new(i("const_1")));
    assert_eq!(
        encode(&checked_call("llvm.smul.with.overflow.i16")).0,
        checked_formula(product(), product(), product(), -32768, 32767)
    );
    assert_eq!(
        encode(&checked_call("llvm.smul.with.overflow.i64")).0,
        checked_formula(product(), product(), product(), i64::MIN, i64::MAX)
    );
}

#[test]
fn checked_arithmetic_of_another_width_is_skipped() {
    assert_eq!(skipped(&checked_call("llvm.sadd.with.overflow.i128")), vec![
        Warning::UnsupportedType
    ]);
    assert_eq!(skipped(&checked_call("llvm.sadd.with.overflow.i")), vec![
        Warning::UnsupportedType
    ]);
}

#[test]
fn expect_equates_target_with_the_equality_of_its_operands() {
    let hint = instruction(
        Opcode::Call,
        "  %r = call i1 @llvm.expect.i1(i1 %a, i1 %b)",
        BOOL,
        vec![reg("a", BOOL), reg("b", BOOL), callee("llvm.expect.i1")],
    );
    assert_eq!(encoded(&hint), implies(iff(b("n.%r"), iff(b("n.%a"), b("n.%b"))), post()));
}

#[test]
fn panic_entry_adds_nothing_and_unknown_calls_leave_a_warning() {
    let entry = "_ZN4core9panicking5panic17h0123456789abcdefE";
    let panic = instruction(Opcode::Call, "  call void", IrType::Other, vec![callee(entry)]);
    let (r, solver) = encode(&panic);
    assert_eq!(r, post());
    assert!(solver.assertions.is_empty() && solver.warnings.is_empty());
    let unknown = instruction(Opcode::Call, "  call void", IrType::Other, vec![callee("memcpy")]);
    assert_eq!(skipped(&unknown), vec![Warning::UnsupportedCall]);
    let nothing = instruction(Opcode::Call, "  call void", IrType::Other, vec![]);
    assert_eq!(skipped(&nothing), vec![Warning::MalformedInstruction]);
    let block = instruction(Opcode::Call, "  call void", IrType::Other, vec![to("a")]);
    assert_eq!(skipped(&block), vec![Warning::MalformedInstruction]);
}

#[test]
fn calls_are_told_apart_by_name() {
    assert_eq!(classify_call("unit::f::h01", "unit"), CallKind::General);
    assert_eq!(classify_call("llvm.sadd.with.overflow.i32", "unit"), CallKind::CheckedAdd);
    assert_eq!(classify_call("llvm.ssub.with.overflow.i64", "unit"), CallKind::CheckedSub);
    assert_eq!(classify_call("llvm.smul.with.overflow.i8", "unit"), CallKind::CheckedMul);
    assert_eq!(classify_call("llvm.expect.i1", "unit"), CallKind::Expect);
    assert_eq!(classify_call("llvm.expect.i8", "unit"), CallKind::Unsupported);
    assert_eq!(classify_call("core::panicking::panic::h01", "unit"), CallKind::Panic);
    assert_eq!(classify_call("core::panicking::panic_fmt::h01", "unit"), CallKind::Panic);
    assert_eq!(classify_call("core::fmt::write", "unit"), CallKind::Unsupported);
    assert_eq!(classify_call("llvm.sadd.with.overflow.i32", "llvm"), CallKind::General);
    assert_eq!(classify_call("anything", ""), CallKind::General);
}

fn simple(name: &str, params: Vec<Value>, blocks: Vec<BasicBlock>) -> Function {
    Function { name: name.to_string(), params, blocks }
}

fn block(name: &str, instructions: Vec<Instruction>) -> BasicBlock {
    BasicBlock { name: name.to_string(), instructions }
}

fn parameter(name: &str, ty: IrType) -> Value {
    Value { text: format!("ty %{}", name), name: name.to_string(), ty }
}

/// `unit::twice(a) = a + a`, and a caller of it.
fn calling_module() -> Module {
    let add = instruction(
        Opcode::Call,
        "  %s = call { i32, i1 } @llvm.sadd.with.overflow.i32(i32 %a, i32 %a)",
        IrType::Other,
        vec![reg("a", I32), reg("a", I32), callee("llvm.sadd.with.overflow.i32")],
    );
    let value = instruction(
        Opcode::ExtractValue,
        "  %v = extractvalue { i32, i1 } %s, 0",
        I32,
        vec![reg("s", IrType::Other)],
    );
    let twice = simple(
        "_ZN4unit5twice17h0123456789abcdefE",
        vec![parameter("a", I32)],
        vec![block(
            "entry",
            vec![add, value, instruction(Opcode::Return, "  ret", IrType::Other, vec![reg("v", I32)])],
        )],
    );
    let call = instruction(
        Opcode::Call,
        "  %y = call i32 @twice(i32 %x)",
        I32,
        vec![reg("x", I32), callee("_ZN4unit5twice17h0123456789abcdefE")],
    );
    let main = simple(
        "_ZN4unit4main17h0123456789abcdefE",
        vec![parameter("x", I32)],
        vec![block(
            "start",
            vec![call, instruction(Opcode::Return, "  ret", IrType::Other, vec![reg("y", I32)])],
        )],
    );
    Module { name: "dir/unit.bc".to_string(), functions: vec![twice, main] }
}

fn twice_sum() -> IntExpr<String> {
    IntExpr::Add(Box::new(i("_%y.%a")), Box::new(i("_%y.%a")))
}

fn callee_entry() -> Term {
    iff(
        b("_%y.entry"),
        implies(
            t(),
            implies(
                and(
                    eq(i("_%y.%s.0"), twice_sum()),
                    iff(
                        b("_%y.%s.1"),
                        or(
                            Formula::Gt(Box::new(twice_sum()), Box::new(n(i32::MAX as i64))),
                            Formula::Lt(Box::new(twice_sum()), Box::new(n(i32::MIN as i64)))
                        )
                    )
                ),
                implies(
                    eq(i("_%y.%v"), i("_%y.%s.0")),
                    implies(eq(i("%y"), i("_%y.%v")), and(t(), b("_%y")))
                )
            )
        )
    )
}

#[test]
fn call_into_the_module_inlines_the_callee() {
    let module = calling_module();
    let mut solver = Query::new();
    let stack = vec![module.functions[1].name.clone()];
    let call = &module.functions[1].blocks[0].instructions[0];
    let r = codegen_call(&module, post(), call, &mut solver, "", &stack);
    assert_eq!(r, implies(eq(i("_%y.%a"), i("%x")), b("_%y.entry")));
    assert_eq!(solver.assertions, vec![iff(b("_%y"), post()), callee_entry()]);
    assert!(solver.warnings.is_empty());
}

#[test]
fn call_of_a_function_on_the_stack_is_not_inlined() {
    let module = calling_module();
    let mut solver = Query::new();
    let stack = vec![module.functions[0].name.clone(), module.functions[1].name.clone()];
    let call = &module.functions[1].blocks[0].instructions[0];
    let r = codegen_call(&module, post(), call, &mut solver, "", &stack);
    assert_eq!(r, post());
    assert!(solver.assertions.is_empty());
    assert_eq!(solver.warnings, vec![Warning::RecursiveCall]);
}

#[test]
fn call_of_a_function_that_the_module_lacks_is_skipped() {
    let mut module = calling_module();
    let call = module.functions[1].blocks[0].instructions[0].clone();
    module.functions.remove(0);
    let mut solver = Query::new();
    let r = codegen_call(&module, post(), &call, &mut solver, "", &vec![]);
    assert_eq!(r, post());
    assert_eq!(solver.warnings, vec![Warning::UnsupportedCall]);
}

#[test]
fn call_with_the_wrong_number_of_arguments_is_not_bound() {
    let mut module = calling_module();
    module.functions[0].params.push(parameter("b", I32));
    let call = module.functions[1].blocks[0].instructions[0].clone();
    let mut solver = Query::new();
    let r = codegen_call(&module, post(), &call, &mut solver, "", &vec![]);
    assert_eq!(r, b("_%y.entry"));
    assert_eq!(solver.warnings, vec![Warning::MalformedInstruction]);
}

#[test]
fn function_with_itself_twice_on_the_stack_is_not_encoded() {
    let module = calling_module();
    let mut solver = Query::new();
    let stack = vec!["f".to_string(), "g".to_string(), "f".to_string()];
    codegen_function(&module, &module.functions[1], &mut solver, "", &stack, "end", "r");
    assert!(solver.assertions.is_empty());
    assert_eq!(solver.warnings, vec![Warning::RecursiveCall]);
    let mut solver = Query::new();
    let stack = vec!["f".to_string(), "f".to_string(), "g".to_string()];
    codegen_function(&module, &module.functions[0], &mut solver, "", &stack, "end", "r");
    assert_eq!(solver.assertions.len(), 1);
    assert!(solver.warnings.is_empty());
}

fn guarded() -> Function {
    let mut compare =
        instruction(Opcode::ICmp, "  %c = icmp", BOOL, vec![reg("x", I32), lit("0", I32)]);
    compare.predicate = Some(IntPredicate::SLT);
    let first = instruction(Opcode::Br, "  br", IrType::Other, vec![reg("c", BOOL), to("ok"), to("bad")]);
    simple(
        "_ZN4unit7guarded17h0123456789abcdefE",
        vec![parameter("x", I32), parameter("flag", BOOL), parameter("f", IrType::Other)],
        vec![
            block("start", vec![compare, first]),
            block("ok", vec![instruction(Opcode::Return, "  ret void", IrType::Other, vec![])]),
            block("bad", vec![instruction(Opcode::Unreachable, "  unreachable", IrType::Other, vec![])]),
        ],
    )
}

fn guarded_blocks() -> Vec<Term> {
    vec![
        eq(i("const_0"), n(0)),
        iff(
            b("bad"),
            implies(
                and(t(), iff(b("%c"), t())),
                implies(iff(b("is_panic"), t()), and(t(), b("common_end_node")))
            )
        ),
        iff(
            b("ok"),
            implies(
                and(t(), iff(b("%c"), Formula::Lit(false))),
                implies(iff(b("is_panic"), Formula::Lit(false)), and(t(), b("common_end_node")))
            )
        ),
        iff(
            b("start"),
            implies(
                t(),
                implies(
                    iff(b("%c"), Formula::Lt(Box::new(i("%x")), Box::new(i("const_0")))),
                    and(and(t(), b("ok")), b("bad"))
                )
            )
        ),
    ]
}

#[test]
fn blocks_are_defined_successors_first() {
    let f = guarded();
    let mut solver = Query::new();
    codegen_function(&empty_module(), &f, &mut solver, "", &vec![f.name.clone()], "common_end_node", "r");
    let expected = guarded_blocks();
    assert_eq!(solver.constants, vec!["const_0"]);
    assert_eq!(solver.assertions.len(), 4);
    assert_eq!(solver.assertions[0], expected[1]);
    assert_eq!(solver.assertions[1], expected[2]);
    assert_eq!(solver.assertions[2], expected[0]);
    assert_eq!(solver.assertions[3], expected[3]);
}

#[test]
fn one_block_is_encoded_against_the_edges_given() {
    let f = guarded();
    let forward = get_forward_edges(&f, "", "common_end_node");
    let backward = get_backward_edges(&f, "", "common_end_node");
    let mut solver = Query::new();
    codegen_basic_block(
        &empty_module(),
        "ok".to_string(),
        &forward,
        &backward,
        &f,
        &mut solver,
        "",
        &vec![],
        "r",
    );
    assert_eq!(solver.assertions, vec![clone_formula(&guarded_blocks()[2])]);
    let mut solver = Query::new();
    codegen_basic_block(
        &empty_module(),
        "elsewhere".to_string(),
        &forward,
        &backward,
        &f,
        &mut solver,
        "",
        &vec![],
        "r",
    );
    assert!(solver.assertions.is_empty());
    assert_eq!(solver.warnings, vec![Warning::MalformedInstruction]);
}

#[test]
fn target_gets_its_parameters_constrained() {
    let f = guarded();
    let mut solver = Query::new();
    function_codegen(&empty_module(), &f, &mut solver, "");
    assert_eq!(solver.assertions.len(), 6);
    assert_eq!(solver.assertions[4], iff(b("common_end_node"), not(b("is_panic"))));
    assert_eq!(
        solver.assertions[5],
        and(
            Formula::Ge(Box::new(i("%x")), Box::new(n(i32::MIN as i64))),
            Formula::Le(Box::new(i("%x")), Box::new(n(i32::MAX as i64)))
        )
    );
    assert_eq!(solver.warnings, vec![Warning::UnsupportedType]);
}

#[test]
fn query_defines_the_common_end_and_denies_the_entry() {
    let f = guarded();
    let mut solver = Query::new();
    assert!(backward_symbolic_execution(&empty_module(), &f, &mut solver, ""));
    assert_eq!(solver.assertions.len(), 7);
    assert_eq!(solver.assertions[4], iff(b("common_end_node"), not(b("is_panic"))));
    assert_eq!(solver.assertions[6], not(b("start")));
    let common = iff(b("common_end_node"), not(b("is_panic")));
    assert_eq!(solver.assertions.iter().filter(|a| **a == common).count(), 1);
    let declaration = simple("d", vec![], vec![]);
    let mut solver = Query::new();
    assert!(!backward_symbolic_execution(&empty_module(), &declaration, &mut solver, ""));
    assert_eq!(solver.assertions, vec![iff(b("common_end_node"), not(b("is_panic")))]);
}

#[test]
fn encoding_twice_adds_the_same_assertions_again() {
    let f = guarded();
    let mut solver = Query::new();
    let stack = vec![f.name.clone()];
    codegen_function(&empty_module(), &f, &mut solver, "", &stack, "common_end_node", "r");
    let once: Vec<Term> = solver.assertions.iter().map(clone_formula).collect();
    codegen_function(&empty_module(), &f, &mut solver, "", &stack, "common_end_node", "r");
    assert_eq!(solver.assertions.len(), 7);
    assert_eq!(solver.constants, vec!["const_0"]);
    for a in &solver.assertions {
        assert!(once.contains(a));
    }
    let mut other = Query::new();
    codegen_function(&empty_module(), &f, &mut other, "", &stack, "common_end_node", "r");
    assert_eq!(other.assertions, once);
}

#[test]
fn entry_conditions_follow_the_terminator_of_the_predecessor() {
    let f = guarded();
    let mut solver = Query::new();
    assert_eq!(get_entry_condition(&mut solver, &f, "start", "bad", ""), iff(b("%c"), t()));
    assert_eq!(
        get_entry_condition(&mut solver, &f, "start", "ok", ""),
        iff(b("%c"), Formula::Lit(false))
    );
    assert_eq!(get_entry_condition(&mut solver, &f, "ok", "common_end_node", ""), t());
    assert_eq!(get_entry_condition(&mut solver, &f, "bad", "common_end_node", ""), t());
    assert_eq!(get_entry_condition(&mut solver, &f, "nowhere", "ok", ""), t());
    assert_eq!(
        get_entry_condition(&mut solver, &f, "n.start", "n.bad", "n."),
        iff(b("n.%c"), t())
    );
    assert!(solver.assertions.is_empty());
}

#[test]
fn entry_condition_of_a_switch() {
    let switch = instruction(
        Opcode::Switch,
        "  switch",
        I32,
        vec![reg("x", I32), to("d"), lit("1", I32), to("a"), lit("2", I32), to("b")],
    );
    let f = simple("f", vec![], vec![block("start", vec![switch])]);
    let mut solver = Query::new();
    assert_eq!(
        get_entry_condition(&mut solver, &f, "start", "b", ""),
        eq(i("%x"), i("const_2"))
    );
    assert_eq!(solver.assertions, vec![eq(i("const_2"), n(2))]);
    assert_eq!(
        get_entry_condition(&mut solver, &f, "start", "d", ""),
        and(not(eq(i("%x"), i("const_2"))), and(not(eq(i("%x"), i("const_1"))), t()))
    );
    assert_eq!(
        get_entry_condition(&mut solver, &f, "start", "elsewhere", ""),
        and(not(eq(i("%x"), i("const_2"))), and(not(eq(i("%x"), i("const_1"))), t()))
    );
    assert_eq!(solver.constants, vec!["const_2", "const_1"]);
}

#[test]
fn panic_is_told_by_the_terminator() {
    let f = guarded();
    assert_eq!(is_panic_block(&f.blocks[0]), Some(false));
    assert_eq!(is_panic_block(&f.blocks[1]), Some(false));
    assert_eq!(is_panic_block(&f.blocks[2]), Some(true));
    let switch = block("s", vec![instruction(Opcode::Switch, "", I32, vec![])]);
    assert_eq!(is_panic_block(&switch), Some(false));
    for opcode in [
        Opcode::IndirectBr,
        Opcode::Invoke,
        Opcode::CallBr,
        Opcode::Resume,
        Opcode::CatchSwitch,
        Opcode::CatchRet,
        Opcode::CleanupRet,
        Opcode::Load,
    ] {
        assert_eq!(is_panic_block(&block("s", vec![instruction(opcode, "", I32, vec![])])), None);
    }
    assert_eq!(is_panic_block(&block("s", vec![])), None);
}

#[test]
fn block_of_an_unknown_terminator_that_reaches_the_end_counts_as_a_panic() {
    let f = simple("f", vec![], vec![block("start", vec![instruction(Opcode::Resume, "", I32, vec![])])]);
    let forward = vec![wombat_symx::control_flow_graph::NodeEdges {
        node: "start".to_string(),
        targets: vec!["common_end_node".to_string()],
    }];
    let mut solver = Query::new();
    codegen_basic_block(
        &empty_module(),
        "start".to_string(),
        &forward,
        &Vec::new(),
        &f,
        &mut solver,
        "",
        &vec![],
        "r",
    );
    assert_eq!(
        solver.assertions,
        vec![iff(
            b("start"),
            implies(t(), implies(iff(b("is_panic"), t()), and(t(), b("common_end_node"))))
        )]
    );
    assert_eq!(solver.warnings, vec![Warning::UnsupportedOpcode]);
}

#[test]
fn blocks_are_found_by_the_name_of_their_node() {
    let f = guarded();
    assert_eq!(get_basic_block_by_name(&f, "n.ok", "n.").map(|b| b.name.as_str()), Some("ok"));
    assert!(get_basic_block_by_name(&f, "ok", "n.").is_none());
    assert!(get_basic_block_by_name(&f, "n.", "n.").is_none());
}

#[test]
fn each_block_has_exactly_one_definition() {
    let f = guarded();
    let mut solver = Query::new();
    assert!(backward_symbolic_execution(&empty_module(), &f, &mut solver, ""));
    for name in ["start", "ok", "bad"] {
        let definitions = solver
            .assertions
            .iter()
            .filter(|a| matches!(a, Formula::Iff(left, _) if **left == b(name)))
            .count();
        assert_eq!(definitions, 1, "{}", name);
    }
}
