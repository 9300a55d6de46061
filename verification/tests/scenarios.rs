use wombat_symx::ir::{
    BasicBlock, Function, Incoming, Instruction, IntPredicate, IrType, Module, Opcode, Operand,
    Value,
};
use wombat_symx::backward_symbolic_execution::backward_symbolic_execution;
use wombat_symx::formula::Formula;
use wombat_symx::query::{Query, Warning};
use wombat_symx::smt::ModelValue;
use wombat_symx::symbolic_execution::{
    symbolic_execution, verify_function, verify_promoted, Report, Verdict,
};
use wombat_symx::utils::function_utils::ArgumentName;
use wombat_symx::utils::resolve_phi_to_dsa::resolve_phi_to_dsa;

const PANIC: &str = "_ZN4core9panicking5panic17h0123456789abcdefE";
const BOOL: IrType = IrType::Int(1);
const I32: IrType = IrType::Int(32);

fn type_text(ty: IrType) -> String {
    match ty {
        IrType::Int(w) => format!("i{}", w),
        IrType::Pointer => "i32*".to_string(),
        IrType::Other => "float".to_string(),
    }
}

fn value(name: &str, ty: IrType) -> Value {
    Value { text: format!("{} %{}", type_text(ty), name), name: name.to_string(), ty }
}

fn literal(text: &str, ty: IrType) -> Value {
    Value { text: format!("{} {}", type_text(ty), text), name: String::new(), ty }
}

fn reg(name: &str, ty: IrType) -> Operand {
    Operand::Value(value(name, ty))
}

fn lit(text: &str, ty: IrType) -> Operand {
    Operand::Value(literal(text, ty))
}

fn function_pointer(symbol: &str) -> Operand {
    Operand::Value(Value {
        text: format!("void ()* @{}", symbol),
        name: symbol.to_string(),
        ty: IrType::Pointer,
    })
}

fn instruction(opcode: Opcode, text: String, ty: IrType, operands: Vec<Operand>) -> Instruction {
    Instruction { opcode, text, ty, operands, predicate: None, incoming: Vec::new() }
}

fn icmp(target: &str, predicate: IntPredicate, a: Operand, b: Operand) -> Instruction {
    Instruction {
        opcode: Opcode::ICmp,
        text: format!("  %{} = icmp", target),
        ty: BOOL,
        operands: vec![a, b],
        predicate: Some(predicate),
        incoming: Vec::new(),
    }
}

fn branch(target: &str) -> Instruction {
    instruction(
        Opcode::Br,
        format!("  br label %{}", target),
        IrType::Other,
        vec![Operand::Block(target.to_string())],
    )
}

/// A conditional branch. The operands stand as the IR stores them: the
/// condition, the target when it is false, the target when it is true.
fn branch_if(condition: &str, if_true: &str, if_false: &str) -> Instruction {
    instruction(
        Opcode::Br,
        format!("  br i1 %{}, label %{}, label %{}", condition, if_true, if_false),
        IrType::Other,
        vec![
            reg(condition, BOOL),
            Operand::Block(if_false.to_string()),
            Operand::Block(if_true.to_string()),
        ],
    )
}

/// A checked operation and the extraction of its two fields: the value as
/// `%<target>.v`, the overflow flag as `%<target>.o`.
fn checked(target: &str, operation: &str, ty: IrType, a: Operand, b: Operand) -> Vec<Instruction> {
    let symbol = format!("llvm.{}.with.overflow.{}", operation, type_text(ty));
    vec![
        instruction(
            Opcode::Call,
            format!("  %{} = call {{ {}, i1 }} @{}", target, type_text(ty), symbol),
            IrType::Other,
            vec![a, b, function_pointer(&symbol)],
        ),
        instruction(
            Opcode::ExtractValue,
            format!("  %{}.v = extractvalue {{ {}, i1 }} %{}, 0", target, type_text(ty), target),
            ty,
            vec![reg(target, IrType::Other)],
        ),
        instruction(
            Opcode::ExtractValue,
            format!("  %{}.o = extractvalue {{ {}, i1 }} %{}, 1", target, type_text(ty), target),
            BOOL,
            vec![reg(target, IrType::Other)],
        ),
    ]
}

fn not(target: &str, operand: &str) -> Instruction {
    instruction(
        Opcode::Xor,
        format!("  %{} = xor i1 %{}, true", target, operand),
        BOOL,
        vec![reg(operand, BOOL), lit("true", BOOL)],
    )
}

fn select(target: &str, condition: &str, ty: IrType, a: Operand, b: Operand) -> Instruction {
    instruction(
        Opcode::Select,
        format!("  %{} = select i1 %{}", target, condition),
        ty,
        vec![reg(condition, BOOL), a, b],
    )
}

fn phi(target: &str, ty: IrType, incoming: Vec<(Value, &str)>) -> Instruction {
    Instruction {
        opcode: Opcode::Phi,
        text: format!("  %{} = phi {}", target, type_text(ty)),
        ty,
        operands: Vec::new(),
        predicate: None,
        incoming: incoming
            .into_iter()
            .map(|(value, block)| Incoming { value, block: block.to_string() })
            .collect(),
    }
}

fn call(target: &str, ty: IrType, symbol: &str, mut arguments: Vec<Operand>) -> Instruction {
    arguments.push(function_pointer(symbol));
    instruction(
        Opcode::Call,
        format!("  %{} = call {} @{}", target, type_text(ty), symbol),
        ty,
        arguments,
    )
}

fn ret(value: Operand) -> Instruction {
    instruction(Opcode::Return, "  ret".to_string(), IrType::Other, vec![value])
}

fn ret_void() -> Instruction {
    instruction(Opcode::Return, "  ret void".to_string(), IrType::Other, vec![])
}

fn block(name: &str, instructions: Vec<Instruction>) -> BasicBlock {
    BasicBlock { name: name.to_string(), instructions }
}

/// A block that gathers several lists of instructions.
fn block_of(name: &str, parts: Vec<Vec<Instruction>>) -> BasicBlock {
    block(name, parts.into_iter().flatten().collect())
}

fn panic_block(name: &str) -> BasicBlock {
    block(
        name,
        vec![
            instruction(
                Opcode::Call,
                "  call void @panic(i8* %msg)".to_string(),
                IrType::Other,
                vec![reg("msg", IrType::Pointer), function_pointer(PANIC)],
            ),
            instruction(Opcode::Unreachable, "  unreachable".to_string(), IrType::Other, vec![]),
        ],
    )
}

/// The end of a function that asserts the boolean `%<condition>`: a panic
/// where it does not hold, else the return of `result`.
fn assert_then_return(condition: &str, result: Option<Operand>) -> Vec<BasicBlock> {
    vec![
        block(
            "check",
            vec![not("failed", condition), branch_if("failed", "assert_failed", "done")],
        ),
        block(
            "done",
            vec![match result {
                Some(r) => ret(r),
                None => ret_void(),
            }],
        ),
        panic_block("assert_failed"),
    ]
}

fn symbol(function: &str) -> String {
    format!("_ZN8scenario{}{}17h0123456789abcdefE", function.len(), function)
}

fn function(name: &str, params: Vec<Value>, blocks: Vec<Vec<BasicBlock>>) -> Function {
    Function {
        name: symbol(name),
        params,
        blocks: blocks.into_iter().flatten().collect(),
    }
}

fn module_of(functions: Vec<Function>) -> Module {
    Module { name: "tests_temp/scenario.bc".to_string(), functions }
}

fn is_safe(functions: Vec<Function>, name: &str) -> Option<bool> {
    symbolic_execution(&mut module_of(functions), name)
}

fn report(functions: Vec<Function>, name: &str, parameters: Vec<(&str, IrType)>) -> Report {
    let mut module = module_of(functions);
    resolve_phi_to_dsa(&mut module);
    let arguments: Vec<ArgumentName> = parameters
        .into_iter()
        .map(|(p, ty)| ArgumentName {
            source_name: format!("%{}", p),
            smt_name: format!("%{}", p),
            ty,
        })
        .collect();
    verify_function(&module, name, &arguments).unwrap()
}

fn int_value(report: &Report, index: usize) -> i64 {
    match report.counterexample[index].value {
        Some(ModelValue::Int(v)) => v,
        other => panic!("no integer at {}: {:?}", index, other),
    }
}

/// `if x < 0 { x = -1 * x }; assert!(x >= 0); x`
fn abs_like(
    name: &str,
    ty: IrType,
    negate_when: IntPredicate,
    assert_that: IntPredicate,
) -> Function {
    function(
        name,
        vec![value("x", ty)],
        vec![
            vec![
                block(
                    "start",
                    vec![
                        icmp("negative", negate_when, reg("x", ty), lit("0", ty)),
                        branch_if("negative", "negate", "join"),
                    ],
                ),
                block_of(
                    "negate",
                    vec![
                        checked("m", "smul", ty, lit("-1", ty), reg("x", ty)),
                        vec![branch_if("m.o", "overflow", "negated")],
                    ],
                ),
                block("negated", vec![branch("join")]),
                block(
                    "join",
                    vec![
                        phi("x1", ty, vec![(value("x", ty), "start"), (value("m.v", ty), "negated")]),
                        icmp("ok", assert_that, reg("x1", ty), lit("0", ty)),
                        branch("check"),
                    ],
                ),
                panic_block("overflow"),
            ],
            assert_then_return("ok", Some(reg("x1", ty))),
        ],
    )
}

fn abs_function(name: &str, width: u32) -> Function {
    abs_like(name, IrType::Int(width), IntPredicate::SLT, IntPredicate::SGE)
}

fn neg_abs_function(name: &str, width: u32) -> Function {
    abs_like(name, IrType::Int(width), IntPredicate::SGT, IntPredicate::SLE)
}

fn min_of(width: u32) -> i64 {
    match width {
        8 => i8::MIN as i64,
        16 => i16::MIN as i64,
        32 => i32::MIN as i64,
        _ => i64::MIN,
    }
}

fn check_abs(name: &str, width: u32) {
    assert_eq!(is_safe(vec![abs_function(name, width)], name), Some(false));
    let r = report(vec![abs_function(name, width)], name, vec![("x", IrType::Int(width))]);
    assert_eq!(r.verdict, Verdict::Unsafe);
    assert_eq!(r.counterexample.len(), 1);
    assert_eq!(r.counterexample[0].name, "%x");
    assert_eq!(r.counterexample[0].value, Some(ModelValue::Int(min_of(width))));
}

fn check_neg_abs(name: &str, width: u32) {
    assert_eq!(is_safe(vec![neg_abs_function(name, width)], name), Some(true));
    let r = report(vec![neg_abs_function(name, width)], name, vec![("x", IrType::Int(width))]);
    assert_eq!(r.verdict, Verdict::Safe);
    assert!(r.counterexample.is_empty());
}

#[test]
fn tests_test_unsafe_abs() {
    check_abs("test_unsafe_abs", 32);
}

#[test]
fn test1_abs_test_unsafe_abs() {
    check_abs("test_unsafe_abs", 32);
}

#[test]
fn test_unsafe_abs_i8() {
    check_abs("test_unsafe_abs_i8", 8);
}

#[test]
fn test_unsafe_abs_i16() {
    check_abs("test_unsafe_abs_i16", 16);
}

#[test]
fn test_unsafe_abs_i64() {
    check_abs("test_unsafe_abs_i64", 64);
}

#[test]
fn tests_test_safe_neg_abs() {
    check_neg_abs("test_safe_neg_abs", 32);
}

#[test]
fn test2_neg_abs_test_safe_neg_abs() {
    check_neg_abs("test_safe_neg_abs", 32);
}

#[test]
fn test_safe_neg_abs_i8() {
    check_neg_abs("test_safe_neg_abs_i8", 8);
}

#[test]
fn test_safe_neg_abs_i16() {
    check_neg_abs("test_safe_neg_abs_i16", 16);
}

#[test]
fn test_safe_neg_abs_i64() {
    check_neg_abs("test_safe_neg_abs_i64", 64);
}

/// `fn abs(x: i32) -> i32 { return x * -1; }`
fn negate_function() -> Function {
    function(
        "abs",
        vec![value("x", I32)],
        vec![vec![
            block_of(
                "start",
                vec![
                    checked("m", "smul", I32, reg("x", I32), lit("-1", I32)),
                    vec![branch_if("m.o", "overflow", "done")],
                ],
            ),
            block("done", vec![ret(reg("m.v", I32))]),
            panic_block("overflow"),
        ]],
    )
}

/// `let y = abs(<argument>); assert!(y <predicate> <bound>);`
fn caller(name: &str, argument: &str, predicate: IntPredicate, bound: &str) -> Function {
    function(
        name,
        vec![],
        vec![
            vec![block(
                "start",
                vec![
                    call("y", I32, &symbol("abs"), vec![lit(argument, I32)]),
                    icmp("ok", predicate, reg("y", I32), lit(bound, I32)),
                    branch("check"),
                ],
            )],
            assert_then_return("ok", None),
        ],
    )
}

#[test]
fn test_safe_func_call() {
    let functions = vec![
        negate_function(),
        caller("test_safe_func_call", "-13", IntPredicate::EQ, "13"),
    ];
    assert_eq!(is_safe(functions, "test_safe_func_call"), Some(true));
}

#[test]
fn test_unsafe_func_call() {
    let functions = vec![
        negate_function(),
        caller("test_unsafe_func_call", "-2147483648", IntPredicate::SGE, "0"),
    ];
    assert_eq!(is_safe(functions, "test_unsafe_func_call"), Some(false));
}

#[test]
fn wrong_claim_about_a_call_is_unsafe() {
    let functions =
        vec![negate_function(), caller("wrong_claim", "-13", IntPredicate::EQ, "12")];
    assert_eq!(is_safe(functions, "wrong_claim"), Some(false));
}

/// `if x > 0 { x -= 1; } assert!(x < 0 || x + 1 > 0);`, with the branch
/// on the left operand threaded to the end of the function.
fn safe_assert_function(name: &str) -> Function {
    function(
        name,
        vec![value("x", I32)],
        vec![vec![
            block(
                "start",
                vec![
                    icmp("positive", IntPredicate::SGT, reg("x", I32), lit("0", I32)),
                    branch_if("positive", "decrement", "join"),
                ],
            ),
            block_of(
                "decrement",
                vec![
                    checked("d", "ssub", I32, reg("x", I32), lit("1", I32)),
                    vec![branch_if("d.o", "overflow1", "decremented")],
                ],
            ),
            block("decremented", vec![branch("join")]),
            block(
                "join",
                vec![
                    phi(
                        "x1",
                        I32,
                        vec![(value("x", I32), "start"), (value("d.v", I32), "decremented")],
                    ),
                    icmp("negative", IntPredicate::SLT, reg("x1", I32), lit("0", I32)),
                    branch_if("negative", "done", "right"),
                ],
            ),
            block_of(
                "right",
                vec![
                    checked("s", "sadd", I32, reg("x1", I32), lit("1", I32)),
                    vec![branch_if("s.o", "overflow2", "compare")],
                ],
            ),
            block(
                "compare",
                vec![
                    icmp("above", IntPredicate::SGT, reg("s.v", I32), lit("0", I32)),
                    branch_if("above", "done", "assert_failed"),
                ],
            ),
            block("done", vec![ret_void()]),
            panic_block("assert_failed"),
            panic_block("overflow1"),
            panic_block("overflow2"),
        ]],
    )
}

/// `assert!(x > 0 && x < 13);`
fn unsafe_assert_function(name: &str) -> Function {
    function(
        name,
        vec![value("x", I32)],
        vec![
            vec![
                block(
                    "start",
                    vec![
                        icmp("positive", IntPredicate::SGT, reg("x", I32), lit("0", I32)),
                        branch_if("positive", "right", "left"),
                    ],
                ),
                block("left", vec![branch("both")]),
                block(
                    "right",
                    vec![
                        icmp("small", IntPredicate::SLT, reg("x", I32), lit("13", I32)),
                        branch("both"),
                    ],
                ),
                block(
                    "both",
                    vec![
                        phi(
                            "ok",
                            BOOL,
                            vec![
                                (literal("false", BOOL), "left"),
                                (value("small", BOOL), "right"),
                            ],
                        ),
                        branch("check"),
                    ],
                ),
            ],
            assert_then_return("ok", None),
        ],
    )
}

#[test]
fn tests_test_safe_assert() {
    assert_eq!(
        is_safe(vec![safe_assert_function("test_safe_assert")], "test_safe_assert"),
        Some(true)
    );
}

#[test]
fn test3_asserts_test_safe_assert() {
    assert_eq!(
        is_safe(vec![safe_assert_function("test_safe_assert")], "test_safe_assert"),
        Some(true)
    );
}

#[test]
fn tests_test_unsafe_assert() {
    assert_eq!(
        is_safe(vec![unsafe_assert_function("test_unsafe_assert")], "test_unsafe_assert"),
        Some(false)
    );
}

#[test]
fn test3_asserts_test_unsafe_assert() {
    let r = report(
        vec![unsafe_assert_function("test_unsafe_assert")],
        "test_unsafe_assert",
        vec![("x", I32)],
    );
    assert_eq!(r.verdict, Verdict::Unsafe);
    let x = int_value(&r, 0);
    assert!(x <= 0 || x >= 13);
    assert!(i32::MIN as i64 <= x && x <= i32::MAX as i64);
}

/// A function whose only statement is `assert!(x <predicate> <right>)`.
fn single_assert(name: &str, predicate: IntPredicate, right: Operand) -> Function {
    function(
        name,
        vec![value("x", I32)],
        vec![
            vec![block(
                "start",
                vec![icmp("ok", predicate, reg("x", I32), right), branch("check")],
            )],
            assert_then_return("ok", None),
        ],
    )
}

#[test]
fn assert_of_equality_with_itself_is_safe() {
    let f = single_assert("reflexive", IntPredicate::EQ, reg("x", I32));
    assert_eq!(is_safe(vec![f], "reflexive"), Some(true));
}

#[test]
fn assert_below_thirteen_is_unsafe() {
    let f = single_assert("below", IntPredicate::SLT, lit("13", I32));
    let r = report(vec![f], "below", vec![("x", I32)]);
    assert_eq!(r.verdict, Verdict::Unsafe);
    let x = int_value(&r, 0);
    assert!(13 <= x && x <= i32::MAX as i64);
}

/// `r = if c1 { x + 3 } else { x + 4 }; r = if c2 { r - 1 } else { r - 2 };
/// assert!(r > x); r`, after an optional `if x > MAX - 4 { x = MAX - 4 }`.
fn foo_function(name: &str, clamp: bool) -> Function {
    let x0 = if clamp { "x0" } else { "x" };
    let mut blocks = Vec::new();
    if clamp {
        blocks.push(block(
            "start",
            vec![
                icmp("large", IntPredicate::SGT, reg("x", I32), lit("2147483643", I32)),
                branch_if("large", "clamp", "clamped"),
            ],
        ));
        blocks.push(block("clamp", vec![branch("clamped")]));
        blocks.push(block(
            "clamped",
            vec![
                phi(
                    "x0",
                    I32,
                    vec![(value("x", I32), "start"), (literal("2147483643", I32), "clamp")],
                ),
                branch("first"),
            ],
        ));
    }
    blocks.push(block("first", vec![branch_if("c1", "add3", "add4")]));
    blocks.push(block_of(
        "add3",
        vec![
            checked("a", "sadd", I32, reg(x0, I32), lit("3", I32)),
            vec![branch_if("a.o", "overflow1", "added3")],
        ],
    ));
    blocks.push(block_of(
        "add4",
        vec![
            checked("b", "sadd", I32, reg(x0, I32), lit("4", I32)),
            vec![branch_if("b.o", "overflow2", "added4")],
        ],
    ));
    blocks.push(block("added3", vec![branch("second")]));
    blocks.push(block("added4", vec![branch("second")]));
    blocks.push(block(
        "second",
        vec![
            phi("r", I32, vec![(value("a.v", I32), "added3"), (value("b.v", I32), "added4")]),
            branch_if("c2", "sub1", "sub2"),
        ],
    ));
    blocks.push(block_of(
        "sub1",
        vec![
            checked("c", "ssub", I32, reg("r", I32), lit("1", I32)),
            vec![branch_if("c.o", "overflow3", "subbed1")],
        ],
    ));
    blocks.push(block_of(
        "sub2",
        vec![
            checked("d", "ssub", I32, reg("r", I32), lit("2", I32)),
            vec![branch_if("d.o", "overflow4", "subbed2")],
        ],
    ));
    blocks.push(block("subbed1", vec![branch("last")]));
    blocks.push(block("subbed2", vec![branch("last")]));
    blocks.push(block(
        "last",
        vec![
            phi("r2", I32, vec![(value("c.v", I32), "subbed1"), (value("d.v", I32), "subbed2")]),
            icmp("ok", IntPredicate::SGT, reg("r2", I32), reg(x0, I32)),
            branch("check"),
        ],
    ));
    for k in 1..=4 {
        blocks.push(panic_block(&format!("overflow{}", k)));
    }
    function(
        name,
        vec![value("c1", BOOL), value("c2", BOOL), value("x", I32)],
        vec![blocks, assert_then_return("ok", Some(reg("r2", I32)))],
    )
}

fn check_unsafe_foo() {
    let name = "test_unsafe_foo";
    assert_eq!(is_safe(vec![foo_function(name, false)], name), Some(false));
    let r = report(
        vec![foo_function(name, false)],
        name,
        vec![("c1", BOOL), ("c2", BOOL), ("x", I32)],
    );
    assert_eq!(r.verdict, Verdict::Unsafe);
    assert_eq!(r.counterexample.len(), 3);
    assert!(int_value(&r, 2) > i32::MAX as i64 - 4);
    assert!(int_value(&r, 2) <= i32::MAX as i64);
}

#[test]
fn tests_test_unsafe_foo() {
    check_unsafe_foo();
}

#[test]
fn test4_foo_test_unsafe_foo() {
    check_unsafe_foo();
}

#[test]
fn tests_test_safe_foo() {
    let name = "test_safe_foo";
    assert_eq!(is_safe(vec![foo_function(name, true)], name), Some(true));
}

#[test]
fn test4_foo_test_safe_foo() {
    let name = "test_safe_foo";
    assert_eq!(is_safe(vec![foo_function(name, true)], name), Some(true));
}

/// A match on `x`: each arm is a case value and what it adds to `x`, the
/// last arm is the default.
fn switch_function(name: &str, ty: IrType, arms: Vec<(&str, Option<(&str, &str)>)>) -> Function {
    let count = arms.len();
    let mut operands = vec![reg("x", ty), Operand::Block(format!("arm{}", count - 1))];
    for (k, (case, _)) in arms.iter().enumerate().take(count - 1) {
        operands.push(lit(case, ty));
        operands.push(Operand::Block(format!("arm{}", k)));
    }
    let mut blocks =
        vec![block("start", vec![instruction(Opcode::Switch, "  switch".into(), ty, operands)])];
    let mut incoming = Vec::new();
    let names: Vec<String> = (0..count).map(|k| format!("out{}", k)).collect();
    for (k, (_, arithmetic)) in arms.iter().enumerate() {
        match arithmetic {
            Some((operation, amount)) => {
                let target = format!("t{}", k);
                blocks.push(block_of(
                    &format!("arm{}", k),
                    vec![
                        checked(&target, operation, ty, reg("x", ty), lit(amount, ty)),
                        vec![branch_if(
                            &format!("{}.o", target),
                            &format!("overflow{}", k),
                            &names[k],
                        )],
                    ],
                ));
                blocks.push(block(&names[k], vec![branch("join")]));
                blocks.push(panic_block(&format!("overflow{}", k)));
                incoming.push((value(&format!("{}.v", target), ty), names[k].as_str()));
            }
            None => {
                blocks.push(block(&format!("arm{}", k), vec![branch(&names[k])]));
                blocks.push(block(&names[k], vec![branch("join")]));
                incoming.push((value("x", ty), names[k].as_str()));
            }
        }
    }
    blocks.push(block("join", vec![phi("r", ty, incoming), ret(reg("r", ty))]));
    function(name, vec![value("x", ty)], vec![blocks])
}

fn safe_switch() -> Function {
    switch_function(
        "test_safe_switch",
        I32,
        vec![
            ("1", None),
            ("2", Some(("sadd", "3"))),
            ("2147483647", None),
            ("", Some(("sadd", "1"))),
        ],
    )
}

fn unsafe_switch() -> Function {
    switch_function(
        "test_unsafe_switch",
        IrType::Int(64),
        vec![
            ("1", None),
            ("2", Some(("sadd", "4"))),
            ("3", Some(("sadd", "1"))),
            ("", Some(("ssub", "1"))),
        ],
    )
}

#[test]
fn tests_test_safe_switch() {
    assert_eq!(is_safe(vec![safe_switch()], "test_safe_switch"), Some(true));
}

#[test]
fn test5_switch_test_safe_switch() {
    assert_eq!(is_safe(vec![safe_switch()], "test_safe_switch"), Some(true));
}

#[test]
fn tests_test_unsafe_switch() {
    assert_eq!(is_safe(vec![unsafe_switch()], "test_unsafe_switch"), Some(false));
}

#[test]
fn test5_switch_test_unsafe_switch() {
    let r = report(vec![unsafe_switch()], "test_unsafe_switch", vec![("x", IrType::Int(64))]);
    assert_eq!(r.verdict, Verdict::Unsafe);
    assert_eq!(r.counterexample[0].value, Some(ModelValue::Int(i64::MIN)));
}

/// `r_k = if c_k { v_k } else { 0 }` for each `k`, the sum of all `r_k`,
/// `assert!(r >= 0)`.
fn sequential_branches(name: &str, values: Vec<&str>) -> Function {
    let count = values.len();
    let mut start = Vec::new();
    for (k, v) in values.iter().enumerate() {
        start.push(select(
            &format!("r{}", k + 1),
            &format!("c{}", k + 1),
            I32,
            lit(v, I32),
            lit("0", I32),
        ));
    }
    let mut blocks = Vec::new();
    let mut current = "start".to_string();
    let mut instructions = start;
    let mut sum = "r1".to_string();
    for k in 2..=count {
        let target = format!("s{}", k);
        instructions.extend(checked(
            &target,
            "sadd",
            I32,
            reg(&sum, I32),
            reg(&format!("r{}", k), I32),
        ));
        instructions.push(branch_if(
            &format!("{}.o", target),
            &format!("overflow{}", k),
            &format!("next{}", k),
        ));
        blocks.push(block(&current, instructions));
        blocks.push(panic_block(&format!("overflow{}", k)));
        current = format!("next{}", k);
        instructions = Vec::new();
        sum = format!("{}.v", target);
    }
    instructions.push(icmp("ok", IntPredicate::SGE, reg(&sum, I32), lit("0", I32)));
    instructions.push(branch("check"));
    blocks.push(block(&current, instructions));
    function(
        name,
        (1..=count).map(|k| value(&format!("c{}", k), BOOL)).collect(),
        vec![blocks, assert_then_return("ok", Some(reg(&sum, I32)))],
    )
}

#[test]
fn test_safe_sequential_branch_1() {
    let name = "test_safe_sequential_branch_1";
    assert_eq!(is_safe(vec![sequential_branches(name, vec!["1"])], name), Some(true));
}

#[test]
fn test_safe_sequential_branch_2() {
    let name = "test_safe_sequential_branch_2";
    assert_eq!(is_safe(vec![sequential_branches(name, vec!["1", "2"])], name), Some(true));
}

#[test]
fn test_safe_sequential_branch_5() {
    let name = "test_safe_sequential_branch_5";
    assert_eq!(
        is_safe(vec![sequential_branches(name, vec!["1", "2", "4", "8", "16"])], name),
        Some(true)
    );
}

#[test]
fn test_unsafe_sequential_branch_1() {
    let name = "test_unsafe_sequential_branch_1";
    assert_eq!(is_safe(vec![sequential_branches(name, vec!["-1"])], name), Some(false));
}

#[test]
fn test_unsafe_sequential_branch_2() {
    let name = "test_unsafe_sequential_branch_2";
    assert_eq!(is_safe(vec![sequential_branches(name, vec!["-1", "2"])], name), Some(false));
}

#[test]
fn test_unsafe_sequential_branch_5() {
    let name = "test_unsafe_sequential_branch_5";
    let f = sequential_branches(name, vec!["-1", "2", "-4", "8", "-16"]);
    assert_eq!(is_safe(vec![f], name), Some(false));
}

/// `let mut r = 0; if c1 { r -= 1; } if c2 { r += 2; } assert!(r >= 0); r`
fn tricky_phi() -> Function {
    function(
        "test_unsafe_tricky_phi",
        vec![value("c1", BOOL), value("c2", BOOL)],
        vec![
            vec![
                block("start", vec![branch_if("c1", "less", "first")]),
                block_of(
                    "less",
                    vec![
                        checked("a", "ssub", I32, lit("0", I32), lit("1", I32)),
                        vec![branch_if("a.o", "overflow1", "lessened")],
                    ],
                ),
                block("lessened", vec![branch("first")]),
                block(
                    "first",
                    vec![
                        phi(
                            "r1",
                            I32,
                            vec![(literal("0", I32), "start"), (value("a.v", I32), "lessened")],
                        ),
                        branch_if("c2", "more", "second"),
                    ],
                ),
                block_of(
                    "more",
                    vec![
                        checked("b", "sadd", I32, reg("r1", I32), lit("2", I32)),
                        vec![branch_if("b.o", "overflow2", "grown")],
                    ],
                ),
                block("grown", vec![branch("second")]),
                block(
                    "second",
                    vec![
                        phi(
                            "r2",
                            I32,
                            vec![(value("r1", I32), "first"), (value("b.v", I32), "grown")],
                        ),
                        icmp("ok", IntPredicate::SGE, reg("r2", I32), lit("0", I32)),
                        branch("check"),
                    ],
                ),
                panic_block("overflow1"),
                panic_block("overflow2"),
            ],
            assert_then_return("ok", Some(reg("r2", I32))),
        ],
    )
}

#[test]
fn test_unsafe_tricky_phi() {
    assert_eq!(is_safe(vec![tricky_phi()], "test_unsafe_tricky_phi"), Some(false));
    let r = report(vec![tricky_phi()], "test_unsafe_tricky_phi", vec![("c1", BOOL), ("c2", BOOL)]);
    assert_eq!(r.verdict, Verdict::Unsafe);
    assert_eq!(r.counterexample[0].value, Some(ModelValue::Bool(true)));
    assert_eq!(r.counterexample[1].value, Some(ModelValue::Bool(false)));
}

/// `assert!(x || !x);`, with the choice between the two operands made by a select.
fn bool_params() -> Function {
    function(
        "test_safe_bool_params",
        vec![value("x", BOOL)],
        vec![
            vec![block(
                "start",
                vec![
                    not("negated", "x"),
                    select("ok", "x", BOOL, lit("true", BOOL), reg("negated", BOOL)),
                    branch("check"),
                ],
            )],
            assert_then_return("ok", None),
        ],
    )
}

#[test]
fn tests_test_safe_bool_params() {
    assert_eq!(is_safe(vec![bool_params()], "test_safe_bool_params"), Some(true));
}

#[test]
fn test6_bool_params_test_safe_bool_params() {
    assert_eq!(is_safe(vec![bool_params()], "test_safe_bool_params"), Some(true));
}

/// `fn(y: f32) { assert!(y == 0.0); }`: the comparison of floats has no encoding.
#[test]
fn test_unsafe_float_params() {
    let f = function(
        "test_unsafe_float_params",
        vec![value("y", IrType::Other)],
        vec![
            vec![block(
                "start",
                vec![
                    instruction(
                        Opcode::Other,
                        "  %ok = fcmp oeq float %y, 0.000000e+00".to_string(),
                        BOOL,
                        vec![reg("y", IrType::Other), lit("0.000000e+00", IrType::Other)],
                    ),
                    branch("check"),
                ],
            )],
            assert_then_return("ok", None),
        ],
    );
    assert_eq!(is_safe(vec![f], "test_unsafe_float_params"), Some(false));
}

/// `fn f(n: i32) -> i32 { f(n) }`
#[test]
fn recursion_is_unknown() {
    let f = || {
        function(
            "f",
            vec![value("n", I32)],
            vec![vec![block(
                "start",
                vec![call("r", I32, &symbol("f"), vec![reg("n", I32)]), ret(reg("r", I32))],
            )]],
        )
    };
    assert_eq!(is_safe(vec![f()], "f"), Some(false));
    let r = report(vec![f()], "f", vec![("n", I32)]);
    assert_eq!(r.verdict, Verdict::Unknown);
    assert!(r.counterexample.is_empty());
    assert_eq!(r.warnings, vec![Warning::RecursiveCall]);
}

#[test]
fn cycle_is_unknown() {
    let f = || {
        function(
            "spin",
            vec![],
            vec![vec![
                block("start", vec![branch("again")]),
                block("again", vec![branch("again")]),
            ]],
        )
    };
    assert_eq!(is_safe(vec![f()], "spin"), Some(false));
    let r = report(vec![f()], "spin", vec![]);
    assert_eq!(r.verdict, Verdict::Unknown);
    assert_eq!(r.warnings, vec![Warning::CyclicCfg]);
}

#[test]
fn unsupported_terminator_is_unknown() {
    let f = function(
        "odd",
        vec![],
        vec![vec![block(
            "start",
            vec![instruction(Opcode::Resume, "  resume".to_string(), IrType::Other, vec![])],
        )]],
    );
    let r = report(vec![f], "odd", vec![]);
    assert_eq!(r.verdict, Verdict::Unknown);
    assert_eq!(r.warnings, vec![Warning::UnsupportedTerminator, Warning::UnsupportedOpcode]);
}

#[test]
fn declaration_is_unknown() {
    let f = function("nothing", vec![value("x", I32)], vec![]);
    assert_eq!(report(vec![f], "nothing", vec![("x", I32)]).verdict, Verdict::Unknown);
}

#[test]
fn missing_function_gives_no_verdict() {
    assert_eq!(is_safe(vec![abs_function("abs", 32)], "nothing_like_it"), None);
    let module = module_of(vec![abs_function("abs", 32)]);
    assert_eq!(verify_function(&module, "nothing_like_it", &vec![]), None);
}

/// The function as the compiler emits it: the parameter has no name, and
/// is stored in the slot of the variable of the source.
fn unpromoted_abs(name: &str) -> Function {
    let mut f = abs_function(name, 32);
    f.params = vec![Value { text: "i32 %0".to_string(), name: String::new(), ty: I32 }];
    f.blocks[0].instructions.insert(
        0,
        instruction(
            Opcode::Store,
            "  store i32 %0, i32* %x, align 4".to_string(),
            IrType::Other,
            vec![Operand::Value(value("0", I32)), reg("x", IrType::Pointer)],
        ),
    );
    f
}

#[test]
fn parameter_without_a_name_is_reported_under_the_name_of_its_slot() {
    let unpromoted = module_of(vec![unpromoted_abs("abs")]);
    let mut promoted = module_of(vec![abs_function("abs", 32)]);
    promoted.functions[0].params[0] =
        Value { text: "i32 %0".to_string(), name: String::new(), ty: I32 };
    for block in &mut promoted.functions[0].blocks {
        for instruction in &mut block.instructions {
            for operand in &mut instruction.operands {
                if *operand == reg("x", I32) {
                    *operand = reg("0", I32);
                }
            }
            for incoming in &mut instruction.incoming {
                if incoming.value == value("x", I32) {
                    incoming.value = value("0", I32);
                }
            }
        }
    }
    let r = verify_promoted(&unpromoted, &mut promoted, "abs").unwrap();
    assert_eq!(r.verdict, Verdict::Unsafe);
    assert_eq!(r.counterexample.len(), 1);
    assert_eq!(r.counterexample[0].name, "%x");
    assert_eq!(r.counterexample[0].value, Some(ModelValue::Int(i32::MIN as i64)));
    assert_eq!(verify_promoted(&unpromoted, &mut promoted, "missing"), None);
    let empty = module_of(vec![]);
    assert_eq!(verify_promoted(&empty, &mut promoted, "abs"), None);
}

#[test]
fn report_holds_the_query_with_one_definition_of_the_common_end() {
    let r = report(vec![abs_function("abs", 32)], "abs", vec![("x", I32)]);
    let end = Formula::Const("common_end_node".to_string());
    let definition = Formula::Iff(
        Box::new(Formula::Const("common_end_node".to_string())),
        Box::new(Formula::Not(Box::new(Formula::Const("is_panic".to_string())))),
    );
    assert_eq!(r.query.iter().filter(|a| **a == definition).count(), 1);
    let defined = r
        .query
        .iter()
        .filter(|a| match a {
            Formula::Iff(l, _) => **l == end,
            _ => false,
        })
        .count();
    assert_eq!(defined, 1);

    let mut module = module_of(vec![abs_function("abs", 32)]);
    resolve_phi_to_dsa(&mut module);
    let mut query = Query::new();
    assert!(backward_symbolic_execution(&module, &module.functions[0], &mut query, ""));
    assert!(!r.query.is_empty());
    assert_eq!(r.query, query.assertions);
}
