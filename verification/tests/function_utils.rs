use wombat_symx::ir::{BasicBlock, Function, Instruction, IrType, Module, Opcode, Operand, Value};
use wombat_symx::query::Query;
use wombat_symx::utils::function_utils::{
    find_function, get_all_function_argument_names, get_function_argument_names,
    get_function_by_name, get_function_name, is_target, ArgumentName,
};

const I32: IrType = IrType::Int(32);

fn function(symbol: &str) -> Function {
    Function { name: symbol.to_string(), params: Vec::new(), blocks: Vec::new() }
}

fn module() -> Module {
    Module {
        name: "demo.bc".to_string(),
        functions: vec![
            function("llvm.sadd.with.overflow.i32"),
            function("_ZN4demo3abs17h0123456789abcdefE"),
            function("_ZN4demo7abs_neg17h0123456789abcdefE"),
            function("main"),
        ],
    }
}

#[test]
fn readable_names_are_demangled() {
    assert_eq!(get_function_name("_ZN3foo3barE"), "foo::bar");
    assert_eq!(
        get_function_name("_ZN4demo3abs17h0123456789abcdefE"),
        "demo::abs::h0123456789abcdef"
    );
    assert_eq!(get_function_name("llvm.expect.i1"), "llvm.expect.i1");
    assert_eq!(get_function_name("main"), "main");
    assert_eq!(get_function_name(""), "");
}

#[test]
fn function_is_found_by_the_beginning_of_its_readable_name() {
    let m = module();
    assert_eq!(find_function(&m, "demo::abs"), Some(1));
    assert_eq!(find_function(&m, "demo::abs_neg"), Some(2));
    assert_eq!(find_function(&m, "demo::abs::h0123456789abcdef"), Some(1));
    assert_eq!(find_function(&m, "abs"), None);
    assert_eq!(find_function(&m, "::abs"), None);
    assert_eq!(find_function(&m, "main"), Some(3));
    assert_eq!(find_function(&m, "llvm."), Some(0));
    assert_eq!(find_function(&m, ""), Some(0));
    assert_eq!(find_function(&m, "demo::missing"), None);
    assert_eq!(find_function(&m, "_ZN4demo"), None);
    assert_eq!(
        get_function_by_name(&m, "demo::abs_neg").map(|f| f.name.as_str()),
        Some("_ZN4demo7abs_neg17h0123456789abcdefE")
    );
    assert!(get_function_by_name(&m, "nothing").is_none());
    assert!(is_target("demo::abs::h01", "demo::abs"));
    assert!(is_target("demo::abs", "demo::abs"));
    assert!(!is_target("demo::abs", "demo::abs::h01"));
    assert!(!is_target("<demo::abs as core::ops::Drop>::drop", "demo::abs"));
}

#[test]
fn name_that_holds_the_target_further_in_is_passed_over() {
    let m = Module {
        name: "demo.bc".to_string(),
        functions: vec![
            function("_ZN4core3ptr9demo..abs17h0123456789abcdefE"),
            function("_ZN4demo3abs17h0123456789abcdefE"),
        ],
    };
    assert_eq!(get_function_name(m.functions[0].name.as_str()), "core::ptr::demo::abs::h0123456789abcdef");
    assert_eq!(find_function(&m, "demo::abs"), Some(1));
    assert_eq!(find_function(&m, "core::ptr"), Some(0));
}

fn unnamed(index: u32) -> Value {
    Value { text: format!("i32 %{}", index), name: String::new(), ty: I32 }
}

fn named(name: &str, ty: IrType) -> Value {
    Value { text: format!("i32 %{}", name), name: name.to_string(), ty }
}

fn store(value: &str, slot: &str) -> Instruction {
    Instruction {
        opcode: Opcode::Store,
        text: format!("  store i32 %{}, i32* %{}, align 4", value, slot),
        ty: IrType::Other,
        operands: vec![
            Operand::Value(named(value, I32)),
            Operand::Value(Value {
                text: format!("  %{} = alloca i32, align 4", slot),
                name: slot.to_string(),
                ty: IrType::Pointer,
            }),
        ],
        predicate: None,
        incoming: Vec::new(),
    }
}

fn argument(source: &str, smt: &str, ty: IrType) -> ArgumentName {
    ArgumentName { source_name: source.to_string(), smt_name: smt.to_string(), ty }
}

#[test]
fn named_parameter_is_listed_under_its_own_name() {
    let mut f = function("f");
    f.params = vec![named("x", I32), named("flag", IrType::Int(1))];
    let mut solver = Query::new();
    assert_eq!(
        get_function_argument_names(&f, &mut solver, "n."),
        vec![argument("n.%x", "n.%x", I32), argument("n.%flag", "n.%flag", IrType::Int(1))]
    );
    assert!(solver.assertions.is_empty());
}

#[test]
fn unnamed_parameter_is_listed_under_the_slot_that_it_is_stored_in() {
    let mut f = function("f");
    f.params = vec![unnamed(0), unnamed(1), named("z", I32)];
    f.blocks = vec![BasicBlock {
        name: "start".to_string(),
        instructions: vec![
            Instruction {
                opcode: Opcode::Alloca,
                text: "  %x = alloca i32, align 4".to_string(),
                ty: IrType::Pointer,
                operands: Vec::new(),
                predicate: None,
                incoming: Vec::new(),
            },
            store("1", "y"),
            store("0", "x"),
            store("7", "w"),
        ],
    }];
    let mut solver = Query::new();
    assert_eq!(
        get_function_argument_names(&f, &mut solver, ""),
        vec![argument("%x", "%0", I32), argument("%y", "%1", I32), argument("%z", "%z", I32)]
    );
}

#[test]
fn listing_stops_at_an_unnamed_parameter_of_a_function_without_blocks() {
    let mut f = function("f");
    f.params = vec![named("a", I32), unnamed(0), named("b", I32)];
    let mut solver = Query::new();
    assert_eq!(get_function_argument_names(&f, &mut solver, ""), vec![argument("%a", "%a", I32)]);
}

#[test]
fn all_functions_are_listed_by_readable_name() {
    let mut m = module();
    m.functions[1].params = vec![named("x", I32)];
    let mut solver = Query::new();
    let all = get_all_function_argument_names(&m, &mut solver, "");
    assert_eq!(all.len(), 4);
    assert_eq!(all[0], ("llvm.sadd.with.overflow.i32".to_string(), vec![]));
    assert_eq!(
        all[1],
        ("demo::abs::h0123456789abcdef".to_string(), vec![argument("%x", "%x", I32)])
    );
    assert_eq!(all[3], ("main".to_string(), vec![]));
}
