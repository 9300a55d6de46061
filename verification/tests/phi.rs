use wombat_symx::ir::{
    BasicBlock, Function, Incoming, Instruction, IrType, Module, Opcode, Operand, Value,
};
use wombat_symx::control_flow_graph::{get_backward_edges, get_forward_edges};
use wombat_symx::utils::resolve_phi::{
    make_marked_alloca, make_marked_slot, make_marked_store, resolve_phi, unphi_block,
    MAGIC_STRING_TERMINATOR,
};
use wombat_symx::utils::resolve_phi_to_dsa::{
    block_has_phi, get_phi_variable, make_alloca, make_jump, make_load, make_slot, make_store,
    resolve_block, resolve_function, resolve_phi_to_dsa,
};

const I32: IrType = IrType::Int(32);

fn value(name: &str) -> Value {
    Value { text: format!("i32 %{}", name), name: name.to_string(), ty: I32 }
}

fn instruction(opcode: Opcode, text: &str, operands: Vec<Operand>) -> Instruction {
    Instruction {
        opcode,
        text: text.to_string(),
        ty: IrType::Other,
        operands,
        predicate: None,
        incoming: Vec::new(),
    }
}

fn to(name: &str) -> Operand {
    Operand::Block(name.to_string())
}

fn condition() -> Operand {
    Operand::Value(Value { text: "i1 %c".to_string(), name: "c".to_string(), ty: IrType::Int(1) })
}

fn jump(target: &str) -> Instruction {
    instruction(Opcode::Br, "  br", vec![to(target)])
}

fn phi(target: &str, incoming: Vec<(&str, &str)>) -> Instruction {
    Instruction {
        opcode: Opcode::Phi,
        text: format!("  %{} = phi i32 [ %a, %x ], [ %b, %y ]", target),
        ty: I32,
        operands: Vec::new(),
        predicate: None,
        incoming: incoming
            .into_iter()
            .map(|(v, b)| Incoming { value: value(v), block: b.to_string() })
            .collect(),
    }
}

fn block(name: &str, instructions: Vec<Instruction>) -> BasicBlock {
    BasicBlock { name: name.to_string(), instructions }
}

fn ret() -> Instruction {
    instruction(Opcode::Return, "  ret void", vec![])
}

/// start -> (left | join); left -> join; join holds two phis.
fn joining() -> Function {
    Function {
        name: "f".to_string(),
        params: vec![value("p")],
        blocks: vec![
            block(
                "start",
                vec![
                    instruction(Opcode::Other, "  %a = add", vec![]),
                    instruction(Opcode::Br, "  br", vec![condition(), to("join"), to("left")]),
                ],
            ),
            block("left", vec![jump("join")]),
            block(
                "join",
                vec![
                    phi("r", vec![("a", "start"), ("b", "left")]),
                    phi("s", vec![("c", "left"), ("d", "start")]),
                    ret(),
                ],
            ),
        ],
    }
}

fn resolved_joining() -> Function {
    Function {
        name: "f".to_string(),
        params: vec![value("p")],
        blocks: vec![
            block(
                "start",
                vec![
                    make_alloca("s"),
                    make_alloca("r"),
                    instruction(Opcode::Other, "  %a = add", vec![]),
                    instruction(
                        Opcode::Br,
                        "  br",
                        vec![condition(), to("start_join"), to("left")],
                    ),
                ],
            ),
            block("left", vec![jump("left_join")]),
            block("join", vec![make_load("r", I32), make_load("s", I32), ret()]),
            block(
                "start_join",
                vec![
                    make_store(&value("a"), "r"),
                    make_store(&value("d"), "s"),
                    make_jump("join"),
                ],
            ),
            block(
                "left_join",
                vec![
                    make_store(&value("b"), "r"),
                    make_store(&value("c"), "s"),
                    make_jump("join"),
                ],
            ),
        ],
    }
}

#[test]
fn instructions_for_a_slot() {
    assert_eq!(
        make_slot("r"),
        Value { text: "%r_ptr".to_string(), name: "r_ptr".to_string(), ty: IrType::Pointer }
    );
    let alloca = make_alloca("r");
    assert_eq!(alloca.opcode, Opcode::Alloca);
    assert_eq!(alloca.text, "  %r_ptr = alloca");
    assert!(alloca.operands.is_empty());
    let load = make_load("r", I32);
    assert_eq!(load.opcode, Opcode::Load);
    assert_eq!(load.text, "  %r = load %r_ptr");
    assert_eq!(load.ty, I32);
    assert_eq!(load.operands, vec![Operand::Value(make_slot("r"))]);
    let store = make_store(&value("a"), "r");
    assert_eq!(store.opcode, Opcode::Store);
    assert_eq!(store.text, "  store i32 %a, %r_ptr");
    assert_eq!(store.operands, vec![Operand::Value(value("a")), Operand::Value(make_slot("r"))]);
    let jump = make_jump("join");
    assert_eq!(jump.opcode, Opcode::Br);
    assert_eq!(jump.text, "  br label %join");
    assert_eq!(jump.operands, vec![to("join")]);
}

#[test]
fn phi_variable_is_the_first_register_without_its_percent() {
    assert_eq!(get_phi_variable("  %r = phi i32 [ %a, %x ]"), "r");
    assert_eq!(get_phi_variable("%r.1,"), "r.1");
    assert_eq!(get_phi_variable("%"), "");
    assert_eq!(get_phi_variable("no register"), "");
    assert_eq!(get_phi_variable(""), "");
}

#[test]
fn each_phi_becomes_a_slot() {
    let mut f = joining();
    assert!(block_has_phi(&f.blocks[2]));
    assert!(!block_has_phi(&f.blocks[0]));
    resolve_function(&mut f);
    assert_eq!(f, resolved_joining());
    for b in &f.blocks {
        assert!(!block_has_phi(b));
    }
}

#[test]
fn block_without_a_phi_is_left_alone() {
    let mut f = joining();
    resolve_block(&mut f, 0);
    assert_eq!(f, joining());
    resolve_block(&mut f, 1);
    assert_eq!(f, joining());
    resolve_block(&mut f, 2);
    assert_eq!(f, resolved_joining());
}

#[test]
fn second_run_changes_nothing() {
    let mut module = Module { name: "m".to_string(), functions: vec![joining(), joining()] };
    resolve_phi_to_dsa(&mut module);
    let once = module.clone();
    assert_eq!(once.functions, vec![resolved_joining(), resolved_joining()]);
    resolve_phi_to_dsa(&mut module);
    assert_eq!(module, once);
}

#[test]
fn every_reference_of_the_predecessor_is_redirected() {
    let mut f = Function {
        name: "f".to_string(),
        params: vec![],
        blocks: vec![
            block(
                "start",
                vec![instruction(
                    Opcode::Switch,
                    "  switch",
                    vec![condition(), to("join"), condition(), to("other"), condition(), to("join")],
                )],
            ),
            block("other", vec![jump("join")]),
            block("join", vec![phi("r", vec![("a", "start"), ("b", "other")]), ret()]),
        ],
    };
    resolve_function(&mut f);
    assert_eq!(
        f.blocks[0].instructions[1].operands,
        vec![
            condition(),
            to("start_join"),
            condition(),
            to("other"),
            condition(),
            to("start_join")
        ]
    );
    assert_eq!(f.blocks[1].instructions, vec![jump("other_join")]);
    assert_eq!(f.blocks.len(), 5);
}

#[test]
fn phi_in_a_loop_head_gets_an_edge_from_its_own_block() {
    let mut f = Function {
        name: "f".to_string(),
        params: vec![],
        blocks: vec![
            block("start", vec![jump("head")]),
            block(
                "head",
                vec![
                    phi("i", vec![("zero", "start"), ("next", "head")]),
                    instruction(Opcode::Br, "  br", vec![condition(), to("exit"), to("head")]),
                ],
            ),
            block("exit", vec![ret()]),
        ],
    };
    resolve_function(&mut f);
    assert_eq!(f.blocks[0].instructions, vec![make_alloca("i"), jump("start_head")]);
    assert_eq!(
        f.blocks[1].instructions,
        vec![
            make_load("i", I32),
            instruction(Opcode::Br, "  br", vec![condition(), to("exit"), to("head_head")]),
        ]
    );
    assert_eq!(f.blocks[3].name, "start_head");
    assert_eq!(f.blocks[4].name, "head_head");
    assert_eq!(
        f.blocks[4].instructions,
        vec![make_store(&value("next"), "i"), make_jump("head")]
    );
}

#[test]
fn phi_that_names_a_block_that_is_not_there_still_gets_its_edge_block() {
    let mut f = Function {
        name: "f".to_string(),
        params: vec![],
        blocks: vec![block("only", vec![phi("r", vec![("a", "ghost")]), ret()])],
    };
    resolve_function(&mut f);
    assert_eq!(f.blocks.len(), 2);
    assert_eq!(f.blocks[0].instructions, vec![make_alloca("r"), make_load("r", I32), ret()]);
    assert_eq!(f.blocks[1].name, "ghost_only");
}

#[test]
fn edge_block_has_one_predecessor_and_one_successor() {
    let mut f = joining();
    resolve_function(&mut f);
    let forward = get_forward_edges(&f, "", "end");
    let backward = get_backward_edges(&f, "", "end");
    assert_eq!(forward[3].node, "start_join");
    assert_eq!(forward[3].targets, vec!["join"]);
    assert_eq!(backward[3].targets, vec!["start"]);
    assert_eq!(forward[4].node, "left_join");
    assert_eq!(forward[4].targets, vec!["join"]);
    assert_eq!(backward[4].targets, vec!["left"]);
    assert_eq!(backward[2].targets, vec!["start_join", "left_join"]);
}

#[test]
fn edge_block_of_a_block_that_is_not_there_has_no_predecessor() {
    let mut f = Function {
        name: "f".to_string(),
        params: vec![],
        blocks: vec![block("only", vec![phi("r", vec![("a", "ghost")]), ret()])],
    };
    resolve_function(&mut f);
    let backward = get_backward_edges(&f, "", "end");
    assert_eq!(backward[1].node, "ghost_only");
    assert!(backward[1].targets.is_empty());
}

#[test]
fn instructions_for_a_marked_slot() {
    assert_eq!(MAGIC_STRING_TERMINATOR, "WHYISLIFEPAIN");
    assert_eq!(
        make_marked_slot("r"),
        Value {
            text: "%rWHYISLIFEPAIN".to_string(),
            name: "rWHYISLIFEPAIN".to_string(),
            ty: IrType::Pointer,
        }
    );
    let alloca = make_marked_alloca("r");
    assert_eq!(alloca.opcode, Opcode::Alloca);
    assert_eq!(alloca.text, "  %rWHYISLIFEPAIN = alloca");
    let store = make_marked_store(&value("a"), "r");
    assert_eq!(store.opcode, Opcode::Store);
    assert_eq!(store.text, "  store i32 %a, %rWHYISLIFEPAIN");
    assert_eq!(
        store.operands,
        vec![Operand::Value(value("a")), Operand::Value(make_marked_slot("r"))]
    );
}

fn unphied_joining() -> Function {
    Function {
        name: "f".to_string(),
        params: vec![value("p")],
        blocks: vec![
            block(
                "start",
                vec![
                    instruction(Opcode::Other, "  %a = add", vec![]),
                    instruction(
                        Opcode::Br,
                        "  br",
                        vec![condition(), to("start_join"), to("left")],
                    ),
                ],
            ),
            block("left", vec![jump("left_join")]),
            block("join", vec![ret()]),
            block(
                "start_join",
                vec![
                    make_marked_alloca("r"),
                    make_marked_store(&value("a"), "r"),
                    make_marked_alloca("s"),
                    make_marked_store(&value("d"), "s"),
                    make_jump("join"),
                ],
            ),
            block(
                "left_join",
                vec![
                    make_marked_alloca("r"),
                    make_marked_store(&value("b"), "r"),
                    make_marked_alloca("s"),
                    make_marked_store(&value("c"), "s"),
                    make_jump("join"),
                ],
            ),
        ],
    }
}

#[test]
fn phis_are_taken_out_and_their_values_stored_on_the_edges() {
    let mut module = Module { name: "m".to_string(), functions: vec![joining()] };
    resolve_phi(&mut module);
    assert_eq!(module.functions, vec![unphied_joining()]);
    let once = module.clone();
    resolve_phi(&mut module);
    assert_eq!(module, once);
    let mut f = joining();
    unphi_block(&mut f, 0);
    assert_eq!(f, joining());
    unphi_block(&mut f, 2);
    assert_eq!(f, unphied_joining());
}
