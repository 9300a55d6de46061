use wombat_symx::control_flow_graph::{
    backward_topological_sort, block_successors, find_entry, forward_topological_sort,
    get_backward_edges, get_forward_edges, has_known_successors, NodeEdges,
};
use wombat_symx::ir::{BasicBlock, Function, Instruction, IrType, Opcode, Operand, Value};

fn terminator(opcode: Opcode, operands: Vec<Operand>) -> Instruction {
    Instruction {
        opcode,
        text: String::new(),
        ty: IrType::Other,
        operands,
        predicate: None,
        incoming: Vec::new(),
    }
}

fn to(name: &str) -> Operand {
    Operand::Block(name.to_string())
}

fn condition() -> Operand {
    Operand::Value(Value { text: "i1 %c".to_string(), name: "c".to_string(), ty: IrType::Int(1) })
}

fn case(v: &str) -> Operand {
    Operand::Value(Value { text: format!("i32 {}", v), name: String::new(), ty: IrType::Int(32) })
}

fn block(name: &str, last: Instruction) -> BasicBlock {
    BasicBlock { name: name.to_string(), instructions: vec![last] }
}

fn function(blocks: Vec<BasicBlock>) -> Function {
    Function { name: "f".to_string(), params: Vec::new(), blocks }
}

fn edges(pairs: Vec<(&str, Vec<&str>)>) -> Vec<NodeEdges> {
    pairs
        .into_iter()
        .map(|(node, targets)| NodeEdges {
            node: node.to_string(),
            targets: targets.into_iter().map(|t| t.to_string()).collect(),
        })
        .collect()
}

/// start -> (a | b); a -> join; b -> join | panic; join -> return
fn diamond() -> Function {
    function(vec![
        block("start", terminator(Opcode::Br, vec![condition(), to("b"), to("a")])),
        block("a", terminator(Opcode::Br, vec![to("join")])),
        block("b", terminator(Opcode::Br, vec![condition(), to("join"), to("panic")])),
        block("join", terminator(Opcode::Return, vec![])),
        block("panic", terminator(Opcode::Unreachable, vec![])),
    ])
}

#[test]
fn forward_edges_follow_the_terminators() {
    assert_eq!(
        get_forward_edges(&diamond(), "", "end"),
        edges(vec![
            ("start", vec!["b", "a"]),
            ("a", vec!["join"]),
            ("b", vec!["join", "panic"]),
            ("join", vec!["end"]),
            ("panic", vec!["common_end_node"]),
        ])
    );
}

#[test]
fn forward_edges_take_the_namespace() {
    assert_eq!(
        get_forward_edges(&diamond(), "_%3.", "_%3"),
        edges(vec![
            ("_%3.start", vec!["_%3.b", "_%3.a"]),
            ("_%3.a", vec!["_%3.join"]),
            ("_%3.b", vec!["_%3.join", "_%3.panic"]),
            ("_%3.join", vec!["_%3"]),
            ("_%3.panic", vec!["common_end_node"]),
        ])
    );
}

#[test]
fn switch_leads_to_default_and_cases_once_each() {
    let f = function(vec![block(
        "start",
        terminator(
            Opcode::Switch,
            vec![condition(), to("d"), case("1"), to("x"), case("2"), to("d"), case("3"), to("x")],
        ),
    )]);
    assert_eq!(get_forward_edges(&f, "", "end"), edges(vec![("start", vec!["d", "x"])]));
}

#[test]
fn branch_to_one_block_twice_is_one_edge() {
    let f = function(vec![block(
        "start",
        terminator(Opcode::Br, vec![condition(), to("a"), to("a")]),
    )]);
    assert_eq!(get_forward_edges(&f, "", "end"), edges(vec![("start", vec!["a"])]));
}

#[test]
fn other_terminators_have_no_edges() {
    for opcode in [
        Opcode::IndirectBr,
        Opcode::Invoke,
        Opcode::CallBr,
        Opcode::Resume,
        Opcode::CatchSwitch,
        Opcode::CatchRet,
        Opcode::CleanupRet,
    ] {
        let b = block("start", terminator(opcode, vec![to("a")]));
        assert!(!has_known_successors(&b));
        assert!(block_successors(&b, "", "end").is_empty());
    }
    let no_terminator = block("start", terminator(Opcode::Load, vec![]));
    assert!(!has_known_successors(&no_terminator));
    let empty = BasicBlock { name: "start".to_string(), instructions: vec![] };
    assert!(!has_known_successors(&empty));
    let two = block("start", terminator(Opcode::Br, vec![to("a"), to("b")]));
    assert!(!has_known_successors(&two));
    assert!(block_successors(&two, "", "end").is_empty());
    assert!(has_known_successors(&block("s", terminator(Opcode::Return, vec![]))));
    assert!(has_known_successors(&block("s", terminator(Opcode::Switch, vec![]))));
}

#[test]
fn backward_edges_reverse_the_forward_edges() {
    assert_eq!(
        get_backward_edges(&diamond(), "", "end"),
        edges(vec![
            ("start", vec![]),
            ("a", vec!["start"]),
            ("b", vec!["start"]),
            ("join", vec!["a", "b"]),
            ("panic", vec!["b"]),
        ])
    );
}

#[test]
fn return_target_that_is_a_block_gets_a_backward_edge() {
    let edges_back = get_backward_edges(&diamond(), "", "start");
    assert_eq!(edges_back[0].targets, vec!["join"]);
}

#[test]
fn topological_order_puts_predecessors_first() {
    assert_eq!(
        forward_topological_sort(&diamond(), "", "end"),
        vec!["start", "a", "b", "join", "panic"]
    );
    assert_eq!(
        backward_topological_sort(&diamond(), "", "end"),
        vec!["panic", "join", "b", "a", "start"]
    );
    assert_eq!(
        forward_topological_sort(&diamond(), "n.", "end"),
        vec!["n.start", "n.a", "n.b", "n.join", "n.panic"]
    );
}

#[test]
fn topological_order_takes_several_sweeps() {
    let f = function(vec![
        block("c", terminator(Opcode::Return, vec![])),
        block("b", terminator(Opcode::Br, vec![to("c")])),
        block("a", terminator(Opcode::Br, vec![to("b")])),
    ]);
    assert_eq!(forward_topological_sort(&f, "", "end"), vec!["a", "b", "c"]);
    assert_eq!(backward_topological_sort(&f, "", "end"), vec!["c", "b", "a"]);
}

#[test]
fn cycle_leaves_its_blocks_and_those_behind_out() {
    let f = function(vec![
        block("start", terminator(Opcode::Br, vec![to("head")])),
        block("head", terminator(Opcode::Br, vec![condition(), to("exit"), to("body")])),
        block("body", terminator(Opcode::Br, vec![to("head")])),
        block("exit", terminator(Opcode::Return, vec![])),
    ]);
    assert_eq!(forward_topological_sort(&f, "", "end"), vec!["start"]);
    let own = function(vec![block("start", terminator(Opcode::Br, vec![to("start")]))]);
    assert!(forward_topological_sort(&own, "", "end").is_empty());
    assert!(forward_topological_sort(&function(vec![]), "", "end").is_empty());
}

#[test]
fn entries_are_found_by_node() {
    let forward = get_forward_edges(&diamond(), "", "end");
    assert_eq!(find_entry(&forward, "b"), Some(2));
    assert_eq!(find_entry(&forward, "end"), None);
}

#[test]
fn order_of_the_blocks_is_the_same_in_every_namespace() {
    let plain = forward_topological_sort(&diamond(), "", "common_end_node");
    let inlined = forward_topological_sort(&diamond(), "_%y.", "_%y");
    assert_eq!(plain.len(), 5);
    assert_eq!(inlined.len(), 5);
    for (a, b) in plain.iter().zip(inlined.iter()) {
        assert_eq!(format!("_%y.{}", a), *b);
    }
    let looping = function(vec![
        block("start", terminator(Opcode::Br, vec![to("head")])),
        block("head", terminator(Opcode::Br, vec![to("head")])),
    ]);
    assert_eq!(forward_topological_sort(&looping, "", "common_end_node").len(), 1);
    assert_eq!(forward_topological_sort(&looping, "_%y.", "_%y").len(), 1);
}

#[test]
fn return_target_with_the_name_of_a_block_makes_a_cycle() {
    assert_eq!(forward_topological_sort(&diamond(), "", "start").len(), 0);
    assert_eq!(forward_topological_sort(&diamond(), "", "end").len(), 5);
}
