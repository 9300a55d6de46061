//! The encoding of one basic block: a named predicate that says that no
//! panic is reached from the block.

use vstd::prelude::*;
use crate::codegen::codegen_call::depth_left;
use crate::codegen::codegen_instruction::{codegen_instruction, encode_instruction};
use crate::control_flow_graph::{edges_view, find_entry, node_name, targets_of, EdgeSet, EdgesView};
use crate::formula::{
    bool_const, bool_lit, conjunction, equivalence, implication, int_const, int_eq, mk_and,
    mk_bool_lit, mk_iff, mk_implies, mk_int_names_equal, mk_not, named_bool, negation, Formula,
    Prop, Term,
};
use crate::ir::{BasicBlock, Function, Instruction, Module, Opcode};
use crate::query::{Query, QueryState, Warning};
use crate::symbolic_execution::{COMMON_END_NODE, PANIC_VAR_NAME};
use crate::text::{concat_str, contains_string, str_eq, views};
use crate::utils::var_utils::{get_var_name, resolved, var_name};

verus! {

/// The last block among the first `k` blocks of `f` whose node is called
/// `name`, or -1 where there is none.
pub open spec fn block_named(f: Function, ns: Seq<char>, name: Seq<char>, k: int) -> int
    decreases k,
{
    if k <= 0 || k > f.blocks.len() {
        -1
    } else if node_name(f, k - 1, ns) == name {
        k - 1
    } else {
        block_named(f, ns, name, k - 1)
    }
}

/// The position of the block of `f` whose node is called `name`.
pub open spec fn block_index(f: Function, ns: Seq<char>, name: Seq<char>) -> Option<int> {
    if block_named(f, ns, name, f.blocks.len() as int) >= 0 {
        Some(block_named(f, ns, name, f.blocks.len() as int))
    } else {
        None
    }
}

/// Finds the position of the block of `function` whose node is called `name`.
pub fn find_block(function: &Function, name: &str, namespace: &str) -> (r: Option<usize>)
    ensures
        r is Some == block_index(*function, namespace@, name@) is Some,
        r matches Some(i) ==> i < function.blocks.len() && block_index(
            *function,
            namespace@,
            name@,
        ) == Some(i as int),
{
    let mut k: usize = function.blocks.len();
    while k > 0
        invariant
            k <= function.blocks.len(),
            block_named(*function, namespace@, name@, function.blocks.len() as int)
                == block_named(*function, namespace@, name@, k as int),
        decreases k,
    {
        let node = concat_str(namespace, function.blocks[k - 1].name.as_str());
        if str_eq(node.as_str(), name) {
            return Some(k - 1);
        }
        k = k - 1;
    }
    None
}

/// Finds the block of `function` whose node is called `name`.
pub fn get_basic_block_by_name<'a>(function: &'a Function, name: &str, namespace: &str) -> (r:
    Option<&'a BasicBlock>)
    ensures
        r is Some == block_index(*function, namespace@, name@) is Some,
        r matches Some(b) ==> *b == function.blocks[block_index(
            *function,
            namespace@,
            name@,
        )->Some_0],
{
    match find_block(function, name, namespace) {
        Some(i) => Some(&function.blocks[i]),
        None => None,
    }
}

/// Whether a block ends in a panic: yes where its terminator is
/// `unreachable`, no where it is a return, a branch or a switch; not known
/// for any other terminator and for a block without one.
pub open spec fn panic_status(b: BasicBlock) -> Option<bool> {
    if !b.has_terminator() {
        None
    } else {
        match b.terminator().opcode {
            Opcode::Return | Opcode::Br | Opcode::Switch => Some(false),
            Opcode::Unreachable => Some(true),
            _ => None,
        }
    }
}

/// Tells whether the block `bb` ends in a panic.
pub fn is_panic_block(bb: &BasicBlock) -> (r: Option<bool>)
    ensures
        r == panic_status(*bb),
{
    match bb.get_terminator() {
        None => None,
        Some(t) => match t.opcode {
            Opcode::Return | Opcode::Br | Opcode::Switch => Some(false),
            Opcode::Unreachable => Some(true),
            _ => None,
        },
    }
}

/// The first odd operand of the switch `t`, at or after position `k`, that
/// is the block whose node is called `node`; the number of operands where
/// there is none.
pub open spec fn case_of(t: Instruction, ns: Seq<char>, node: Seq<char>, k: int) -> int
    decreases t.operands.len() - k,
{
    if k < 0 || k >= t.operands.len() {
        t.operands.len() as int
    } else if k % 2 == 1 && t.has_block(k) && ns + t.block(k) == node {
        k
    } else {
        case_of(t, ns, node, k + 1)
    }
}

/// The condition under which the switch `t` on the integer named `d` takes
/// its default, as far as the case values among its first `j` operands go:
/// `d` differs from each of them.
pub open spec fn default_condition(
    st: QueryState,
    t: Instruction,
    d: Seq<char>,
    ns: Seq<char>,
    j: int,
) -> (QueryState, Prop)
    decreases j,
{
    if j <= 2 {
        (st, bool_lit(true))
    } else if (j - 1) % 2 == 0 && t.has_value(j - 1) {
        let (st1, rest) = default_condition(st, t, d, ns, j - 1);
        (
            resolved(st1, t.value(j - 1).text@),
            conjunction(
                negation(int_eq(int_const(d), int_const(var_name(t.value(j - 1).text@, ns)))),
                rest,
            ),
        )
    } else {
        default_condition(st, t, d, ns, j - 1)
    }
}

/// The condition under which the switch `t` leads to the node `node`.
pub open spec fn switch_condition(st: QueryState, t: Instruction, node: Seq<char>, ns: Seq<char>) -> (
    QueryState,
    Prop,
) {
    if !t.has_value(0) {
        (st, bool_lit(true))
    } else {
        let st1 = resolved(st, t.value(0).text@);
        let d = var_name(t.value(0).text@, ns);
        let c = case_of(t, ns, node, 0);
        if c >= t.operands.len() || c == 1 {
            default_condition(st1, t, d, ns, t.operands.len() as int)
        } else if t.has_value(c - 1) {
            (
                resolved(st1, t.value(c - 1).text@),
                int_eq(int_const(d), int_const(var_name(t.value(c - 1).text@, ns))),
            )
        } else {
            (st1, bool_lit(true))
        }
    }
}

/// The condition under which the terminator `t` leads to the node `node`:
/// for a conditional branch, that its condition has the value that selects
/// `node`; for a switch, that its discriminant has the value of the case of
/// `node`, or none of the case values where `node` is the default; `true`
/// for every other terminator.
pub open spec fn terminator_condition(
    st: QueryState,
    t: Instruction,
    node: Seq<char>,
    ns: Seq<char>,
) -> (QueryState, Prop) {
    match t.opcode {
        Opcode::Br => if t.operands.len() == 3 && t.has_value(0) && t.has_block(1) && t.has_block(
            2,
        ) {
            (
                resolved(st, t.value(0).text@),
                equivalence(
                    bool_const(var_name(t.value(0).text@, ns)),
                    bool_lit(ns + t.block(1) != node),
                ),
            )
        } else {
            (st, bool_lit(true))
        },
        Opcode::Switch => switch_condition(st, t, node, ns),
        _ => (st, bool_lit(true)),
    }
}

/// The condition under which control passes from the block whose node is
/// called `predecessor` to the node `node`; `true` where `f` has no such
/// block or the block has no terminator.
pub open spec fn entry_condition(
    st: QueryState,
    f: Function,
    predecessor: Seq<char>,
    node: Seq<char>,
    ns: Seq<char>,
) -> (QueryState, Prop) {
    match block_index(f, ns, predecessor) {
        Some(p) => if f.blocks[p].has_terminator() {
            terminator_condition(st, f.blocks[p].terminator(), node, ns)
        } else {
            (st, bool_lit(true))
        },
        None => (st, bool_lit(true)),
    }
}

/// Builds the condition under which the switch `t` leads to the node `node`.
pub fn get_switch_condition(solver: &mut Query, t: &Instruction, node: &str, namespace: &str) -> (r:
    Term)
    ensures
        (final(solver)@, r@) == switch_condition(old(solver)@, *t, node@, namespace@),
{
    let discriminant = match t.value_operand(0) {
        Some(v) => v,
        None => {
            return mk_bool_lit(true);
        },
    };
    let d = get_var_name(discriminant.text.as_str(), solver, namespace);
    let n = t.operands.len();
    let mut c: usize = 0;
    let mut found = false;
    while c < n && !found
        invariant
            c <= n,
            n == t.operands.len(),
            case_of(*t, namespace@, node@, 0) == case_of(*t, namespace@, node@, c as int),
            found ==> c < n && c % 2 == 1 && case_of(*t, namespace@, node@, c as int) == c,
        decreases n - c + (if found { 0int } else { 1int }),
    {
        if c % 2 == 1 {
            if let Some(block) = t.block_operand(c) {
                let name = concat_str(namespace, block.as_str());
                if str_eq(name.as_str(), node) {
                    found = true;
                }
            }
        }
        if !found {
            c = c + 1;
        }
    }
    assert(c as int == case_of(*t, namespace@, node@, 0));
    assert(c < n ==> c % 2 == 1);
    if c >= n || c == 1 {
        let ghost st1 = solver@;
        let mut entry = mk_bool_lit(true);
        let mut j: usize = 2;
        if n < 2 {
            return entry;
        }
        while j < n
            invariant
                2 <= j <= n,
                n == t.operands.len(),
                (solver@, entry@) == default_condition(st1, *t, d@, namespace@, j as int),
            decreases n - j,
        {
            if j % 2 == 0 {
                if let Some(value) = t.value_operand(j) {
                    let name = get_var_name(value.text.as_str(), solver, namespace);
                    entry = mk_and(mk_not(mk_int_names_equal(d.as_str(), name.as_str())), entry);
                }
            }
            j = j + 1;
        }
        entry
    } else {
        match t.value_operand(c - 1) {
            Some(value) => {
                let name = get_var_name(value.text.as_str(), solver, namespace);
                mk_int_names_equal(d.as_str(), name.as_str())
            },
            None => mk_bool_lit(true),
        }
    }
}

/// Builds the condition under which control passes from the block whose
/// node is called `predecessor` to the node `node`.
pub fn get_entry_condition(
    solver: &mut Query,
    function: &Function,
    predecessor: &str,
    node: &str,
    namespace: &str,
) -> (r: Term)
    ensures
        (final(solver)@, r@) == entry_condition(
            old(solver)@,
            *function,
            predecessor@,
            node@,
            namespace@,
        ),
{
    let block = match get_basic_block_by_name(function, predecessor, namespace) {
        Some(b) => b,
        None => {
            return mk_bool_lit(true);
        },
    };
    let t = match block.get_terminator() {
        Some(t) => t,
        None => {
            return mk_bool_lit(true);
        },
    };
    match t.opcode {
        Opcode::Br => {
            if t.operands.len() == 3 {
                if let (Some(condition), Some(if_false), Some(_)) = (
                    t.value_operand(0),
                    t.block_operand(1),
                    t.block_operand(2),
                ) {
                    let name = get_var_name(condition.text.as_str(), solver, namespace);
                    let false_node = concat_str(namespace, if_false.as_str());
                    let wanted = !str_eq(false_node.as_str(), node);
                    return mk_iff(named_bool(name.as_str()), mk_bool_lit(wanted));
                }
            }
            mk_bool_lit(true)
        },
        Opcode::Switch => get_switch_condition(solver, t, node, namespace),
        _ => mk_bool_lit(true),
    }
}

/// The conjunction of the predicates of the first `k` nodes of `successors`.
pub open spec fn successor_conjunction(successors: Seq<Seq<char>>, k: int) -> Prop
    decreases k,
{
    if k <= 0 {
        bool_lit(true)
    } else {
        conjunction(successor_conjunction(successors, k - 1), bool_const(successors[k - 1]))
    }
}

/// The conjunction of the conditions under which control passes to `node`
/// from each of the first `k` nodes of `predecessors`.
pub open spec fn entry_conjunction(
    st: QueryState,
    f: Function,
    predecessors: Seq<Seq<char>>,
    node: Seq<char>,
    ns: Seq<char>,
    k: int,
) -> (QueryState, Prop)
    decreases k,
{
    if k <= 0 {
        (st, bool_lit(true))
    } else {
        let (st1, rest) = entry_conjunction(st, f, predecessors, node, ns, k - 1);
        let (st2, condition) = entry_condition(st1, f, predecessors[k - 1], node, ns);
        (st2, conjunction(rest, condition))
    }
}

/// What holds at the end of the block `b` whose successors are
/// `successors`: the predicate of each successor; and where the common end
/// node is among them, that first the panic flag is set to whether `b` ends
/// in a panic, which is taken to be so where it is not known.
pub open spec fn block_exit(b: BasicBlock, successors: Seq<Seq<char>>) -> Prop {
    if successors.contains(COMMON_END_NODE@) {
        implication(
            equivalence(
                bool_const(PANIC_VAR_NAME@),
                bool_lit(
                    match panic_status(b) {
                        Some(p) => p,
                        None => true,
                    },
                ),
            ),
            successor_conjunction(successors, successors.len() as int),
        )
    } else {
        successor_conjunction(successors, successors.len() as int)
    }
}

/// The encoding of the instructions of `b` from position `from` on, the
/// last first, against the formula `post` that holds behind the last.
pub open spec fn encode_instructions(
    m: Module,
    st: QueryState,
    post: Prop,
    b: BasicBlock,
    ns: Seq<char>,
    stack: Seq<Seq<char>>,
    return_register: Seq<char>,
    from: int,
) -> (QueryState, Prop)
    decreases depth_left(m, stack), 3nat, b.instructions.len() - from,
{
    if from < 0 || from >= b.instructions.len() {
        (st, post)
    } else {
        let (st1, behind) = encode_instructions(
            m,
            st,
            post,
            b,
            ns,
            stack,
            return_register,
            from + 1,
        );
        encode_instruction(m, st1, behind, b.instructions[from], ns, stack, return_register)
    }
}

/// The query after the block of `f` whose node is called `node` was
/// encoded: the instructions of the block are encoded against what holds
/// at its end, and one assertion is added, which equates the predicate
/// `node` with what holds at the entry of the block on condition that
/// control can pass to it from every predecessor. Where `f` has no such
/// block, a warning is all that is added.
pub open spec fn encode_block(
    m: Module,
    f: Function,
    st: QueryState,
    node: Seq<char>,
    forward: EdgesView,
    backward: EdgesView,
    ns: Seq<char>,
    stack: Seq<Seq<char>>,
    return_register: Seq<char>,
) -> QueryState
    decreases depth_left(m, stack), 4nat, 0nat,
{
    match block_index(f, ns, node) {
        None => st.warning(Warning::MalformedInstruction),
        Some(b) => {
            let (st1, body) = encode_instructions(
                m,
                st,
                block_exit(f.blocks[b], targets_of(forward, node)),
                f.blocks[b],
                ns,
                stack,
                return_register,
                0,
            );
            let (st2, entry) = entry_conjunction(
                st1,
                f,
                targets_of(backward, node),
                node,
                ns,
                targets_of(backward, node).len() as int,
            );
            st2.asserting(equivalence(bool_const(node), implication(entry, body)))
        },
    }
}

/// Builds what holds at the end of the block `b` whose successors are `successors`.
pub fn make_block_exit(b: &BasicBlock, successors: &Vec<String>) -> (r: Term)
    ensures
        r@ == block_exit(*b, views(successors@)),
{
    let mut all = mk_bool_lit(true);
    let mut k: usize = 0;
    while k < successors.len()
        invariant
            k <= successors.len(),
            all@ == successor_conjunction(views(successors@), k as int),
        decreases successors.len() - k,
    {
        all = mk_and(all, named_bool(successors[k].as_str()));
        k = k + 1;
    }
    if contains_string(successors, COMMON_END_NODE) {
        let panics = match is_panic_block(b) {
            Some(p) => p,
            None => true,
        };
        mk_implies(mk_iff(named_bool(PANIC_VAR_NAME), mk_bool_lit(panics)), all)
    } else {
        all
    }
}

/// Builds the conjunction of the conditions under which control passes to
/// `node` from each node of `predecessors`.
pub fn make_entry_conjunction(
    solver: &mut Query,
    function: &Function,
    predecessors: &Vec<String>,
    node: &str,
    namespace: &str,
) -> (r: Term)
    ensures
        (final(solver)@, r@) == entry_conjunction(
            old(solver)@,
            *function,
            views(predecessors@),
            node@,
            namespace@,
            predecessors.len() as int,
        ),
{
    let mut all = mk_bool_lit(true);
    let mut k: usize = 0;
    while k < predecessors.len()
        invariant
            k <= predecessors.len(),
            (solver@, all@) == entry_conjunction(
                old(solver)@,
                *function,
                views(predecessors@),
                node@,
                namespace@,
                k as int,
            ),
        decreases predecessors.len() - k,
    {
        let condition = get_entry_condition(
            solver,
            function,
            predecessors[k].as_str(),
            node,
            namespace,
        );
        all = mk_and(all, condition);
        k = k + 1;
    }
    all
}

/// Encodes the block of `function` whose node is called `node`, and
/// asserts the definition of its predicate.
pub fn codegen_basic_block(
    module: &Module,
    node: String,
    forward_edges: &EdgeSet,
    backward_edges: &EdgeSet,
    function: &Function,
    solver: &mut Query,
    namespace: &str,
    call_stack: &Vec<String>,
    return_register: &str,
)
    ensures
        final(solver)@ == encode_block(
            *module,
            *function,
            old(solver)@,
            node@,
            edges_view(forward_edges@),
            edges_view(backward_edges@),
            namespace@,
            views(call_stack@),
            return_register@,
        ),
    decreases depth_left(*module, views(call_stack@)), 4nat, 0nat,
{
    let block = match get_basic_block_by_name(function, node.as_str(), namespace) {
        Some(b) => b,
        None => {
            solver.warn(Warning::MalformedInstruction);
            return ;
        },
    };
    let none: Vec<String> = Vec::new();
    assert(views(none@) =~= Seq::<Seq<char>>::empty());
    let successors = match find_entry(forward_edges, node.as_str()) {
        Some(i) => &forward_edges[i].targets,
        None => &none,
    };
    let predecessors = match find_entry(backward_edges, node.as_str()) {
        Some(i) => &backward_edges[i].targets,
        None => &none,
    };
    let exit = make_block_exit(block, successors);
    let ghost exit_view = exit@;
    let mut node_var = exit;
    let mut at: usize = block.instructions.len();
    while at > 0
        invariant
            at <= block.instructions.len(),
            (solver@, node_var@) == encode_instructions(
                *module,
                old(solver)@,
                exit_view,
                *block,
                namespace@,
                views(call_stack@),
                return_register@,
                at as int,
            ),
        decreases at,
    {
        at = at - 1;
        node_var = codegen_instruction(
            module,
            node_var,
            &block.instructions[at],
            solver,
            namespace,
            call_stack,
            return_register,
        );
    }
    let entry = make_entry_conjunction(solver, function, predecessors, node.as_str(), namespace);
    solver.add_assertion(mk_iff(named_bool(node.as_str()), mk_implies(entry, node_var)));
}

/// Whether `a` defines the predicate of the node `node`: it equates the
/// predicate with an implication, from the condition of entry to what
/// holds in the block.
pub open spec fn defines_block(a: Prop, node: Seq<char>) -> bool {
    a matches Formula::Iff(l, r) && *l == bool_const(node) && *r is Implies
}

/// A block with the name `node` is found under that name.
pub proof fn lemma_block_is_found(f: Function, ns: Seq<char>, j: int, k: int)
    requires
        0 <= j < k <= f.blocks.len(),
    ensures
        block_named(f, ns, node_name(f, j, ns), k) >= j,
    decreases k,
{
    if node_name(f, k - 1, ns) != node_name(f, j, ns) {
        lemma_block_is_found(f, ns, j, k - 1);
    }
}

/// The block that is found under a name has that name.
pub proof fn lemma_block_named_is_named(f: Function, ns: Seq<char>, name: Seq<char>, k: int)
    requires
        0 <= k <= f.blocks.len(),
        block_named(f, ns, name, k) >= 0,
    ensures
        block_named(f, ns, name, k) < k,
        node_name(f, block_named(f, ns, name, k), ns) == name,
    decreases k,
{
    if k > 0 && node_name(f, k - 1, ns) != name {
        lemma_block_named_is_named(f, ns, name, k - 1);
    }
}

/// The encoding of a block of `f` ends with the assertion that defines its
/// predicate, and that is the one assertion that the encoding adds behind
/// what the instructions and the conditions of entry add.
pub proof fn lemma_block_is_defined_last(
    m: Module,
    f: Function,
    st: QueryState,
    j: int,
    forward: EdgesView,
    backward: EdgesView,
    ns: Seq<char>,
    stack: Seq<Seq<char>>,
    return_register: Seq<char>,
)
    requires
        0 <= j < f.blocks.len(),
    ensures
        encode_block(
            m,
            f,
            st,
            node_name(f, j, ns),
            forward,
            backward,
            ns,
            stack,
            return_register,
        ).assertions.len() > 0,
        defines_block(
            encode_block(
                m,
                f,
                st,
                node_name(f, j, ns),
                forward,
                backward,
                ns,
                stack,
                return_register,
            ).assertions.last(),
            node_name(f, j, ns),
        ),
{
    lemma_block_is_found(f, ns, j, f.blocks.len() as int);
}

} // verus!
