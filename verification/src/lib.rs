//! Bounded symbolic verification of compiled functions.
//!
//! A function is given as basic blocks of typed instructions. Its control
//! flow graph and its instructions are turned into one first-order formula
//! over booleans and unbounded integers: each block gets a predicate that
//! says that no panic is reached from the block, and the query claims that
//! the predicate of the entry block is false. A decision procedure then
//! tells whether some input leads to a panic.
//!
//! - `ir` holds the representation of programs, `formula` that of formulas,
//!   `query` the assertions of one query, `meaning` what a formula says.
//! - `control_flow_graph` derives edges and topological orders,
//!   `utils::resolve_phi_to_dsa` eliminates phis, `utils::var_utils` names
//!   the variables, `codegen` encodes instructions, calls, blocks and
//!   functions.
//! - `backward_symbolic_execution` builds the query, `smt` asks Z3, and
//!   `symbolic_execution` gives the verdict.
//! - `text` and `literal` read the printed forms of values, and `harness`
//!   names the files of a run and writes the program that replays a
//!   counterexample.
//! - `cycles`, `namespaces`, `utils::edge_blocks` and the modules
//!   `assertion_shape`, `block_definitions` and `encoding_twice` of
//!   `codegen` hold what is proved of the encoding as a whole.

pub mod backward_symbolic_execution;
pub mod codegen;
pub mod control_flow_graph;
pub mod cycles;
pub mod formula;
pub mod harness;
pub mod ir;
pub mod literal;
pub mod meaning;
pub mod namespaces;
pub mod query;
pub mod smt;
pub mod symbolic_execution;
pub mod text;
pub mod utils;
