//! Quine-McCluskey minimisation of Boolean functions given as truth tables.
//!
//! The crate is organised along the stages of the method:
//!
//! * [`pattern`]: what two patterns of loads have to do with one another,
//!   whether they are adjacent, what they merge to, which covers which;
//! * [`implicant`]: ternary terms (true, false, don't-care per variable),
//!   how two terms combine and how a term is written down;
//! * [`groups_structure`]: terms grouped by their number of true positions,
//!   and the rounds of combination that discover the prime implicants;
//! * [`round_laws`]: what the rounds keep and what they change, proved;
//! * [`coverage_map`]: which prime covers which minterm, the essential
//!   primes, and the greedy choice of further primes;
//! * [`algorithm`]: the stages put together, from truth table to formula;
//! * [`truth_table`] and [`table_parser`]: the table itself and the checks
//!   made on its cells and on the order of its rows.
//!
//! Every executable function carries a contract over a mathematical view
//! of its data, and the verifier proves that the function meets it for
//! every input that the contract admits.
pub mod algorithm;
pub mod coverage_map;
pub mod groups_structure;
pub mod implicant;
pub mod pattern;
pub mod round_laws;
pub mod table_parser;
pub mod truth_table;
