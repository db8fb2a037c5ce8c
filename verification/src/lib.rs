//! Boolean-algebra toolkit: tokenized propositional expressions are checked
//! for well-formedness, compiled into an expression tree, evaluated over
//! every assignment of their variables to build a truth table, and
//! synthesized back from a truth table as a canonical disjunctive normal
//! form. Flat externally supplied truth-table streams can be reshaped into
//! per-output tables.

mod bits;
mod dnf;
mod error;
mod parser;
mod round_trip;
mod split_lemmas;
mod strings;
mod table_parser;
mod token;
mod utils;

pub use bits::bits_to_nat;
pub use bits::nat_to_bits;
pub use bits::spec_pow2;
pub use dnf::dnf;
pub use dnf::spec_dnf;
pub use error::Error;
pub use parser::eval_tokens;
pub use parser::is_parentheses;
pub use parser::parse;
pub use parser::precedence_of;
pub use parser::Bundle;
pub use parser::Node;
pub use round_trip::lemma_dnf_round_trip;
pub use round_trip::name_views;
pub use split_lemmas::count_binary;
pub use split_lemmas::count_operand;
pub use split_lemmas::lemma_valid_arity;
pub use strings::str_lt;
pub use strings::strictly_sorted;
pub use table_parser::bool2_int;
pub use table_parser::match_line;
pub use table_parser::match_table;
pub use table_parser::parse_count;
pub use table_parser::parse_fill;
pub use table_parser::parse_full;
pub use table_parser::pow2;
pub use table_parser::split_rows;
pub use token::Token;
pub use utils::bool_to_u32;
pub use utils::generate_table_2d;
pub use utils::get_names;
pub use utils::lemma_enumeration_complete;
pub use utils::lemma_enumeration_injective;
pub use utils::lemma_var_names_deterministic;
pub use utils::occurs;
pub use utils::print_func;
pub use utils::print_tabel;
pub use utils::spec_valid;
pub use utils::spec_validate;
pub use utils::spec_var_names;
pub use utils::update_values;
pub use utils::validate_func;
pub use utils::validate_tabel;
