//! Synthesis of a canonical disjunctive normal form from a truth table.

use crate::bits::{bits_to_nat, lemma_nat_of_bits_inverse, lemma_pow2_pos, nat_to_bits, spec_pow2};
use crate::error::Error;
use crate::token::Token;
use crate::utils::{update_values, validate_tabel};
use vstd::prelude::*;

verus! {

/// The literal for one variable of a minterm: the variable itself where its
/// bit is set, the negated variable where it is not.
pub open spec fn spec_literal(name: String, bit: bool) -> Seq<Token> {
    if bit {
        seq![Token::Var(name)]
    } else {
        seq![Token::Not, Token::Var(name)]
    }
}

/// The tail of a minterm's conjunction, from variable `j` on: the literals of
/// `names[j..]`, joined by `And`.
pub open spec fn body_from(names: Seq<String>, bits: Seq<bool>, j: int) -> Seq<Token>
    decreases names.len() - j,
{
    if j < 0 || j >= names.len() {
        Seq::empty()
    } else if j == names.len() - 1 {
        spec_literal(names[j], bits[j])
    } else {
        spec_literal(names[j], bits[j]) + seq![Token::And] + body_from(names, bits, j + 1)
    }
}

/// The minterm of one assignment: the conjunction of every variable, each
/// negated where its bit is false, in variable order; an empty variable list
/// leaves the constant-true minterm `1`. With `parens` the minterm is wrapped
/// as one group.
pub open spec fn spec_minterm(names: Seq<String>, bits: Seq<bool>, parens: bool) -> Seq<Token> {
    let body = if names.len() == 0 {
        seq![Token::One]
    } else {
        body_from(names, bits, 0)
    };
    if parens {
        seq![Token::Open] + body + seq![Token::Close]
    } else {
        body
    }
}

/// The DNF of the rows from `k` on: one minterm per true table entry, in row
/// order, joined by `Or`. A stretch with no true entry contributes nothing.
pub open spec fn spec_dnf_from(table: Seq<bool>, names: Seq<String>, parens: bool, k: int) -> Seq<
    Token,
>
    decreases table.len() - k,
{
    if k < 0 || k >= table.len() {
        Seq::empty()
    } else if table[k] {
        let m = spec_minterm(names, nat_to_bits(k as nat, names.len()), parens);
        let rest = spec_dnf_from(table, names, parens, k + 1);
        if rest.len() == 0 {
            m
        } else {
            m + seq![Token::Or] + rest
        }
    } else {
        spec_dnf_from(table, names, parens, k + 1)
    }
}

/// The canonical sum-of-minterms form of a truth table. The all-false table
/// gives the empty sequence, which stands for the constant-false function and
/// is the caller's to special-case.
pub open spec fn spec_dnf(table: Seq<bool>, names: Seq<String>, parens: bool) -> Seq<Token> {
    spec_dnf_from(table, names, parens, 0)
}

/// Two DNF pieces joined by `Or` when both are present.
pub open spec fn or_glue(a: Seq<Token>, b: Seq<Token>) -> Seq<Token> {
    if a.len() == 0 {
        b
    } else if b.len() == 0 {
        a
    } else {
        a + seq![Token::Or] + b
    }
}

/// Builds the canonical disjunctive normal form of a truth table over the
/// given variable names: one minterm per true row, in row order, joined by
/// `Or`, each minterm parenthesized when `with_parentheses` is set. Fails
/// exactly when the table's length is not `2^names.len()`; a table with no
/// true row yields the empty sequence, which stands for constant false.
pub fn dnf(table: &Vec<bool>, names: &Vec<String>, with_parentheses: bool) -> (r: Result<
    Vec<Token>,
    Error,
>)
    ensures
        ({
            match r {
                Ok(toks) => table@.len() == spec_pow2(names@.len()) && toks@ == spec_dnf(
                    table@,
                    names@,
                    with_parentheses,
                ),
                Err(e) => table@.len() != spec_pow2(names@.len()) && e == (Error::WrongTableLength {
                    var_count: names@.len() as usize,
                    table_len: table@.len() as usize,
                }),
            }
        }),
{
    match validate_tabel(table, names) {
        Ok(_) => {},
        Err(e) => {
            return Err(e);
        },
    }
    let mut result: Vec<Token> = Vec::new();
    let mut values: Vec<bool> = vec![false; names.len()];
    let mut index: usize = 0;
    proof {
        assert(forall|j: int| 0 <= j < values@.len() ==> !values@[j]);
        crate::bits::lemma_bits_all_false(values@);
        lemma_pow2_pos(names@.len());
    }
    loop
        invariant
            table@.len() == spec_pow2(names@.len()),
            values@.len() == names@.len(),
            bits_to_nat(values@) == index,
            index < table@.len(),
            spec_dnf(table@, names@, with_parentheses) == or_glue(
                result@,
                spec_dnf_from(table@, names@, with_parentheses, index as int),
            ),
        decreases table@.len() - index,
    {
        proof {
            lemma_nat_of_bits_inverse(values@);
            assert(values@ == nat_to_bits(index as nat, names@.len()));
        }
        if table[index] {
            let ghost pre = result@;
            let ghost bits = values@;
            if result.len() != 0 {
                result.push(Token::Or);
            }
            if with_parentheses {
                result.push(Token::Open);
            }
            if names.len() == 0 {
                result.push(Token::One);
            }
            let ghost base = result@;
            let mut j: usize = 0;
            while j < names.len()
                invariant
                    j <= names@.len(),
                    values@ == bits,
                    values@.len() == names@.len(),
                    base + body_from(names@, bits, 0) == result@ + body_from(
                        names@,
                        bits,
                        j as int,
                    ),
                decreases names@.len() - j,
            {
                let ghost step_start = result@;
                if !values[j] {
                    result.push(Token::Not);
                }
                result.push(Token::Var(names[j].clone()));
                if j + 1 < names.len() {
                    result.push(Token::And);
                }
                proof {
                    if j as int == names@.len() - 1 {
                        assert(body_from(names@, bits, j as int) == spec_literal(
                            names@[j as int],
                            bits[j as int],
                        ));
                        assert(result@ =~= step_start + spec_literal(
                            names@[j as int],
                            bits[j as int],
                        ));
                        assert(base + body_from(names@, bits, 0) =~= result@ + body_from(
                            names@,
                            bits,
                            j as int + 1,
                        ));
                    } else {
                        assert(body_from(names@, bits, j as int) == spec_literal(
                            names@[j as int],
                            bits[j as int],
                        ) + seq![Token::And] + body_from(names@, bits, j as int + 1));
                        assert(result@ =~= step_start + (spec_literal(
                            names@[j as int],
                            bits[j as int],
                        ) + seq![Token::And]));
                        assert(base + body_from(names@, bits, 0) =~= result@ + body_from(
                            names@,
                            bits,
                            j as int + 1,
                        ));
                    }
                }
                j = j + 1;
            }
            if with_parentheses {
                result.push(Token::Close);
            }
            proof {
                let m = spec_minterm(names@, bits, with_parentheses);
                assert(body_from(names@, bits, names@.len() as int) == Seq::<Token>::empty());
                assert(result@ =~= pre + (if pre.len() == 0 {
                    Seq::<Token>::empty()
                } else {
                    seq![Token::Or]
                }) + m);
                let rest = spec_dnf_from(table@, names@, with_parentheses, index as int + 1);
                assert(spec_dnf_from(table@, names@, with_parentheses, index as int)
                    == if rest.len() == 0 {
                    m
                } else {
                    m + seq![Token::Or] + rest
                });
                assert(m.len() >= 1);
                assert(or_glue(pre, spec_dnf_from(table@, names@, with_parentheses, index as int))
                    =~= or_glue(result@, rest));
            }
        } else {
            proof {
                assert(spec_dnf_from(table@, names@, with_parentheses, index as int)
                    == spec_dnf_from(table@, names@, with_parentheses, index as int + 1));
            }
        }
        let more = update_values(&mut values);
        if !more {
            proof {
                assert(index as int + 1 == table@.len());
                assert(spec_dnf_from(table@, names@, with_parentheses, index as int + 1)
                    == Seq::<Token>::empty());
                assert(or_glue(result@, Seq::<Token>::empty()) == result@);
            }
            return Ok(result);
        }
        let cap = table.len();
        proof {
            assert(bits_to_nat(values@) == index + 1);
            assert(index + 1 < spec_pow2(names@.len()));
            assert(index + 1 <= cap);
        }
        index = index + 1;
    }
}

} // verus!
