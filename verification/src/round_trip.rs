//! The round trip: parsing the DNF synthesized from a truth table gives the
//! table back.
//!
//! The layers below mirror the shape of a DNF token sequence. A literal is a
//! possibly negated variable; a minterm joins one literal per variable with
//! `And` (and may be parenthesized); the whole form joins one minterm per
//! true table row with `Or`. For each layer there is a crossing lemma (the
//! validator walks it from an operand-owing state to a complete operand at
//! the same depth), an occurrence lemma (which variables it mentions), and an
//! evaluation lemma (what it denotes); the top-level theorem assembles them.

use crate::bits::{lemma_bits_of_nat_inverse, nat_to_bits, spec_pow2};
use crate::dnf::{body_from, spec_dnf, spec_dnf_from, spec_literal, spec_minterm};
use crate::error::Error;
use crate::parser::{env_of, eval_tokens, leaf_value, paren_counter, spec_is_parentheses,
    spec_precedence, spec_split_index, spec_split_scan};
use crate::split_lemmas::{lemma_scan_seg_concat, lemma_scan_seg_validate, lemma_split_at,
    lemma_v_depth_flat, lemma_v_depth_prefix, scan_seg, v_depth};
use crate::strings::{lemma_lex_trichotomy, lemma_strictly_sorted_unique, strictly_sorted};
use crate::token::Token;
use crate::utils::{is_var_name_list, occurs, spec_valid, spec_var_names};
use vstd::prelude::*;

verus! {

/// The views of a list of names.
pub open spec fn name_views(names: Seq<String>) -> Seq<Seq<char>> {
    Seq::new(names.len(), |i: int| names[i]@)
}

/// A literal never carries a parenthesis, a constant, or a binary operator.
proof fn lemma_literal_tokens(name: String, bit: bool)
    ensures
        forall|p: int|
            0 <= p < spec_literal(name, bit).len() ==> (#[trigger] spec_literal(name, bit)[p]) is Var
                || spec_literal(name, bit)[p] is Not,
        spec_literal(name, bit).len() >= 1,
{
}

/// Every token of a minterm body is a literal piece or the `And` between.
proof fn lemma_body_tokens(names: Seq<String>, bits: Seq<bool>, j: int)
    requires
        0 <= j < names.len(),
    ensures
        forall|p: int|
            0 <= p < body_from(names, bits, j).len() ==> (#[trigger] body_from(names, bits, j)[p])
                is Var || body_from(names, bits, j)[p] is Not || body_from(names, bits, j)[p] is And,
        body_from(names, bits, j).len() >= 1,
    decreases names.len() - j,
{
    let b = body_from(names, bits, j);
    let lit = spec_literal(names[j], bits[j]);
    lemma_literal_tokens(names[j], bits[j]);
    if j == names.len() - 1 {
    } else {
        lemma_body_tokens(names, bits, j + 1);
        let rest = body_from(names, bits, j + 1);
        assert(b == lit + seq![Token::And] + rest);
        assert forall|p: int|
            0 <= p < b.len() implies (#[trigger] b[p]) is Var || b[p] is Not || b[p] is And by {
            if p < lit.len() {
                assert(b[p] == lit[p]);
            } else if p == lit.len() {
                assert(b[p] == Token::And);
            } else {
                assert(b[p] == rest[p - lit.len() - 1]);
            }
        }
    }
}

/// A minterm is never empty.
proof fn lemma_minterm_len(names: Seq<String>, bits: Seq<bool>, parens: bool)
    ensures
        spec_minterm(names, bits, parens).len() >= 1,
{
    if names.len() > 0 {
        lemma_body_tokens(names, bits, 0);
    }
}

/// The validator crosses a literal from an operand-owing state to a complete
/// operand, at the same depth.
proof fn lemma_scan_literal(name: String, bit: bool, d: nat)
    ensures
        scan_seg(spec_literal(name, bit), 0, d, true) == Ok::<(nat, bool), Error>((d, false)),
{
    let lit = spec_literal(name, bit);
    if bit {
        assert(scan_seg(lit, 1, d, false) == Ok::<(nat, bool), Error>((d, false)));
    } else {
        assert(scan_seg(lit, 2, d, false) == Ok::<(nat, bool), Error>((d, false)));
        assert(scan_seg(lit, 1, d, true) == Ok::<(nat, bool), Error>((d, false)));
    }
}

/// The validator crosses a minterm body likewise.
proof fn lemma_scan_body(names: Seq<String>, bits: Seq<bool>, j: int, d: nat)
    requires
        0 <= j < names.len(),
    ensures
        scan_seg(body_from(names, bits, j), 0, d, true) == Ok::<(nat, bool), Error>((d, false)),
    decreases names.len() - j,
{
    let lit = spec_literal(names[j], bits[j]);
    lemma_scan_literal(names[j], bits[j], d);
    if j == names.len() - 1 {
    } else {
        lemma_scan_body(names, bits, j + 1, d);
        let rest = body_from(names, bits, j + 1);
        assert(scan_seg(seq![Token::And], 1, d, true) == Ok::<(nat, bool), Error>((d, true)));
        assert(scan_seg(seq![Token::And], 0, d, false) == Ok::<(nat, bool), Error>((d, true)));
        lemma_scan_seg_concat(lit, seq![Token::And], d, true, d, false, d, true);
        lemma_scan_seg_concat(lit + seq![Token::And], rest, d, true, d, true, d, false);
        assert(body_from(names, bits, j) == (lit + seq![Token::And]) + rest);
    }
}

/// The validator crosses a whole minterm likewise.
proof fn lemma_scan_minterm(names: Seq<String>, bits: Seq<bool>, parens: bool, d: nat)
    ensures
        scan_seg(spec_minterm(names, bits, parens), 0, d, true) == Ok::<(nat, bool), Error>(
            (d, false),
        ),
{
    let body: Seq<Token> = if names.len() == 0 {
        seq![Token::One]
    } else {
        body_from(names, bits, 0)
    };
    if names.len() == 0 {
        assert(scan_seg(body, 1, d, false) == Ok::<(nat, bool), Error>((d, false)));
        assert(scan_seg(body, 0, d, true) == Ok::<(nat, bool), Error>((d, false)));
    } else {
        lemma_scan_body(names, bits, 0, d);
    }
    if parens {
        let m = spec_minterm(names, bits, parens);
        if names.len() == 0 {
            assert(scan_seg(body, 1, (d + 1) as nat, false) == Ok::<(nat, bool), Error>(
                ((d + 1) as nat, false),
            ));
            assert(scan_seg(body, 0, (d + 1) as nat, true) == Ok::<(nat, bool), Error>(
                ((d + 1) as nat, false),
            ));
        } else {
            lemma_scan_body(names, bits, 0, (d + 1) as nat);
        }
        assert(scan_seg(seq![Token::Open], 1, d + 1, true) == Ok::<(nat, bool), Error>(
            ((d + 1) as nat, true),
        ));
        assert(scan_seg(seq![Token::Open], 0, d, true) == Ok::<(nat, bool), Error>(
            ((d + 1) as nat, true),
        ));
        assert(scan_seg(seq![Token::Close], 1, d, false) == Ok::<(nat, bool), Error>((d, false)));
        assert(scan_seg(seq![Token::Close], 0, (d + 1) as nat, false) == Ok::<(nat, bool), Error>(
            (d, false),
        ));
        lemma_scan_seg_concat(
            seq![Token::Open],
            body,
            d,
            true,
            (d + 1) as nat,
            true,
            (d + 1) as nat,
            false,
        );
        lemma_scan_seg_concat(
            seq![Token::Open] + body,
            seq![Token::Close],
            d,
            true,
            (d + 1) as nat,
            false,
            d,
            false,
        );
        assert(m == (seq![Token::Open] + body) + seq![Token::Close]);
    }
}

/// A DNF tail is empty exactly when no row from `k` on is true.
proof fn lemma_dnf_from_empty(table: Seq<bool>, names: Seq<String>, parens: bool, k: int)
    requires
        0 <= k <= table.len(),
    ensures
        (spec_dnf_from(table, names, parens, k).len() == 0) <==> (forall|j: int|
            k <= j < table.len() ==> !table[j]),
    decreases table.len() - k,
{
    if k < table.len() {
        lemma_dnf_from_empty(table, names, parens, k + 1);
        if table[k] {
            lemma_minterm_len(names, nat_to_bits(k as nat, names.len()), parens);
        }
    }
}

/// The validator crosses a nonempty DNF tail from an operand-owing state to a
/// complete operand at the same depth.
proof fn lemma_scan_dnf_from(table: Seq<bool>, names: Seq<String>, parens: bool, k: int)
    requires
        0 <= k <= table.len(),
        spec_dnf_from(table, names, parens, k).len() > 0,
    ensures
        scan_seg(spec_dnf_from(table, names, parens, k), 0, 0, true) == Ok::<(nat, bool), Error>(
            (0, false),
        ),
    decreases table.len() - k,
{
    let s = spec_dnf_from(table, names, parens, k);
    if table[k] {
        let m = spec_minterm(names, nat_to_bits(k as nat, names.len()), parens);
        let rest = spec_dnf_from(table, names, parens, k + 1);
        lemma_scan_minterm(names, nat_to_bits(k as nat, names.len()), parens, 0);
        if rest.len() == 0 {
        } else {
            lemma_scan_dnf_from(table, names, parens, k + 1);
            assert(scan_seg(seq![Token::Or], 1, 0, true) == Ok::<(nat, bool), Error>((0, true)));
            assert(scan_seg(seq![Token::Or], 0, 0, false) == Ok::<(nat, bool), Error>((0, true)));
            lemma_scan_seg_concat(m, seq![Token::Or], 0, true, 0, false, 0, true);
            lemma_scan_seg_concat(m + seq![Token::Or], rest, 0, true, 0, true, 0, false);
            assert(s == (m + seq![Token::Or]) + rest);
        }
    } else {
        lemma_scan_dnf_from(table, names, parens, k + 1);
    }
}

/// A nonempty DNF passes the validator.
pub proof fn lemma_dnf_valid_from(table: Seq<bool>, names: Seq<String>, parens: bool, k: int)
    requires
        0 <= k <= table.len(),
        spec_dnf_from(table, names, parens, k).len() > 0,
    ensures
        spec_valid(spec_dnf_from(table, names, parens, k)),
{
    let s = spec_dnf_from(table, names, parens, k);
    lemma_scan_dnf_from(table, names, parens, k);
    lemma_scan_seg_validate(s, 0, 0, true);
}

/// Depth profile of a minterm: it ends balanced, and its only depth-zero
/// positions hold tokens that bind tighter than any binary connective's
/// loosest tier.
proof fn lemma_minterm_profile(names: Seq<String>, bits: Seq<bool>, parens: bool)
    ensures
        ({
            let m = spec_minterm(names, bits, parens);
            &&& v_depth(m, m.len() as int) == 0
            &&& forall|j: int|
                0 <= j < m.len() && v_depth(m, j) == 0 ==> spec_precedence(#[trigger] m[j]) > 0
        }),
{
    let m = spec_minterm(names, bits, parens);
    let body: Seq<Token> = if names.len() == 0 {
        seq![Token::One]
    } else {
        body_from(names, bits, 0)
    };
    if names.len() > 0 {
        lemma_body_tokens(names, bits, 0);
    }
    if parens {
        assert(m == seq![Token::Open] + body + seq![Token::Close]);
        assert(m.len() == body.len() + 2);
        assert(m[0] is Open);
        assert(m[m.len() - 1] is Close);
        assert(v_depth(m, 0) == 0);
        assert(v_depth(m, 1) == 1);
        assert(forall|p: int|
            1 <= p < m.len() - 1 ==> !((#[trigger] m[p]) is Open) && !(m[p] is Close)) by {
            assert forall|p: int|
                1 <= p < m.len() - 1 implies !((#[trigger] m[p]) is Open) && !(m[p] is Close) by {
                assert(m[p] == body[p - 1]);
            }
        }
        lemma_v_depth_flat(m, 1, m.len() - 1);
        assert(v_depth(m, m.len() - 1) == 1);
        assert(v_depth(m, m.len() as int) == 0);
        assert forall|j: int|
            0 <= j < m.len() && v_depth(m, j) == 0 implies spec_precedence(#[trigger] m[j])
            > 0 by {
            if j == 0 {
                assert(spec_precedence(m[0]) == 255);
            } else {
                assert(v_depth(m, j) == 1);
            }
        }
    } else {
        assert(m == body);
        assert(forall|p: int|
            0 <= p < m.len() ==> !((#[trigger] m[p]) is Open) && !(m[p] is Close));
        lemma_v_depth_flat(m, 0, m.len() as int);
        assert(v_depth(m, m.len() as int) == 0);
        assert forall|j: int|
            0 <= j < m.len() && v_depth(m, j) == 0 implies spec_precedence(#[trigger] m[j])
            > 0 by {
            assert(m[j] is Var || m[j] is Not || m[j] is And || m[j] is One);
        }
    }
}

/// A literal denotes whether its variable's value matches its polarity.
proof fn lemma_eval_literal(name: String, bit: bool, env: Map<Seq<char>, bool>)
    ensures
        eval_tokens(spec_literal(name, bit), env) == (env[name@] == bit),
{
    let lit = spec_literal(name, bit);
    if bit {
        assert(eval_tokens(lit, env) == leaf_value(Token::Var(name), env));
    } else {
        assert(lit.len() == 2);
        assert(!(lit[0] is Open));
        assert(!spec_is_parentheses(lit));
        assert(spec_split_scan(lit, 2, 0, 0, 3) == 0);
        assert(spec_split_scan(lit, 1, 0, 0, 3) == 0);
        assert(spec_split_scan(lit, 0, 0, 0, 255) == 0);
        assert(spec_split_index(lit) == 0);
        assert(lit.subrange(1, 2) =~= seq![Token::Var(name)]);
        assert(eval_tokens(lit, env) == !eval_tokens(seq![Token::Var(name)], env));
        assert(eval_tokens(seq![Token::Var(name)], env) == env[name@]);
    }
}

/// A minterm body denotes the conjunction of its literals.
proof fn lemma_eval_body(names: Seq<String>, bits: Seq<bool>, j: int, env: Map<Seq<char>, bool>)
    requires
        0 <= j < names.len(),
        bits.len() == names.len(),
    ensures
        eval_tokens(body_from(names, bits, j), env) == (forall|jj: int|
            j <= jj < names.len() ==> env[(#[trigger] names[jj])@] == bits[jj]),
    decreases names.len() - j,
{
    let s = body_from(names, bits, j);
    let lit = spec_literal(names[j], bits[j]);
    lemma_eval_literal(names[j], bits[j], env);
    if j == names.len() - 1 {
        assert(s == lit);
        assert(eval_tokens(s, env) == (env[names[j]@] == bits[j]));
    } else {
        lemma_eval_body(names, bits, j + 1, env);
        let rest = body_from(names, bits, j + 1);
        // The body is a validated flat sequence; the splitter takes its first
        // `And`.
        lemma_scan_body(names, bits, j, 0);
        lemma_scan_seg_validate(s, 0, 0, true);
        lemma_body_tokens(names, bits, j);
        lemma_literal_tokens(names[j], bits[j]);
        lemma_body_tokens(names, bits, j + 1);
        assert(forall|p: int|
            0 <= p < s.len() ==> !((#[trigger] s[p]) is Open) && !(s[p] is Close));
        lemma_v_depth_flat(s, 0, s.len() as int);
        assert(s == lit + seq![Token::And] + rest);
        assert forall|p: int|
            0 <= p < lit.len() && v_depth(s, p) == 0 implies spec_precedence(#[trigger] s[p])
            > spec_precedence(Token::And) by {
            assert(s[p] == lit[p]);
            assert(lit[p] is Var || lit[p] is Not);
        }
        assert forall|p: int|
            lit.len() + 1 <= p < s.len() && v_depth(s, p) == 0 implies spec_precedence(
            #[trigger] s[p],
        ) >= spec_precedence(Token::And) by {
            assert(s[p] == rest[p - lit.len() - 1]);
            assert(s[p] is Var || s[p] is Not || s[p] is And);
        }
        lemma_split_at(s, lit, rest, Token::And, env);
        assert(eval_tokens(s, env) == (eval_tokens(lit, env) && eval_tokens(rest, env)));
        assert forall|jj: int|
            j <= jj < names.len() && eval_tokens(s, env) implies env[(#[trigger] names[jj])@]
            == bits[jj] by {}
        if (forall|jj: int| j <= jj < names.len() ==> env[(#[trigger] names[jj])@] == bits[jj]) {
            assert(env[names[j]@] == bits[j]);
            assert(forall|jj: int|
                j + 1 <= jj < names.len() ==> env[(#[trigger] names[jj])@] == bits[jj]);
        }
    }
}

/// A minterm denotes whether the assignment matches its row's bit pattern.
proof fn lemma_eval_minterm(
    names: Seq<String>,
    bits: Seq<bool>,
    parens: bool,
    env: Map<Seq<char>, bool>,
)
    requires
        bits.len() == names.len(),
    ensures
        eval_tokens(spec_minterm(names, bits, parens), env) == (forall|jj: int|
            0 <= jj < names.len() ==> env[(#[trigger] names[jj])@] == bits[jj]),
{
    let m = spec_minterm(names, bits, parens);
    let body: Seq<Token> = if names.len() == 0 {
        seq![Token::One]
    } else {
        body_from(names, bits, 0)
    };
    if names.len() == 0 {
        if parens {
            assert(m == seq![Token::Open] + seq![Token::One] + seq![Token::Close]);
            assert(m.len() == 3);
            assert(m[0] is Open && m[2] is Close);
            assert(paren_counter(m, 1) == 1);
            assert(spec_is_parentheses(m));
            assert(m.subrange(1, 2) =~= seq![Token::One]);
            assert(eval_tokens(m, env) == eval_tokens(seq![Token::One], env));
        }
        assert(eval_tokens(seq![Token::One], env) == true);
    } else {
        lemma_eval_body(names, bits, 0, env);
        if parens {
            lemma_body_tokens(names, bits, 0);
            assert(m == seq![Token::Open] + body + seq![Token::Close]);
            assert(m.len() == body.len() + 2);
            assert(m[0] is Open && m[m.len() - 1] is Close);
            assert forall|i: int| 1 <= i < m.len() - 1 implies paren_counter(m, i) != 0 by {
                lemma_counter_one(m, body, i);
            }
            assert(spec_is_parentheses(m));
            assert(m.subrange(1, m.len() - 1) =~= body);
            assert(eval_tokens(m, env) == eval_tokens(body, env));
        } else {
            assert(m == body);
        }
    }
}

/// Inside a parenthesized minterm the counter stays at one.
proof fn lemma_counter_one(m: Seq<Token>, body: Seq<Token>, i: int)
    requires
        m == seq![Token::Open] + body + seq![Token::Close],
        forall|p: int| 0 <= p < body.len() ==> !((#[trigger] body[p]) is Open) && !(body[p] is Close),
        1 <= i < m.len() - 1,
    ensures
        paren_counter(m, i) == 1,
    decreases i,
{
    if i == 1 {
    } else {
        lemma_counter_one(m, body, i - 1);
        assert(m[i - 1] == body[i - 2]);
    }
}

/// A DNF tail denotes "some true row from `k` on matches the assignment".
proof fn lemma_eval_dnf_from(
    table: Seq<bool>,
    names: Seq<String>,
    parens: bool,
    k: int,
    vals: Seq<bool>,
)
    requires
        0 <= k <= table.len(),
        vals.len() == names.len(),
        forall|a: int, b: int|
            0 <= a < b < name_views(names).len() ==> name_views(names)[a] != name_views(names)[b],
    ensures
        eval_tokens(spec_dnf_from(table, names, parens, k), env_of(name_views(names), vals)) == (
        exists|j: int|
            k <= j < table.len() && table[j] && nat_to_bits(j as nat, names.len()) == vals),
    decreases table.len() - k,
{
    let views = name_views(names);
    let env = env_of(views, vals);
    let s = spec_dnf_from(table, names, parens, k);
    if k == table.len() {
        assert(s.len() == 0);
        assert(eval_tokens(s, env) == false);
    } else if !table[k] {
        lemma_eval_dnf_from(table, names, parens, k + 1, vals);
        assert(eval_tokens(s, env) == (exists|j: int|
            k + 1 <= j < table.len() && table[j] && nat_to_bits(j as nat, names.len()) == vals));
        if exists|j: int|
            k <= j < table.len() && table[j] && nat_to_bits(j as nat, names.len()) == vals {
            let j = choose|j: int|
                k <= j < table.len() && table[j] && nat_to_bits(j as nat, names.len()) == vals;
            assert(j != k);
        }
    } else {
        let bits = nat_to_bits(k as nat, names.len());
        crate::bits::lemma_nat_to_bits_len(k as nat, names.len());
        let m = spec_minterm(names, bits, parens);
        lemma_eval_minterm(names, bits, parens, env);
        // The minterm holds exactly when the assignment equals row k's bits.
        assert((forall|jj: int| 0 <= jj < names.len() ==> env[(#[trigger] names[jj])@] == bits[jj])
            == (vals == bits)) by {
            assert forall|jj: int| 0 <= jj < names.len() implies env[(#[trigger] names[jj])@]
                == vals[jj] by {
                assert(views[jj] == names[jj]@);
                assert(views.contains(names[jj]@));
                let i1 = views.index_of(names[jj]@);
                assert(0 <= i1 < views.len() && views[i1] == names[jj]@);
                if i1 != jj {
                    assert(views[i1] == views[jj]);
                    assert(false);
                }
            }
            if vals == bits {
                assert(forall|jj: int|
                    0 <= jj < names.len() ==> env[(#[trigger] names[jj])@] == bits[jj]);
            }
            if forall|jj: int| 0 <= jj < names.len() ==> env[(#[trigger] names[jj])@] == bits[jj] {
                assert forall|jj: int| 0 <= jj < vals.len() implies vals[jj] == bits[jj] by {
                    assert(env[names[jj]@] == bits[jj]);
                }
                assert(vals =~= bits);
            }
        }
        let rest = spec_dnf_from(table, names, parens, k + 1);
        lemma_dnf_from_empty(table, names, parens, k + 1);
        if rest.len() == 0 {
            assert(s == m);
            assert(eval_tokens(s, env) == (vals == bits));
            if exists|j: int|
                k <= j < table.len() && table[j] && nat_to_bits(j as nat, names.len()) == vals {
                let j = choose|j: int|
                    k <= j < table.len() && table[j] && nat_to_bits(j as nat, names.len()) == vals;
                assert(j == k);
            }
            if vals == bits {
                assert(k <= k < table.len() && table[k] && nat_to_bits(k as nat, names.len())
                    == vals);
            }
        } else {
            lemma_eval_dnf_from(table, names, parens, k + 1, vals);
            assert(s == m + seq![Token::Or] + rest);
            // Establish the split hypotheses at the first `Or`.
            lemma_dnf_valid_from(table, names, parens, k);
            lemma_minterm_profile(names, bits, parens);
            assert forall|p: int| 0 <= p <= m.len() implies v_depth(s, p) == v_depth(m, p) by {
                assert(forall|q: int| 0 <= q < m.len() ==> s[q] == m[q]);
                lemma_v_depth_prefix(s, m, m.len() as int, p);
            }
            assert forall|p: int|
                0 <= p < m.len() && v_depth(s, p) == 0 implies spec_precedence(#[trigger] s[p])
                > spec_precedence(Token::Or) by {
                assert(s[p] == m[p]);
                assert(v_depth(m, p) == 0);
            }
            assert(v_depth(s, m.len() as int) == 0);
            assert forall|p: int|
                m.len() + 1 <= p < s.len() && v_depth(s, p) == 0 implies spec_precedence(
                #[trigger] s[p],
            ) >= spec_precedence(Token::Or) by {
                lemma_precedence_nonneg(s[p]);
            }
            lemma_minterm_len(names, bits, parens);
            lemma_split_at(s, m, rest, Token::Or, env);
            assert(eval_tokens(s, env) == (eval_tokens(m, env) || eval_tokens(rest, env)));
            // Stitch the two sides of the disjunction into one range.
            if vals == bits {
                assert(k <= k < table.len() && table[k] && nat_to_bits(k as nat, names.len())
                    == vals);
            }
            if exists|j: int|
                k + 1 <= j < table.len() && table[j] && nat_to_bits(j as nat, names.len()) == vals {
                let j = choose|j: int|
                    k + 1 <= j < table.len() && table[j] && nat_to_bits(j as nat, names.len())
                        == vals;
                assert(k <= j < table.len() && table[j] && nat_to_bits(j as nat, names.len())
                    == vals);
            }
            if exists|j: int|
                k <= j < table.len() && table[j] && nat_to_bits(j as nat, names.len()) == vals {
                let j = choose|j: int|
                    k <= j < table.len() && table[j] && nat_to_bits(j as nat, names.len()) == vals;
                if j == k {
                    assert(vals == bits);
                }
            }
        }
    }
}

/// No precedence score is negative.
proof fn lemma_precedence_nonneg(t: Token)
    ensures
        spec_precedence(t) >= 0,
{
}

/// Names occurring in a concatenation occur in one of the parts.
proof fn lemma_occurs_concat(x: Seq<Token>, y: Seq<Token>, n: Seq<char>)
    ensures
        occurs(x + y, n) <==> (occurs(x, n) || occurs(y, n)),
{
    if occurs(x + y, n) {
        let i = choose|i: int|
            0 <= i < (x + y).len() && ((#[trigger] (x + y)[i]) matches Token::Var(s) && s@ == n);
        if i < x.len() {
            assert(x[i] == (x + y)[i]);
            assert(occurs(x, n));
        } else {
            assert(y[i - x.len()] == (x + y)[i]);
            assert(occurs(y, n));
        }
    }
    if occurs(x, n) {
        let i = choose|i: int|
            0 <= i < x.len() && ((#[trigger] x[i]) matches Token::Var(s) && s@ == n);
        assert((x + y)[i] == x[i]);
        assert(occurs(x + y, n));
    }
    if occurs(y, n) {
        let i = choose|i: int|
            0 <= i < y.len() && ((#[trigger] y[i]) matches Token::Var(s) && s@ == n);
        assert((x + y)[x.len() + i] == y[i]);
        assert(occurs(x + y, n));
    }
}

/// The names occurring in a minterm body tail are exactly `names[j..]`.
proof fn lemma_occurs_body(names: Seq<String>, bits: Seq<bool>, j: int, n: Seq<char>)
    requires
        0 <= j < names.len(),
    ensures
        occurs(body_from(names, bits, j), n) <==> (exists|jj: int|
            j <= jj < names.len() && (#[trigger] names[jj])@ == n),
    decreases names.len() - j,
{
    let lit = spec_literal(names[j], bits[j]);
    assert(occurs(lit, n) <==> names[j]@ == n) by {
        if occurs(lit, n) {
            let i = choose|i: int|
                0 <= i < lit.len() && ((#[trigger] lit[i]) matches Token::Var(s) && s@ == n);
        }
        if names[j]@ == n {
            if bits[j] {
                assert(lit[0] matches Token::Var(s) && s@ == n);
            } else {
                assert(lit[1] matches Token::Var(s) && s@ == n);
            }
            assert(occurs(lit, n));
        }
    }
    if j == names.len() - 1 {
        assert(body_from(names, bits, j) == lit);
    } else {
        lemma_occurs_body(names, bits, j + 1, n);
        let rest = body_from(names, bits, j + 1);
        assert(body_from(names, bits, j) == lit + seq![Token::And] + rest);
        lemma_occurs_concat(lit, seq![Token::And], n);
        lemma_occurs_concat(lit + seq![Token::And], rest, n);
        assert(!occurs(seq![Token::And], n)) by {
            if occurs(seq![Token::And], n) {
                let i = choose|i: int|
                    0 <= i < 1 && ((#[trigger] seq![Token::And][i]) matches Token::Var(s) && s@
                        == n);
            }
        }
    }
}

/// The names occurring in a minterm are exactly the variable names.
proof fn lemma_occurs_minterm(names: Seq<String>, bits: Seq<bool>, parens: bool, n: Seq<char>)
    ensures
        occurs(spec_minterm(names, bits, parens), n) <==> (exists|jj: int|
            0 <= jj < names.len() && (#[trigger] names[jj])@ == n),
{
    let body: Seq<Token> = if names.len() == 0 {
        seq![Token::One]
    } else {
        body_from(names, bits, 0)
    };
    assert(occurs(body, n) <==> (exists|jj: int|
        0 <= jj < names.len() && (#[trigger] names[jj])@ == n)) by {
        if names.len() == 0 {
            if occurs(body, n) {
                let i = choose|i: int|
                    0 <= i < body.len() && ((#[trigger] body[i]) matches Token::Var(s) && s@ == n);
            }
        } else {
            lemma_occurs_body(names, bits, 0, n);
        }
    }
    if parens {
        assert(spec_minterm(names, bits, parens) == seq![Token::Open] + body + seq![Token::Close]);
        lemma_occurs_concat(seq![Token::Open], body, n);
        lemma_occurs_concat(seq![Token::Open] + body, seq![Token::Close], n);
        assert(!occurs(seq![Token::Open], n)) by {
            if occurs(seq![Token::Open], n) {
                let i = choose|i: int|
                    0 <= i < 1 && ((#[trigger] seq![Token::Open][i]) matches Token::Var(s) && s@
                        == n);
            }
        }
        assert(!occurs(seq![Token::Close], n)) by {
            if occurs(seq![Token::Close], n) {
                let i = choose|i: int|
                    0 <= i < 1 && ((#[trigger] seq![Token::Close][i]) matches Token::Var(s) && s@
                        == n);
            }
        }
    }
}

/// The names occurring in a nonempty DNF tail are exactly the variable names.
proof fn lemma_occurs_dnf_from(table: Seq<bool>, names: Seq<String>, parens: bool, k: int, n: Seq<char>)
    requires
        0 <= k <= table.len(),
        spec_dnf_from(table, names, parens, k).len() > 0,
    ensures
        occurs(spec_dnf_from(table, names, parens, k), n) <==> (exists|jj: int|
            0 <= jj < names.len() && (#[trigger] names[jj])@ == n),
    decreases table.len() - k,
{
    let s = spec_dnf_from(table, names, parens, k);
    if table[k] {
        let bits = nat_to_bits(k as nat, names.len());
        let m = spec_minterm(names, bits, parens);
        let rest = spec_dnf_from(table, names, parens, k + 1);
        lemma_occurs_minterm(names, bits, parens, n);
        if rest.len() == 0 {
            assert(s == m);
        } else {
            lemma_occurs_dnf_from(table, names, parens, k + 1, n);
            assert(s == m + seq![Token::Or] + rest);
            lemma_occurs_concat(m, seq![Token::Or], n);
            lemma_occurs_concat(m + seq![Token::Or], rest, n);
            assert(!occurs(seq![Token::Or], n)) by {
                if occurs(seq![Token::Or], n) {
                    let i = choose|i: int|
                        0 <= i < 1 && ((#[trigger] seq![Token::Or][i]) matches Token::Var(s) && s@
                            == n);
                }
            }
        }
    } else {
        lemma_occurs_dnf_from(table, names, parens, k + 1, n);
    }
}

/// The round trip: for a truth table of the right length over strictly
/// sorted variable names, with at least one true row, the synthesized DNF
/// passes the validator, lists exactly the given variable names, and denotes
/// the table itself — entry `k` of the table is the DNF's value under the
/// assignment whose bit pattern encodes `k`. Re-parsing the DNF therefore
/// returns the table. (The all-false table synthesizes the empty sequence,
/// which callers special-case; it stands for constant false and no valid
/// expression is empty.)
pub proof fn lemma_dnf_round_trip(table: Seq<bool>, names: Seq<String>, parens: bool)
    requires
        table.len() == spec_pow2(names.len()),
        strictly_sorted(name_views(names)),
        exists|i: int| 0 <= i < table.len() && table[i],
    ensures
        ({
            let toks = spec_dnf(table, names, parens);
            &&& spec_valid(toks)
            &&& spec_var_names(toks) == name_views(names)
            &&& (forall|k: int|
                0 <= k < table.len() ==> eval_tokens(
                    toks,
                    env_of(name_views(names), nat_to_bits(k as nat, names.len())),
                ) == table[k])
        }),
{
    let views = name_views(names);
    let toks = spec_dnf(table, names, parens);
    assert forall|a: int, b: int| 0 <= a < b < views.len() implies views[a] != views[b] by {
        lemma_lex_trichotomy(views[a], views[b]);
    }
    lemma_dnf_from_empty(table, names, parens, 0);
    assert(toks.len() > 0) by {
        let i = choose|i: int| 0 <= i < table.len() && table[i];
        assert(!(forall|j: int| 0 <= j < table.len() ==> !table[j]));
    }
    lemma_dnf_valid_from(table, names, parens, 0);
    // The DNF's variable-name list is the given one.
    assert(is_var_name_list(toks, views)) by {
        assert forall|n: Seq<char>| #[trigger] views.contains(n) <==> occurs(toks, n) by {
            lemma_occurs_dnf_from(table, names, parens, 0, n);
            if views.contains(n) {
                let jj = choose|jj: int| 0 <= jj < views.len() && views[jj] == n;
                assert(names[jj]@ == n);
            }
            if exists|jj: int| 0 <= jj < names.len() && (#[trigger] names[jj])@ == n {
                let jj = choose|jj: int| 0 <= jj < names.len() && (#[trigger] names[jj])@ == n;
                assert(views[jj] == n);
                assert(views.contains(n));
            }
        }
    }
    assert(spec_var_names(toks) == views) by {
        assert(exists|ns: Seq<Seq<char>>| is_var_name_list(toks, ns));
        let c = spec_var_names(toks);
        assert(is_var_name_list(toks, c));
        lemma_strictly_sorted_unique(c, views);
    }
    // The DNF denotes the table.
    assert forall|k: int| 0 <= k < table.len() implies eval_tokens(
        toks,
        env_of(views, nat_to_bits(k as nat, names.len())),
    ) == table[k] by {
        let vals = nat_to_bits(k as nat, names.len());
        crate::bits::lemma_nat_to_bits_len(k as nat, names.len());
        lemma_eval_dnf_from(table, names, parens, 0, vals);
        if table[k] {
            assert(0 <= k < table.len() && table[k] && nat_to_bits(k as nat, names.len()) == vals);
        }
        if exists|j: int|
            0 <= j < table.len() && table[j] && nat_to_bits(j as nat, names.len()) == vals {
            let j = choose|j: int|
                0 <= j < table.len() && table[j] && nat_to_bits(j as nat, names.len()) == vals;
            lemma_bits_of_nat_inverse(j as nat, names.len());
            lemma_bits_of_nat_inverse(k as nat, names.len());
            assert(j == k);
        }
    }
}

} // verus!
