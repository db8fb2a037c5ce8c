//! Well-formedness checks, variable-name extraction, and the assignment
//! enumerator shared by the parser and the DNF synthesizer.

use crate::bits::{bits_to_nat, lemma_bits_all_true, lemma_bits_to_nat_bound,
    lemma_nat_of_bits_inverse, lemma_pow2_mono, lemma_pow2_pos, nat_to_bits, spec_pow2};
use crate::error::{spec_error_message, Error};
use crate::token::spec_token_text;
use crate::strings::{lemma_lex_transitive, lemma_lex_trichotomy, lemma_strictly_sorted_unique,
    lex_lt, str_lt, strictly_sorted};
use crate::token::Token;
use vstd::prelude::*;

verus! {

/// Once a `Not` or a group opening directly follows a complete operand, the
/// sequence is already malformed; this lookahead only settles which failure
/// to report. `Not` and grouping tokens do not count as operands, so the
/// adjacency failure names the next operand — the offending token standing
/// where an operator was owed. A closing parenthesis below depth zero fails
/// at its own position; a stream that ends first owes either its still-open
/// groups or the operand the lookahead was seeking.
pub open spec fn spec_adjacent_from(func: Seq<Token>, i: int, depth: nat) -> Error
    decreases func.len() - i,
{
    if i < 0 || i >= func.len() {
        if depth != 0 {
            Error::UnbalancedOpen
        } else {
            Error::ExpectedOperand { position: func.len() as usize }
        }
    } else {
        let t = func[i];
        match t {
            Token::One => Error::ExpectedOperator { token: t },
            Token::Zero => Error::ExpectedOperator { token: t },
            Token::Var(_) => Error::ExpectedOperator { token: t },
            Token::Open => spec_adjacent_from(func, i + 1, depth + 1),
            Token::Close => if depth == 0 {
                Error::UnbalancedClose { position: i as usize }
            } else {
                spec_adjacent_from(func, i + 1, (depth - 1) as nat)
            },
            _ => spec_adjacent_from(func, i + 1, depth),
        }
    }
}

/// The validator's scan over `func[i..]`: `depth` open parentheses surround
/// the position, and `expect_operand` says whether the next token must start
/// an operand (true) or continue after a complete one (false).
///
/// The scan enforces the three well-formedness rules at once: parentheses
/// stay balanced, every binary operator gets an operand on both sides (`Not`
/// only one, on its right), and no operand — a constant, a variable, or a
/// parenthesized group — directly follows a complete operand. An adjacency
/// failure names the second operand itself, looking through `Not` and
/// grouping tokens, since those do not count as operands.
pub open spec fn spec_validate_from(
    func: Seq<Token>,
    i: int,
    depth: nat,
    expect_operand: bool,
) -> Result<(), Error>
    decreases func.len() - i,
{
    if i < 0 || i >= func.len() {
        if expect_operand {
            Err(Error::ExpectedOperand { position: func.len() as usize })
        } else if depth != 0 {
            Err(Error::UnbalancedOpen)
        } else {
            Ok(())
        }
    } else {
        let t = func[i];
        if expect_operand {
            match t {
                Token::Not => spec_validate_from(func, i + 1, depth, true),
                Token::Open => spec_validate_from(func, i + 1, depth + 1, true),
                Token::One => spec_validate_from(func, i + 1, depth, false),
                Token::Zero => spec_validate_from(func, i + 1, depth, false),
                Token::Var(_) => spec_validate_from(func, i + 1, depth, false),
                Token::Close => if depth == 0 {
                    Err(Error::UnbalancedClose { position: i as usize })
                } else {
                    Err(Error::ExpectedOperand { position: i as usize })
                },
                _ => Err(Error::ExpectedOperand { position: i as usize }),
            }
        } else {
            match t {
                Token::Close => if depth == 0 {
                    Err(Error::UnbalancedClose { position: i as usize })
                } else {
                    spec_validate_from(func, i + 1, (depth - 1) as nat, false)
                },
                Token::And => spec_validate_from(func, i + 1, depth, true),
                Token::Or => spec_validate_from(func, i + 1, depth, true),
                Token::Xor => spec_validate_from(func, i + 1, depth, true),
                Token::Eq => spec_validate_from(func, i + 1, depth, true),
                Token::ImplicAB => spec_validate_from(func, i + 1, depth, true),
                Token::ImplicBA => spec_validate_from(func, i + 1, depth, true),
                Token::Nand => spec_validate_from(func, i + 1, depth, true),
                Token::Nor => spec_validate_from(func, i + 1, depth, true),
                Token::One => Err(Error::ExpectedOperator { token: t }),
                Token::Zero => Err(Error::ExpectedOperator { token: t }),
                Token::Var(_) => Err(Error::ExpectedOperator { token: t }),
                _ => Err(spec_adjacent_from(func, i, depth)),
            }
        }
    }
}

/// The verdict of the validator on a whole token sequence.
pub open spec fn spec_validate(func: Seq<Token>) -> Result<(), Error> {
    spec_validate_from(func, 0, 0, true)
}

/// Whether a token sequence is a well-formed expression.
pub open spec fn spec_valid(func: Seq<Token>) -> bool {
    spec_validate(func) is Ok
}

/// The lookahead behind an adjacency failure: finds the offending operand
/// after a `Not` or group opening that follows a complete operand, or the
/// parenthesis failure the stream runs into first.
fn adjacent_error(func: &Vec<Token>, start: usize, depth: usize) -> (e: Error)
    requires
        start <= func@.len(),
        depth <= start,
    ensures
        e == spec_adjacent_from(func@, start as int, depth as nat),
{
    let mut i = start;
    let mut d = depth;
    while i < func.len()
        invariant
            start <= i <= func@.len(),
            d <= i,
            spec_adjacent_from(func@, start as int, depth as nat) == spec_adjacent_from(
                func@,
                i as int,
                d as nat,
            ),
        decreases func@.len() - i,
    {
        match &func[i] {
            Token::One | Token::Zero | Token::Var(_) => {
                return Error::ExpectedOperator { token: func[i].dup() };
            },
            Token::Open => {
                d = d + 1;
            },
            Token::Close => {
                if d == 0 {
                    return Error::UnbalancedClose { position: i };
                } else {
                    d = d - 1;
                }
            },
            _ => {},
        }
        i = i + 1;
    }
    if d != 0 {
        Error::UnbalancedOpen
    } else {
        Error::ExpectedOperand { position: func.len() }
    }
}

/// Checks that `func` is a well-formed expression: parentheses balance,
/// every operator has its operands, and no two operands are adjacent.
/// Returns the first failure in reading order; an adjacency failure names
/// the second operand, looking through `Not` and grouping tokens.
pub fn validate_func(func: &Vec<Token>) -> (r: Result<(), Error>)
    ensures
        r == spec_validate(func@),
{
    let mut depth: usize = 0;
    let mut expect_operand = true;
    let mut i: usize = 0;
    while i < func.len()
        invariant
            i <= func@.len(),
            depth <= i,
            spec_validate(func@) == spec_validate_from(func@, i as int, depth as nat, expect_operand),
        decreases func@.len() - i,
    {
        if expect_operand {
            match &func[i] {
                Token::Not => {},
                Token::Open => {
                    depth = depth + 1;
                },
                Token::One | Token::Zero | Token::Var(_) => {
                    expect_operand = false;
                },
                Token::Close => {
                    if depth == 0 {
                        return Err(Error::UnbalancedClose { position: i });
                    } else {
                        return Err(Error::ExpectedOperand { position: i });
                    }
                },
                _ => {
                    return Err(Error::ExpectedOperand { position: i });
                },
            }
        } else {
            match &func[i] {
                Token::Close => {
                    if depth == 0 {
                        return Err(Error::UnbalancedClose { position: i });
                    } else {
                        depth = depth - 1;
                    }
                },
                Token::And | Token::Or | Token::Xor | Token::Eq | Token::ImplicAB
                    | Token::ImplicBA | Token::Nand | Token::Nor => {
                    expect_operand = true;
                },
                Token::One | Token::Zero | Token::Var(_) => {
                    return Err(Error::ExpectedOperator { token: func[i].dup() });
                },
                _ => {
                    return Err(adjacent_error(func, i, depth));
                },
            }
        }
        i = i + 1;
    }
    if expect_operand {
        Err(Error::ExpectedOperand { position: func.len() })
    } else if depth != 0 {
        Err(Error::UnbalancedOpen)
    } else {
        Ok(())
    }
}

/// Steps an assignment vector to the next one in enumeration order: a binary
/// increment that treats the last slot as the least significant bit. Returns
/// true while a fresh assignment was produced; the all-true vector wraps back
/// to all-false and returns false, signalling exhaustion.
pub fn update_values(values: &mut Vec<bool>) -> (more: bool)
    ensures
        final(values)@.len() == old(values)@.len(),
        more == (bits_to_nat(old(values)@) + 1 < spec_pow2(old(values)@.len())),
        bits_to_nat(final(values)@) == if more {
            bits_to_nat(old(values)@) + 1
        } else {
            0
        },
{
    let ghost orig = old(values)@;
    let len = values.len();
    let mut i = len;
    while i > 0
        invariant
            i <= len,
            orig == old(values)@,
            len == values@.len() == orig.len(),
            forall|j: int| 0 <= j < i ==> values@[j] == orig[j],
            forall|j: int| i <= j < len ==> orig[j],
            forall|j: int| i <= j < len ==> !values@[j],
        decreases i,
    {
        i = i - 1;
        let flipped = !values[i];
        let ghost pre_set = values@;
        values[i] = flipped;
        proof {
            assert(values@ =~= pre_set.update(i as int, flipped));
            assert(forall|j: int| 0 <= j < len && j != i ==> values@[j] == pre_set[j]);
            assert(pre_set[i as int] == orig[i as int]);
        }
        if flipped {
            proof {
                // The old vector read `prefix ++ [false] ++ all-true`; the
                // new one reads `prefix ++ [true] ++ all-false`: one more.
                assert forall|j: int| (i as int) < j < len implies orig[j] && !values@[j] by {
                    assert(values@[j] == pre_set[j]);
                    assert(orig[j]);
                }
                crate::bits::lemma_bits_increment(orig, values@, i as int);
                lemma_bits_to_nat_bound(values@);
            }
            return true;
        }
        proof {
            assert forall|j: int| i <= j < len implies orig[j] by {
                if j == i {
                    assert(orig[j] == pre_set[j]);
                }
            }
            assert forall|j: int| i <= j < len implies !values@[j] by {
                if j > i {
                    assert(values@[j] == pre_set[j]);
                }
            }
        }
    }
    proof {
        assert(forall|j: int| 0 <= j < orig.len() ==> orig[j]);
        lemma_bits_all_true(orig);
        assert(forall|j: int| 0 <= j < values@.len() ==> !values@[j]);
        crate::bits::lemma_bits_all_false(values@);
    }
    false
}

/// Whether a variable named `name` occurs in `func`.
pub open spec fn occurs(func: Seq<Token>, name: Seq<char>) -> bool {
    exists|i: int|
        0 <= i < func.len() && ((#[trigger] func[i]) matches Token::Var(s) && s@ == name)
}

/// What it means for `ns` to be the variable-name list of `func`: exactly the
/// names occurring in `func`, in strictly increasing lexicographic order.
/// At most one sequence qualifies.
pub open spec fn is_var_name_list(func: Seq<Token>, ns: Seq<Seq<char>>) -> bool {
    strictly_sorted(ns) && (forall|n: Seq<char>| #[trigger] ns.contains(n) <==> occurs(func, n))
}

/// The variable-name list of `func`.
pub open spec fn spec_var_names(func: Seq<Token>) -> Seq<Seq<char>> {
    choose|ns: Seq<Seq<char>>| is_var_name_list(func, ns)
}

/// Appending one token extends the occurring names by at most that token's.
proof fn lemma_occurs_snoc(pre: Seq<Token>, t: Token, n: Seq<char>)
    ensures
        occurs(pre.push(t), n) <==> (occurs(pre, n) || (t matches Token::Var(s) && s@ == n)),
{
    let q = pre.push(t);
    if occurs(q, n) {
        let i = choose|i: int|
            0 <= i < q.len() && ((#[trigger] q[i]) matches Token::Var(s) && s@ == n);
        if i < pre.len() {
            assert(pre[i] == q[i]);
            assert(occurs(pre, n));
        } else {
            assert(q[i] == t);
        }
    }
    if occurs(pre, n) {
        let i = choose|i: int|
            0 <= i < pre.len() && ((#[trigger] pre[i]) matches Token::Var(s) && s@ == n);
        assert(q[i] == pre[i]);
        assert(occurs(q, n));
    }
    match t {
        Token::Var(s) => {
            if s@ == n {
                assert(q[pre.len() as int] == t);
                assert(occurs(q, n));
            }
        },
        _ => {},
    }
}

/// Collects the variable names occurring in `func`, without duplicates, in
/// lexicographic order. This ordering fixes each variable's slot in the
/// assignment vector and its column in a printed table.
pub fn get_names(func: &Vec<Token>) -> (names: Vec<String>)
    ensures
        is_var_name_list(func@, names.deep_view()),
        names.deep_view() == spec_var_names(func@),
{
    let mut names: Vec<String> = Vec::new();
    let mut k: usize = 0;
    proof {
        // Base of the loop invariant: the empty prefix mentions no name and
        // the empty list holds none.
        assert(func@.subrange(0, 0) =~= Seq::<Token>::empty());
        assert forall|n: Seq<char>|
            #[trigger] names.deep_view().contains(n) <==> occurs(
                func@.subrange(0, 0),
                n,
            ) by {
            if occurs(func@.subrange(0, 0), n) {
                let i = choose|i: int|
                    0 <= i < func@.subrange(0, 0).len() && ((#[trigger] func@.subrange(0, 0)[i])
                        matches Token::Var(s) && s@ == n);
            }
            if names.deep_view().contains(n) {
                let i = choose|i: int|
                    0 <= i < names.deep_view().len() && names.deep_view()[i] == n;
            }
        }
    }
    while k < func.len()
        invariant
            k <= func@.len(),
            strictly_sorted(names.deep_view()),
            forall|n: Seq<char>| #[trigger]
                names.deep_view().contains(n) <==> occurs(func@.subrange(0, k as int), n),
        decreases func@.len() - k,
    {
        let ghost prefix = func@.subrange(0, k as int);
        let ghost extended = func@.subrange(0, k as int + 1);
        proof {
            assert(extended =~= prefix.push(func@[k as int]));
        }
        match &func[k] {
            Token::Var(name) => {
                let ghost old_deep = names.deep_view();
                // Find where `name` belongs: the first entry not below it.
                let mut p: usize = 0;
                while p < names.len() && str_lt(&names[p], name)
                    invariant
                        p <= names@.len(),
                        forall|j: int| 0 <= j < p ==> lex_lt(#[trigger] names.deep_view()[j], name@),
                    decreases names@.len() - p,
                {
                    p = p + 1;
                }
                let mut dup = false;
                if p < names.len() {
                    if names[p].eq(name) {
                        dup = true;
                    }
                }
                if dup {
                    proof {
                        assert(old_deep[p as int] == name@);
                        assert(old_deep.contains(name@));
                        assert forall|n: Seq<char>| #[trigger]
                            names.deep_view().contains(n) <==> occurs(extended, n) by {
                            lemma_occurs_snoc(prefix, func@[k as int], n);
                        }
                    }
                } else {
                    proof {
                        // Everything at or past `p` lies strictly above `name`.
                        if p < old_deep.len() {
                            lemma_lex_trichotomy(name@, old_deep[p as int]);
                        }
                        assert forall|j: int| p <= j < old_deep.len() implies lex_lt(
                            name@,
                            #[trigger] old_deep[j],
                        ) by {
                            if j > p {
                                lemma_lex_transitive(name@, old_deep[p as int], old_deep[j]);
                            }
                        }
                    }
                    let ghost old_view = names@;
                    names.insert(p, name.clone());
                    proof {
                        let new_deep = names.deep_view();
                        old_view.insert_ensures(p as int, *name);
                        assert(names@ == old_view.insert(p as int, *name));
                        assert(new_deep.len() == old_deep.len() + 1);
                        assert forall|j: int| 0 <= j < p implies #[trigger] new_deep[j]
                            == old_deep[j] by {
                            assert(names@[j] == old_view[j]);
                        }
                        assert(new_deep[p as int] == name@);
                        assert forall|j: int| p < j < new_deep.len() implies #[trigger] new_deep[j]
                            == old_deep[j - 1] by {
                            assert(names@[j] == old_view[j - 1]);
                        }
                        assert(strictly_sorted(new_deep)) by {
                            assert forall|x: int, y: int|
                                0 <= x < y < new_deep.len() implies lex_lt(
                                new_deep[x],
                                new_deep[y],
                            ) by {
                                if y < p {
                                } else if y == p {
                                    assert(lex_lt(old_deep[x], name@));
                                } else if x == p {
                                    assert(lex_lt(name@, old_deep[y - 1]));
                                } else if x < p {
                                    assert(lex_lt(old_deep[x], old_deep[y - 1]));
                                } else {
                                    assert(lex_lt(old_deep[x - 1], old_deep[y - 1]));
                                }
                            }
                        }
                        assert forall|n: Seq<char>| #[trigger]
                            new_deep.contains(n) <==> (old_deep.contains(n) || n == name@) by {
                            if new_deep.contains(n) {
                                let j = choose|j: int|
                                    0 <= j < new_deep.len() && new_deep[j] == n;
                                if j < p {
                                    assert(old_deep[j] == n);
                                    assert(old_deep.contains(n));
                                } else if j > p {
                                    assert(old_deep[j - 1] == n);
                                    assert(old_deep.contains(n));
                                }
                            }
                            if old_deep.contains(n) {
                                let j = choose|j: int|
                                    0 <= j < old_deep.len() && old_deep[j] == n;
                                if j < p {
                                    assert(new_deep[j] == n);
                                } else {
                                    assert(new_deep[j + 1] == n);
                                }
                                assert(new_deep.contains(n));
                            }
                            if n == name@ {
                                assert(new_deep[p as int] == n);
                                assert(new_deep.contains(n));
                            }
                        }
                        assert forall|n: Seq<char>| #[trigger]
                            names.deep_view().contains(n) <==> occurs(extended, n) by {
                            lemma_occurs_snoc(prefix, func@[k as int], n);
                        }
                    }
                }
            },
            _ => {
                proof {
                    assert forall|n: Seq<char>| #[trigger]
                        names.deep_view().contains(n) <==> occurs(extended, n) by {
                        lemma_occurs_snoc(prefix, func@[k as int], n);
                    }
                }
            },
        }
        k = k + 1;
    }
    proof {
        assert(func@.subrange(0, func@.len() as int) =~= func@);
        assert(is_var_name_list(func@, names.deep_view()));
        assert(exists|ns: Seq<Seq<char>>| is_var_name_list(func@, ns));
        let c = spec_var_names(func@);
        assert(is_var_name_list(func@, c));
        assert forall|n: Seq<char>| names.deep_view().contains(n) <==> c.contains(n) by {}
        lemma_strictly_sorted_unique(names.deep_view(), c);
    }
    names
}

/// Extracting variable names is deterministic: any two name lists that
/// qualify as the variable-name list of the same token sequence are equal, so
/// `get_names` returns identical ordered output however often it is called.
pub proof fn lemma_var_names_deterministic(func: Seq<Token>, a: Seq<Seq<char>>, b: Seq<Seq<char>>)
    requires
        is_var_name_list(func, a),
        is_var_name_list(func, b),
    ensures
        a == b,
{
    lemma_strictly_sorted_unique(a, b);
}

/// Enumeration hits each assignment pattern at most once: steps `k1` and `k2`
/// of the enumeration (counted from the all-false vector, which
/// `update_values` walks by adding one each call) carry distinct patterns.
pub proof fn lemma_enumeration_injective(n: nat, k1: nat, k2: nat)
    requires
        k1 < spec_pow2(n),
        k2 < spec_pow2(n),
        k1 != k2,
    ensures
        nat_to_bits(k1, n).len() == n,
        nat_to_bits(k2, n).len() == n,
        nat_to_bits(k1, n) != nat_to_bits(k2, n),
{
    crate::bits::lemma_bits_of_nat_inverse(k1, n);
    crate::bits::lemma_bits_of_nat_inverse(k2, n);
}

/// Enumeration misses no assignment: every boolean vector is the pattern of
/// exactly one step below `2^n`, so the walk from all-false visits all `2^n`
/// patterns before `update_values` signals exhaustion at the all-true vector.
pub proof fn lemma_enumeration_complete(s: Seq<bool>)
    ensures
        bits_to_nat(s) < spec_pow2(s.len()),
        nat_to_bits(bits_to_nat(s), s.len()) == s,
{
    lemma_bits_to_nat_bound(s);
    lemma_nat_of_bits_inverse(s);
}

/// `2^n` as a `usize`, or `None` when it does not fit.
fn pow2_checked(n: usize) -> (r: Option<usize>)
    ensures
        match r {
            Some(p) => p as nat == spec_pow2(n as nat),
            None => spec_pow2(n as nat) > usize::MAX as nat,
        },
{
    let mut result: usize = 1;
    let mut i: usize = 0;
    while i < n
        invariant
            i <= n,
            result as nat == spec_pow2(i as nat),
        decreases n - i,
    {
        if result > usize::MAX / 2 {
            proof {
                lemma_pow2_mono((i + 1) as nat, n as nat);
            }
            return None;
        }
        result = result * 2;
        i = i + 1;
    }
    Some(result)
}

/// Checks that `table` has exactly one entry per assignment of `names`:
/// its length must be `2^names.len()`.
pub fn validate_tabel(table: &Vec<bool>, names: &Vec<String>) -> (r: Result<(), Error>)
    ensures
        r is Ok <==> table@.len() == spec_pow2(names@.len()),
        r is Err ==> r == Err::<(), Error>(
            Error::WrongTableLength { var_count: names.len(), table_len: table.len() },
        ),
{
    let expected = pow2_checked(names.len());
    match expected {
        Some(p) => {
            if table.len() == p {
                Ok(())
            } else {
                Err(Error::WrongTableLength { var_count: names.len(), table_len: table.len() })
            }
        },
        None => {
            // The table is held in memory, so it is certainly shorter than
            // 2^names.len() when that exceeds the address space.
            Err(Error::WrongTableLength { var_count: names.len(), table_len: table.len() })
        },
    }
}

/// Reads a boolean vector as an unsigned number, index 0 as the most
/// significant bit: `[false, true, true]` is 3, `[true, false, false]` is 4.
pub fn bool_to_u32(binary: Vec<bool>) -> (num: u32)
    requires
        binary@.len() <= 32,
    ensures
        num as nat == bits_to_nat(binary@),
{
    let mut num: u32 = 0;
    let mut i: usize = 0;
    proof {
        assert(binary@.subrange(0, 0) =~= Seq::<bool>::empty());
    }
    while i < binary.len()
        invariant
            i <= binary@.len() <= 32,
            num as nat == bits_to_nat(binary@.subrange(0, i as int)),
        decreases binary@.len() - i,
    {
        proof {
            lemma_bits_to_nat_bound(binary@.subrange(0, i as int));
            lemma_pow2_mono(i as nat, 31);
            crate::bits::lemma_pow2_31();
            assert(binary@.subrange(0, i as int + 1).drop_last() =~= binary@.subrange(
                0,
                i as int,
            ));
        }
        num = num * 2 + (if binary[i] {
            1
        } else {
            0
        });
        i = i + 1;
    }
    proof {
        assert(binary@.subrange(0, binary@.len() as int) =~= binary@);
    }
    num
}

/// The full enumeration of assignments over `len` variables, in order: entry
/// `k` is the bit pattern of `k`, most significant bit first.
pub fn generate_table_2d(len: usize) -> (table: Vec<Vec<bool>>)
    ensures
        table@.len() == spec_pow2(len as nat),
        forall|k: int| 0 <= k < table@.len() ==> #[trigger] table@[k]@ == nat_to_bits(
            k as nat,
            len as nat,
        ),
{
    let mut table: Vec<Vec<bool>> = Vec::new();
    let mut values: Vec<bool> = vec![false; len];
    proof {
        assert(forall|j: int| 0 <= j < values@.len() ==> !values@[j]);
        crate::bits::lemma_bits_all_false(values@);
        lemma_pow2_pos(len as nat);
    }
    loop
        invariant
            values@.len() == len,
            bits_to_nat(values@) == table@.len(),
            table@.len() < spec_pow2(len as nat),
            forall|k: int| 0 <= k < table@.len() ==> #[trigger] table@[k]@ == nat_to_bits(
                k as nat,
                len as nat,
            ),
        decreases spec_pow2(len as nat) - table@.len(),
    {
        proof {
            lemma_bits_to_nat_bound(values@);
            lemma_nat_of_bits_inverse(values@);
        }
        table.push(values.clone());
        let more = update_values(&mut values);
        if !more {
            proof {
                lemma_bits_to_nat_bound(values@);
            }
            return table;
        }
    }
}

/// One aligned cell of a printed row: the value's digit centred under the
/// column's name, which takes `left` padding spaces before and `right` after.
pub open spec fn spaces(n: int) -> Seq<char>
    decreases n,
{
    if n <= 0 {
        Seq::empty()
    } else {
        spaces(n - 1) + " "@
    }
}

/// The digit a boolean prints as.
pub open spec fn digit(v: bool) -> Seq<char> {
    if v {
        "1"@
    } else {
        "0"@
    }
}

/// Padding on the left of a column's digit: what remains of the name's width
/// after the digit and the right padding.
pub open spec fn pad_left(name: Seq<char>) -> int {
    (name.len() - 1) - (name.len() - 1) / 2
}

/// Padding on the right of a column's digit: half the name's remaining width.
pub open spec fn pad_right(name: Seq<char>) -> int {
    (name.len() - 1) / 2
}

/// One row's cells from column `j` on: each value's digit centred under its
/// column, one space between columns.
pub open spec fn spec_cells(names: Seq<String>, bits: Seq<bool>, j: int) -> Seq<char>
    decreases names.len() - j,
{
    if j < 0 || j >= names.len() {
        Seq::empty()
    } else {
        spaces(pad_left(names[j]@)) + digit(bits[j]) + spaces(pad_right(names[j]@)) + " "@
            + spec_cells(names, bits, j + 1)
    }
}

/// One printed row: the assignment's cells, the column separator, and the
/// result digit indented under the result label.
pub open spec fn spec_table_row(
    names: Seq<String>,
    result_name: Seq<char>,
    bits: Seq<bool>,
    value: bool,
) -> Seq<char> {
    spec_cells(names, bits, 0) + "| "@ + spaces(pad_right(result_name)) + digit(value) + "\n"@
}

/// The printed rows from assignment `k` on, in enumeration order.
pub open spec fn spec_table_rows(
    table: Seq<bool>,
    names: Seq<String>,
    result_name: Seq<char>,
    k: int,
) -> Seq<char>
    decreases table.len() - k,
{
    if k < 0 || k >= table.len() {
        Seq::empty()
    } else {
        spec_table_row(names, result_name, nat_to_bits(k as nat, names.len()), table[k])
            + spec_table_rows(table, names, result_name, k + 1)
    }
}

/// The header's name columns from `j` on, one space after each.
pub open spec fn spec_header_cells(names: Seq<String>, j: int) -> Seq<char>
    decreases names.len() - j,
{
    if j < 0 || j >= names.len() {
        Seq::empty()
    } else {
        names[j]@ + " "@ + spec_header_cells(names, j + 1)
    }
}

/// The whole printed table: header line, then one row per assignment.
pub open spec fn spec_print_tabel(
    table: Seq<bool>,
    names: Seq<String>,
    result_name: Seq<char>,
) -> Seq<char> {
    spec_header_cells(names, 0) + "| "@ + result_name + "\n"@ + spec_table_rows(
        table,
        names,
        result_name,
        0,
    )
}

/// Appends `n` spaces.
fn push_spaces(out: &mut String, n: usize)
    ensures
        final(out)@ == old(out)@ + spaces(n as int),
{
    let mut i: usize = 0;
    proof {
        assert(out@ + spaces(0) =~= out@);
    }
    while i < n
        invariant
            i <= n,
            out@ == old(out)@ + spaces(i as int),
        decreases n - i,
    {
        out.append(" ");
        proof {
            assert(old(out)@ + spaces(i as int) + " "@ =~= old(out)@ + spaces(i as int + 1));
        }
        i = i + 1;
    }
}

/// The tokens of an expression joined by spaces, one trailing newline.
pub open spec fn spec_print_func(func: Seq<Token>, i: int) -> Seq<char>
    decreases func.len() - i,
{
    if i < 0 || i >= func.len() {
        "\n"@
    } else {
        spec_token_text(func[i]) + " "@ + spec_print_func(func, i + 1)
    }
}

/// Renders an expression as text: its tokens separated by spaces, then a
/// newline.
pub fn print_func(func: &Vec<Token>) -> (out: String)
    ensures
        out@ == spec_print_func(func@, 0),
{
    let mut out = String::new();
    let mut i: usize = 0;
    while i < func.len()
        invariant
            i <= func@.len(),
            spec_print_func(func@, 0) == out@ + spec_print_func(func@, i as int),
        decreases func@.len() - i,
    {
        let ghost pre = out@;
        let text = func[i].text();
        out.append(text.as_str());
        out.append(" ");
        proof {
            assert(out@ =~= pre + (spec_token_text(func@[i as int]) + " "@));
            assert(pre + (spec_token_text(func@[i as int]) + " "@) + spec_print_func(
                func@,
                i as int + 1,
            ) =~= pre + spec_print_func(func@, i as int));
        }
        i = i + 1;
    }
    out.append("\n");
    proof {
        assert(out@ =~= spec_print_func(func@, 0));
    }
    out
}

/// Renders a truth table as text: a header of the variable names and the
/// result label, then one line per assignment in enumeration order, each
/// digit centred under its column. A table of the wrong length renders as
/// that error's message instead.
pub fn print_tabel(table: &Vec<bool>, names: &Vec<String>, result_name: &String) -> (out: String)
    requires
        forall|i: int| 0 <= i < names@.len() ==> (#[trigger] names@[i])@.len() >= 1,
        result_name@.len() >= 1,
    ensures
        out@ == if table@.len() == spec_pow2(names@.len()) {
            spec_print_tabel(table@, names@, result_name@)
        } else {
            spec_error_message(
                Error::WrongTableLength {
                    var_count: names@.len() as usize,
                    table_len: table@.len() as usize,
                },
            )
        },
{
    match validate_tabel(table, names) {
        Ok(_) => {},
        Err(e) => {
            return e.message();
        },
    }
    let mut out = String::new();
    // Header: the variable names, then the result label.
    let mut j: usize = 0;
    while j < names.len()
        invariant
            j <= names@.len(),
            spec_header_cells(names@, 0) == out@ + spec_header_cells(names@, j as int),
        decreases names@.len() - j,
    {
        let ghost pre = out@;
        out.append(names[j].as_str());
        out.append(" ");
        proof {
            assert(out@ =~= pre + (names@[j as int]@ + " "@));
            assert(pre + (names@[j as int]@ + " "@) + spec_header_cells(names@, j as int + 1)
                =~= pre + spec_header_cells(names@, j as int));
        }
        j = j + 1;
    }
    out.append("| ");
    out.append(result_name.as_str());
    out.append("\n");
    let ghost header = out@;
    proof {
        assert(header =~= spec_header_cells(names@, 0) + "| "@ + result_name@ + "\n"@);
    }
    // Rows, one per assignment in enumeration order.
    let result_len = result_name.as_str().unicode_len();
    let result_right = (result_len - 1) / 2;
    let mut values: Vec<bool> = vec![false; names.len()];
    let mut index: usize = 0;
    proof {
        assert(forall|p: int| 0 <= p < values@.len() ==> !values@[p]);
        crate::bits::lemma_bits_all_false(values@);
        lemma_pow2_pos(names@.len());
    }
    loop
        invariant
            table@.len() == spec_pow2(names@.len()),
            values@.len() == names@.len(),
            bits_to_nat(values@) == index,
            index < table@.len(),
            result_right == pad_right(result_name@),
            forall|i: int| 0 <= i < names@.len() ==> (#[trigger] names@[i])@.len() >= 1,
            spec_print_tabel(table@, names@, result_name@) == out@ + spec_table_rows(
                table@,
                names@,
                result_name@,
                index as int,
            ),
        decreases table@.len() - index,
    {
        proof {
            lemma_nat_of_bits_inverse(values@);
            assert(values@ == nat_to_bits(index as nat, names@.len()));
        }
        let ghost row_start = out@;
        let ghost bits = values@;
        // The assignment's cells.
        let mut j: usize = 0;
        while j < names.len()
            invariant
                j <= names@.len(),
                values@ == bits,
                values@.len() == names@.len(),
                forall|i: int| 0 <= i < names@.len() ==> (#[trigger] names@[i])@.len() >= 1,
                row_start + spec_cells(names@, bits, 0) == out@ + spec_cells(
                    names@,
                    bits,
                    j as int,
                ),
            decreases names@.len() - j,
        {
            let ghost pre = out@;
            let name_len = names[j].as_str().unicode_len();
            let width = name_len - 1;
            let right = width / 2;
            let left = width - right;
            push_spaces(&mut out, left);
            if values[j] {
                out.append("1");
            } else {
                out.append("0");
            }
            push_spaces(&mut out, right);
            out.append(" ");
            proof {
                let cell = spaces(pad_left(names@[j as int]@)) + digit(bits[j as int]) + spaces(
                    pad_right(names@[j as int]@),
                ) + " "@;
                assert(out@ =~= pre + cell);
                assert(pre + cell + spec_cells(names@, bits, j as int + 1) =~= pre + spec_cells(
                    names@,
                    bits,
                    j as int,
                ));
            }
            j = j + 1;
        }
        // The separator and the result digit.
        let ghost cells_done = out@;
        out.append("| ");
        push_spaces(&mut out, result_right);
        if table[index] {
            out.append("1");
        } else {
            out.append("0");
        }
        out.append("\n");
        proof {
            assert(cells_done =~= row_start + spec_cells(names@, bits, 0));
            assert(out@ =~= row_start + spec_table_row(
                names@,
                result_name@,
                bits,
                table@[index as int],
            ));
            assert(spec_table_rows(table@, names@, result_name@, index as int)
                == spec_table_row(names@, result_name@, bits, table@[index as int])
                + spec_table_rows(table@, names@, result_name@, index as int + 1));
            assert(row_start + (spec_table_row(names@, result_name@, bits, table@[index as int])
                + spec_table_rows(table@, names@, result_name@, index as int + 1)) =~= out@
                + spec_table_rows(table@, names@, result_name@, index as int + 1));
        }
        let more = update_values(&mut values);
        if !more {
            proof {
                assert(index as int + 1 == table@.len());
                assert(spec_table_rows(table@, names@, result_name@, index as int + 1)
                    == Seq::<char>::empty());
                assert(out@ + Seq::<char>::empty() =~= out@);
            }
            return out;
        }
        let cap = table.len();
        proof {
            assert(bits_to_nat(values@) == index + 1);
            assert(index + 1 <= cap);
        }
        index = index + 1;
    }
}

} // verus!
