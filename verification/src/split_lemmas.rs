//! Why the splitter is safe on validated input.
//!
//! The validator scans once, left to right. These lemmas recover structure
//! from that single pass: the state the scan is in at every position, which
//! tokens can appear where, that a well-formed stretch between two balanced
//! positions is itself a well-formed expression, and that the split point the
//! splitter picks is a depth-zero operator whose two sides are again
//! well-formed. Together they let the tree builder recurse without ever
//! meeting a sequence it cannot decompose.

use crate::error::Error;
use crate::parser::{eval_tokens, leaf_value, op_apply, paren_counter, spec_is_parentheses,
    spec_precedence, spec_split, spec_split_index, spec_split_scan};
use crate::token::{is_binary_op, is_operand, Token};
use crate::utils::{occurs, spec_adjacent_from, spec_valid, spec_validate_from};
use vstd::prelude::*;

verus! {

/// The parenthesis depth the validator has reached just before position `i`.
pub open spec fn v_depth(func: Seq<Token>, i: int) -> nat
    decreases i,
{
    if i <= 0 {
        0
    } else {
        let d = v_depth(func, i - 1);
        let t = func[i - 1];
        if t is Open {
            d + 1
        } else if t is Close {
            if d == 0 {
                0
            } else {
                (d - 1) as nat
            }
        } else {
            d
        }
    }
}

/// Whether the validator still owes an operand just before position `i`.
/// On a scan that has not failed, this depends on the previous token alone.
pub open spec fn v_expect(func: Seq<Token>, i: int) -> bool {
    if i <= 0 {
        true
    } else {
        let t = func[i - 1];
        !(is_operand(t) || t is Close)
    }
}

/// On a sequence that validates, the scan is alive at every position, in
/// exactly the state `v_depth` and `v_expect` describe.
pub proof fn lemma_validate_states(func: Seq<Token>, k: int)
    requires
        spec_valid(func),
        0 <= k <= func.len(),
    ensures
        spec_validate_from(func, k, v_depth(func, k), v_expect(func, k)) is Ok,
    decreases k,
{
    if k == 0 {
    } else {
        lemma_validate_states(func, k - 1);
        let d = v_depth(func, k - 1);
        let e = v_expect(func, k - 1);
        let t = func[k - 1];
        assert(spec_validate_from(func, k - 1, d, e) is Ok);
        if e {
            match t {
                Token::Not => {},
                Token::Open => {},
                Token::One => {},
                Token::Zero => {},
                Token::Var(_) => {},
                _ => {
                    assert(false);
                },
            }
        } else {
            match t {
                Token::Close => {
                    assert(d != 0);
                },
                Token::And => {},
                Token::Or => {},
                Token::Xor => {},
                Token::Eq => {},
                Token::ImplicAB => {},
                Token::ImplicBA => {},
                Token::Nand => {},
                Token::Nor => {},
                _ => {
                    assert(false);
                },
            }
        }
    }
}

/// Which tokens can stand at position `k` of a sequence that validates.
pub proof fn lemma_valid_token(func: Seq<Token>, k: int)
    requires
        spec_valid(func),
        0 <= k < func.len(),
    ensures
        v_expect(func, k) ==> (func[k] is Not || func[k] is Open || is_operand(func[k])),
        !v_expect(func, k) ==> (is_binary_op(func[k]) || func[k] is Close),
        func[k] is Close ==> !v_expect(func, k) && v_depth(func, k) > 0,
        is_binary_op(func[k]) ==> !v_expect(func, k) && v_depth(func, k + 1) == v_depth(func, k),
        func[k] is Not ==> v_expect(func, k) && v_depth(func, k + 1) == v_depth(func, k),
        is_operand(func[k]) ==> v_expect(func, k) && v_depth(func, k + 1) == v_depth(func, k),
        func[k] is Open ==> v_expect(func, k),
{
    lemma_validate_states(func, k);
    let d = v_depth(func, k);
    let e = v_expect(func, k);
    let t = func[k];
    if e {
        match t {
            Token::Not => {},
            Token::Open => {},
            Token::One => {},
            Token::Zero => {},
            Token::Var(_) => {},
            _ => {
                assert(false);
            },
        }
    } else {
        match t {
            Token::Close => {
                assert(d != 0);
            },
            Token::And => {},
            Token::Or => {},
            Token::Xor => {},
            Token::Eq => {},
            Token::ImplicAB => {},
            Token::ImplicBA => {},
            Token::Nand => {},
            Token::Nor => {},
            _ => {
                assert(false);
            },
        }
    }
}

/// A sequence that validates is nonempty and ends balanced, owing nothing.
pub proof fn lemma_valid_end(func: Seq<Token>)
    requires
        spec_valid(func),
    ensures
        func.len() >= 1,
        !v_expect(func, func.len() as int),
        v_depth(func, func.len() as int) == 0,
{
    lemma_validate_states(func, func.len() as int);
}

/// A single validated token is an operand.
pub proof fn lemma_valid_single(func: Seq<Token>)
    requires
        spec_valid(func),
        func.len() == 1,
    ensures
        is_operand(func[0]),
{
    lemma_valid_token(func, 0);
    lemma_valid_end(func);
}

/// A stretch of a validated sequence that starts where an operand is owed,
/// ends right after a complete operand, and never dips below its own base
/// depth is a well-formed expression on its own.
pub proof fn lemma_segment_valid(func: Seq<Token>, i: int, j: int)
    requires
        spec_valid(func),
        0 <= i <= j <= func.len(),
        v_expect(func, i),
        !v_expect(func, j),
        v_depth(func, j) == v_depth(func, i),
        forall|k: int| i <= k <= j ==> v_depth(func, k) >= v_depth(func, i),
    ensures
        spec_valid(func.subrange(i, j)),
{
    lemma_segment_valid_from(func, i, j, i);
}

proof fn lemma_segment_valid_from(func: Seq<Token>, i: int, j: int, k: int)
    requires
        spec_valid(func),
        0 <= i <= k <= j <= func.len(),
        v_expect(func, i),
        !v_expect(func, j),
        v_depth(func, j) == v_depth(func, i),
        forall|k: int| i <= k <= j ==> v_depth(func, k) >= v_depth(func, i),
    ensures
        spec_validate_from(
            func.subrange(i, j),
            k - i,
            (v_depth(func, k) - v_depth(func, i)) as nat,
            v_expect(func, k),
        ) is Ok,
    decreases j - k,
{
    let sub = func.subrange(i, j);
    let d = v_depth(func, i);
    if k == j {
        assert(sub.len() == j - i);
    } else {
        lemma_segment_valid_from(func, i, j, k + 1);
        lemma_valid_token(func, k);
        assert(sub[k - i] == func[k]);
        let dk = (v_depth(func, k) - d) as nat;
        let e = v_expect(func, k);
        let t = func[k];
        if e {
            match t {
                Token::Not => {
                    assert(v_depth(func, k + 1) == v_depth(func, k));
                },
                Token::Open => {
                    assert(v_depth(func, k + 1) == v_depth(func, k) + 1);
                },
                Token::One => {},
                Token::Zero => {},
                Token::Var(_) => {},
                _ => {
                    assert(false);
                },
            }
        } else {
            match t {
                Token::Close => {
                    assert(v_depth(func, k) > 0);
                    assert(v_depth(func, k + 1) == v_depth(func, k) - 1);
                    // The group being closed opened inside the segment:
                    // closing at the base depth would dip below it.
                    assert(dk != 0) by {
                        if v_depth(func, k) == d {
                            assert(v_depth(func, k + 1) >= d);
                        }
                    }
                },
                Token::And => {},
                Token::Or => {},
                Token::Xor => {},
                Token::Eq => {},
                Token::ImplicAB => {},
                Token::ImplicBA => {},
                Token::Nand => {},
                Token::Nor => {},
                _ => {
                    assert(false);
                },
            }
        }
    }
}

/// While the scan stays at least as deep as it started, depth moves in a
/// validated sequence exactly as the split scan counts it; and the split
/// scan's verdict is the leftmost depth-zero position of minimal precedence.
proof fn lemma_scan_char(func: Seq<Token>, i: int, best_i: int, best_s: int)
    requires
        spec_valid(func),
        0 <= i <= func.len(),
        0 <= best_i < func.len(),
        best_s <= 255,
        best_s == 255 ==> best_i == 0 && (forall|j: int|
            0 <= j < i && v_depth(func, j) == 0 ==> spec_precedence(func[j]) == 255),
        best_s < 255 ==> {
            &&& best_i < i
            &&& v_depth(func, best_i) == 0
            &&& spec_precedence(func[best_i]) == best_s
            &&& (forall|j: int|
                0 <= j < i && v_depth(func, j) == 0 ==> spec_precedence(func[j]) >= best_s)
            &&& (forall|j: int|
                0 <= j < best_i && v_depth(func, j) == 0 ==> spec_precedence(func[j]) > best_s)
        },
    ensures
        ({
            let r = spec_split_scan(func, i, v_depth(func, i) as int, best_i, best_s);
            &&& 0 <= r < func.len()
            &&& v_depth(func, r) == 0
            &&& (forall|j: int|
                0 <= j < func.len() && v_depth(func, j) == 0 ==> spec_precedence(func[j])
                    >= spec_precedence(func[r]))
            &&& (forall|j: int|
                0 <= j < r && v_depth(func, j) == 0 ==> spec_precedence(func[j])
                    > spec_precedence(func[r]))
        }),
    decreases func.len() - i,
{
    let d = v_depth(func, i) as int;
    if i >= func.len() {
        let r = best_i;
        if best_s == 255 {
            assert(v_depth(func, 0) == 0);
            assert(spec_precedence(func[0]) == 255);
        }
    } else {
        lemma_valid_token(func, i);
        let t = func[i];
        let p = spec_precedence(t);
        if d != 0 {
            assert(v_depth(func, i + 1) as int == if t is Close {
                d - 1
            } else if t is Open {
                d + 1
            } else {
                d
            }) by {
                if t is Close {
                    assert(v_depth(func, i) > 0);
                }
            }
            lemma_scan_char(func, i + 1, best_i, best_s);
        } else {
            assert(!(t is Close));
            assert(v_depth(func, i + 1) == if t is Open {
                1nat
            } else {
                0nat
            });
            if p < best_s {
                lemma_scan_char(func, i + 1, i, p);
            } else {
                lemma_scan_char(func, i + 1, best_i, best_s);
            }
        }
    }
}

/// The split point of a validated sequence: a depth-zero position carrying
/// the lowest precedence, the leftmost such.
pub proof fn lemma_split_index_char(func: Seq<Token>)
    requires
        spec_valid(func),
        func.len() >= 1,
    ensures
        ({
            let r = spec_split_index(func);
            &&& 0 <= r < func.len()
            &&& v_depth(func, r) == 0
            &&& (forall|j: int|
                0 <= j < func.len() && v_depth(func, j) == 0 ==> spec_precedence(func[j])
                    >= spec_precedence(func[r]))
            &&& (forall|j: int|
                0 <= j < r && v_depth(func, j) == 0 ==> spec_precedence(func[j])
                    > spec_precedence(func[r]))
        }),
{
    lemma_scan_char(func, 0, 0, 255);
}

/// Between a deep position and a later balanced one lies a last step down to
/// depth zero, with everything before it still deep.
proof fn lemma_first_zero(func: Seq<Token>, a: int, b: int)
    requires
        0 <= a <= b,
        v_depth(func, a) > 0,
        v_depth(func, b) == 0,
    ensures
        exists|m: int|
            {
                &&& a <= m < b
                &&& #[trigger] v_depth(func, m) > 0
                &&& v_depth(func, m + 1) == 0
                &&& (forall|k: int| a <= k <= m ==> v_depth(func, k) > 0)
            },
    decreases b - a,
{
    if v_depth(func, a + 1) == 0 {
        let m = a;
        assert({
            &&& a <= m < b
            &&& v_depth(func, m) > 0
            &&& v_depth(func, m + 1) == 0
            &&& (forall|k: int| a <= k <= m ==> v_depth(func, k) > 0)
        });
    } else {
        lemma_first_zero(func, a + 1, b);
        let m = choose|m: int|
            {
                &&& a + 1 <= m < b
                &&& #[trigger] v_depth(func, m) > 0
                &&& v_depth(func, m + 1) == 0
                &&& (forall|k: int| a + 1 <= k <= m ==> v_depth(func, k) > 0)
            };
        assert({
            &&& a <= m < b
            &&& v_depth(func, m) > 0
            &&& v_depth(func, m + 1) == 0
            &&& (forall|k: int| a <= k <= m ==> v_depth(func, k) > 0)
        });
    }
}

/// In a validated sequence that opens with a parenthesis, the scan depth is
/// exactly the counter `is_parentheses` tracks.
proof fn lemma_counter_depth(func: Seq<Token>, k: int)
    requires
        spec_valid(func),
        func.len() >= 1,
        func[0] is Open,
        1 <= k <= func.len(),
    ensures
        paren_counter(func, k) == v_depth(func, k),
    decreases k,
{
    if k == 1 {
    } else {
        lemma_counter_depth(func, k - 1);
        if func[k - 1] is Close {
            lemma_valid_token(func, k - 1);
        }
    }
}

/// Stripping the outer parentheses of a validated single group leaves a
/// validated sequence.
pub proof fn lemma_split_interior_valid(func: Seq<Token>)
    requires
        spec_valid(func),
        func.len() >= 2,
        spec_is_parentheses(func),
    ensures
        spec_valid(func.subrange(1, func.len() - 1)),
{
    let len = func.len() as int;
    lemma_valid_end(func);
    lemma_valid_token(func, 0);
    lemma_valid_token(func, len - 1);
    assert(func[len - 1] is Close);
    assert(v_depth(func, len - 1) == 1) by {
        assert(v_depth(func, len) == 0);
        assert(v_depth(func, len - 1) > 0);
    }
    assert(v_depth(func, 0) == 0);
    assert(v_depth(func, 1) == 1);
    assert forall|k: int| 1 <= k <= len - 1 implies v_depth(func, k) >= 1 by {
        if 1 < k < len - 1 {
            lemma_counter_depth(func, k);
            assert(paren_counter(func, k) != 0);
        }
    }
    assert(v_expect(func, 1));
    assert(!v_expect(func, len - 1));
    lemma_segment_valid(func, 1, len - 1);
}

/// The split of a validated multi-token sequence that is not one group:
/// either it is a leading `Not` with a validated operand after it, or the
/// split index carries a binary operator with validated sequences on both
/// sides.
pub proof fn lemma_split_operator_parts(func: Seq<Token>)
    requires
        spec_valid(func),
        func.len() >= 2,
        !spec_is_parentheses(func),
    ensures
        ({
            let r = spec_split_index(func);
            &&& 0 <= r < func.len()
            &&& (r == 0 ==> func[0] is Not && spec_valid(func.subrange(1, func.len() as int)))
            &&& (r != 0 ==> is_binary_op(func[r]) && spec_valid(func.subrange(0, r))
                && spec_valid(func.subrange(r + 1, func.len() as int)))
        }),
{
    let len = func.len() as int;
    let r = spec_split_index(func);
    lemma_split_index_char(func);
    lemma_valid_end(func);
    lemma_valid_token(func, 0);
    if r == 0 {
        // No depth-zero operator can precede r; show func[0] must be `Not`.
        if !(func[0] is Not) {
            assert(spec_precedence(func[0]) == 255);
            if is_operand(func[0]) {
                // After the operand the scan is balanced and owes an
                // operator, so position 1 holds a depth-zero binary operator.
                lemma_valid_token(func, 1);
                assert(v_depth(func, 1) == 0);
                assert(!v_expect(func, 1));
                assert(is_binary_op(func[1])) by {
                    if func[1] is Close {
                        lemma_valid_token(func, 1);
                    }
                }
                assert(spec_precedence(func[1]) <= 2);
                assert(spec_precedence(func[0]) >= spec_precedence(func[r]));
                assert(spec_precedence(func[1]) >= spec_precedence(func[r]));
                assert(false);
            } else {
                // func[0] is Open: follow its group to the first return to
                // depth zero.
                assert(func[0] is Open);
                assert(v_depth(func, 1) == 1);
                lemma_first_zero(func, 1, len);
                let m = choose|m: int|
                    {
                        &&& 1 <= m < len
                        &&& #[trigger] v_depth(func, m) > 0
                        &&& v_depth(func, m + 1) == 0
                        &&& (forall|k: int| 1 <= k <= m ==> v_depth(func, k) > 0)
                    };
                assert(func[m] is Close) by {
                    lemma_valid_token(func, m);
                    if !(func[m] is Close) {
                        assert(v_depth(func, m + 1) >= v_depth(func, m));
                    }
                }
                if m == len - 1 {
                    // The group spans everything: that is a parenthesized
                    // sequence, which was excluded.
                    assert(spec_is_parentheses(func)) by {
                        assert forall|k: int| 1 <= k < len - 1 implies paren_counter(func, k)
                            != 0 by {
                            lemma_counter_depth(func, k);
                        }
                    }
                    assert(false);
                } else {
                    // The token after the close sits at depth zero owing an
                    // operator: a binary operator before r, impossible.
                    lemma_valid_token(func, m + 1);
                    assert(!v_expect(func, m + 1));
                    assert(is_binary_op(func[m + 1])) by {
                        if func[m + 1] is Close {
                            lemma_valid_token(func, m + 1);
                        }
                    }
                    assert(spec_precedence(func[m + 1]) <= 2);
                    assert(spec_precedence(func[0]) >= spec_precedence(func[r]));
                    assert(spec_precedence(func[m + 1]) >= spec_precedence(func[r]));
                    assert(false);
                }
            }
        }
        // A leading Not leaves a validated operand after it.
        assert(func[0] is Not);
        assert(v_depth(func, 1) == 0);
        assert(v_expect(func, 1));
        lemma_segment_valid(func, 1, len);
        assert(func.subrange(1, len) =~= func.subrange(1, func.len() as int));
    } else {
        // The split token is an operator; rule out `Not`.
        assert(spec_precedence(func[r]) < 255) by {
            if spec_precedence(func[r]) == 255 {
                assert(v_depth(func, 0) == 0);
                assert(spec_precedence(func[0]) > 255);
            }
        }
        lemma_valid_token(func, r);
        if func[r] is Not {
            // Whatever precedes a `Not` at depth zero would itself be a
            // depth-zero operator of no higher precedence, contradicting
            // leftmostness.
            assert(v_expect(func, r));
            lemma_valid_token(func, r - 1);
            assert(!(is_operand(func[r - 1]) || func[r - 1] is Close));
            if func[r - 1] is Open {
                assert(v_depth(func, r) == v_depth(func, r - 1) + 1);
                assert(false);
            } else {
                assert(is_binary_op(func[r - 1]) || func[r - 1] is Not);
                assert(v_depth(func, r - 1) == v_depth(func, r));
                assert(spec_precedence(func[r - 1]) > spec_precedence(func[r]));
                assert(spec_precedence(func[r - 1]) <= 3);
                assert(false);
            }
        }
        assert(is_binary_op(func[r]));
        assert(!v_expect(func, r));
        assert(v_depth(func, r + 1) == v_depth(func, r));
        // Left side: from the start to the operator.
        assert(v_expect(func, 0));
        lemma_segment_valid(func, 0, r);
        // Right side: after the operator to the end.
        assert(v_expect(func, r + 1));
        lemma_segment_valid(func, r + 1, len);
        assert(func.subrange(r + 1, len) =~= func.subrange(r + 1, func.len() as int));
    }
}

/// How many binary connectives stand in `func[0..i]`.
pub open spec fn count_binary(func: Seq<Token>, i: int) -> int
    decreases i,
{
    if i <= 0 {
        0
    } else {
        count_binary(func, i - 1) + (if is_binary_op(func[i - 1]) {
            1int
        } else {
            0int
        })
    }
}

/// How many operands (constants and variables) stand in `func[0..i]`.
pub open spec fn count_operand(func: Seq<Token>, i: int) -> int
    decreases i,
{
    if i <= 0 {
        0
    } else {
        count_operand(func, i - 1) + (if is_operand(func[i - 1]) {
            1int
        } else {
            0int
        })
    }
}

/// A validated sequence holds exactly one operand more than it holds binary
/// connectives: the arity rule (`Not` does not count, being unary).
pub proof fn lemma_valid_arity(func: Seq<Token>)
    requires
        spec_valid(func),
    ensures
        count_binary(func, func.len() as int) + 1 == count_operand(func, func.len() as int),
{
    lemma_valid_end(func);
    lemma_arity_scan(func, func.len() as int);
}

/// Along a validated scan, the operand count stays one ahead of the binary
/// count exactly while no operand is owed.
proof fn lemma_arity_scan(func: Seq<Token>, i: int)
    requires
        spec_valid(func),
        0 <= i <= func.len(),
    ensures
        count_operand(func, i) == count_binary(func, i) + (if v_expect(func, i) {
            0int
        } else {
            1int
        }),
    decreases i,
{
    if i > 0 {
        lemma_arity_scan(func, i - 1);
        lemma_valid_token(func, i - 1);
    }
}

/// A validated sequence is never empty.
pub proof fn lemma_valid_nonempty(func: Seq<Token>)
    requires
        spec_valid(func),
    ensures
        func.len() >= 1,
{
    lemma_valid_end(func);
}

/// The validator's crossing of `s` from position `i` in state
/// (`depth`, `expect_operand`): the state it hands on past the end of `s`, or
/// the failure it stops at. Unlike `spec_validate_from` it imposes nothing on
/// the final state, so crossings compose over concatenation.
pub open spec fn scan_seg(s: Seq<Token>, i: int, depth: nat, expect_operand: bool) -> Result<
    (nat, bool),
    Error,
>
    decreases s.len() - i,
{
    if i < 0 || i >= s.len() {
        Ok((depth, expect_operand))
    } else {
        let t = s[i];
        if expect_operand {
            match t {
                Token::Not => scan_seg(s, i + 1, depth, true),
                Token::Open => scan_seg(s, i + 1, depth + 1, true),
                Token::One => scan_seg(s, i + 1, depth, false),
                Token::Zero => scan_seg(s, i + 1, depth, false),
                Token::Var(_) => scan_seg(s, i + 1, depth, false),
                Token::Close => if depth == 0 {
                    Err(Error::UnbalancedClose { position: i as usize })
                } else {
                    Err(Error::ExpectedOperand { position: i as usize })
                },
                _ => Err(Error::ExpectedOperand { position: i as usize }),
            }
        } else {
            match t {
                Token::Close => if depth == 0 {
                    Err(Error::UnbalancedClose { position: i as usize })
                } else {
                    scan_seg(s, i + 1, (depth - 1) as nat, false)
                },
                Token::And => scan_seg(s, i + 1, depth, true),
                Token::Or => scan_seg(s, i + 1, depth, true),
                Token::Xor => scan_seg(s, i + 1, depth, true),
                Token::Eq => scan_seg(s, i + 1, depth, true),
                Token::ImplicAB => scan_seg(s, i + 1, depth, true),
                Token::ImplicBA => scan_seg(s, i + 1, depth, true),
                Token::Nand => scan_seg(s, i + 1, depth, true),
                Token::Nor => scan_seg(s, i + 1, depth, true),
                Token::One => Err(Error::ExpectedOperator { token: t }),
                Token::Zero => Err(Error::ExpectedOperator { token: t }),
                Token::Var(_) => Err(Error::ExpectedOperator { token: t }),
                _ => Err(spec_adjacent_from(s, i, depth)),
            }
        }
    }
}

/// The validator is the crossing followed by the end-of-sequence check.
pub proof fn lemma_scan_seg_validate(s: Seq<Token>, i: int, depth: nat, e: bool)
    requires
        0 <= i <= s.len(),
    ensures
        spec_validate_from(s, i, depth, e) == (match scan_seg(s, i, depth, e) {
            Ok((d2, e2)) => if e2 {
                Err::<(), Error>(Error::ExpectedOperand { position: s.len() as usize })
            } else if d2 != 0 {
                Err::<(), Error>(Error::UnbalancedOpen)
            } else {
                Ok::<(), Error>(())
            },
            Err(er) => Err::<(), Error>(er),
        }),
    decreases s.len() - i,
{
    if i < s.len() {
        let t = s[i];
        if e {
            match t {
                Token::Not => lemma_scan_seg_validate(s, i + 1, depth, true),
                Token::Open => lemma_scan_seg_validate(s, i + 1, depth + 1, true),
                Token::One => lemma_scan_seg_validate(s, i + 1, depth, false),
                Token::Zero => lemma_scan_seg_validate(s, i + 1, depth, false),
                Token::Var(_) => lemma_scan_seg_validate(s, i + 1, depth, false),
                _ => {},
            }
        } else {
            match t {
                Token::Close => {
                    if depth != 0 {
                        lemma_scan_seg_validate(s, i + 1, (depth - 1) as nat, false);
                    }
                },
                Token::And => lemma_scan_seg_validate(s, i + 1, depth, true),
                Token::Or => lemma_scan_seg_validate(s, i + 1, depth, true),
                Token::Xor => lemma_scan_seg_validate(s, i + 1, depth, true),
                Token::Eq => lemma_scan_seg_validate(s, i + 1, depth, true),
                Token::ImplicAB => lemma_scan_seg_validate(s, i + 1, depth, true),
                Token::ImplicBA => lemma_scan_seg_validate(s, i + 1, depth, true),
                Token::Nand => lemma_scan_seg_validate(s, i + 1, depth, true),
                Token::Nor => lemma_scan_seg_validate(s, i + 1, depth, true),
                _ => {},
            }
        }
    }
}

/// A crossing that succeeds is insensitive to what follows: scanning the
/// concatenation continues through `y` from where `x` left off.
proof fn lemma_scan_seg_shift(x: Seq<Token>, y: Seq<Token>, j: int, d: nat, e: bool, d2: nat, e2: bool)
    requires
        0 <= j <= y.len(),
        scan_seg(y, j, d, e) == Ok::<(nat, bool), Error>((d2, e2)),
    ensures
        scan_seg(x + y, x.len() + j, d, e) == Ok::<(nat, bool), Error>((d2, e2)),
    decreases y.len() - j,
{
    if j < y.len() {
        assert((x + y)[x.len() + j] == y[j]);
        let t = y[j];
        if e {
            match t {
                Token::Not => lemma_scan_seg_shift(x, y, j + 1, d, true, d2, e2),
                Token::Open => lemma_scan_seg_shift(x, y, j + 1, d + 1, true, d2, e2),
                Token::One => lemma_scan_seg_shift(x, y, j + 1, d, false, d2, e2),
                Token::Zero => lemma_scan_seg_shift(x, y, j + 1, d, false, d2, e2),
                Token::Var(_) => lemma_scan_seg_shift(x, y, j + 1, d, false, d2, e2),
                _ => {},
            }
        } else {
            match t {
                Token::Close => {
                    assert(d != 0);
                    lemma_scan_seg_shift(x, y, j + 1, (d - 1) as nat, false, d2, e2);
                },
                Token::And => lemma_scan_seg_shift(x, y, j + 1, d, true, d2, e2),
                Token::Or => lemma_scan_seg_shift(x, y, j + 1, d, true, d2, e2),
                Token::Xor => lemma_scan_seg_shift(x, y, j + 1, d, true, d2, e2),
                Token::Eq => lemma_scan_seg_shift(x, y, j + 1, d, true, d2, e2),
                Token::ImplicAB => lemma_scan_seg_shift(x, y, j + 1, d, true, d2, e2),
                Token::ImplicBA => lemma_scan_seg_shift(x, y, j + 1, d, true, d2, e2),
                Token::Nand => lemma_scan_seg_shift(x, y, j + 1, d, true, d2, e2),
                Token::Nor => lemma_scan_seg_shift(x, y, j + 1, d, true, d2, e2),
                _ => {},
            }
        }
    } else {
        assert((x + y).len() == x.len() + y.len());
    }
}

/// Walking the `x` part of a concatenation mirrors walking `x` alone.
proof fn lemma_scan_seg_walk(x: Seq<Token>, y: Seq<Token>, i: int, d: nat, e: bool, d1: nat, e1: bool)
    requires
        0 <= i <= x.len(),
        scan_seg(x, i, d, e) == Ok::<(nat, bool), Error>((d1, e1)),
    ensures
        scan_seg(x + y, i, d, e) == scan_seg(x + y, x.len() as int, d1, e1),
    decreases x.len() - i,
{
    if i < x.len() {
        assert((x + y)[i] == x[i]);
        let t = x[i];
        if e {
            match t {
                Token::Not => lemma_scan_seg_walk(x, y, i + 1, d, true, d1, e1),
                Token::Open => lemma_scan_seg_walk(x, y, i + 1, d + 1, true, d1, e1),
                Token::One => lemma_scan_seg_walk(x, y, i + 1, d, false, d1, e1),
                Token::Zero => lemma_scan_seg_walk(x, y, i + 1, d, false, d1, e1),
                Token::Var(_) => lemma_scan_seg_walk(x, y, i + 1, d, false, d1, e1),
                _ => {},
            }
        } else {
            match t {
                Token::Close => {
                    assert(d != 0);
                    lemma_scan_seg_walk(x, y, i + 1, (d - 1) as nat, false, d1, e1);
                },
                Token::And => lemma_scan_seg_walk(x, y, i + 1, d, true, d1, e1),
                Token::Or => lemma_scan_seg_walk(x, y, i + 1, d, true, d1, e1),
                Token::Xor => lemma_scan_seg_walk(x, y, i + 1, d, true, d1, e1),
                Token::Eq => lemma_scan_seg_walk(x, y, i + 1, d, true, d1, e1),
                Token::ImplicAB => lemma_scan_seg_walk(x, y, i + 1, d, true, d1, e1),
                Token::ImplicBA => lemma_scan_seg_walk(x, y, i + 1, d, true, d1, e1),
                Token::Nand => lemma_scan_seg_walk(x, y, i + 1, d, true, d1, e1),
                Token::Nor => lemma_scan_seg_walk(x, y, i + 1, d, true, d1, e1),
                _ => {},
            }
        }
    }
}

/// Crossings compose over concatenation.
pub proof fn lemma_scan_seg_concat(
    x: Seq<Token>,
    y: Seq<Token>,
    d: nat,
    e: bool,
    d1: nat,
    e1: bool,
    d2: nat,
    e2: bool,
)
    requires
        scan_seg(x, 0, d, e) == Ok::<(nat, bool), Error>((d1, e1)),
        scan_seg(y, 0, d1, e1) == Ok::<(nat, bool), Error>((d2, e2)),
    ensures
        scan_seg(x + y, 0, d, e) == Ok::<(nat, bool), Error>((d2, e2)),
{
    lemma_scan_seg_walk(x, y, 0, d, e, d1, e1);
    lemma_scan_seg_shift(x, y, 0, d1, e1, d2, e2);
}

/// Equal prefixes have equal scan depths.
pub proof fn lemma_v_depth_prefix(s: Seq<Token>, t: Seq<Token>, m: int, j: int)
    requires
        0 <= j <= m,
        m <= s.len(),
        m <= t.len(),
        forall|p: int| 0 <= p < m ==> s[p] == t[p],
    ensures
        v_depth(s, j) == v_depth(t, j),
    decreases j,
{
    if j > 0 {
        lemma_v_depth_prefix(s, t, m, j - 1);
    }
}

/// Depth does not move across a stretch free of parentheses.
pub proof fn lemma_v_depth_flat(s: Seq<Token>, a: int, b: int)
    requires
        0 <= a <= b <= s.len(),
        forall|p: int| a <= p < b ==> !((#[trigger] s[p]) is Open) && !(s[p] is Close),
    ensures
        forall|i: int| a <= i <= b ==> v_depth(s, i) == v_depth(s, a),
    decreases b - a,
{
    if a < b {
        assert(v_depth(s, a + 1) == v_depth(s, a));
        lemma_v_depth_flat(s, a + 1, b);
        assert forall|i: int| a <= i <= b implies v_depth(s, i) == v_depth(s, a) by {
            if i > a {
                assert(v_depth(s, i) == v_depth(s, a + 1));
            }
        }
    }
}

/// Where a validated sequence is known to read `x`, one binary operator, then
/// `y`, with nothing looser than that operator at depth zero in `x` before it
/// and nothing strictly looser anywhere after, the splitter picks exactly
/// that operator, and the sequence means the operator applied to both sides.
pub proof fn lemma_split_at(s: Seq<Token>, x: Seq<Token>, y: Seq<Token>, op: Token, env: Map<Seq<char>, bool>)
    requires
        spec_valid(s),
        s == x + seq![op] + y,
        x.len() >= 1,
        is_binary_op(op),
        forall|j: int|
            0 <= j < x.len() && v_depth(s, j) == 0 ==> spec_precedence(#[trigger] s[j])
                > spec_precedence(op),
        v_depth(s, x.len() as int) == 0,
        forall|j: int|
            x.len() + 1 <= j < s.len() && v_depth(s, j) == 0 ==> spec_precedence(#[trigger] s[j])
                >= spec_precedence(op),
    ensures
        !spec_is_parentheses(s),
        spec_split_index(s) == x.len() as int,
        eval_tokens(s, env) == op_apply(op, eval_tokens(x, env), eval_tokens(y, env)),
{
    let len = s.len() as int;
    let i0 = x.len() as int;
    assert(s.len() == x.len() + 1 + y.len());
    assert(s[i0] == op);
    lemma_split_index_char(s);
    let r = spec_split_index(s);
    // The characterized split point can be neither left nor right of `i0`.
    if r < i0 {
        assert(spec_precedence(s[r]) > spec_precedence(op));
        assert(spec_precedence(s[i0]) >= spec_precedence(s[r]));
        assert(false);
    }
    if r > i0 {
        assert(spec_precedence(s[i0]) > spec_precedence(s[r]));
        assert(spec_precedence(s[r]) >= spec_precedence(op));
        assert(false);
    }
    assert(r == i0);
    // Not one parenthesized group: either it does not open at 0 or close at
    // the end, or the counter returns to zero right at the operator.
    assert(!spec_is_parentheses(s)) by {
        if spec_is_parentheses(s) {
            assert(s[0] is Open);
            if i0 < len - 1 {
                lemma_counter_depth(s, i0);
                assert(paren_counter(s, i0) == 0);
                assert(1 <= i0 < len - 1);
                assert(false);
            } else {
                assert(y.len() == 0);
                assert(s[len - 1] == op);
                assert(!(op is Close));
                assert(false);
            }
        }
    }
    assert(s.len() >= 2);
    assert(s.subrange(0, i0) =~= x);
    assert(s.subrange(i0 + 1, len) =~= y);
}

/// A name occurring in a stretch of a sequence occurs in the sequence.
pub proof fn lemma_occurs_subrange(func: Seq<Token>, a: int, b: int)
    requires
        0 <= a <= b <= func.len(),
    ensures
        forall|n: Seq<char>| #[trigger]
            occurs(func.subrange(a, b), n) ==> occurs(func, n),
{
    let sub = func.subrange(a, b);
    assert forall|n: Seq<char>| #[trigger] occurs(sub, n) implies occurs(func, n) by {
        let i = choose|i: int|
            0 <= i < sub.len() && ((#[trigger] sub[i]) matches Token::Var(s) && s@ == n);
        assert(func[a + i] == sub[i]);
        assert(occurs(func, n));
    }
}

/// What `spec_split` yields on a validated sequence, and what the parts mean:
/// a lone operand evaluates as a leaf; a `Not` bundle negates its validated
/// operand; a binary bundle applies its connective to both validated sides.
/// Parts are shorter than the whole and mention no new variables.
pub proof fn lemma_eval_split(func: Seq<Token>, env: Map<Seq<char>, bool>)
    requires
        spec_valid(func),
    ensures
        (match spec_split(func) {
            (None, None, c) => {
                &&& is_operand(c)
                &&& eval_tokens(func, env) == leaf_value(c, env)
                &&& (c matches Token::Var(s) ==> occurs(func, s@))
            },
            (Some(ls), None, c) => {
                &&& c is Not
                &&& spec_valid(ls)
                &&& ls.len() < func.len()
                &&& eval_tokens(func, env) == !eval_tokens(ls, env)
                &&& (forall|n: Seq<char>| #[trigger] occurs(ls, n) ==> occurs(func, n))
            },
            (Some(ls), Some(rs), c) => {
                &&& is_binary_op(c)
                &&& spec_valid(ls)
                &&& spec_valid(rs)
                &&& ls.len() < func.len()
                &&& rs.len() < func.len()
                &&& eval_tokens(func, env) == op_apply(c, eval_tokens(ls, env), eval_tokens(rs, env))
                &&& (forall|n: Seq<char>| #[trigger] occurs(ls, n) ==> occurs(func, n))
                &&& (forall|n: Seq<char>| #[trigger] occurs(rs, n) ==> occurs(func, n))
            },
            (None, Some(_), _) => false,
        }),
    decreases func.len(),
{
    lemma_valid_nonempty(func);
    if func.len() == 1 {
        lemma_valid_single(func);
        match func[0] {
            Token::Var(s) => {
                assert(occurs(func, s@));
            },
            _ => {},
        }
    } else if spec_is_parentheses(func) {
        let interior = func.subrange(1, func.len() - 1);
        lemma_split_interior_valid(func);
        lemma_eval_split(interior, env);
        lemma_occurs_subrange(func, 1, func.len() - 1);
        match spec_split(interior) {
            (None, None, c) => {
                match c {
                    Token::Var(s) => {
                        assert(occurs(interior, s@));
                    },
                    _ => {},
                }
            },
            (Some(ls), None, c) => {
                assert forall|n: Seq<char>| #[trigger] occurs(ls, n) implies occurs(func, n) by {
                    assert(occurs(interior, n));
                }
            },
            (Some(ls), Some(rs), c) => {
                assert forall|n: Seq<char>| #[trigger] occurs(ls, n) implies occurs(func, n) by {
                    assert(occurs(interior, n));
                }
                assert forall|n: Seq<char>| #[trigger] occurs(rs, n) implies occurs(func, n) by {
                    assert(occurs(interior, n));
                }
            },
            (None, Some(_), _) => {},
        }
    } else {
        lemma_split_operator_parts(func);
        let r = spec_split_index(func);
        let len = func.len() as int;
        if r == 0 {
            lemma_occurs_subrange(func, 1, len);
            assert(func.subrange(1, len) == func.subrange(1, func.len() as int));
        } else {
            lemma_occurs_subrange(func, 0, r);
            lemma_occurs_subrange(func, r + 1, len);
            assert(func.subrange(r + 1, len) == func.subrange(r + 1, func.len() as int));
        }
    }
}

} // verus!
