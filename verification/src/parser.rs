//! The expression compiler: precedence-based splitting of a validated token
//! sequence, the expression tree, its evaluator, and `parse`, which drives
//! the evaluator over every assignment to produce the truth table.

use crate::bits::{bits_to_nat, lemma_nat_of_bits_inverse, lemma_pow2_pos, nat_to_bits, spec_pow2};
use crate::error::Error;
use crate::strings::lemma_lex_trichotomy;
use crate::token::{is_binary_op, Token};
use crate::utils::{get_names, spec_valid, spec_validate, spec_var_names, update_values,
    validate_func};
use vstd::prelude::*;

verus! {

/// Precedence score of a token: the operator with the lowest score at
/// parenthesis depth zero splits first and becomes the root of its subtree.
/// `Or` and the other loose connectives share the loosest tier, then `Xor`,
/// then `And`, then `Not`, which binds tightest. Non-operators score 255 and
/// are never chosen.
pub open spec fn spec_precedence(t: Token) -> int {
    match t {
        Token::Or => 0,
        Token::Eq => 0,
        Token::ImplicAB => 0,
        Token::ImplicBA => 0,
        Token::Nand => 0,
        Token::Nor => 0,
        Token::Xor => 1,
        Token::And => 2,
        Token::Not => 3,
        _ => 255,
    }
}

/// Precedence score of a token; lower splits first.
pub fn precedence_of(bool_func: &Token) -> (score: usize)
    ensures
        score as int == spec_precedence(*bool_func),
{
    match bool_func {
        Token::Or => 0,
        Token::Eq => 0,
        Token::ImplicAB => 0,
        Token::ImplicBA => 0,
        Token::Nand => 0,
        Token::Nor => 0,
        Token::Xor => 1,
        Token::And => 2,
        Token::Not => 3,
        _ => 255,
    }
}

/// The split-point scan from position `i` with `depth` unclosed parentheses
/// (as the scan counts them) and the best candidate so far: `best_i` at score
/// `best_s`. A strictly lower score at depth zero takes over, so the leftmost
/// occurrence of the lowest tier wins.
pub open spec fn spec_split_scan(
    func: Seq<Token>,
    i: int,
    depth: int,
    best_i: int,
    best_s: int,
) -> int
    decreases func.len() - i,
{
    if i < 0 || i >= func.len() {
        best_i
    } else {
        let t = func[i];
        if depth != 0 {
            let d = if t is Close {
                depth - 1
            } else if t is Open {
                depth + 1
            } else {
                depth
            };
            spec_split_scan(func, i + 1, d, best_i, best_s)
        } else {
            let d: int = if t is Open {
                1
            } else {
                0
            };
            if spec_precedence(t) < best_s {
                spec_split_scan(func, i + 1, d, i, spec_precedence(t))
            } else {
                spec_split_scan(func, i + 1, d, best_i, best_s)
            }
        }
    }
}

/// The index of the operator a sequence splits at: the leftmost operator of
/// the lowest precedence tier at parenthesis depth zero (0 when there is no
/// depth-zero operator at all).
pub open spec fn spec_split_index(func: Seq<Token>) -> int {
    spec_split_scan(func, 0, 0, 0, 255)
}

/// The scan's result never moves past the end of the sequence.
pub proof fn lemma_split_scan_bounds(func: Seq<Token>, i: int, depth: int, best_i: int, best_s: int)
    requires
        0 <= best_i < func.len(),
    ensures
        0 <= spec_split_scan(func, i, depth, best_i, best_s) < func.len(),
    decreases func.len() - i,
{
    if 0 <= i && i < func.len() {
        let t = func[i];
        if depth != 0 {
            let d = if t is Close {
                depth - 1
            } else if t is Open {
                depth + 1
            } else {
                depth
            };
            lemma_split_scan_bounds(func, i + 1, d, best_i, best_s);
        } else {
            let d: int = if t is Open {
                1
            } else {
                0
            };
            if spec_precedence(t) < best_s {
                lemma_split_scan_bounds(func, i + 1, d, i, spec_precedence(t));
            } else {
                lemma_split_scan_bounds(func, i + 1, d, best_i, best_s);
            }
        }
    }
}

pub proof fn lemma_split_index_bounds(func: Seq<Token>)
    requires
        func.len() >= 1,
    ensures
        0 <= spec_split_index(func) < func.len(),
{
    lemma_split_scan_bounds(func, 0, 0, 0, 255);
}

/// The running parenthesis counter `is_parentheses` checks before reading
/// position `i`: it starts at 1 once the leading `Open` is read.
pub open spec fn paren_counter(func: Seq<Token>, i: int) -> int
    decreases i,
{
    if i <= 1 {
        1
    } else {
        paren_counter(func, i - 1) + (if func[i - 1] is Open {
            1int
        } else if func[i - 1] is Close {
            -1int
        } else {
            0int
        })
    }
}

/// Whether the whole sequence is one parenthesized group: it opens at index
/// 0, closes at the last index, and the group opened first never closes
/// before the end.
pub open spec fn spec_is_parentheses(func: Seq<Token>) -> bool {
    &&& func[0] is Open
    &&& func[func.len() - 1] is Close
    &&& forall|i: int| 1 <= i < func.len() - 1 ==> paren_counter(func, i) != 0
}

/// Whether `func` is a single parenthesized group:
/// `(a & b)` is, `(a) & (b)` is not.
pub fn is_parentheses(func: &Vec<Token>) -> (r: bool)
    requires
        func@.len() >= 1,
    ensures
        r == spec_is_parentheses(func@),
{
    match &func[0] {
        Token::Open => {},
        _ => {
            return false;
        },
    }
    match &func[func.len() - 1] {
        Token::Close => {},
        _ => {
            return false;
        },
    }
    let mut counter: usize = 1;
    let mut i: usize = 1;
    while i < func.len() - 1
        invariant
            1 <= i <= func@.len(),
            counter <= i,
            counter as int == paren_counter(func@, i as int),
            forall|j: int| 1 <= j < i ==> paren_counter(func@, j) != 0,
        decreases func@.len() - i,
    {
        if counter == 0 {
            return false;
        }
        match &func[i] {
            Token::Open => {
                counter = counter + 1;
            },
            Token::Close => {
                counter = counter - 1;
            },
            _ => {},
        }
        i = i + 1;
    }
    true
}

/// The truth value a binary connective produces from its left and right
/// operands.
pub open spec fn op_apply(op: Token, a: bool, b: bool) -> bool {
    match op {
        Token::And => a && b,
        Token::Or => a || b,
        Token::Xor => a != b,
        Token::Eq => a == b,
        Token::ImplicAB => !a || b,
        Token::ImplicBA => a || !b,
        Token::Nand => !(a && b),
        Token::Nor => !(a || b),
        _ => false,
    }
}

/// The truth value of a leaf token under an assignment of the variables.
pub open spec fn leaf_value(t: Token, env: Map<Seq<char>, bool>) -> bool {
    match t {
        Token::One => true,
        Token::Zero => false,
        Token::Var(s) => env[s@],
        _ => false,
    }
}

/// The assignment as a map: each name in `names` is paired with the value in
/// its slot of `vals`.
pub open spec fn env_of(names: Seq<Seq<char>>, vals: Seq<bool>) -> Map<Seq<char>, bool> {
    Map::new(|n: Seq<char>| names.contains(n), |n: Seq<char>| vals[names.index_of(n)])
}

/// What a token sequence denotes under an assignment: a single token is a
/// leaf, one parenthesized group means its interior, and otherwise the
/// sequence splits at `spec_split_index` into a `Not` applied to the rest or
/// a binary connective applied to both sides. Only its value on validated
/// sequences is ever relied on.
pub open spec fn eval_tokens(func: Seq<Token>, env: Map<Seq<char>, bool>) -> bool
    decreases func.len(),
{
    if func.len() == 0 {
        false
    } else if func.len() == 1 {
        leaf_value(func[0], env)
    } else if spec_is_parentheses(func) {
        proof {
            if func.len() < 2 {
                assert(func[0] is Open);
                assert(func[func.len() - 1] is Close);
            }
        }
        eval_tokens(func.subrange(1, func.len() - 1), env)
    } else {
        proof {
            lemma_split_index_bounds(func);
        }
        let i = spec_split_index(func);
        if i == 0 {
            !eval_tokens(func.subrange(1, func.len() as int), env)
        } else {
            op_apply(
                func[i],
                eval_tokens(func.subrange(0, i), env),
                eval_tokens(func.subrange(i + 1, func.len() as int), env),
            )
        }
    }
}

/// How a sequence decomposes: an optional left operand, an optional right
/// operand, and the center token. A leaf has no operands; a `Not` split has
/// only the left one (everything after the `Not`); a binary split has both.
pub open spec fn spec_split(func: Seq<Token>) -> (Option<Seq<Token>>, Option<Seq<Token>>, Token)
    decreases func.len(),
{
    if func.len() <= 1 {
        (None, None, func[0])
    } else if spec_is_parentheses(func) {
        proof {
            if func.len() < 2 {
                assert(func[0] is Open);
                assert(func[func.len() - 1] is Close);
            }
        }
        spec_split(func.subrange(1, func.len() - 1))
    } else {
        proof {
            lemma_split_index_bounds(func);
        }
        let i = spec_split_index(func);
        if i == 0 {
            (Some(func.subrange(1, func.len() as int)), None, func[0])
        } else {
            (
                Some(func.subrange(0, i)),
                Some(func.subrange(i + 1, func.len() as int)),
                func[i],
            )
        }
    }
}

/// The three parts a sequence splits into, ready for tree construction.
#[derive(Debug)]
pub struct Bundle {
    pub left: Option<Vec<Token>>,
    pub right: Option<Vec<Token>>,
    pub center: Token,
}

/// Whether an exec bundle carries exactly the parts `spec_split` names.
pub open spec fn bundle_matches(b: Bundle, parts: (Option<Seq<Token>>, Option<Seq<Token>>, Token)) -> bool {
    &&& b.center == parts.2
    &&& (match b.left {
        Some(l) => parts.0 == Some(l@),
        None => parts.0 is None,
    })
    &&& (match b.right {
        Some(r) => parts.1 == Some(r@),
        None => parts.1 is None,
    })
}

/// Copies `func[from..to]` into a fresh vector.
fn copy_range(func: &Vec<Token>, from: usize, to: usize) -> (out: Vec<Token>)
    requires
        from <= to <= func@.len(),
    ensures
        out@ == func@.subrange(from as int, to as int),
{
    let mut out: Vec<Token> = Vec::new();
    let mut i = from;
    while i < to
        invariant
            from <= i <= to <= func@.len(),
            out@ == func@.subrange(from as int, i as int),
        decreases to - i,
    {
        out.push(func[i].dup());
        proof {
            assert(func@.subrange(from as int, i as int + 1) =~= func@.subrange(
                from as int,
                i as int,
            ).push(func@[i as int]));
        }
        i = i + 1;
    }
    out
}

impl Bundle {
    /// Splits off a leading `Not`: the operator itself and everything after
    /// it as the single operand.
    pub fn split_not(func: &Vec<Token>) -> (b: Bundle)
        requires
            func@.len() >= 1,
        ensures
            b.center == func@[0],
            b.right is None,
            (b.left matches Some(l) && l@ == func@.subrange(1, func@.len() as int)),
    {
        let left = copy_range(func, 1, func.len());
        Bundle { left: Some(left), center: func[0].dup(), right: None }
    }

    /// The index of the operator the sequence splits at: the leftmost
    /// operator of the lowest precedence tier at parenthesis depth zero.
    /// For `(a | b) & c` that is 5, the `&`.
    pub fn split_index(func: &Vec<Token>) -> (index: usize)
        ensures
            index as int == spec_split_index(func@),
    {
        let mut operator_index: usize = 0;
        let mut operator_score: usize = 255;
        let mut parentheses: usize = 0;
        let mut i: usize = 0;
        while i < func.len()
            invariant
                i <= func@.len(),
                operator_index <= i,
                parentheses <= i,
                operator_score <= 255,
                spec_split_index(func@) == spec_split_scan(
                    func@,
                    i as int,
                    parentheses as int,
                    operator_index as int,
                    operator_score as int,
                ),
            decreases func@.len() - i,
        {
            let score = precedence_of(&func[i]);
            if parentheses != 0 {
                match &func[i] {
                    Token::Close => {
                        parentheses = parentheses - 1;
                    },
                    Token::Open => {
                        parentheses = parentheses + 1;
                    },
                    _ => {},
                }
            } else {
                match &func[i] {
                    Token::Open => {
                        parentheses = 1;
                    },
                    _ => {
                        parentheses = 0;
                    },
                }
                if score < operator_score {
                    operator_score = score;
                    operator_index = i;
                }
            }
            i = i + 1;
        }
        operator_index
    }

    /// Splits at the operator `split_index` names: a leading `Not` becomes a
    /// unary bundle, any other index a binary one.
    pub fn split_operator(func: &Vec<Token>) -> (b: Bundle)
        requires
            crate::utils::spec_valid(func@),
            func@.len() >= 2,
            !spec_is_parentheses(func@),
        ensures
            bundle_matches(b, spec_split(func@)),
    {
        let index = Self::split_index(func);
        proof {
            crate::split_lemmas::lemma_split_operator_parts(func@);
            assert(index < func.len());
        }
        if index == 0 {
            return Self::split_not(func);
        }
        let left = copy_range(func, 0, index);
        let right = copy_range(func, index + 1, func.len());
        Bundle { left: Some(left), right: Some(right), center: func[index].dup() }
    }

    /// Decomposes a validated sequence: a single token is a leaf bundle, a
    /// parenthesized group is unwrapped first, anything else splits at its
    /// loosest depth-zero operator. For `a & b | (c | d)` that gives
    /// `a & b`, `|`, `(c | d)`.
    pub fn split(func: &Vec<Token>) -> (b: Bundle)
        requires
            crate::utils::spec_valid(func@),
        ensures
            bundle_matches(b, spec_split(func@)),
        decreases func@.len(), 1int,
    {
        proof {
            crate::split_lemmas::lemma_valid_nonempty(func@);
        }
        if func.len() == 1 {
            return Bundle { left: None, right: None, center: func[0].dup() };
        }
        if is_parentheses(func) {
            return Self::split_parentheses(func);
        }
        Self::split_operator(func)
    }

    /// Strips the outer parentheses and splits the interior.
    pub fn split_parentheses(func: &Vec<Token>) -> (b: Bundle)
        requires
            crate::utils::spec_valid(func@),
            func@.len() >= 2,
            spec_is_parentheses(func@),
        ensures
            bundle_matches(b, spec_split(func@)),
        decreases func@.len(), 0int,
    {
        proof {
            crate::split_lemmas::lemma_split_interior_valid(func@);
        }
        let result = copy_range(func, 1, func.len() - 1);
        Self::split(&result)
    }
}

/// One node of the expression tree. A variable leaf holds the index of its
/// slot in the assignment vector, so every occurrence of one variable reads
/// the same slot; a constant leaf holds its fixed value.
#[derive(Debug)]
pub enum Node {
    Const { value: bool },
    Var { index: usize },
    Not { child: Box<Node> },
    Op { op: Token, left: Box<Node>, right: Box<Node> },
}

/// Well-formedness of a tree over `nvars` assignment slots: every variable
/// leaf points at a real slot and every inner binary node carries a binary
/// connective.
pub open spec fn node_wf(n: Node, nvars: nat) -> bool
    decreases n,
{
    match n {
        Node::Const { .. } => true,
        Node::Var { index } => index < nvars,
        Node::Not { child } => node_wf(*child, nvars),
        Node::Op { op, left, right } => is_binary_op(op) && node_wf(*left, nvars) && node_wf(
            *right,
            nvars,
        ),
    }
}

/// The value of a tree under an assignment vector.
pub open spec fn spec_eval_node(n: Node, vals: Seq<bool>) -> bool
    decreases n,
{
    match n {
        Node::Const { value } => value,
        Node::Var { index } => vals[index as int],
        Node::Not { child } => !spec_eval_node(*child, vals),
        Node::Op { op, left, right } => op_apply(
            op,
            spec_eval_node(*left, vals),
            spec_eval_node(*right, vals),
        ),
    }
}

/// The slot of `name` in the assignment vector: its position in the
/// duplicate-free name list.
fn find_name(names: &Vec<String>, name: &String) -> (idx: usize)
    requires
        names.deep_view().contains(name@),
        forall|i: int, j: int|
            0 <= i < j < names.deep_view().len() ==> names.deep_view()[i] != names.deep_view()[j],
    ensures
        idx < names@.len(),
        names.deep_view()[idx as int] == name@,
        idx as int == names.deep_view().index_of(name@),
{
    let ghost deep = names.deep_view();
    let mut i: usize = 0;
    while i < names.len()
        invariant
            i <= names@.len(),
            deep == names.deep_view(),
            deep.contains(name@),
            forall|a: int, b: int| 0 <= a < b < deep.len() ==> deep[a] != deep[b],
            forall|j: int| 0 <= j < i ==> deep[j] != name@,
        decreases names@.len() - i,
    {
        if names[i].eq(name) {
            proof {
                let i0 = deep.index_of(name@);
                assert(0 <= i0 < deep.len() && deep[i0] == name@);
                if i0 != i {
                    assert(deep[i0] == deep[i as int]);
                    assert(false);
                }
            }
            return i;
        }
        i = i + 1;
    }
    proof {
        let w = choose|w: int| 0 <= w < deep.len() && deep[w] == name@;
        assert(false);
    }
    0
}

impl Node {
    /// Builds the expression tree of a validated sequence, binding every
    /// variable leaf to its slot among `names`. For any assignment vector
    /// the tree evaluates to what the token sequence denotes.
    pub fn build_tree(func: &Vec<Token>, names: &Vec<String>) -> (tree: Node)
        requires
            crate::utils::spec_valid(func@),
            forall|i: int, j: int|
                0 <= i < j < names.deep_view().len() ==> names.deep_view()[i]
                    != names.deep_view()[j],
            forall|n: Seq<char>| #[trigger]
                crate::utils::occurs(func@, n) ==> names.deep_view().contains(n),
        ensures
            node_wf(tree, names@.len()),
            forall|vals: Seq<bool>|
                vals.len() == names@.len() ==> #[trigger] spec_eval_node(tree, vals) == eval_tokens(
                    func@,
                    env_of(names.deep_view(), vals),
                ),
        decreases func@.len(),
    {
        proof {
            // Expose validity and variable containment of the parts.
            crate::split_lemmas::lemma_eval_split(func@, env_of(names.deep_view(), Seq::empty()));
        }
        let bundle = Bundle::split(func);
        match bundle {
            Bundle { left: Some(left), right: Some(right), center } => {
                let l = Node::build_tree(&left, names);
                let r = Node::build_tree(&right, names);
                let ghost gl = l;
                let ghost gr = r;
                let ghost gc = center;
                let tree = Node::Op { op: center, left: Box::new(l), right: Box::new(r) };
                proof {
                    assert forall|vals: Seq<bool>| vals.len() == names@.len() implies #[trigger]
                        spec_eval_node(tree, vals) == eval_tokens(
                        func@,
                        env_of(names.deep_view(), vals),
                    ) by {
                        let env = env_of(names.deep_view(), vals);
                        crate::split_lemmas::lemma_eval_split(func@, env);
                        let parts = spec_split(func@);
                        assert(parts.0 == Some(left@) && parts.1 == Some(right@) && parts.2 == gc);
                        assert(eval_tokens(func@, env) == op_apply(
                            gc,
                            eval_tokens(left@, env),
                            eval_tokens(right@, env),
                        ));
                        assert(spec_eval_node(tree, vals) == op_apply(
                            gc,
                            spec_eval_node(gl, vals),
                            spec_eval_node(gr, vals),
                        ));
                        assert(spec_eval_node(gl, vals) == eval_tokens(left@, env));
                        assert(spec_eval_node(gr, vals) == eval_tokens(right@, env));
                    }
                }
                tree
            },
            Bundle { left: Some(left), right: None, center } => {
                let c = Node::build_tree(&left, names);
                let ghost gchild = c;
                let tree = Node::Not { child: Box::new(c) };
                proof {
                    assert forall|vals: Seq<bool>| vals.len() == names@.len() implies #[trigger]
                        spec_eval_node(tree, vals) == eval_tokens(
                        func@,
                        env_of(names.deep_view(), vals),
                    ) by {
                        let env = env_of(names.deep_view(), vals);
                        crate::split_lemmas::lemma_eval_split(func@, env);
                        assert(spec_eval_node(tree, vals) == !spec_eval_node(gchild, vals));
                        assert(spec_eval_node(gchild, vals) == eval_tokens(left@, env));
                    }
                }
                tree
            },
            Bundle { left: None, right, center } => {
                proof {
                    if right is Some {
                        crate::split_lemmas::lemma_eval_split(
                            func@,
                            env_of(names.deep_view(), Seq::empty()),
                        );
                        assert(false);
                    }
                }
                match center {
                    Token::One => {
                        let tree = Node::Const { value: true };
                        proof {
                            assert forall|vals: Seq<bool>|
                                vals.len() == names@.len() implies #[trigger] spec_eval_node(
                                tree,
                                vals,
                            ) == eval_tokens(func@, env_of(names.deep_view(), vals)) by {
                                crate::split_lemmas::lemma_eval_split(
                                    func@,
                                    env_of(names.deep_view(), vals),
                                );
                            }
                        }
                        tree
                    },
                    Token::Zero => {
                        let tree = Node::Const { value: false };
                        proof {
                            assert forall|vals: Seq<bool>|
                                vals.len() == names@.len() implies #[trigger] spec_eval_node(
                                tree,
                                vals,
                            ) == eval_tokens(func@, env_of(names.deep_view(), vals)) by {
                                crate::split_lemmas::lemma_eval_split(
                                    func@,
                                    env_of(names.deep_view(), vals),
                                );
                            }
                        }
                        tree
                    },
                    Token::Var(name) => {
                        proof {
                            crate::split_lemmas::lemma_eval_split(
                                func@,
                                env_of(names.deep_view(), Seq::empty()),
                            );
                            assert(crate::utils::occurs(func@, name@));
                        }
                        let index = find_name(names, &name);
                        let tree = Node::Var { index };
                        proof {
                            assert forall|vals: Seq<bool>|
                                vals.len() == names@.len() implies #[trigger] spec_eval_node(
                                tree,
                                vals,
                            ) == eval_tokens(func@, env_of(names.deep_view(), vals)) by {
                                crate::split_lemmas::lemma_eval_split(
                                    func@,
                                    env_of(names.deep_view(), vals),
                                );
                            }
                        }
                        tree
                    },
                    _ => {
                        proof {
                            crate::split_lemmas::lemma_eval_split(
                                func@,
                                env_of(names.deep_view(), Seq::empty()),
                            );
                            assert(false);
                        }
                        Node::Const { value: false }
                    },
                }
            },
        }
    }

    /// Evaluates the tree against the current assignment vector. The right
    /// subtree goes first, and `And`/`Or` skip the left one when the right
    /// value already settles the result.
    pub fn eval(&self, values: &Vec<bool>) -> (r: bool)
        requires
            node_wf(*self, values@.len()),
        ensures
            r == spec_eval_node(*self, values@),
        decreases *self,
    {
        match self {
            Node::Const { value } => *value,
            Node::Var { index } => values[*index],
            Node::Not { child } => !child.eval(values),
            Node::Op { op, left, right } => {
                match op {
                    Token::And => {
                        let right_v = right.eval(values);
                        if !right_v {
                            false
                        } else {
                            let left_v = left.eval(values);
                            left_v && right_v
                        }
                    },
                    Token::Or => {
                        let right_v = right.eval(values);
                        if right_v {
                            true
                        } else {
                            let left_v = left.eval(values);
                            left_v || right_v
                        }
                    },
                    Token::Xor => {
                        let right_v = right.eval(values);
                        let left_v = left.eval(values);
                        left_v != right_v
                    },
                    Token::Eq => {
                        let right_v = right.eval(values);
                        let left_v = left.eval(values);
                        left_v == right_v
                    },
                    Token::ImplicAB => {
                        let right_v = right.eval(values);
                        let left_v = left.eval(values);
                        !left_v || right_v
                    },
                    Token::ImplicBA => {
                        let right_v = right.eval(values);
                        let left_v = left.eval(values);
                        left_v || !right_v
                    },
                    Token::Nand => {
                        let right_v = right.eval(values);
                        let left_v = left.eval(values);
                        !(left_v && right_v)
                    },
                    Token::Nor => {
                        let right_v = right.eval(values);
                        let left_v = left.eval(values);
                        !(left_v || right_v)
                    },
                    _ => {
                        proof {
                            assert(false);
                        }
                        false
                    },
                }
            },
        }
    }
}

/// Compiles a tokenized expression into its truth table: the sequence is
/// validated, compiled into a tree, and evaluated once per assignment of its
/// variables in enumeration order. Entry `k` of the table is the expression's
/// value under the assignment whose bit pattern (most significant bit first,
/// one bit per name in lexicographic name order) encodes `k`. Every sequence
/// that passes validation parses; a sequence that does not yields exactly the
/// validator's error.
pub fn parse(func: &Vec<Token>) -> (r: Result<Vec<bool>, Error>)
    ensures
        ({
            let names = spec_var_names(func@);
            match r {
                Ok(table) => {
                    &&& spec_valid(func@)
                    &&& crate::utils::is_var_name_list(func@, names)
                    &&& table@.len() == spec_pow2(names.len())
                    &&& (forall|k: int|
                        0 <= k < table@.len() ==> #[trigger] table@[k] == eval_tokens(
                            func@,
                            env_of(names, nat_to_bits(k as nat, names.len())),
                        ))
                },
                Err(e) => spec_validate(func@) == Err::<(), Error>(e),
            }
        }),
{
    match validate_func(func) {
        Ok(_) => {},
        Err(e) => {
            return Err(e);
        },
    }
    let names = get_names(func);
    let ghost deep = names.deep_view();
    proof {
        assert forall|i: int, j: int| 0 <= i < j < deep.len() implies deep[i] != deep[j] by {
            lemma_lex_trichotomy(deep[i], deep[j]);
        }
    }
    let tree = Node::build_tree(func, &names);
    let mut values: Vec<bool> = vec![false; names.len()];
    let mut result: Vec<bool> = Vec::new();
    proof {
        assert(forall|j: int| 0 <= j < values@.len() ==> !values@[j]);
        crate::bits::lemma_bits_all_false(values@);
        lemma_pow2_pos(deep.len());
    }
    loop
        invariant
            spec_valid(func@),
            deep == names.deep_view(),
            deep == spec_var_names(func@),
            crate::utils::is_var_name_list(func@, deep),
            values@.len() == names@.len(),
            node_wf(tree, names@.len()),
            forall|vals: Seq<bool>|
                vals.len() == names@.len() ==> #[trigger] spec_eval_node(tree, vals) == eval_tokens(
                    func@,
                    env_of(deep, vals),
                ),
            bits_to_nat(values@) == result@.len(),
            result@.len() < spec_pow2(deep.len()),
            forall|k: int|
                0 <= k < result@.len() ==> #[trigger] result@[k] == eval_tokens(
                    func@,
                    env_of(deep, nat_to_bits(k as nat, deep.len())),
                ),
        decreases spec_pow2(deep.len()) - result@.len(),
    {
        let entry = tree.eval(&values);
        proof {
            lemma_nat_of_bits_inverse(values@);
            assert(values@ == nat_to_bits(result@.len() as nat, deep.len()));
        }
        result.push(entry);
        let more = update_values(&mut values);
        if !more {
            proof {
                assert(bits_to_nat(values@) == 0);
            }
            return Ok(result);
        }
    }
}

} // verus!
