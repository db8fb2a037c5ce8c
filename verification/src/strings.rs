//! Lexicographic order on variable names.
//!
//! Variable name lists are kept in strictly increasing lexicographic order
//! (by character code, which for UTF-8 text agrees with byte order). A
//! strictly sorted list is determined by the set of names it holds; that
//! uniqueness is what lets callers identify any two name lists that were
//! collected from the same expression.

use vstd::prelude::*;

verus! {

/// Strict lexicographic order on character sequences, by character code.
pub open spec fn lex_lt(a: Seq<char>, b: Seq<char>) -> bool
    decreases a.len(),
{
    if b.len() == 0 {
        false
    } else if a.len() == 0 {
        true
    } else if a[0] != b[0] {
        a[0] < b[0]
    } else {
        lex_lt(a.drop_first(), b.drop_first())
    }
}

/// Exactly one of `a < b`, `b < a`, `a == b` holds.
pub proof fn lemma_lex_trichotomy(a: Seq<char>, b: Seq<char>)
    ensures
        lex_lt(a, b) || lex_lt(b, a) || a =~= b,
        lex_lt(a, b) ==> !lex_lt(b, a) && !(a =~= b),
    decreases a.len(),
{
    if a.len() == 0 {
        if b.len() == 0 {
            assert(a =~= b);
        } else {
            assert(lex_lt(a, b));
        }
    } else if b.len() == 0 {
        assert(lex_lt(b, a));
    } else if a[0] == b[0] {
        lemma_lex_trichotomy(a.drop_first(), b.drop_first());
        if a.drop_first() =~= b.drop_first() {
            assert(a =~= b) by {
                assert(a.len() == b.len());
                assert forall|i: int| 0 <= i < a.len() implies a[i] == b[i] by {
                    if i > 0 {
                        assert(a.drop_first()[i - 1] == b.drop_first()[i - 1]);
                    }
                }
            }
        }
        if a =~= b {
            assert(a.drop_first() =~= b.drop_first());
        }
    } else {
        if a[0] < b[0] {
            assert(lex_lt(a, b));
        } else {
            assert(lex_lt(b, a));
        }
    }
}

pub proof fn lemma_lex_transitive(a: Seq<char>, b: Seq<char>, c: Seq<char>)
    requires
        lex_lt(a, b),
        lex_lt(b, c),
    ensures
        lex_lt(a, c),
    decreases a.len(),
{
    if a.len() != 0 && b.len() != 0 && c.len() != 0 {
        if a[0] == b[0] && b[0] == c[0] {
            lemma_lex_transitive(a.drop_first(), b.drop_first(), c.drop_first());
        }
    }
}

/// Whether `names` is in strictly increasing lexicographic order
/// (so in particular free of duplicates).
pub open spec fn strictly_sorted(names: Seq<Seq<char>>) -> bool {
    forall|i: int, j: int| 0 <= i < j < names.len() ==> lex_lt(names[i], names[j])
}

/// A strictly sorted list is determined by the set of names it holds.
pub proof fn lemma_strictly_sorted_unique(a: Seq<Seq<char>>, b: Seq<Seq<char>>)
    requires
        strictly_sorted(a),
        strictly_sorted(b),
        forall|s: Seq<char>| a.contains(s) <==> b.contains(s),
    ensures
        a =~= b,
    decreases a.len(),
{
    if a.len() == 0 {
        if b.len() > 0 {
            assert(b.contains(b[0]));
            assert(a.contains(b[0]));
        }
    } else if b.len() == 0 {
        assert(a.contains(a[0]));
        assert(b.contains(a[0]));
    } else {
        // The heads are both the unique minimum of the common name set.
        assert(a.contains(a[0]));
        assert(b.contains(b[0]));
        let ka = choose|k: int| 0 <= k < b.len() && b[k] == a[0];
        let kb = choose|k: int| 0 <= k < a.len() && a[k] == b[0];
        assert(b.contains(a[0]));
        assert(a.contains(b[0]));
        if ka > 0 && kb > 0 {
            // b[0] < b[ka] == a[0] and a[0] < a[kb] == b[0]: impossible.
            lemma_lex_transitive(a[0], a[kb], b[ka]);
            lemma_lex_trichotomy(a[0], b[ka]);
            assert(false);
        }
        assert(a[0] =~= b[0]);
        // Tails hold the same names: the head is smaller than, hence distinct
        // from, every tail entry on both sides.
        let at = a.drop_first();
        let bt = b.drop_first();
        assert forall|s: Seq<char>| at.contains(s) implies bt.contains(s) by {
            let i = choose|i: int| 0 <= i < at.len() && at[i] == s;
            assert(a[i + 1] == s);
            assert(a.contains(s));
            assert(b.contains(s));
            let j = choose|j: int| 0 <= j < b.len() && b[j] == s;
            if j == 0 {
                assert(lex_lt(a[0], s));
                lemma_lex_trichotomy(a[0], s);
                assert(false);
            }
            assert(bt[j - 1] == s);
        }
        assert forall|s: Seq<char>| bt.contains(s) implies at.contains(s) by {
            let i = choose|i: int| 0 <= i < bt.len() && bt[i] == s;
            assert(b[i + 1] == s);
            assert(b.contains(s));
            assert(a.contains(s));
            let j = choose|j: int| 0 <= j < a.len() && a[j] == s;
            if j == 0 {
                assert(lex_lt(b[0], s));
                lemma_lex_trichotomy(b[0], s);
                assert(false);
            }
            assert(at[j - 1] == s);
        }
        lemma_strictly_sorted_unique(at, bt);
        assert(a =~= seq![a[0]] + at);
        assert(b =~= seq![b[0]] + bt);
    }
}

/// Whether string `a` comes strictly before `b` in lexicographic order.
pub fn str_lt(a: &String, b: &String) -> (r: bool)
    ensures
        r == lex_lt(a@, b@),
{
    let alen = a.as_str().unicode_len();
    let blen = b.as_str().unicode_len();
    let mut i: usize = 0;
    proof {
        assert(a@.skip(0) =~= a@);
        assert(b@.skip(0) =~= b@);
    }
    loop
        invariant
            0 <= i <= alen,
            i <= blen,
            alen == a@.len(),
            blen == b@.len(),
            lex_lt(a@, b@) == lex_lt(a@.skip(i as int), b@.skip(i as int)),
        decreases alen - i,
    {
        if i == blen {
            assert(b@.skip(i as int).len() == 0);
            return false;
        }
        if i == alen {
            assert(a@.skip(i as int).len() == 0 && b@.skip(i as int).len() > 0);
            return true;
        }
        let ca = a.as_str().get_char(i);
        let cb = b.as_str().get_char(i);
        if ca != cb {
            assert(a@.skip(i as int)[0] == a@[i as int]);
            assert(b@.skip(i as int)[0] == b@[i as int]);
            return ca < cb;
        }
        assert(a@.skip(i as int).drop_first() =~= a@.skip(i as int + 1));
        assert(b@.skip(i as int).drop_first() =~= b@.skip(i as int + 1));
        assert(a@.skip(i as int)[0] == b@.skip(i as int)[0]);
        i = i + 1;
    }
}

} // verus!
