//! The order in which words are listed: lexicographic by code point.
use vstd::prelude::*;
use vstd::std_specs::iter::IteratorSpec;

verus! {

/// How one word stands relative to another in the listing order.
#[derive(Debug, Clone, Copy, PartialEq, Eq)]
pub enum Precedence {
    /// The first word comes strictly before the second.
    Before,
    /// Both words are the same.
    Same,
    /// The first word comes strictly after the second.
    After,
}

/// `a` comes strictly before `b`: at the first position where they differ `a`
/// has the smaller code point, or `a` is a proper prefix of `b`.
pub open spec fn word_less(a: Seq<char>, b: Seq<char>) -> bool
    decreases a.len(),
{
    if b.len() == 0 {
        false
    } else if a.len() == 0 {
        true
    } else if a[0] == b[0] {
        word_less(a.drop_first(), b.drop_first())
    } else {
        a[0] < b[0]
    }
}

/// The three-way comparison that `word_less` induces.
pub open spec fn precedence(a: Seq<char>, b: Seq<char>) -> Precedence {
    if word_less(a, b) {
        Precedence::Before
    } else if a == b {
        Precedence::Same
    } else {
        Precedence::After
    }
}

/// No word comes before itself.
pub proof fn lemma_word_less_irreflexive(a: Seq<char>)
    ensures
        !word_less(a, a),
    decreases a.len(),
{
    if a.len() > 0 {
        lemma_word_less_irreflexive(a.drop_first());
    }
}

/// If `a` comes before `b`, then `b` does not come before `a`.
pub proof fn lemma_word_less_asymmetric(a: Seq<char>, b: Seq<char>)
    requires
        word_less(a, b),
    ensures
        !word_less(b, a),
    decreases a.len(),
{
    if a.len() > 0 && b.len() > 0 && a[0] == b[0] {
        lemma_word_less_asymmetric(a.drop_first(), b.drop_first());
    }
}

/// If `a` comes before `b` and `b` before `c`, then `a` comes before `c`.
pub proof fn lemma_word_less_transitive(a: Seq<char>, b: Seq<char>, c: Seq<char>)
    requires
        word_less(a, b),
        word_less(b, c),
    ensures
        word_less(a, c),
    decreases a.len(),
{
    if a.len() > 0 && b.len() > 0 && c.len() > 0 && a[0] == b[0] && b[0] == c[0] {
        lemma_word_less_transitive(a.drop_first(), b.drop_first(), c.drop_first());
    }
}

/// Any two different words are ordered one way or the other.
pub proof fn lemma_word_less_connected(a: Seq<char>, b: Seq<char>)
    ensures
        a == b || word_less(a, b) || word_less(b, a),
    decreases a.len(),
{
    if a.len() > 0 && b.len() > 0 && a[0] == b[0] {
        lemma_word_less_connected(a.drop_first(), b.drop_first());
        if a.drop_first() == b.drop_first() {
            assert(a =~= seq![a[0]] + a.drop_first());
        }
    }
}

/// Words that agree on their first `k` characters compare as their remainders do.
proof fn lemma_word_less_skip(a: Seq<char>, b: Seq<char>, k: int)
    requires
        0 <= k <= a.len(),
        k <= b.len(),
        forall|i: int| 0 <= i < k ==> a[i] == b[i],
    ensures
        word_less(a, b) == word_less(a.skip(k), b.skip(k)),
    decreases k,
{
    if k == 0 {
        assert(a.skip(0) =~= a);
        assert(b.skip(0) =~= b);
    } else {
        lemma_word_less_skip(a.drop_first(), b.drop_first(), k - 1);
        assert(a.drop_first().skip(k - 1) =~= a.skip(k));
        assert(b.drop_first().skip(k - 1) =~= b.skip(k));
    }
}

/// Compares two words in the listing order.
pub fn compare_words(a: &str, b: &str) -> (r: Precedence)
    ensures
        r == precedence(a@, b@),
{
    let mut rest_a = a.chars();
    let mut rest_b = b.chars();
    let ghost mut k: int = 0;
    loop
        invariant
            0 <= k <= a@.len(),
            k <= b@.len(),
            rest_a.remaining() == a@.skip(k),
            rest_b.remaining() == b@.skip(k),
            forall|i: int| 0 <= i < k ==> a@[i] == b@[i],
        decreases a@.len() - k,
    {
        proof {
            lemma_word_less_skip(a@, b@, k);
        }
        let next_a = rest_a.next();
        let next_b = rest_b.next();
        match next_a {
            None => {
                match next_b {
                    None => {
                        assert(a@ =~= b@);
                        return Precedence::Same;
                    },
                    Some(_) => {
                        return Precedence::Before;
                    },
                }
            },
            Some(x) => {
                match next_b {
                    None => {
                        return Precedence::After;
                    },
                    Some(y) => {
                        if x < y {
                            return Precedence::Before;
                        } else if y < x {
                            return Precedence::After;
                        }
                        proof {
                            k = k + 1;
                        }
                    },
                }
            },
        }
    }
}

} // verus!

