//! Keys are byte strings ordered lexicographically.
use vstd::prelude::*;

verus! {

/// Length of the longest common prefix of `a` and `b`.
pub open spec fn common_prefix_len(a: Seq<u8>, b: Seq<u8>) -> nat
    decreases a.len(),
{
    if a.len() == 0 || b.len() == 0 || a[0] != b[0] {
        0
    } else {
        1 + common_prefix_len(a.drop_first(), b.drop_first())
    }
}

/// Strict lexicographic order on byte strings (the order of `[u8]` in Rust).
pub open spec fn lex_lt(a: Seq<u8>, b: Seq<u8>) -> bool {
    let k = common_prefix_len(a, b);
    (k == a.len() && k < b.len()) || (k < a.len() && k < b.len() && a[k as int] < b[k as int])
}

/// Non-strict lexicographic order.
pub open spec fn lex_le(a: Seq<u8>, b: Seq<u8>) -> bool {
    !lex_lt(b, a)
}

/// The common prefix length is characterised by: both sequences agree below it,
/// and it is either the end of one of them or a position where they differ.
pub proof fn lemma_common_prefix_len(a: Seq<u8>, b: Seq<u8>)
    ensures
        common_prefix_len(a, b) <= a.len(),
        common_prefix_len(a, b) <= b.len(),
        forall|j: int| 0 <= j < common_prefix_len(a, b) ==> a[j] == b[j],
        common_prefix_len(a, b) < a.len() && common_prefix_len(a, b) < b.len() ==> a[common_prefix_len(a, b) as int]
            != b[common_prefix_len(a, b) as int],
    decreases a.len(),
{
    if a.len() == 0 || b.len() == 0 || a[0] != b[0] {
    } else {
        lemma_common_prefix_len(a.drop_first(), b.drop_first());
        let k = common_prefix_len(a, b);
        assert forall|j: int| 0 <= j < k implies a[j] == b[j] by {
            if j > 0 {
                assert(a[j] == a.drop_first()[j - 1]);
                assert(b[j] == b.drop_first()[j - 1]);
            }
        }
    }
}

/// Any index with the characterising properties is the common prefix length.
pub proof fn lemma_common_prefix_len_unique(a: Seq<u8>, b: Seq<u8>, k: int)
    requires
        0 <= k <= a.len(),
        k <= b.len(),
        forall|j: int| 0 <= j < k ==> a[j] == b[j],
        k < a.len() && k < b.len() ==> a[k] != b[k],
    ensures
        common_prefix_len(a, b) == k,
    decreases a.len(),
{
    if a.len() == 0 || b.len() == 0 || a[0] != b[0] {
        if k > 0 {
            assert(a[0] == b[0]);
        }
    } else {
        if k == 0 {
            assert(a[0] != b[0]);
        } else {
            assert forall|j: int| 0 <= j < k - 1 implies a.drop_first()[j] == b.drop_first()[j] by {
                assert(a[j + 1] == b[j + 1]);
            }
            if k - 1 < a.drop_first().len() && k - 1 < b.drop_first().len() {
                assert(a.drop_first()[k - 1] == a[k]);
                assert(b.drop_first()[k - 1] == b[k]);
            }
            lemma_common_prefix_len_unique(a.drop_first(), b.drop_first(), k - 1);
        }
    }
}

/// The common prefix length does not depend on the order of the arguments.
pub proof fn lemma_common_prefix_len_symmetric(a: Seq<u8>, b: Seq<u8>)
    ensures
        common_prefix_len(a, b) == common_prefix_len(b, a),
{
    lemma_common_prefix_len(a, b);
    lemma_common_prefix_len_unique(b, a, common_prefix_len(a, b) as int);
}

/// Two byte strings are equal or one is smaller than the other.
pub proof fn lemma_lex_total(a: Seq<u8>, b: Seq<u8>)
    ensures
        a == b || lex_lt(a, b) || lex_lt(b, a),
        !(lex_lt(a, b) && lex_lt(b, a)),
        !lex_lt(a, a),
{
    lemma_common_prefix_len(a, b);
    lemma_common_prefix_len_symmetric(a, b);
    lemma_common_prefix_len(a, a);
    let k = common_prefix_len(a, b);
    if k == a.len() && k == b.len() {
        assert(a =~= b);
    }
}

/// `lex_le` followed by `lex_lt` is `lex_lt`.
pub proof fn lemma_lex_le_lt_trans(a: Seq<u8>, b: Seq<u8>, c: Seq<u8>)
    requires
        lex_le(a, b),
        lex_lt(b, c),
    ensures
        lex_lt(a, c),
{
    lemma_lex_total(a, b);
    if a == b {
        return;
    }
    lemma_common_prefix_len(a, b);
    lemma_common_prefix_len(b, c);
    let k1 = common_prefix_len(a, b) as int;
    let k2 = common_prefix_len(b, c) as int;
    if k1 < k2 {
        if k1 == a.len() {
            lemma_common_prefix_len_unique(a, c, k1);
        } else {
            lemma_common_prefix_len_unique(a, c, k1);
        }
    } else if k1 > k2 {
        lemma_common_prefix_len_unique(a, c, k2);
    } else {
        lemma_common_prefix_len_unique(a, c, k1);
    }
}

/// `lex_lt` followed by `lex_le` is `lex_lt`.
pub proof fn lemma_lex_lt_le_trans(a: Seq<u8>, b: Seq<u8>, c: Seq<u8>)
    requires
        lex_lt(a, b),
        lex_le(b, c),
    ensures
        lex_lt(a, c),
{
    lemma_lex_total(b, c);
    if b == c {
        return;
    }
    lemma_lex_total(a, b);
    lemma_lex_le_lt_trans(a, b, c);
}

/// `lex_le` is transitive.
pub proof fn lemma_lex_le_trans(a: Seq<u8>, b: Seq<u8>, c: Seq<u8>)
    requires
        lex_le(a, b),
        lex_le(b, c),
    ensures
        lex_le(a, c),
{
    if lex_lt(c, a) {
        lemma_lex_lt_le_trans(c, a, b);
    }
}

/// Length of the longest common prefix of two byte strings.
pub fn common_prefix_length(a: &[u8], b: &[u8]) -> (r: usize)
    ensures
        r == common_prefix_len(a@, b@),
{
    let mut i: usize = 0;
    while i < a.len() && i < b.len() && a[i] == b[i]
        invariant
            i <= a@.len(),
            i <= b@.len(),
            forall|j: int| 0 <= j < i ==> a@[j] == b@[j],
        decreases a.len() - i,
    {
        i = i + 1;
    }
    proof {
        lemma_common_prefix_len_unique(a@, b@, i as int);
    }
    i
}

/// `a < b` in lexicographic order.
pub fn key_less(a: &[u8], b: &[u8]) -> (r: bool)
    ensures
        r == lex_lt(a@, b@),
{
    let k = common_prefix_length(a, b);
    proof {
        lemma_common_prefix_len(a@, b@);
    }
    if k == a.len() {
        k < b.len()
    } else if k < b.len() {
        a[k] < b[k]
    } else {
        false
    }
}

/// `a <= b` in lexicographic order.
pub fn key_less_or_equal(a: &[u8], b: &[u8]) -> (r: bool)
    ensures
        r == lex_le(a@, b@),
{
    !key_less(b, a)
}

} // verus!
