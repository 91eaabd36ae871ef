//! Byte strings read as big-endian numbers, and their orderings.

use vstd::prelude::*;

verus! {

/// The number that `bytes` spells in big-endian order.
pub open spec fn be_value(bytes: Seq<u8>) -> nat
    decreases bytes.len(),
{
    if bytes.len() == 0 {
        0
    } else {
        be_value(bytes.drop_last()) * 256 + bytes.last() as nat
    }
}

/// The byte strings agree on their first `i` bytes, and there `a` ends
/// while `b` goes on, or `a` holds the smaller byte.
pub open spec fn parts_at(a: Seq<u8>, b: Seq<u8>, i: int) -> bool {
    &&& 0 <= i <= a.len()
    &&& i < b.len()
    &&& a.take(i) == b.take(i)
    &&& i < a.len() ==> a[i] < b[i]
}

/// Lexicographic "less than": at the first position where the byte strings
/// differ, `a` holds the smaller byte, or `a` ends there.
pub open spec fn lex_lt(a: Seq<u8>, b: Seq<u8>) -> bool {
    exists|i: int| parts_at(a, b, i)
}

/// Lexicographic "less than or equal".
pub open spec fn lex_le(a: Seq<u8>, b: Seq<u8>) -> bool {
    a == b || lex_lt(a, b)
}

/// 256 to the power `n`: the number of byte strings of length `n`.
pub open spec fn pow256(n: nat) -> nat
    decreases n,
{
    if n == 0 {
        1
    } else {
        256 * pow256((n - 1) as nat)
    }
}

/// A byte string of length `n` spells a number below `256^n`.
pub proof fn lemma_be_value_bound(bytes: Seq<u8>)
    ensures
        be_value(bytes) < pow256(bytes.len()),
    decreases bytes.len(),
{
    if bytes.len() > 0 {
        lemma_be_value_bound(bytes.drop_last());
        let hi = be_value(bytes.drop_last());
        let p = pow256((bytes.len() - 1) as nat);
        assert(hi * 256 + 255 < p * 256) by (nonlinear_arith)
            requires
                hi < p,
        ;
    }
}

/// Extending two equal-length strings keeps a strict order of their prefixes.
proof fn lemma_be_value_prefix_lt(a: Seq<u8>, b: Seq<u8>, k: int)
    requires
        a.len() == b.len(),
        0 <= k <= a.len(),
        be_value(a.take(k)) < be_value(b.take(k)),
    ensures
        be_value(a) < be_value(b),
    decreases a.len() - k,
{
    if k == a.len() {
        assert(a.take(k) == a);
        assert(b.take(k) == b);
    } else {
        assert(a.take(k + 1).drop_last() == a.take(k));
        assert(b.take(k + 1).drop_last() == b.take(k));
        let x = be_value(a.take(k));
        let y = be_value(b.take(k));
        assert(x * 256 + 255 < y * 256) by (nonlinear_arith)
            requires
                x < y,
        ;
        lemma_be_value_prefix_lt(a, b, k + 1);
    }
}

/// On byte strings of one length the lexicographic order is the order of the
/// big-endian numbers.
pub proof fn lemma_lex_lt_is_numeric(a: Seq<u8>, b: Seq<u8>)
    requires
        a.len() == b.len(),
    ensures
        lex_lt(a, b) <==> be_value(a) < be_value(b),
        a == b <==> be_value(a) == be_value(b),
{
    if lex_lt(a, b) {
        let i = choose|i: int| parts_at(a, b, i);
        assert(a.take(i + 1).drop_last() == a.take(i));
        assert(b.take(i + 1).drop_last() == b.take(i));
        lemma_be_value_prefix_lt(a, b, i + 1);
    }
    if lex_lt(b, a) {
        let i = choose|i: int| parts_at(b, a, i);
        assert(a.take(i + 1).drop_last() == a.take(i));
        assert(b.take(i + 1).drop_last() == b.take(i));
        lemma_be_value_prefix_lt(b, a, i + 1);
    }
    lemma_lex_total(a, b);
}

/// Two byte strings of one length are equal, or one is below the other.
pub proof fn lemma_lex_total(a: Seq<u8>, b: Seq<u8>)
    requires
        a.len() == b.len(),
    ensures
        a == b || lex_lt(a, b) || lex_lt(b, a),
{
    assert(a.take(0) =~= b.take(0));
    lemma_lex_total_from(a, b, 0);
}

proof fn lemma_lex_total_from(a: Seq<u8>, b: Seq<u8>, k: int)
    requires
        a.len() == b.len(),
        0 <= k <= a.len(),
        a.take(k) == b.take(k),
    ensures
        a == b || lex_lt(a, b) || lex_lt(b, a),
    decreases a.len() - k,
{
    if k == a.len() {
        assert(a.take(k) == a);
        assert(b.take(k) == b);
    } else if a[k] == b[k] {
        assert(a.take(k + 1) == a.take(k).push(a[k]));
        assert(b.take(k + 1) == b.take(k).push(b[k]));
        lemma_lex_total_from(a, b, k + 1);
    } else if a[k] < b[k] {
        assert(parts_at(a, b, k));
    } else {
        assert(b.take(k) == a.take(k));
        assert(parts_at(b, a, k));
    }
}

/// Whether two byte strings hold the same bytes.
pub fn bytes_eq(a: &[u8], b: &[u8]) -> (r: bool)
    ensures
        r == (a@ == b@),
{
    if a.len() != b.len() {
        return false;
    }
    let mut i: usize = 0;
    while i < a.len()
        invariant
            a@.len() == b@.len(),
            0 <= i <= a@.len(),
            a@.take(i as int) == b@.take(i as int),
        decreases a@.len() - i,
    {
        if a[i] != b[i] {
            return false;
        }
        assert(a@.take(i + 1) == a@.take(i as int).push(a@[i as int]));
        assert(b@.take(i + 1) == b@.take(i as int).push(b@[i as int]));
        i += 1;
    }
    assert(a@.take(i as int) == a@);
    assert(b@.take(i as int) == b@);
    true
}

/// Whether `a` comes before `b` in lexicographic order, which for strings of
/// one length is the order of the numbers they spell.
pub fn bytes_lt(a: &[u8], b: &[u8]) -> (r: bool)
    ensures
        r == lex_lt(a@, b@),
        a@.len() == b@.len() ==> r == (be_value(a@) < be_value(b@)),
{
    let mut i: usize = 0;
    while i < a.len() && i < b.len()
        invariant
            0 <= i <= a@.len(),
            i <= b@.len(),
            a@.take(i as int) == b@.take(i as int),
        decreases a@.len() - i,
    {
        if a[i] != b[i] {
            proof {
                lemma_first_difference_decides(a@, b@, i as int);
                lemma_first_difference_decides(b@, a@, i as int);
                if a@.len() == b@.len() {
                    lemma_lex_lt_is_numeric(a@, b@);
                }
            }
            return a[i] < b[i];
        }
        assert(a@.take(i + 1) == a@.take(i as int).push(a@[i as int]));
        assert(b@.take(i + 1) == b@.take(i as int).push(b@[i as int]));
        i += 1;
    }
    proof {
        lemma_common_part_decides(a@, b@, i as int);
        if a@.len() == b@.len() {
            lemma_lex_lt_is_numeric(a@, b@);
        }
    }
    a.len() < b.len()
}

/// Where two byte strings first differ at `k`, the smaller byte decides.
proof fn lemma_first_difference_decides(a: Seq<u8>, b: Seq<u8>, k: int)
    requires
        0 <= k < a.len(),
        k < b.len(),
        a.take(k) == b.take(k),
        a[k] != b[k],
    ensures
        lex_lt(a, b) <==> a[k] < b[k],
{
    if a[k] < b[k] {
        assert(parts_at(a, b, k));
    }
    if lex_lt(a, b) {
        let i = choose|i: int| parts_at(a, b, i);
        if i < k {
            assert(a.take(k)[i] == a[i] && b.take(k)[i] == b[i]);
        } else if i > k {
            assert(a.take(i)[k] == a[k] && b.take(i)[k] == b[k]);
        }
    }
}

/// Where one of two byte strings ends at `k` and they agree up to there,
/// the shorter one comes first.
proof fn lemma_common_part_decides(a: Seq<u8>, b: Seq<u8>, k: int)
    requires
        0 <= k <= a.len(),
        k <= b.len(),
        k == a.len() || k == b.len(),
        a.take(k) == b.take(k),
    ensures
        lex_lt(a, b) <==> a.len() < b.len(),
{
    if a.len() < b.len() {
        assert(parts_at(a, b, k));
    }
    if lex_lt(a, b) {
        let i = choose|i: int| parts_at(a, b, i);
        if i < k {
            assert(a.take(k)[i] == a[i] && b.take(k)[i] == b[i]);
        }
    }
}

} // verus!
