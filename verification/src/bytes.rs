//! Byte strings: comparison, equality and copying.
use vstd::prelude::*;

verus! {

/// Whether `a` and `b` agree on their first `k` bytes and `a` is the smaller
/// one at position `k`, either by its byte there or by ending there.
pub open spec fn lex_less_at(a: Seq<u8>, b: Seq<u8>, k: int) -> bool {
    &&& 0 <= k <= a.len()
    &&& k < b.len()
    &&& forall|i: int| 0 <= i < k ==> a[i] == b[i]
    &&& (k == a.len() || a[k] < b[k])
}

/// Lexicographic order on byte strings: a proper prefix comes first.
pub open spec fn lex_less(a: Seq<u8>, b: Seq<u8>) -> bool {
    exists|k: int| lex_less_at(a, b, k)
}

/// No byte string is below itself.
pub proof fn lemma_lex_irreflexive(a: Seq<u8>)
    ensures
        !lex_less(a, a),
{
}

/// The order on byte strings is transitive.
pub proof fn lemma_lex_transitive(a: Seq<u8>, b: Seq<u8>, c: Seq<u8>)
    requires
        lex_less(a, b),
        lex_less(b, c),
    ensures
        lex_less(a, c),
{
    let i = choose|k: int| lex_less_at(a, b, k);
    let j = choose|k: int| lex_less_at(b, c, k);
    let m = if i <= j {
        i
    } else {
        j
    };
    assert(lex_less_at(a, c, m));
}

/// At most one of two byte strings is below the other.
pub proof fn lemma_lex_asymmetric(a: Seq<u8>, b: Seq<u8>)
    requires
        lex_less(a, b),
    ensures
        !lex_less(b, a),
        a != b,
{
    if lex_less(b, a) {
        lemma_lex_transitive(a, b, a);
    }
    lemma_lex_irreflexive(a);
}

/// Two byte strings, neither of which is below the other, are equal.
pub proof fn lemma_lex_total(a: Seq<u8>, b: Seq<u8>)
    ensures
        lex_less(a, b) || a == b || lex_less(b, a),
{
    if a != b {
        let m = if a.len() < b.len() {
            a.len()
        } else {
            b.len()
        };
        let k = lemma_first_difference(a, b, m);
        if k < m {
            if a[k as int] < b[k as int] {
                assert(lex_less_at(a, b, k as int));
            } else {
                assert(lex_less_at(b, a, k as int));
            }
        } else if a.len() < b.len() {
            assert(lex_less_at(a, b, k as int));
        } else if b.len() < a.len() {
            assert(lex_less_at(b, a, k as int));
        } else {
            assert(a =~= b);
        }
    }
}

/// The first position below `m` at which `a` and `b` differ, or `m`.
proof fn lemma_first_difference(a: Seq<u8>, b: Seq<u8>, m: nat) -> (k: nat)
    requires
        m <= a.len(),
        m <= b.len(),
    ensures
        k <= m,
        forall|i: int| 0 <= i < k ==> a[i] == b[i],
        k < m ==> a[k as int] != b[k as int],
    decreases m,
{
    if m == 0 {
        0
    } else {
        let k = lemma_first_difference(a, b, (m - 1) as nat);
        if k < m - 1 {
            k
        } else if a[m - 1] == b[m - 1] {
            m
        } else {
            (m - 1) as nat
        }
    }
}

/// Byte strings come in the order of the first bytes in which they differ, and one
/// that another one starts with comes before it.
pub proof fn law_byte_strings_in_order(a: Seq<u8>, b: Seq<u8>, k: int)
    requires
        0 <= k <= a.len(),
        k <= b.len(),
        a.take(k) == b.take(k),
    ensures
        k < a.len() && k < b.len() && a[k] != b[k] ==> (lex_less(a, b) <==> a[k] < b[k]),
        k == a.len() ==> (lex_less(a, b) <==> a.len() < b.len()),
        k == b.len() ==> !lex_less(a, b),
{
    assert forall|i: int| 0 <= i < k implies a[i] == b[i] by {
        assert(a.take(k)[i] == a[i]);
        assert(b.take(k)[i] == b[i]);
    }
    if k < b.len() && (k == a.len() || a[k] < b[k]) {
        assert(lex_less_at(a, b, k));
    }
}

/// Whether `a` comes before `b` in lexicographic order.
pub fn bytes_less(a: &[u8], b: &[u8]) -> (less: bool)
    ensures
        less == lex_less(a@, b@),
{
    let mut i: usize = 0;
    while i < a.len() && i < b.len()
        invariant
            i <= a@.len(),
            i <= b@.len(),
            forall|j: int| 0 <= j < i ==> a@[j] == b@[j],
        decreases a@.len() - i,
    {
        if a[i] != b[i] {
            if a[i] < b[i] {
                assert(lex_less_at(a@, b@, i as int));
                return true;
            }
            assert(lex_less_at(b@, a@, i as int));
            proof {
                lemma_lex_asymmetric(b@, a@);
            }
            return false;
        }
        i = i + 1;
    }
    if i < b.len() {
        assert(lex_less_at(a@, b@, i as int));
        true
    } else {
        assert(!lex_less(a@, b@)) by {
            if lex_less(a@, b@) {
                let k = choose|k: int| lex_less_at(a@, b@, k);
                assert(k < i);
            }
        }
        false
    }
}

/// Whether two byte strings are equal.
pub fn bytes_equal(a: &[u8], b: &[u8]) -> (equal: bool)
    ensures
        equal == (a@ == b@),
{
    if a.len() != b.len() {
        return false;
    }
    let mut i: usize = 0;
    while i < a.len()
        invariant
            i <= a@.len(),
            a@.len() == b@.len(),
            forall|j: int| 0 <= j < i ==> a@[j] == b@[j],
        decreases a@.len() - i,
    {
        if a[i] != b[i] {
            return false;
        }
        i = i + 1;
    }
    assert(a@ =~= b@);
    true
}

/// A copy of a byte string.
pub fn copy_bytes(bytes: &[u8]) -> (copy: Vec<u8>)
    ensures
        copy@ == bytes@,
{
    let mut copy: Vec<u8> = Vec::new();
    copy.extend_from_slice(bytes);
    assert(copy@ =~= bytes@);
    copy
}

} // verus!
