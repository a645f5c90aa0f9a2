//! The order of keys: byte strings compared lexicographically.

use vstd::prelude::*;

verus! {

/// The two strings hold the same bytes at every position below `n`.
pub open spec fn agree(a: Seq<u8>, b: Seq<u8>, n: int) -> bool {
    forall|j: int| 0 <= j < n ==> a[j] == b[j]
}

/// `a` comes before `b`, decided at position `i`: the strings agree below
/// `i`, and there `a` ends or holds the smaller byte.
pub open spec fn lt_at(a: Seq<u8>, b: Seq<u8>, i: int) -> bool {
    &&& 0 <= i <= a.len()
    &&& i < b.len()
    &&& agree(a, b, i)
    &&& (i == a.len() || a[i] < b[i])
}

/// `a` comes strictly before `b` in lexicographic order.
pub open spec fn lex_lt(a: Seq<u8>, b: Seq<u8>) -> bool {
    exists|i: int| lt_at(a, b, i)
}

/// `a` comes before `b` or equals it.
pub open spec fn lex_le(a: Seq<u8>, b: Seq<u8>) -> bool {
    a == b || lex_lt(a, b)
}

/// `key` begins with the bytes of `prefix`.
pub open spec fn has_prefix(key: Seq<u8>, prefix: Seq<u8>) -> bool {
    prefix.len() <= key.len() && agree(key, prefix, prefix.len() as int)
}

/// No string comes before itself.
pub proof fn lemma_lt_irreflexive(a: Seq<u8>)
    ensures
        !lex_lt(a, a),
{
}

/// The order is transitive.
pub proof fn lemma_lt_transitive(a: Seq<u8>, b: Seq<u8>, c: Seq<u8>)
    requires
        lex_lt(a, b),
        lex_lt(b, c),
    ensures
        lex_lt(a, c),
{
    let i = choose|i: int| lt_at(a, b, i);
    let j = choose|j: int| lt_at(b, c, j);
    let k = if i <= j { i } else { j };
    assert(lt_at(a, c, k));
}

/// No two strings come before each other.
pub proof fn lemma_lt_asymmetric(a: Seq<u8>, b: Seq<u8>)
    requires
        lex_lt(a, b),
    ensures
        !lex_lt(b, a),
{
    if lex_lt(b, a) {
        lemma_lt_transitive(a, b, a);
    }
}

proof fn lemma_total_from(a: Seq<u8>, b: Seq<u8>, i: int)
    requires
        a != b,
        0 <= i <= a.len(),
        i <= b.len(),
        agree(a, b, i),
    ensures
        lex_lt(a, b) || lex_lt(b, a),
    decreases a.len() - i,
{
    if i == a.len() {
        if i == b.len() {
            assert(a =~= b);
        } else {
            assert(lt_at(a, b, i));
        }
    } else if i == b.len() {
        assert(agree(b, a, i));
        assert(lt_at(b, a, i));
    } else if a[i] < b[i] {
        assert(lt_at(a, b, i));
    } else if b[i] < a[i] {
        assert(agree(b, a, i));
        assert(lt_at(b, a, i));
    } else {
        lemma_total_from(a, b, i + 1);
    }
}

/// Of two different strings one comes before the other.
pub proof fn lemma_lt_total(a: Seq<u8>, b: Seq<u8>)
    requires
        a != b,
    ensures
        lex_lt(a, b) || lex_lt(b, a),
{
    lemma_total_from(a, b, 0);
}

/// A key that begins with a prefix does not come before the prefix.
pub proof fn lemma_prefix_not_below(key: Seq<u8>, prefix: Seq<u8>)
    requires
        has_prefix(key, prefix),
    ensures
        !lex_lt(key, prefix),
{
    if lex_lt(key, prefix) {
        let i = choose|i: int| lt_at(key, prefix, i);
        assert(key[i] == prefix[i]);
    }
}

/// In key order the keys that begin with a prefix stand together: after a
/// key that neither comes before the prefix nor begins with it, no key
/// begins with it.
pub proof fn lemma_prefix_block_ends(prefix: Seq<u8>, x: Seq<u8>, y: Seq<u8>)
    requires
        !lex_lt(x, prefix),
        !has_prefix(x, prefix),
        lex_lt(x, y),
    ensures
        !has_prefix(y, prefix),
{
    if has_prefix(y, prefix) {
        assert(x != prefix);
        lemma_lt_total(prefix, x);
        let j = choose|j: int| lt_at(prefix, x, j);
        let m = choose|m: int| lt_at(x, y, m);
        if j == prefix.len() {
            assert(agree(x, prefix, j)) by {
                assert forall|t: int| 0 <= t < j implies x[t] == prefix[t] by {
                    assert(prefix[t] == x[t]);
                }
            }
            assert(false);
        } else if m > j {
            assert(x[j] == y[j]);
            assert(y[j] == prefix[j]);
        } else if m == j {
            assert(y[j] == prefix[j]);
        } else {
            assert(prefix[m] == x[m]);
            assert(y[m] == prefix[m]);
        }
    }
}

/// Whether `a` comes strictly before `b`.
pub fn bytes_lt(a: &[u8], b: &[u8]) -> (r: bool)
    ensures
        r == lex_lt(a@, b@),
{
    let mut i: usize = 0;
    while i < a.len() && i < b.len()
        invariant
            i <= a.len(),
            i <= b.len(),
            agree(a@, b@, i as int),
        decreases a.len() - i,
    {
        if a[i] != b[i] {
            let r = a[i] < b[i];
            proof {
                if r {
                    assert(lt_at(a@, b@, i as int));
                } else {
                    assert forall|k: int| !lt_at(a@, b@, k) by {
                        if lt_at(a@, b@, k) {
                            if k < i {
                                assert(a@[k] == b@[k]);
                            } else if k > i {
                                assert(a@[i as int] == b@[i as int]);
                            }
                        }
                    }
                }
            }
            return r;
        }
        i += 1;
    }
    let r = i < b.len();
    proof {
        if r {
            assert(lt_at(a@, b@, i as int));
        } else {
            assert forall|k: int| !lt_at(a@, b@, k) by {
                if lt_at(a@, b@, k) {
                    assert(a@[k] == b@[k]);
                }
            }
        }
    }
    r
}

/// Whether the two strings hold the same bytes.
pub fn bytes_eq(a: &[u8], b: &[u8]) -> (r: bool)
    ensures
        r == (a@ == b@),
{
    if a.len() != b.len() {
        return false;
    }
    let mut i: usize = 0;
    while i < a.len()
        invariant
            i <= a.len(),
            a.len() == b.len(),
            agree(a@, b@, i as int),
        decreases a.len() - i,
    {
        if a[i] != b[i] {
            return false;
        }
        i += 1;
    }
    assert(a@ =~= b@);
    true
}

/// Whether `key` begins with the bytes of `prefix`.
pub fn bytes_start_with(key: &[u8], prefix: &[u8]) -> (r: bool)
    ensures
        r == has_prefix(key@, prefix@),
{
    if prefix.len() > key.len() {
        return false;
    }
    let mut i: usize = 0;
    while i < prefix.len()
        invariant
            i <= prefix.len(),
            prefix.len() <= key.len(),
            agree(key@, prefix@, i as int),
        decreases prefix.len() - i,
    {
        if key[i] != prefix[i] {
            return false;
        }
        i += 1;
    }
    true
}

} // verus!
