//! Lexicographic order on byte strings, the order in which terms are stored.

use vstd::prelude::*;

verus! {

/// `a` and `b` agree on their first `k` bytes.
pub open spec fn agree_upto(a: Seq<u8>, b: Seq<u8>, k: int) -> bool {
    &&& 0 <= k <= a.len()
    &&& k <= b.len()
    &&& forall|j: int| 0 <= j < k ==> a[j] == b[j]
}

/// `a` comes strictly before `b` in byte order: after a common prefix either
/// `a` ends while `b` goes on, or `a` has the smaller byte.
pub open spec fn bytes_lt(a: Seq<u8>, b: Seq<u8>) -> bool {
    exists|k: int| #[trigger]
        agree_upto(a, b, k) && k < b.len() && (k == a.len() || a[k] < b[k])
}

/// Every key of `keys` comes strictly before the next one.
pub open spec fn strictly_ascending(keys: Seq<Seq<u8>>) -> bool {
    forall|i: int, j: int| 0 <= i < j < keys.len() ==> bytes_lt(#[trigger] keys[i], #[trigger] keys[j])
}

/// How one byte string stands to another.
#[derive(Clone, Copy, Debug, PartialEq, Eq, Structural)]
pub enum Place {
    Before,
    Same,
    After,
}

/// No byte string comes before itself.
pub proof fn lemma_lt_irreflexive(a: Seq<u8>)
    ensures
        !bytes_lt(a, a),
{
}

/// Of two byte strings at most one comes before the other.
pub proof fn lemma_lt_asymmetric(a: Seq<u8>, b: Seq<u8>)
    requires
        bytes_lt(a, b),
    ensures
        !bytes_lt(b, a),
        a != b,
{
    let k = choose|k: int| #[trigger]
        agree_upto(a, b, k) && k < b.len() && (k == a.len() || a[k] < b[k]);
    if bytes_lt(b, a) {
        let m = choose|m: int| #[trigger]
            agree_upto(b, a, m) && m < a.len() && (m == b.len() || b[m] < a[m]);
        if m < k {
            assert(a[m] == b[m]);
        } else if k < m {
            assert(b[k] == a[k]);
        }
    }
}

/// The order is transitive.
pub proof fn lemma_lt_transitive(a: Seq<u8>, b: Seq<u8>, c: Seq<u8>)
    requires
        bytes_lt(a, b),
        bytes_lt(b, c),
    ensures
        bytes_lt(a, c),
{
    let k = choose|k: int| #[trigger]
        agree_upto(a, b, k) && k < b.len() && (k == a.len() || a[k] < b[k]);
    let m = choose|m: int| #[trigger]
        agree_upto(b, c, m) && m < c.len() && (m == b.len() || b[m] < c[m]);
    let n = if k <= m { k } else { m };
    assert(agree_upto(a, c, n));
    if k < m {
        assert(b[k] == c[k]);
    }
}

/// Two different byte strings are ordered one way or the other.
pub proof fn lemma_lt_total(a: Seq<u8>, b: Seq<u8>)
    ensures
        a == b || bytes_lt(a, b) || bytes_lt(b, a),
{
    lemma_first_difference(a, b, 0);
}

proof fn lemma_first_difference(a: Seq<u8>, b: Seq<u8>, k: int)
    requires
        agree_upto(a, b, k),
    ensures
        a == b || bytes_lt(a, b) || bytes_lt(b, a),
    decreases a.len() - k,
{
    if k == a.len() {
        if k == b.len() {
            assert(a =~= b);
        } else {
            assert(agree_upto(a, b, k));
        }
    } else if k == b.len() {
        assert(agree_upto(b, a, k));
    } else if a[k] == b[k] {
        assert(agree_upto(a, b, k + 1));
        lemma_first_difference(a, b, k + 1);
    } else if a[k] < b[k] {
        assert(agree_upto(a, b, k));
    } else {
        assert(agree_upto(b, a, k));
    }
}

/// Says how `a` stands to `b` in byte order.
pub fn place(a: &[u8], b: &[u8]) -> (p: Place)
    ensures
        p == Place::Before <==> bytes_lt(a@, b@),
        p == Place::Same <==> a@ == b@,
        p == Place::After <==> bytes_lt(b@, a@),
{
    let mut i: usize = 0;
    while i < a.len() && i < b.len()
        invariant
            agree_upto(a@, b@, i as int),
        decreases a.len() - i,
    {
        if a[i] < b[i] {
            proof {
                lemma_lt_asymmetric(a@, b@);
            }
            return Place::Before;
        }
        if a[i] > b[i] {
            assert(agree_upto(b@, a@, i as int));
            proof {
                lemma_lt_asymmetric(b@, a@);
            }
            return Place::After;
        }
        i += 1;
    }
    if i < b.len() {
        proof {
            lemma_lt_asymmetric(a@, b@);
        }
        Place::Before
    } else if i < a.len() {
        assert(agree_upto(b@, a@, i as int));
        proof {
            lemma_lt_asymmetric(b@, a@);
        }
        Place::After
    } else {
        assert(a@ =~= b@);
        proof {
            lemma_lt_irreflexive(a@);
        }
        Place::Same
    }
}

} // verus!
