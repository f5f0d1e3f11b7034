//! The order of words, and the order of entries by weight.
//!
//! Words are ordered lexicographically by the code of their characters. An
//! entry is a word with a weight; a heavier entry ranks first, and of two
//! equally heavy entries the one whose word comes first.

use vstd::prelude::*;

verus! {

/// `a` and `b` hold the same characters at every place before `k`.
pub open spec fn agree_before(a: Seq<char>, b: Seq<char>, k: int) -> bool {
    &&& 0 <= k <= a.len()
    &&& k <= b.len()
    &&& forall|j: int| 0 <= j < k ==> a[j] == b[j]
}

/// `k` is the place that puts `a` before `b`: up to there they agree, and
/// there `a` ends while `b` goes on, or holds the smaller character.
pub open spec fn decided_at(a: Seq<char>, b: Seq<char>, k: int) -> bool {
    &&& agree_before(a, b, k)
    &&& k < b.len()
    &&& k == a.len() || (k < a.len() && a[k] < b[k])
}

/// `a` comes strictly before `b` in lexicographic order.
pub open spec fn precedes(a: Seq<char>, b: Seq<char>) -> bool {
    exists|k: int| #[trigger] decided_at(a, b, k)
}

/// The entry `a` ranks strictly before the entry `b`.
pub open spec fn outranks(a: (Seq<char>, nat), b: (Seq<char>, nat)) -> bool {
    a.1 > b.1 || (a.1 == b.1 && precedes(a.0, b.0))
}

/// Where a place puts `a` before `b`, no place puts `b` before `a`.
proof fn lemma_decided_once(a: Seq<char>, b: Seq<char>, k: int, m: int)
    requires
        decided_at(a, b, k),
    ensures
        !decided_at(b, a, m),
{
    if decided_at(b, a, m) {
        if k < m {
            assert(b[k] == a[k]);
        } else if m < k {
            assert(a[m] == b[m]);
        }
    }
}

/// No word comes before itself, and of two words at most one comes before
/// the other.
pub proof fn lemma_precedes_asymmetric(a: Seq<char>, b: Seq<char>)
    ensures
        !(precedes(a, b) && precedes(b, a)),
        !precedes(a, a),
{
    if precedes(a, b) && precedes(b, a) {
        let k = choose|k: int| #[trigger] decided_at(a, b, k);
        let m = choose|m: int| #[trigger] decided_at(b, a, m);
        lemma_decided_once(a, b, k, m);
    }
    if precedes(a, a) {
        let k = choose|k: int| #[trigger] decided_at(a, a, k);
        lemma_decided_once(a, a, k, k);
    }
}

/// The order of words is transitive.
pub proof fn lemma_precedes_transitive(a: Seq<char>, b: Seq<char>, c: Seq<char>)
    requires
        precedes(a, b),
        precedes(b, c),
    ensures
        precedes(a, c),
{
    let k = choose|k: int| #[trigger] decided_at(a, b, k);
    let m = choose|m: int| #[trigger] decided_at(b, c, m);
    if k <= m {
        assert forall|j: int| 0 <= j < k implies a[j] == c[j] by {
            assert(a[j] == b[j]);
            assert(b[j] == c[j]);
        }
        if k < m {
            assert(b[k] == c[k]);
        }
        assert(decided_at(a, c, k));
    } else {
        assert forall|j: int| 0 <= j < m implies a[j] == c[j] by {
            assert(a[j] == b[j]);
            assert(b[j] == c[j]);
        }
        assert(a[m] == b[m]);
        assert(decided_at(a, c, m));
    }
}

/// Of two words that agree before `k` and differ somewhere, one comes
/// before the other.
proof fn lemma_decided_somewhere(a: Seq<char>, b: Seq<char>, k: int)
    requires
        agree_before(a, b, k),
        a != b,
    ensures
        precedes(a, b) || precedes(b, a),
    decreases a.len() - k,
{
    if k == a.len() {
        if k == b.len() {
            assert(a =~= b);
        } else {
            assert(decided_at(a, b, k));
        }
    } else if k == b.len() {
        assert(agree_before(b, a, k));
        assert(decided_at(b, a, k));
    } else if a[k] != b[k] {
        if a[k] < b[k] {
            assert(decided_at(a, b, k));
        } else {
            assert(agree_before(b, a, k));
            assert(decided_at(b, a, k));
        }
    } else {
        lemma_decided_somewhere(a, b, k + 1);
    }
}

/// Of two different words one comes before the other.
pub proof fn lemma_precedes_total(a: Seq<char>, b: Seq<char>)
    requires
        a != b,
    ensures
        precedes(a, b) || precedes(b, a),
{
    lemma_decided_somewhere(a, b, 0);
}

/// No entry outranks itself, and of two entries at most one outranks the
/// other.
pub proof fn lemma_outranks_asymmetric(a: (Seq<char>, nat), b: (Seq<char>, nat))
    ensures
        !(outranks(a, b) && outranks(b, a)),
        !outranks(a, a),
{
    lemma_precedes_asymmetric(a.0, b.0);
    lemma_precedes_asymmetric(a.0, a.0);
}

/// The order of entries is transitive.
pub proof fn lemma_outranks_transitive(
    a: (Seq<char>, nat),
    b: (Seq<char>, nat),
    c: (Seq<char>, nat),
)
    requires
        outranks(a, b),
        outranks(b, c),
    ensures
        outranks(a, c),
{
    if a.1 == b.1 && b.1 == c.1 {
        lemma_precedes_transitive(a.0, b.0, c.0);
    }
}

/// Of two entries with different words one outranks the other.
pub proof fn lemma_outranks_total(a: (Seq<char>, nat), b: (Seq<char>, nat))
    requires
        a.0 != b.0,
    ensures
        outranks(a, b) || outranks(b, a),
{
    lemma_precedes_total(a.0, b.0);
}

/// Decides whether the word `a` comes strictly before the word `b`.
pub fn word_precedes(a: &Vec<char>, b: &Vec<char>) -> (yes: bool)
    ensures
        yes == precedes(a@, b@),
{
    let mut k: usize = 0;
    while k < a.len() && k < b.len()
        invariant
            agree_before(a@, b@, k as int),
        decreases a.len() - k,
    {
        if a[k] != b[k] {
            let smaller = a[k] < b[k];
            proof {
                if smaller {
                    assert(decided_at(a@, b@, k as int));
                } else {
                    assert(agree_before(b@, a@, k as int));
                    assert(decided_at(b@, a@, k as int));
                    lemma_precedes_asymmetric(a@, b@);
                }
            }
            return smaller;
        }
        k = k + 1;
    }
    let shorter = k < b.len();
    proof {
        if shorter {
            assert(decided_at(a@, b@, k as int));
        } else if k < a.len() {
            assert(agree_before(b@, a@, k as int));
            assert(decided_at(b@, a@, k as int));
            lemma_precedes_asymmetric(a@, b@);
        } else {
            assert(a@ =~= b@);
            lemma_precedes_asymmetric(a@, b@);
        }
    }
    shorter
}

} // verus!
