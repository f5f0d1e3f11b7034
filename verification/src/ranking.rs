//! Leading entries: the first few of a pool of entries in rank order.

use vstd::prelude::*;
use crate::order::{
    lemma_outranks_asymmetric, lemma_outranks_total, lemma_outranks_transitive, outranks,
    word_precedes,
};

verus! {

/// `out` holds the first entries of `pool` in rank order: as many as
/// `limit` allows, each of the pool, in strictly descending rank, and every
/// entry of the pool that is left out ranks after all of them.
pub open spec fn is_leading(
    out: Seq<(Seq<char>, nat)>,
    pool: Set<(Seq<char>, nat)>,
    limit: nat,
) -> bool {
    &&& out.len() <= limit
    &&& forall|i: int| 0 <= i < out.len() ==> pool.contains(#[trigger] out[i])
    &&& forall|i: int, j: int|
        0 <= i < j < out.len() ==> outranks(#[trigger] out[i], #[trigger] out[j])
    &&& forall|e: (Seq<char>, nat)| #[trigger]
        pool.contains(e) ==> out.contains(e) || (out.len() == limit && outranked_by_all(out, e))
}

/// Every entry of `out` outranks `e`.
pub open spec fn outranked_by_all(out: Seq<(Seq<char>, nat)>, e: (Seq<char>, nat)) -> bool {
    forall|i: int| 0 <= i < out.len() ==> outranks(#[trigger] out[i], e)
}

/// The view of an entry: its word as characters, and its weight.
pub open spec fn entry_view(e: (Vec<char>, usize)) -> (Seq<char>, nat) {
    (e.0@, e.1 as nat)
}

/// The views of a list of entries.
pub open spec fn entry_views(list: Seq<(Vec<char>, usize)>) -> Seq<(Seq<char>, nat)> {
    Seq::new(list.len(), |i: int| entry_view(list[i]))
}

/// The same words, each weighed by its number of characters.
pub open spec fn weighed_by_length(list: Seq<(Seq<char>, nat)>) -> Seq<(Seq<char>, nat)> {
    Seq::new(list.len(), |i: int| (list[i].0, list[i].0.len()))
}

/// The list by which entries are ranked: by their own weight, or by the
/// length of their word.
pub open spec fn weighed(list: Seq<(Seq<char>, nat)>, by_length: bool) -> Seq<(Seq<char>, nat)> {
    if by_length {
        weighed_by_length(list)
    } else {
        list
    }
}

/// No word occurs twice in `list`.
pub open spec fn distinct_words(list: Seq<(Seq<char>, nat)>) -> bool {
    forall|i: int, j: int|
        0 <= i < j < list.len() ==> (#[trigger] list[i]).0 != (#[trigger] list[j]).0
}

/// The entries of `list` at the places `picked`, in that order.
pub open spec fn chosen(list: Seq<(Seq<char>, nat)>, picked: Seq<usize>) -> Seq<(Seq<char>, nat)> {
    Seq::new(picked.len(), |j: int| list[picked[j] as int])
}

/// Two lists that both lead the same pool under the same limit are equal.
pub proof fn lemma_leading_unique(
    a: Seq<(Seq<char>, nat)>,
    b: Seq<(Seq<char>, nat)>,
    pool: Set<(Seq<char>, nat)>,
    limit: nat,
)
    requires
        is_leading(a, pool, limit),
        is_leading(b, pool, limit),
    ensures
        a == b,
{
    lemma_leading_common(a, b, pool, limit, if a.len() <= b.len() {
        a.len() as int
    } else {
        b.len() as int
    });
    if a.len() < b.len() {
        lemma_leading_no_more(a, b, pool, limit);
    } else if b.len() < a.len() {
        lemma_leading_no_more(b, a, pool, limit);
    }
    assert(a =~= b);
}

/// Two leading lists of one pool agree on their first `n` places.
proof fn lemma_leading_common(
    a: Seq<(Seq<char>, nat)>,
    b: Seq<(Seq<char>, nat)>,
    pool: Set<(Seq<char>, nat)>,
    limit: nat,
    n: int,
)
    requires
        is_leading(a, pool, limit),
        is_leading(b, pool, limit),
        0 <= n <= a.len(),
        n <= b.len(),
    ensures
        forall|i: int| 0 <= i < n ==> a[i] == b[i],
    decreases n,
{
    if n > 0 {
        lemma_leading_common(a, b, pool, limit, n - 1);
        let i = n - 1;
        lemma_leading_next(a, b, pool, limit, i);
        lemma_leading_next(b, a, pool, limit, i);
        lemma_outranks_asymmetric(a[i], b[i]);
    }
}

/// Where two leading lists agree before place `i`, the entry of `b` there
/// is the entry of `a`, or outranks it.
proof fn lemma_leading_next(
    a: Seq<(Seq<char>, nat)>,
    b: Seq<(Seq<char>, nat)>,
    pool: Set<(Seq<char>, nat)>,
    limit: nat,
    i: int,
)
    requires
        is_leading(a, pool, limit),
        is_leading(b, pool, limit),
        0 <= i < a.len(),
        i < b.len(),
        forall|j: int| 0 <= j < i ==> a[j] == b[j],
    ensures
        a[i] == b[i] || outranks(b[i], a[i]),
{
    let e = a[i];
    assert(pool.contains(e));
    if b.contains(e) {
        let m = choose|m: int| 0 <= m < b.len() && b[m] == e;
        if m < i {
            assert(a[m] == b[m]);
            assert(outranks(a[m], a[i]));
            lemma_outranks_asymmetric(e, e);
        } else if m > i {
            assert(outranks(b[i], b[m]));
        }
    } else {
        assert(outranked_by_all(b, e));
        assert(outranks(b[i], e));
    }
}

/// A leading list that is shorter than another of the same pool cannot be:
/// it would hold the whole pool, and so the other's next entry.
proof fn lemma_leading_no_more(
    a: Seq<(Seq<char>, nat)>,
    b: Seq<(Seq<char>, nat)>,
    pool: Set<(Seq<char>, nat)>,
    limit: nat,
)
    requires
        is_leading(a, pool, limit),
        is_leading(b, pool, limit),
        forall|i: int| 0 <= i < a.len() ==> a[i] == b[i],
        a.len() <= b.len(),
    ensures
        a.len() == b.len(),
{
    if a.len() < b.len() {
        let e = b[a.len() as int];
        assert(pool.contains(e));
        assert(a.contains(e));
        let m = choose|m: int| 0 <= m < a.len() && a[m] == e;
        assert(b[m] == a[m]);
        assert(outranks(b[m], b[a.len() as int]));
        lemma_outranks_asymmetric(e, e);
    }
}

/// `m` is among the places `best`.
pub open spec fn picks(best: Seq<usize>, m: int) -> bool {
    exists|q: int| 0 <= q < best.len() && #[trigger] best[q] == m
}

/// Place `m` of `list` is accounted for by `best`: it is among the places
/// picked, or `best` is full and every entry picked outranks the one at `m`.
pub open spec fn settled(list: Seq<(Seq<char>, nat)>, best: Seq<usize>, m: int, limit: nat) -> bool {
    picks(best, m) || (best.len() == limit && forall|j: int|
        0 <= j < best.len() ==> outranks(list[#[trigger] best[j] as int], list[m]))
}

/// The places in `best` are in strictly descending rank.
pub open spec fn ranked_places(list: Seq<(Seq<char>, nat)>, best: Seq<usize>) -> bool {
    forall|j: int, k: int|
        0 <= j < k < best.len() ==> outranks(
            list[#[trigger] best[j] as int],
            list[#[trigger] best[k] as int],
        )
}

/// Places that are in rank order and account for the whole list pick its
/// leading entries.
pub proof fn lemma_settled_is_leading(list: Seq<(Seq<char>, nat)>, best: Seq<usize>, limit: nat)
    requires
        best.len() <= limit,
        forall|j: int| 0 <= j < best.len() ==> #[trigger] best[j] < list.len(),
        ranked_places(list, best),
        forall|m: int| 0 <= m < list.len() ==> settled(list, best, m, limit),
    ensures
        is_leading(chosen(list, best), list.to_set(), limit),
{
    let out = chosen(list, best);
    let pool = list.to_set();
    assert forall|i: int| 0 <= i < out.len() implies pool.contains(#[trigger] out[i]) by {
        assert(list[best[i] as int] == out[i]);
        assert(list.contains(out[i]));
    }
    assert forall|i: int, j: int| 0 <= i < j < out.len() implies outranks(
        #[trigger] out[i],
        #[trigger] out[j],
    ) by {
        assert(outranks(list[best[i] as int], list[best[j] as int]));
    }
    assert forall|e: (Seq<char>, nat)| #[trigger] pool.contains(e) implies out.contains(e) || (
    out.len() == limit && outranked_by_all(out, e)) by {
        assert(list.contains(e));
        let m = choose|m: int| 0 <= m < list.len() && list[m] == e;
        assert(settled(list, best, m, limit));
        if picks(best, m) {
            let q = choose|q: int| 0 <= q < best.len() && #[trigger] best[q] == m;
            assert(out[q] == e);
        } else {
            assert forall|i: int| 0 <= i < out.len() implies outranks(#[trigger] out[i], e) by {
                assert(outranks(list[best[i] as int], list[m]));
            }
        }
    }
}

/// Ranking by length keeps the words, so it keeps them distinct.
pub proof fn lemma_weighed_keeps_words(list: Seq<(Seq<char>, nat)>, by_length: bool)
    ensures
        weighed(list, by_length).len() == list.len(),
        forall|i: int|
            0 <= i < list.len() ==> (#[trigger] weighed(list, by_length)[i]).0 == list[i].0,
        distinct_words(list) ==> distinct_words(weighed(list, by_length)),
{
    let w = weighed(list, by_length);
    if distinct_words(list) {
        assert forall|i: int, j: int| 0 <= i < j < w.len() implies (#[trigger] w[i]).0 != (
        #[trigger] w[j]).0 by {
            assert(list[i].0 != list[j].0);
        }
    }
}

/// Decides whether the entry at place `i` outranks the entry at place `j`,
/// by their own weights or by the lengths of their words.
pub fn entry_outranks(
    entries: &Vec<(Vec<char>, usize)>,
    i: usize,
    j: usize,
    by_length: bool,
) -> (yes: bool)
    requires
        i < entries.len(),
        j < entries.len(),
    ensures
        yes == outranks(
            weighed(entry_views(entries@), by_length)[i as int],
            weighed(entry_views(entries@), by_length)[j as int],
        ),
{
    let left: usize = if by_length {
        entries[i].0.len()
    } else {
        entries[i].1
    };
    let right: usize = if by_length {
        entries[j].0.len()
    } else {
        entries[j].1
    };
    if left != right {
        left > right
    } else {
        word_precedes(&entries[i].0, &entries[j].0)
    }
}

/// Picks the places of the leading entries of `entries`, at most `limit` of
/// them, in rank order. Entries are ranked by their own weight, or by the
/// length of their word where `by_length` is set.
///
/// One pass over the entries: each is inserted at its rank into the places
/// kept so far, and the last place is dropped when that makes one too many.
pub fn leading_entries(
    entries: &Vec<(Vec<char>, usize)>,
    limit: usize,
    by_length: bool,
) -> (picked: Vec<usize>)
    requires
        distinct_words(entry_views(entries@)),
    ensures
        forall|j: int| 0 <= j < picked.len() ==> #[trigger] picked[j] < entries.len(),
        is_leading(
            chosen(weighed(entry_views(entries@), by_length), picked@),
            weighed(entry_views(entries@), by_length).to_set(),
            limit as nat,
        ),
{
    let ghost list = weighed(entry_views(entries@), by_length);
    proof {
        lemma_weighed_keeps_words(entry_views(entries@), by_length);
    }
    let mut best: Vec<usize> = Vec::new();
    let mut i: usize = 0;
    while i < entries.len()
        invariant
            i <= entries.len(),
            list == weighed(entry_views(entries@), by_length),
            list.len() == entries.len(),
            distinct_words(list),
            best.len() <= limit,
            forall|j: int| 0 <= j < best.len() ==> #[trigger] best[j] < i,
            ranked_places(list, best@),
            forall|m: int| 0 <= m < i ==> settled(list, best@, m, limit as nat),
        decreases entries.len() - i,
    {
        let mut p: usize = 0;
        let mut found = false;
        while p < best.len() && !found
            invariant
                i < entries.len(),
                list == weighed(entry_views(entries@), by_length),
                list.len() == entries.len(),
                distinct_words(list),
                p <= best.len(),
                forall|j: int| 0 <= j < best.len() ==> #[trigger] best[j] < i,
                forall|j: int|
                    0 <= j < p ==> outranks(list[#[trigger] best[j] as int], list[i as int]),
                found ==> p < best.len() && outranks(list[i as int], list[best[p as int] as int]),
            decreases best.len() - p + if found { 0int } else { 1int },
        {
            if entry_outranks(entries, i, best[p], by_length) {
                found = true;
            } else {
                proof {
                    assert(best[p as int] < i);
                    assert(list[best[p as int] as int].0 != list[i as int].0);
                    lemma_outranks_total(list[i as int], list[best[p as int] as int]);
                }
                p = p + 1;
            }
        }
        let ghost before = best@;
        if p < limit {
            proof {
                assert forall|j: int| p <= j < before.len() implies outranks(
                    list[i as int],
                    list[#[trigger] before[j] as int],
                ) by {
                    if j > p {
                        assert(outranks(list[before[p as int] as int], list[before[j] as int]));
                        lemma_outranks_transitive(
                            list[i as int],
                            list[before[p as int] as int],
                            list[before[j] as int],
                        );
                    }
                }
                before.insert_ensures(p as int, i);
            }
            best.insert(p, i);
            if best.len() > limit {
                best.pop();
            }
            proof {
                let after = best@;
                assert(after.len() <= limit);
                assert(after.len() == before.len() + 1 || (after.len() == before.len()
                    && before.len() == limit));
                assert forall|j: int| 0 <= j < after.len() implies (if j < p {
                    #[trigger] after[j] == before[j]
                } else if j == p {
                    after[j] == i
                } else {
                    after[j] == before[j - 1]
                }) by {
                    assert(before.insert(p as int, i)[j] == after[j]);
                    if j > p {
                        assert(before.insert(p as int, i)[(j - 1) + 1] == before[j - 1]);
                    }
                }
                assert(ranked_places(list, after)) by {
                    assert forall|j: int, k: int| 0 <= j < k < after.len() implies outranks(
                        list[#[trigger] after[j] as int],
                        list[#[trigger] after[k] as int],
                    ) by {
                        if k < p {
                            assert(outranks(list[before[j] as int], list[before[k] as int]));
                        } else if k == p {
                            assert(outranks(list[before[j] as int], list[i as int]));
                        } else if j < p {
                            assert(outranks(list[before[j] as int], list[before[k - 1] as int]));
                        } else if j == p {
                            assert(outranks(list[i as int], list[before[k - 1] as int]));
                        } else {
                            assert(outranks(
                                list[before[j - 1] as int],
                                list[before[k - 1] as int],
                            ));
                        }
                    }
                }
                assert forall|m: int| 0 <= m < i + 1 implies settled(
                    list,
                    after,
                    m,
                    limit as nat,
                ) by {
                    if m == i {
                        assert(after[p as int] == i);
                    } else {
                        assert(settled(list, before, m, limit as nat));
                        if picks(before, m) {
                            let q = choose|q: int| 0 <= q < before.len() && #[trigger] before[q] == m;
                            let r = if q < p {
                                q
                            } else {
                                q + 1
                            };
                            if r < after.len() {
                                assert(after[r] == m);
                            } else {
                                assert(after.len() == limit);
                                assert forall|j: int| 0 <= j < after.len() implies outranks(
                                    list[#[trigger] after[j] as int],
                                    list[m],
                                ) by {
                                    if j < p {
                                        assert(outranks(
                                            list[before[j] as int],
                                            list[before[q] as int],
                                        ));
                                    } else if j == p {
                                        assert(outranks(list[i as int], list[before[q] as int]));
                                    } else {
                                        assert(outranks(
                                            list[before[j - 1] as int],
                                            list[before[q] as int],
                                        ));
                                    }
                                }
                            }
                        } else {
                            assert(p < before.len());
                            assert(found);
                            assert forall|j: int| 0 <= j < after.len() implies outranks(
                                list[#[trigger] after[j] as int],
                                list[m],
                            ) by {
                                if j < p {
                                    assert(outranks(list[before[j] as int], list[m]));
                                } else if j == p {
                                    assert(outranks(list[before[p as int] as int], list[m]));
                                    lemma_outranks_transitive(
                                        list[i as int],
                                        list[before[p as int] as int],
                                        list[m],
                                    );
                                } else {
                                    assert(outranks(list[before[j - 1] as int], list[m]));
                                }
                            }
                        }
                    }
                }
            }
        } else {
            proof {
                assert forall|m: int| 0 <= m < i + 1 implies settled(
                    list,
                    best@,
                    m,
                    limit as nat,
                ) by {
                    if m == i {
                        assert(p == best.len());
                    }
                }
            }
        }
        i = i + 1;
    }
    proof {
        lemma_settled_is_leading(list, best@, limit as nat);
    }
    best
}

} // verus!
