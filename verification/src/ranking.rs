//! Stable ordering of scored entries, for the leaderboards.

use vstd::prelude::*;

verus! {

/// In a ranking by `keys`, entry `i` is placed before entry `j`: its key is
/// better, or the keys are equal and it came first.
pub open spec fn goes_before(keys: Seq<u64>, descending: bool, i: int, j: int) -> bool {
    if keys[i] == keys[j] {
        i < j
    } else if descending {
        keys[i] > keys[j]
    } else {
        keys[i] < keys[j]
    }
}

/// Position `i` stands somewhere in `order`.
pub open spec fn holds(order: Seq<usize>, i: int) -> bool {
    exists|a: int| 0 <= a < order.len() && #[trigger] order[a] == i
}

/// `order` lists the positions `0..keys.len()`, each once, best key first,
/// equal keys in the order they came in.
pub open spec fn is_ranking(order: Seq<usize>, keys: Seq<u64>, descending: bool) -> bool {
    &&& order.len() == keys.len()
    &&& forall|a: int| 0 <= a < order.len() ==> (#[trigger] order[a]) < keys.len()
    &&& forall|a: int, b: int|
        0 <= a < b < order.len() ==> goes_before(
            keys,
            descending,
            (#[trigger] order[a]) as int,
            (#[trigger] order[b]) as int,
        )
    &&& forall|i: int| 0 <= i < keys.len() ==> #[trigger] holds(order, i)
}

/// `out` holds the `items`, arranged by the ranking of their `keys`.
pub open spec fn arranged<T>(out: Seq<T>, items: Seq<T>, keys: Seq<u64>, descending: bool) -> bool {
    exists|order: Seq<usize>| #[trigger]
        is_ranking(order, keys, descending) && out.len() == items.len() && items.len()
            == keys.len() && forall|a: int|
            0 <= a < out.len() ==> #[trigger] out[a] == items[order[a] as int]
}

/// There is only one ranking of given keys.
pub proof fn law_ranking_unique(
    first: Seq<usize>,
    second: Seq<usize>,
    keys: Seq<u64>,
    descending: bool,
)
    requires
        is_ranking(first, keys, descending),
        is_ranking(second, keys, descending),
    ensures
        first == second,
    decreases keys.len(),
{
    // The place of an entry in a ranking is the number of entries that go
    // before it, which the keys alone decide.
    assert forall|a: int| 0 <= a < first.len() implies first[a] == second[a] by {
        lemma_place(first, second, keys, descending, a);
    }
    assert(first =~= second);
}

/// In two rankings of the same keys, the same entry stands at each place.
proof fn lemma_place(
    first: Seq<usize>,
    second: Seq<usize>,
    keys: Seq<u64>,
    descending: bool,
    a: int,
)
    requires
        is_ranking(first, keys, descending),
        is_ranking(second, keys, descending),
        0 <= a < first.len(),
    ensures
        first[a] == second[a],
    decreases a,
{
    // By induction the two rankings agree before place `a`.
    assert forall|c: int| 0 <= c < a implies first[c] == second[c] by {
        lemma_place(first, second, keys, descending, c);
    }
    let x = first[a] as int;
    let y = second[a] as int;
    if x != y {
        // `x` stands somewhere in `second`, and `y` somewhere in `first`;
        // neither can stand before place `a`, so each goes after the other.
        assert(holds(second, x) && holds(first, y));
        let b = choose|b: int| 0 <= b < second.len() && second[b] == x;
        let c = choose|c: int| 0 <= c < first.len() && first[c] == y;
        if b < a {
            assert(first[b] == second[b]);
            assert(goes_before(keys, descending, first[b] as int, first[a] as int));
        }
        if c < a {
            assert(first[c] == second[c]);
            assert(goes_before(keys, descending, second[c] as int, second[a] as int));
        }
        assert(goes_before(keys, descending, second[a] as int, second[b] as int));
        assert(goes_before(keys, descending, first[a] as int, first[c] as int));
    }
}

/// Whether entry `i` is placed before entry `j`.
fn placed_before(keys: &Vec<u64>, descending: bool, i: usize, j: usize) -> (r: bool)
    requires
        i < keys@.len(),
        j < keys@.len(),
    ensures
        r == goes_before(keys@, descending, i as int, j as int),
{
    if keys[i] == keys[j] {
        i < j
    } else if descending {
        keys[i] > keys[j]
    } else {
        keys[i] < keys[j]
    }
}

/// The positions of `keys` in ranking order: ascending by key, or descending,
/// with equal keys kept in the order they came in.
pub fn sorted_order(keys: &Vec<u64>, descending: bool) -> (order: Vec<usize>)
    ensures
        is_ranking(order@, keys@, descending),
{
    let mut order: Vec<usize> = Vec::new();
    let n = keys.len();
    let mut k: usize = 0;
    while k < n
        invariant
            k <= n,
            n == keys@.len(),
            is_ranking(order@, keys@.subrange(0, k as int), descending),
        decreases n - k,
    {
        let ghost seen = keys@.subrange(0, k as int);
        let ghost next = keys@.subrange(0, k + 1);
        let mut pos: usize = k;
        while pos > 0 && placed_before(keys, descending, k, order[pos - 1])
            invariant
                pos <= k < n,
                n == keys@.len(),
                order@.len() == k,
                seen == keys@.subrange(0, k as int),
                next == keys@.subrange(0, k + 1),
                is_ranking(order@, seen, descending),
                forall|a: int|
                    pos <= a < k ==> goes_before(next, descending, k as int, (#[trigger] order@[a]) as int),
            decreases pos,
        {
            pos -= 1;
        }
        let ghost before = order@;
        order.insert(pos, k);
        proof {
            let after = order@;
            assert forall|a: int| 0 <= a < after.len() implies (#[trigger] after[a]) < next.len() by {
                if a < pos {
                    assert(after[a] == before[a]);
                } else if a > pos {
                    assert(after[a] == before[a - 1]);
                }
            }
            assert forall|a: int, b: int| 0 <= a < b < after.len() implies goes_before(
                next,
                descending,
                (#[trigger] after[a]) as int,
                (#[trigger] after[b]) as int,
            ) by {
                let xa = if a < pos { before[a] } else if a == pos { k } else { before[a - 1] };
                let xb = if b < pos { before[b] } else if b == pos { k } else { before[b - 1] };
                assert(after[a] == xa && after[b] == xb);
                if a != pos && b != pos {
                    let a0 = if a < pos { a } else { a - 1 };
                    let b0 = if b < pos { b } else { b - 1 };
                    assert(goes_before(seen, descending, before[a0] as int, before[b0] as int));
                } else if b == pos {
                    // `a` stands before the place where the scan stopped
                    if pos > 0 {
                        let stop = before[pos - 1] as int;
                        assert(!goes_before(next, descending, k as int, stop));
                        if a < pos - 1 {
                            assert(goes_before(seen, descending, before[a] as int, stop));
                        }
                    }
                } else {
                    assert(goes_before(next, descending, k as int, before[b - 1] as int));
                }
            }
            assert forall|i: int| 0 <= i < next.len() implies #[trigger] holds(after, i) by {
                if i == k {
                    assert(after[pos as int] == k);
                } else {
                    assert(holds(before, i));
                    let a0 = choose|a: int| 0 <= a < before.len() && before[a] == i;
                    let a1 = if a0 < pos { a0 } else { a0 + 1 };
                    assert(after[a1] == i);
                }
            }
        }
        k += 1;
    }
    assert(keys@.subrange(0, k as int) =~= keys@);
    order
}

} // verus!
