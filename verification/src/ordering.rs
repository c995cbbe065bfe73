use vstd::prelude::*;

verus! {

/// Whether item `a` comes before item `b` when items are ordered by `keys`
/// (largest first when `descending`, smallest first otherwise), items with
/// equal keys keeping their original order.
pub open spec fn comes_before(keys: Seq<i64>, descending: bool, a: int, b: int) -> bool {
    if keys[a] == keys[b] {
        a < b
    } else if descending {
        keys[a] > keys[b]
    } else {
        keys[a] < keys[b]
    }
}

/// Whether `order` lists each item `i` with `selected[i]` exactly once, and no
/// other, sorted by [`comes_before`].
pub open spec fn is_stable_order(keys: Seq<i64>, selected: Seq<bool>, descending: bool, order: Seq<usize>) -> bool {
    &&& forall|i: int, j: int| 0 <= i < j < order.len() ==> comes_before(keys, descending, #[trigger] order[i] as int, #[trigger] order[j] as int)
    &&& forall|k: usize| order.contains(k) <==> (k < keys.len() && selected[k as int])
}

proof fn lemma_comes_before_order(keys: Seq<i64>, descending: bool, a: int, b: int, c: int)
    ensures
        comes_before(keys, descending, a, b) && comes_before(keys, descending, b, c) ==> comes_before(keys, descending, a, c),
        a != b ==> comes_before(keys, descending, a, b) || comes_before(keys, descending, b, a),
        !(comes_before(keys, descending, a, b) && comes_before(keys, descending, b, a)),
{
}

/// The items `i` with `selected[i]`, stably sorted by their keys (largest first
/// when `descending`): see [`is_stable_order`].
pub fn stable_order(keys: &Vec<i64>, selected: &Vec<bool>, descending: bool) -> (order: Vec<usize>)
    requires
        keys@.len() == selected@.len(),
    ensures
        is_stable_order(keys@, selected@, descending, order@),
{
    let n = keys.len();
    let mut order: Vec<usize> = Vec::new();
    let mut i: usize = 0;
    while i < n
        invariant
            n == keys@.len(),
            n == selected@.len(),
            i <= n,
            forall|a: int, b: int| 0 <= a < b < order@.len() ==> comes_before(keys@, descending, #[trigger] order@[a] as int, #[trigger] order@[b] as int),
            forall|k: usize| order@.contains(k) <==> (k < i && selected@[k as int]),
        decreases n - i,
    {
        if selected[i] {
            let ghost before = order@;
            proof {
                assert forall|q: int| 0 <= q < before.len() implies #[trigger] before[q] < i by {
                    assert(before.contains(before[q]));
                }
            }
            let mut p: usize = 0;
            while p < order.len()
                invariant
                    order@ == before,
                    p <= order@.len(),
                    i < n,
                    n == keys@.len(),
                    forall|q: int| 0 <= q < order@.len() ==> #[trigger] order@[q] < i,
                    forall|q: int| 0 <= q < p ==> !comes_before(keys@, descending, i as int, #[trigger] order@[q] as int),
                ensures
                    p <= order@.len(),
                    forall|q: int| 0 <= q < p ==> !comes_before(keys@, descending, i as int, #[trigger] order@[q] as int),
                    p < order@.len() ==> comes_before(keys@, descending, i as int, order@[p as int] as int),
                decreases order@.len() - p,
            {
                let o = order[p];
                let ahead = if keys[i] == keys[o] {
                    i < o
                } else if descending {
                    keys[i] > keys[o]
                } else {
                    keys[i] < keys[o]
                };
                if ahead {
                    break;
                }
                p = p + 1;
            }
            proof {
                assert forall|q: int| 0 <= q < before.len() implies (before[q] as int) < i by {
                    assert(before.contains(before[q]));
                }
                assert forall|q: int| 0 <= q < p implies comes_before(keys@, descending, #[trigger] before[q] as int, i as int) by {
                    lemma_comes_before_order(keys@, descending, before[q] as int, i as int, i as int);
                }
                if p < before.len() {
                    assert forall|q: int| p <= q < before.len() implies comes_before(keys@, descending, i as int, #[trigger] before[q] as int) by {
                        if q > p {
                            lemma_comes_before_order(keys@, descending, i as int, before[p as int] as int, before[q] as int);
                        }
                    }
                }
            }
            order.insert(p, i);
            proof {
                let after = order@;
                assert(after == before.insert(p as int, i));
                assert forall|a: int, b: int| 0 <= a < b < after.len() implies comes_before(keys@, descending, #[trigger] after[a] as int, #[trigger] after[b] as int) by {
                    if a < p && b == p {
                    } else if a < p && b > p {
                        assert(after[b] == before[b - 1]);
                    } else if a == p {
                        assert(after[b] == before[b - 1]);
                    } else if a > p {
                        assert(after[a] == before[a - 1]);
                        assert(after[b] == before[b - 1]);
                    }
                }
                assert forall|k: usize| after.contains(k) <==> (k < i + 1 && selected@[k as int]) by {
                    if after.contains(k) {
                        let q = choose|q: int| 0 <= q < after.len() && after[q] == k;
                        if q < p {
                            assert(before[q] == k);
                        } else if q > p {
                            assert(before[q - 1] == k);
                        }
                    }
                    if k < i + 1 && selected@[k as int] {
                        if k == i {
                            assert(after[p as int] == k);
                        } else {
                            assert(before.contains(k));
                            let q = choose|q: int| 0 <= q < before.len() && before[q] == k;
                            if q < p {
                                assert(after[q] == k);
                            } else {
                                assert(after[q + 1] == k);
                            }
                        }
                    }
                }
            }
        }
        i = i + 1;
    }
    order
}

/// The depth keys widened for sorting.
pub open spec fn widen_depths(keys: Seq<u32>) -> Seq<i64> {
    Seq::new(keys.len(), |i: int| keys[i] as i64)
}

/// Painter's order: the visible items, from the largest depth key (farthest)
/// to the smallest, items at equal depth in their original order.
pub fn painter_order(visible: &Vec<bool>, depth_keys: &Vec<u32>) -> (order: Vec<usize>)
    requires
        visible@.len() == depth_keys@.len(),
    ensures
        is_stable_order(widen_depths(depth_keys@), visible@, true, order@),
        forall|i: usize| order@.contains(i) <==> (i < depth_keys@.len() && visible@[i as int]),
        forall|p: int, q: int| #![trigger order@[p], order@[q]] 0 <= p < q < order@.len() ==>
            depth_keys@[order@[p] as int] > depth_keys@[order@[q] as int]
            || (depth_keys@[order@[p] as int] == depth_keys@[order@[q] as int] && order@[p] < order@[q]),
{
    let mut keys: Vec<i64> = Vec::new();
    let n = depth_keys.len();
    for i in 0..n
        invariant
            n == depth_keys@.len(),
            keys@.len() == i,
            forall|j: int| 0 <= j < i ==> #[trigger] keys@[j] == depth_keys@[j] as i64,
    {
        keys.push(depth_keys[i] as i64);
    }
    assert(keys@ =~= widen_depths(depth_keys@));
    let order = stable_order(&keys, visible, true);
    proof {
        lemma_painter_order_by_depth(depth_keys@, visible@, order@);
    }
    order
}

/// Painter's order puts the farther item first: of two visible items, the one
/// with the larger depth key is drawn before the other, and of two at equal
/// depth, the one added first.
pub proof fn lemma_painter_order_by_depth(depth_keys: Seq<u32>, visible: Seq<bool>, order: Seq<usize>)
    requires
        is_stable_order(widen_depths(depth_keys), visible, true, order),
    ensures
        forall|p: int, q: int| #![trigger order[p], order[q]] 0 <= p < q < order.len() ==>
            depth_keys[order[p] as int] > depth_keys[order[q] as int]
            || (depth_keys[order[p] as int] == depth_keys[order[q] as int] && order[p] < order[q]),
{
    assert forall|p: int, q: int| #![trigger order[p], order[q]] 0 <= p < q < order.len() implies
        depth_keys[order[p] as int] > depth_keys[order[q] as int]
        || (depth_keys[order[p] as int] == depth_keys[order[q] as int] && order[p] < order[q]) by {
        assert(order.contains(order[p]));
        assert(order.contains(order[q]));
        assert(comes_before(widen_depths(depth_keys), true, order[p] as int, order[q] as int));
    }
}

/// In a stable order every selected item comes exactly once, and items come by
/// their keys: with `descending`, never a nearer (smaller) key before a farther
/// one; otherwise never a larger key before a smaller one.
pub proof fn lemma_stable_order_sorted(keys: Seq<i64>, selected: Seq<bool>, descending: bool, order: Seq<usize>)
    requires
        is_stable_order(keys, selected, descending, order),
    ensures
        order.no_duplicates(),
        forall|k: usize| k < keys.len() && selected[k as int] ==> order.contains(k),
        forall|i: int, j: int| 0 <= i < j < order.len() ==> (if descending {
            keys[order[i] as int] >= keys[order[j] as int]
        } else {
            keys[order[i] as int] <= keys[order[j] as int]
        }),
{
    assert forall|i: int, j: int| 0 <= i < j < order.len() implies order[i] != order[j] by {
        assert(comes_before(keys, descending, order[i] as int, order[j] as int));
    }
    assert forall|i: int, j: int| 0 <= i < j < order.len() implies (if descending {
        keys[order[i] as int] >= keys[order[j] as int]
    } else {
        keys[order[i] as int] <= keys[order[j] as int]
    }) by {
        assert(comes_before(keys, descending, order[i] as int, order[j] as int));
    }
}

/// A stable order is the only one: two lists that both order the same items
/// stably by the same keys are equal.
pub proof fn lemma_stable_order_unique(keys: Seq<i64>, selected: Seq<bool>, descending: bool, o1: Seq<usize>, o2: Seq<usize>)
    requires
        is_stable_order(keys, selected, descending, o1),
        is_stable_order(keys, selected, descending, o2),
    ensures
        o1 == o2,
{
    lemma_sorted_unique(keys, descending, o1, o2);
}

proof fn lemma_sorted_unique(keys: Seq<i64>, descending: bool, o1: Seq<usize>, o2: Seq<usize>)
    requires
        forall|i: int, j: int| 0 <= i < j < o1.len() ==> comes_before(keys, descending, #[trigger] o1[i] as int, #[trigger] o1[j] as int),
        forall|i: int, j: int| 0 <= i < j < o2.len() ==> comes_before(keys, descending, #[trigger] o2[i] as int, #[trigger] o2[j] as int),
        forall|k: usize| o1.contains(k) <==> o2.contains(k),
    ensures
        o1 == o2,
    decreases o1.len(),
{
    if o1.len() == 0 {
        if o2.len() > 0 {
            assert(o2.contains(o2[0]));
        }
        assert(o1 =~= o2);
    } else {
        assert(o1.contains(o1[0]));
        let j = choose|j: int| 0 <= j < o2.len() && o2[j] == o1[0];
        assert(o2.contains(o2[0]));
        let i = choose|i: int| 0 <= i < o1.len() && o1[i] == o2[0];
        if j > 0 {
            assert(comes_before(keys, descending, o2[0] as int, o2[j] as int));
            if i > 0 {
                assert(comes_before(keys, descending, o1[0] as int, o1[i] as int));
                lemma_comes_before_order(keys, descending, o1[0] as int, o2[0] as int, o1[0] as int);
            }
        }
        assert(o1[0] == o2[0]);
        let r1 = o1.drop_first();
        let r2 = o2.drop_first();
        assert forall|k: usize| r1.contains(k) <==> r2.contains(k) by {
            if r1.contains(k) {
                let q = choose|q: int| 0 <= q < r1.len() && r1[q] == k;
                assert(o1[q + 1] == k);
                assert(comes_before(keys, descending, o1[0] as int, o1[q + 1] as int));
                assert(o2.contains(k));
                let q2 = choose|q2: int| 0 <= q2 < o2.len() && o2[q2] == k;
                assert(q2 != 0);
                assert(r2[q2 - 1] == k);
            }
            if r2.contains(k) {
                let q = choose|q: int| 0 <= q < r2.len() && r2[q] == k;
                assert(o2[q + 1] == k);
                assert(comes_before(keys, descending, o2[0] as int, o2[q + 1] as int));
                assert(o1.contains(k));
                let q1 = choose|q1: int| 0 <= q1 < o1.len() && o1[q1] == k;
                assert(q1 != 0);
                assert(r1[q1 - 1] == k);
            }
        }
        assert forall|a: int, b: int| 0 <= a < b < r1.len() implies comes_before(keys, descending, #[trigger] r1[a] as int, #[trigger] r1[b] as int) by {
            assert(r1[a] == o1[a + 1] && r1[b] == o1[b + 1]);
        }
        assert forall|a: int, b: int| 0 <= a < b < r2.len() implies comes_before(keys, descending, #[trigger] r2[a] as int, #[trigger] r2[b] as int) by {
            assert(r2[a] == o2[a + 1] && r2[b] == o2[b + 1]);
        }
        lemma_sorted_unique(keys, descending, r1, r2);
        assert(o1 =~= seq![o1[0]] + r1);
        assert(o2 =~= seq![o2[0]] + r2);
    }
}

} // verus!
