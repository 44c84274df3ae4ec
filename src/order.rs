use vstd::prelude::*;
use vstd::set_lib::{set_int_range, lemma_int_range, lemma_subset_equality};

verus! {

/// Index `x` comes before index `y` when its key is larger, or the keys are
/// equal and `x` is the earlier index.
pub open spec fn ranks_before(keys: Seq<u32>, x: int, y: int) -> bool {
    keys[x] > keys[y] || (keys[x] == keys[y] && x < y)
}

/// `order` lists every index of `keys` once, by descending key; equal keys
/// keep their relative order. Exactly one sequence has this property.
pub open spec fn is_descending_order(keys: Seq<u32>, order: Seq<usize>) -> bool {
    &&& order.len() == keys.len()
    &&& forall|i: int| 0 <= i < order.len() ==> #[trigger] order[i] < keys.len()
    &&& forall|i: int, j: int|
        0 <= i < j < order.len() ==> ranks_before(keys, #[trigger] order[i] as int, #[trigger] order[j] as int)
}

/// The keys taken in the given order.
pub open spec fn permuted(keys: Seq<u32>, order: Seq<usize>) -> Seq<u32> {
    Seq::new(order.len(), |i: int| keys[order[i] as int])
}

/// The indices of `keys` by descending key, equal keys in their input
/// order (a stable sort, largest first).
pub fn descending_order(keys: &[u32]) -> (order: Vec<usize>)
    ensures
        is_descending_order(keys@, order@),
{
    let n = keys.len();
    let mut order: Vec<usize> = Vec::new();
    let mut i: usize = 0;
    while i < n
        invariant
            n == keys@.len(),
            i <= n,
            order@.len() == i,
            forall|q: int| 0 <= q < order@.len() ==> #[trigger] order@[q] < i,
            forall|q: int, r: int|
                0 <= q < r < order@.len() ==> ranks_before(keys@, #[trigger] order@[q] as int, #[trigger] order@[r] as int),
        decreases n - i,
    {
        let key = keys[i];
        let mut pos: usize = 0;
        while pos < order.len() && keys[order[pos]] >= key
            invariant
                n == keys@.len(),
                i < n,
                key == keys@[i as int],
                order@.len() == i,
                pos <= order@.len(),
                forall|q: int| 0 <= q < order@.len() ==> #[trigger] order@[q] < i,
                forall|q: int| 0 <= q < pos ==> ranks_before(keys@, #[trigger] order@[q] as int, i as int),
            decreases order@.len() - pos,
        {
            pos = pos + 1;
        }
        let ghost old_order = order@;
        proof {
            assert forall|q: int| pos <= q < old_order.len() implies ranks_before(
                keys@,
                i as int,
                #[trigger] old_order[q] as int,
            ) by {
                if q > pos {
                    assert(ranks_before(keys@, old_order[pos as int] as int, old_order[q] as int));
                }
            }
        }
        order.insert(pos, i);
        assert forall|q: int, r: int|
            0 <= q < r < order@.len() implies ranks_before(keys@, #[trigger] order@[q] as int, #[trigger] order@[r] as int) by {
            if r < pos {
                assert(order@[q] == old_order[q] && order@[r] == old_order[r]);
            } else if r == pos {
                assert(order@[q] == old_order[q]);
            } else if q < pos {
                assert(order@[q] == old_order[q] && order@[r] == old_order[r - 1]);
            } else if q == pos {
                assert(order@[r] == old_order[r - 1]);
            } else {
                assert(order@[q] == old_order[q - 1] && order@[r] == old_order[r - 1]);
            }
        }
        i = i + 1;
    }
    order
}

proof fn lemma_order_covers(keys: Seq<u32>, o: Seq<usize>, x: int)
    requires
        is_descending_order(keys, o),
        0 <= x < keys.len(),
    ensures
        exists|q: int| 0 <= q < o.len() && o[q] == x,
{
    let w = o.map_values(|v: usize| v as int);
    assert(w.no_duplicates()) by {
        assert forall|i: int, j: int| 0 <= i < w.len() && 0 <= j < w.len() && i != j implies w[i] != w[j] by {
            if i < j {
                assert(ranks_before(keys, o[i] as int, o[j] as int));
            } else {
                assert(ranks_before(keys, o[j] as int, o[i] as int));
            }
        }
    }
    w.unique_seq_to_set();
    lemma_int_range(0, keys.len() as int);
    let all = set_int_range(0, keys.len() as int);
    assert(w.to_set().subset_of(all)) by {
        assert forall|v: int| w.to_set().contains(v) implies all.contains(v) by {
            let i = choose|i: int| 0 <= i < w.len() && w[i] == v;
            assert(o[i] < keys.len());
        }
    }
    lemma_subset_equality(w.to_set(), all);
    assert(all.contains(x));
    assert(w.to_set().contains(x));
    let q = choose|q: int| 0 <= q < w.len() && w[q] == x;
    assert(o[q] == x);
}

proof fn lemma_orders_agree_upto(keys: Seq<u32>, o1: Seq<usize>, o2: Seq<usize>, p: int)
    requires
        is_descending_order(keys, o1),
        is_descending_order(keys, o2),
        0 <= p <= keys.len(),
    ensures
        forall|q: int| 0 <= q < p ==> o1[q] == o2[q],
    decreases p,
{
    if p > 0 {
        lemma_orders_agree_upto(keys, o1, o2, p - 1);
        let i = p - 1;
        let x = o1[i] as int;
        let y = o2[i] as int;
        if x != y {
            lemma_order_covers(keys, o2, x);
            lemma_order_covers(keys, o1, y);
            let qx = choose|q: int| 0 <= q < o2.len() && o2[q] == x;
            let qy = choose|q: int| 0 <= q < o1.len() && o1[q] == y;
            if qx < i {
                assert(o1[qx] == o2[qx]);
                assert(ranks_before(keys, o1[qx] as int, o1[i] as int));
            }
            if qy < i {
                assert(o1[qy] == o2[qy]);
                assert(ranks_before(keys, o2[qy] as int, o2[i] as int));
            }
            assert(ranks_before(keys, y, x));
            assert(ranks_before(keys, x, y));
        }
    }
}

/// Two sequences that both list `keys`' indices by descending key, equal
/// keys in input order, are the same sequence.
pub proof fn lemma_descending_order_unique(keys: Seq<u32>, o1: Seq<usize>, o2: Seq<usize>)
    requires
        is_descending_order(keys, o1),
        is_descending_order(keys, o2),
    ensures
        o1 == o2,
{
    lemma_orders_agree_upto(keys, o1, o2, keys.len() as int);
    assert(o1 =~= o2);
}

} // verus!
