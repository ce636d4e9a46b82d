//! Orders and maxima.
use crate::scalar::Scalar;
use vstd::prelude::*;

verus! {

/// `order` lists every index of `keys` once, by rising key, equal keys by rising index.
pub open spec fn is_stable_order(keys: Seq<i128>, order: Seq<usize>) -> bool {
    &&& order.len() == keys.len()
    &&& forall|i: int| 0 <= i < order.len() ==> 0 <= #[trigger] order[i] < keys.len()
    &&& forall|i: int, j: int|
        0 <= i < j < order.len() ==> precedes(keys, #[trigger] order[i], #[trigger] order[j])
}

/// Index `a` comes before index `b` in a stable order of `keys`.
pub open spec fn precedes(keys: Seq<i128>, a: usize, b: usize) -> bool {
    keys[a as int] < keys[b as int] || (keys[a as int] == keys[b as int] && a < b)
}

/// Where index `a` belongs in the first `n` entries of an order of smaller indices.
fn slot(keys: &Vec<i128>, order: &Vec<usize>, a: usize) -> (r: usize)
    requires
        a < keys.len(),
        forall|i: int| 0 <= i < order.len() ==> #[trigger] order[i] < a,
        forall|i: int, j: int|
            0 <= i < j < order.len() ==> precedes(keys@, #[trigger] order[i], #[trigger] order[j]),
    ensures
        r <= order.len(),
        forall|i: int| 0 <= i < r ==> precedes(keys@, #[trigger] order[i], a),
        forall|i: int| r <= i < order.len() ==> precedes(keys@, a, #[trigger] order[i]),
{
    let mut r: usize = order.len();
    while r > 0 && keys[order[r - 1]] > keys[a]
        invariant
            r <= order.len(),
            a < keys.len(),
            forall|i: int| 0 <= i < order.len() ==> #[trigger] order[i] < a,
            forall|i: int| r <= i < order.len() ==> precedes(keys@, a, #[trigger] order[i]),
        decreases r,
    {
        r -= 1;
    }
    r
}

/// The stable order of `keys`.
pub open spec fn sorted_order(keys: Seq<i128>) -> Seq<usize> {
    choose|order: Seq<usize>| is_stable_order(keys, order)
}

/// The stable order of `keys`.
pub fn stable_order(keys: &Vec<i128>) -> (r: Vec<usize>)
    ensures
        is_stable_order(keys@, r@),
        r@ == sorted_order(keys@),
{
    let mut r: Vec<usize> = Vec::with_capacity(keys.len());
    let mut a: usize = 0;
    while a < keys.len()
        invariant
            a <= keys.len(),
            r.len() == a,
            forall|i: int| 0 <= i < r.len() ==> #[trigger] r[i] < a,
            forall|i: int, j: int|
                0 <= i < j < r.len() ==> precedes(keys@, #[trigger] r[i], #[trigger] r[j]),
        decreases keys.len() - a,
    {
        let at: usize = slot(keys, &r, a);
        r.insert(at, a);
        a += 1;
    }
    proof {
        assert(is_stable_order(keys@, r@));
        assert(keys@.len() == keys.len());
        law_stable_order_is_unique(keys@, r@, sorted_order(keys@));
    }
    r
}

proof fn lemma_slot(keys: Seq<i128>, order: Seq<usize>, a: usize, n: int) -> (p: int)
    requires
        0 <= n <= order.len(),
        forall|i: int| 0 <= i < n ==> #[trigger] order[i] < a,
        forall|i: int, j: int|
            0 <= i < j < n ==> precedes(keys, #[trigger] order[i], #[trigger] order[j]),
    ensures
        0 <= p <= n,
        forall|i: int| 0 <= i < p ==> precedes(keys, #[trigger] order[i], a),
        forall|i: int| p <= i < n ==> precedes(keys, a, #[trigger] order[i]),
    decreases n,
{
    if n == 0 {
        0
    } else if keys[order[n - 1] as int] > keys[a as int] {
        lemma_slot(keys, order, a, n - 1)
    } else {
        assert forall|i: int| 0 <= i < n implies precedes(keys, #[trigger] order[i], a) by {
            if i < n - 1 {
                assert(precedes(keys, order[i], order[n - 1]));
            }
        }
        n
    }
}

/// Keys can always be put in a stable order.
pub proof fn law_stable_order_exists(keys: Seq<i128>)
    requires
        keys.len() <= usize::MAX,
    ensures
        is_stable_order(keys, sorted_order(keys)),
    decreases keys.len(),
{
    if keys.len() == 0 {
        assert(is_stable_order(keys, Seq::<usize>::empty()));
    } else {
        let front = keys.drop_last();
        law_stable_order_exists(front);
        let order = sorted_order(front);
        let a = (keys.len() - 1) as usize;
        assert forall|i: int, j: int| 0 <= i < j < order.len() implies precedes(
            keys,
            #[trigger] order[i],
            #[trigger] order[j],
        ) by {
            assert(precedes(front, order[i], order[j]));
        }
        let p = lemma_slot(keys, order, a, order.len() as int);
        let whole = order.insert(p, a);
        assert forall|i: int, j: int| 0 <= i < j < whole.len() implies precedes(
            keys,
            #[trigger] whole[i],
            #[trigger] whole[j],
        ) by {
            let x = if i < p {
                i
            } else {
                i - 1
            };
            let y = if j < p {
                j
            } else {
                j - 1
            };
            if i != p {
                assert(whole[i] == order[x]);
            }
            if j != p {
                assert(whole[j] == order[y]);
            }
        }
        assert forall|i: int| 0 <= i < whole.len() implies 0 <= #[trigger] whole[i] < keys.len() by {
            if i < p {
                assert(whole[i] == order[i]);
            } else if i > p {
                assert(whole[i] == order[i - 1]);
            }
        }
        assert(is_stable_order(keys, whole));
    }
}

/// A stable order meets each index.
pub proof fn lemma_order_covers(keys: Seq<i128>, order: Seq<usize>)
    requires
        is_stable_order(keys, order),
        keys.len() <= usize::MAX,
    ensures
        forall|a: int| 0 <= a < keys.len() ==> order.contains(#[trigger] (a as usize)),
        order.no_duplicates(),
        order.to_set() == Set::new(|a: usize| a < keys.len()),
{
    assert(order.no_duplicates()) by {
        assert forall|i: int, j: int| 0 <= i < order.len() && 0 <= j < order.len() && i != j implies order[i]
            != order[j] by {
            if i < j {
                assert(precedes(keys, order[i], order[j]));
            } else {
                assert(precedes(keys, order[j], order[i]));
            }
        }
    }
    let all = Set::new(|a: usize| a < keys.len());
    lemma_initial_set(keys.len() as usize);
    order.unique_seq_to_set();
    vstd::set_lib::lemma_len_subset(order.to_set(), all);
    vstd::set_lib::lemma_subset_equality(order.to_set(), all);
    assert forall|a: int| 0 <= a < keys.len() implies order.contains(#[trigger] (a as usize)) by {
        assert(all.contains(a as usize));
        assert(order.to_set().contains(a as usize));
    }
}

/// There are `n` indices below `n`.
pub proof fn lemma_initial_set(n: usize)
    ensures
        Set::new(|a: usize| a < n).finite(),
        Set::new(|a: usize| a < n).len() == n,
    decreases n,
{
    let s = Set::new(|a: usize| a < n);
    if n == 0 {
        assert(s =~= Set::empty());
    } else {
        let m = (n - 1) as usize;
        lemma_initial_set(m);
        assert(s =~= Set::new(|a: usize| a < m).insert(m));
    }
}

/// Two stable orders of the same keys are the same.
pub proof fn law_stable_order_is_unique(keys: Seq<i128>, a: Seq<usize>, b: Seq<usize>)
    requires
        is_stable_order(keys, a),
        is_stable_order(keys, b),
        keys.len() <= usize::MAX,
    ensures
        a == b,
{
    lemma_order_covers(keys, a);
    lemma_order_covers(keys, b);
    assert forall|i: int| 0 <= i < a.len() implies a[i] == b[i] by {
        lemma_same_entry(keys, a, b, i);
    }
    assert(a =~= b);
}

proof fn lemma_same_entry(keys: Seq<i128>, a: Seq<usize>, b: Seq<usize>, i: int)
    requires
        is_stable_order(keys, a),
        is_stable_order(keys, b),
        0 <= i < a.len(),
        forall|x: int| 0 <= x < keys.len() ==> a.contains(#[trigger] (x as usize)),
        forall|x: int| 0 <= x < keys.len() ==> b.contains(#[trigger] (x as usize)),
    ensures
        a[i] == b[i],
    decreases i,
{
    assert forall|k: int| 0 <= k < i implies a[k] == b[k] by {
        lemma_same_entry(keys, a, b, k);
    }
    if a[i] != b[i] {
        // Each entry stands in the other list too, and only further back.
        let x = a[i];
        assert(b.contains((x as int) as usize));
        let j = choose|j: int| 0 <= j < b.len() && b[j] == x;
        assert(j > i) by {
            if j < i {
                assert(a[j] == b[j]);
                assert(precedes(keys, a[j], a[i]));
            }
        }
        let y = b[i];
        assert(a.contains((y as int) as usize));
        let k = choose|k: int| 0 <= k < a.len() && a[k] == y;
        assert(k > i) by {
            if k < i {
                assert(a[k] == b[k]);
                assert(precedes(keys, b[k], b[i]));
            }
        }
        assert(precedes(keys, a[i], a[k]));
        assert(precedes(keys, b[i], b[j]));
        assert(false);
    }
}

/// The first index of the largest score, 0 where no score lies above negative infinity.
pub open spec fn argmax(scores: Seq<Scalar>) -> int
    decreases scores.len(),
{
    if scores.len() == 0 {
        0
    } else {
        let n = scores.len() - 1;
        if best_score(scores.drop_last()).below(scores[n]) {
            n
        } else {
            argmax(scores.drop_last())
        }
    }
}

/// The largest score, negative infinity where none lies above it.
pub open spec fn best_score(scores: Seq<Scalar>) -> Scalar
    decreases scores.len(),
{
    if scores.len() == 0 {
        Scalar::neg_infinity()
    } else {
        let rest = best_score(scores.drop_last());
        if rest.below(scores.last()) {
            scores.last()
        } else {
            rest
        }
    }
}

/// The first index of the largest score.
pub fn select_best(scores: &Vec<Scalar>) -> (r: usize)
    ensures
        r == argmax(scores@),
        scores.len() > 0 ==> r < scores.len(),
        scores.len() == 0 ==> r == 0,
{
    let mut best: Scalar = Scalar::neg_infinity();
    let mut at: usize = 0;
    let mut i: usize = 0;
    assert(scores@.take(0) =~= Seq::empty());
    while i < scores.len()
        invariant
            i <= scores.len(),
            at == argmax(scores@.take(i as int)),
            best == best_score(scores@.take(i as int)),
            at < i || at == 0,
        decreases scores.len() - i,
    {
        assert(scores@.take(i + 1).drop_last() =~= scores@.take(i as int));
        if best.lt(scores[i]) {
            best = scores[i];
            at = i;
        }
        i += 1;
    }
    assert(scores@.take(i as int) =~= scores@);
    at
}

/// The chosen score is the largest, and the first such: no number lies above it and every
/// number before it lies below it. Without a score above negative infinity it is the first.
pub proof fn law_argmax(scores: Seq<Scalar>)
    ensures
        scores.len() > 0 ==> 0 <= argmax(scores) < scores.len(),
        forall|i: int| 0 <= i < scores.len() ==> !best_score(scores).below(#[trigger] scores[i]),
        Scalar::neg_infinity().below(best_score(scores)) ==> {
            &&& scores.len() > 0
            &&& scores[argmax(scores)] == best_score(scores)
            &&& forall|i: int|
                0 <= i < argmax(scores) && !(#[trigger] scores[i]).not_a_number()
                    ==> scores[i].below(best_score(scores))
        },
        !Scalar::neg_infinity().below(best_score(scores)) ==> argmax(scores) == 0 && best_score(scores)
            == Scalar::neg_infinity(),
    decreases scores.len(),
{
    if scores.len() > 0 {
        let front = scores.drop_last();
        law_argmax(front);
        assert forall|i: int| 0 <= i < scores.len() implies !best_score(scores).below(
            #[trigger] scores[i],
        ) by {
            if i < front.len() {
                assert(front[i] == scores[i]);
            }
        }
        if best_score(front).below(scores.last()) {
            assert forall|i: int|
                0 <= i < argmax(scores) && !(#[trigger] scores[i]).not_a_number() implies scores[i].below(
                best_score(scores),
            ) by {
                assert(front[i] == scores[i]);
            }
        } else if Scalar::neg_infinity().below(best_score(scores)) {
            assert forall|i: int|
                0 <= i < argmax(scores) && !(#[trigger] scores[i]).not_a_number() implies scores[i].below(
                best_score(scores),
            ) by {
                assert(front[i] == scores[i]);
            }
        }
    }
}

/// The indices that are flagged, in rising order.
pub open spec fn chosen(flags: Seq<bool>) -> Seq<usize>
    decreases flags.len(),
{
    if flags.len() == 0 {
        Seq::empty()
    } else {
        let front = chosen(flags.drop_last());
        if flags.last() {
            front.push((flags.len() - 1) as usize)
        } else {
            front
        }
    }
}

/// The indices that are flagged, in rising order.
pub fn choose_flagged(flags: &Vec<bool>) -> (r: Vec<usize>)
    ensures
        r@ == chosen(flags@),
        r.len() <= flags.len(),
        forall|i: int| 0 <= i < r.len() ==> #[trigger] r[i] < flags.len(),
{
    let mut r: Vec<usize> = Vec::new();
    let mut i: usize = 0;
    assert(flags@.take(0) =~= Seq::empty());
    while i < flags.len()
        invariant
            i <= flags.len(),
            r@ == chosen(flags@.take(i as int)),
        decreases flags.len() - i,
    {
        assert(flags@.take(i + 1).drop_last() =~= flags@.take(i as int));
        if flags[i] {
            r.push(i);
        }
        i += 1;
    }
    assert(flags@.take(i as int) =~= flags@);
    proof {
        lemma_chosen(flags@);
    }
    r
}

/// What `chosen` lists: exactly the flagged indices, each once, rising.
pub proof fn lemma_chosen(flags: Seq<bool>)
    requires
        flags.len() <= usize::MAX,
    ensures
        chosen(flags).len() <= flags.len(),
        forall|i: int|
            0 <= i < chosen(flags).len() ==> (#[trigger] chosen(flags)[i]) < flags.len()
                && flags[chosen(flags)[i] as int],
        forall|i: int, j: int|
            0 <= i < j < chosen(flags).len() ==> (#[trigger] chosen(flags)[i]) < (
            #[trigger] chosen(flags)[j]),
        forall|k: int| 0 <= k < flags.len() && #[trigger] flags[k] ==> chosen(flags).contains(k as usize),
        chosen(flags).len() == flags.len() <==> forall|k: int|
            0 <= k < flags.len() ==> #[trigger] flags[k],
    decreases flags.len(),
{
    if flags.len() > 0 {
        let front = flags.drop_last();
        lemma_chosen(front);
        let c = chosen(flags);
        let last = flags.len() - 1;
        assert forall|k: int| 0 <= k < flags.len() && #[trigger] flags[k] implies c.contains(k as usize) by {
            if k < last {
                assert(front[k]);
                let at = choose|i: int| 0 <= i < chosen(front).len() && chosen(front)[i] == k as usize;
                assert(c[at] == k as usize);
            } else {
                assert(c[c.len() - 1] == k as usize);
            }
        }
        if c.len() == flags.len() {
            assert forall|k: int| 0 <= k < flags.len() implies #[trigger] flags[k] by {
                if k < last {
                    assert(front[k]);
                }
            }
        } else if forall|k: int| 0 <= k < flags.len() ==> #[trigger] flags[k] {
            assert forall|k: int| 0 <= k < front.len() implies #[trigger] front[k] by {
                assert(flags[k]);
            }
            assert(flags[last]);
        }
    }
}

/// Where `x` first stands in `list`.
pub open spec fn first_index(list: Seq<usize>, x: usize) -> Option<int>
    decreases list.len(),
{
    if list.len() == 0 {
        None
    } else if first_index(list.drop_last(), x) is Some {
        first_index(list.drop_last(), x)
    } else if list.last() == x {
        Some(list.len() - 1)
    } else {
        None
    }
}

/// Where `x` first stands in `list`.
pub fn find_first(list: &Vec<usize>, x: usize) -> (r: Option<usize>)
    ensures
        match first_index(list@, x) {
            Some(i) => r matches Some(k) && k == i && k < list.len(),
            None => r is None,
        },
        r is Some <==> list@.contains(x),
{
    let mut i: usize = 0;
    assert(list@.take(0) =~= Seq::empty());
    while i < list.len()
        invariant
            i <= list.len(),
            first_index(list@.take(i as int), x) is None,
            !list@.take(i as int).contains(x),
        decreases list.len() - i,
    {
        assert(list@.take(i + 1).drop_last() =~= list@.take(i as int));
        if list[i] == x {
            proof {
                lemma_first_index_extends(list@, x, i + 1);
                assert(list@[i as int] == x);
            }
            return Some(i);
        }
        i += 1;
        assert(list@.take(i as int) =~= list@.take(i - 1).push(list@[i - 1]));
        assert(!list@.take(i as int).contains(x)) by {
            assert forall|k: int| 0 <= k < i implies list@.take(i as int)[k] != x by {
                if k < i - 1 {
                    assert(list@.take(i - 1)[k] == list@[k]);
                    assert(list@.take(i - 1).contains(list@[k]));
                }
            }
        }
    }
    assert(list@.take(i as int) =~= list@);
    None
}

proof fn lemma_first_index_extends(list: Seq<usize>, x: usize, n: int)
    requires
        0 <= n <= list.len(),
        first_index(list.take(n), x) is Some,
    ensures
        first_index(list, x) == first_index(list.take(n), x),
    decreases list.len() - n,
{
    if n < list.len() {
        assert(list.take(n + 1).drop_last() =~= list.take(n));
        lemma_first_index_extends(list, x, n + 1);
    } else {
        assert(list.take(n) =~= list);
    }
}

/// The first index is where the value stands for the first time; there is none only where
/// the value does not occur.
pub proof fn lemma_first_index(list: Seq<usize>, x: usize)
    ensures
        match first_index(list, x) {
            Some(i) => 0 <= i < list.len() && list[i] == x && forall|k: int|
                0 <= k < i ==> #[trigger] list[k] != x,
            None => !list.contains(x),
        },
    decreases list.len(),
{
    if list.len() > 0 {
        let front = list.drop_last();
        lemma_first_index(front, x);
        if first_index(list, x) is None {
            assert forall|k: int| 0 <= k < list.len() implies list[k] != x by {
                if k < front.len() {
                    assert(front[k] == list[k]);
                    assert(front.contains(list[k]));
                }
            }
        } else if first_index(front, x) is None {
            assert forall|k: int| 0 <= k < list.len() - 1 implies #[trigger] list[k] != x by {
                assert(front[k] == list[k]);
                assert(front.contains(list[k]));
            }
        } else {
            let i = first_index(front, x)->0;
            assert(front[i] == list[i]);
            assert forall|k: int| 0 <= k < i implies #[trigger] list[k] != x by {
                assert(front[k] == list[k]);
            }
        }
    }
}

/// A search finds the first place where something stands, and finds nothing exactly where it
/// stands nowhere.
pub proof fn law_the_first_is_found(list: Seq<usize>, x: usize)
    ensures
        first_index(list, x) is None <==> forall|i: int|
            0 <= i < list.len() ==> #[trigger] list[i] != x,
        first_index(list, x) matches Some(k) ==> {
            &&& 0 <= k < list.len()
            &&& list[k] == x
            &&& forall|i: int| 0 <= i < k ==> #[trigger] list[i] != x
        },
    decreases list.len(),
{
    if list.len() > 0 {
        let front = list.drop_last();
        law_the_first_is_found(front, x);
        assert(forall|i: int| 0 <= i < front.len() ==> #[trigger] front[i] == list[i]);
        assert(list.last() == list[list.len() - 1]);
        if first_index(list, x) is None {
            assert forall|i: int| 0 <= i < list.len() implies #[trigger] list[i] != x by {
                if i < front.len() {
                    assert(front[i] != x);
                }
            }
        } else {
            let k = first_index(list, x)->0;
            assert forall|i: int| 0 <= i < k implies #[trigger] list[i] != x by {
                assert(front[i] != x);
            }
        }
    }
}

/// In a sorted order smaller keys come before larger ones and, of equal keys, earlier entries
/// before later ones. Every entry has its place.
pub proof fn law_order_rises(keys: Seq<i128>, a: int, b: int)
    requires
        keys.len() <= usize::MAX,
        0 <= a < b < keys.len(),
    ensures
        ({
            let order = sorted_order(keys);
            &&& order.len() == keys.len()
            &&& keys[order[a] as int] <= keys[order[b] as int]
            &&& keys[order[a] as int] == keys[order[b] as int] ==> order[a] < order[b]
            &&& order[a] < keys.len() && order[b] < keys.len()
            &&& order.contains(a as usize) && order.contains(b as usize)
        }),
{
    law_stable_order_exists(keys);
    let order = sorted_order(keys);
    assert(precedes(keys, order[a], order[b]));
    lemma_order_covers(keys, order);
}

} // verus!
