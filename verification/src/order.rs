//! Sorting: a stable merge sort of positions by key.

use vstd::prelude::*;
use vstd::string::*;

use std::collections::BTreeMap;

use crate::text;

verus! {

/// A key to sort by. `Rank` is what the order looks at.
pub trait SortKey {
    type Rank;

    /// What the order looks at.
    spec fn rank(&self) -> Self::Rank;

    /// Whether `a` comes no later than `b`.
    spec fn rank_le(a: Self::Rank, b: Self::Rank) -> bool;

    /// Any two ranks are ordered one way or the other.
    proof fn rank_total(a: Self::Rank, b: Self::Rank)
        ensures
            Self::rank_le(a, b) || Self::rank_le(b, a),
    ;

    /// The order is transitive.
    proof fn rank_transitive(a: Self::Rank, b: Self::Rank, c: Self::Rank)
        requires
            Self::rank_le(a, b),
            Self::rank_le(b, c),
        ensures
            Self::rank_le(a, c),
    ;

    /// Whether this key comes no later than `other`.
    fn le(&self, other: &Self) -> (r: bool)
        ensures
            r == Self::rank_le(self.rank(), other.rank()),
    ;
}

impl SortKey for u16 {
    type Rank = int;

    open spec fn rank(&self) -> int {
        *self as int
    }

    open spec fn rank_le(a: int, b: int) -> bool {
        a <= b
    }

    proof fn rank_total(a: int, b: int) {
    }

    proof fn rank_transitive(a: int, b: int, c: int) {
    }

    fn le(&self, other: &Self) -> (r: bool) {
        *self <= *other
    }
}

impl SortKey for u32 {
    type Rank = int;

    open spec fn rank(&self) -> int {
        *self as int
    }

    open spec fn rank_le(a: int, b: int) -> bool {
        a <= b
    }

    proof fn rank_total(a: int, b: int) {
    }

    proof fn rank_transitive(a: int, b: int, c: int) {
    }

    fn le(&self, other: &Self) -> (r: bool) {
        *self <= *other
    }
}

impl SortKey for String {
    type Rank = Seq<char>;

    open spec fn rank(&self) -> Seq<char> {
        self@
    }

    open spec fn rank_le(a: Seq<char>, b: Seq<char>) -> bool {
        text::text_le(a, b)
    }

    proof fn rank_total(a: Seq<char>, b: Seq<char>) {
        text::lemma_text_le_total(a, b);
    }

    proof fn rank_transitive(a: Seq<char>, b: Seq<char>, c: Seq<char>) {
        text::lemma_text_le_transitive(a, b, c);
    }

    fn le(&self, other: &Self) -> (r: bool) {
        text::str_le(self.as_str(), other.as_str())
    }
}

/// Whether position `a` comes before position `b`: by rank, and among equal
/// ranks by position.
pub open spec fn goes_before<K: SortKey>(ranks: Seq<K::Rank>, a: int, b: int) -> bool {
    &&& K::rank_le(ranks[a], ranks[b])
    &&& K::rank_le(ranks[b], ranks[a]) ==> a < b
}

/// Whether `order` lists the positions from `lo` to below `hi`, each once, in
/// the stable order of their ranks.
pub open spec fn orders_range<K: SortKey>(
    ranks: Seq<K::Rank>,
    lo: int,
    hi: int,
    order: Seq<usize>,
) -> bool {
    &&& forall|i: int| 0 <= i < order.len() ==> lo <= #[trigger] order[i] < hi
    &&& forall|p: usize| lo <= p < hi ==> #[trigger] order.contains(p)
    &&& forall|i: int, j: int|
        0 <= i < j < order.len() ==> goes_before::<K>(
            ranks,
            #[trigger] order[i] as int,
            #[trigger] order[j] as int,
        )
}

/// Whether `order` is the stable order of all positions.
pub open spec fn is_stable_order<K: SortKey>(ranks: Seq<K::Rank>, order: Seq<usize>) -> bool {
    orders_range::<K>(ranks, 0, ranks.len() as int, order)
}

/// The positions in the stable order of their ranks.
pub open spec fn stable_order<K: SortKey>(ranks: Seq<K::Rank>) -> Seq<usize> {
    choose|order: Seq<usize>| is_stable_order::<K>(ranks, order)
}

/// The ranks of some keys.
pub open spec fn ranks_of<K: SortKey>(keys: Seq<K>) -> Seq<K::Rank> {
    keys.map_values(|k: K| k.rank())
}

/// `rows`, rearranged by `order`.
pub open spec fn arranged<T>(rows: Seq<T>, order: Seq<usize>) -> Seq<T> {
    order.map_values(|p: usize| rows[p as int])
}

/// `rows` in the stable order of their ranks.
pub open spec fn sorted_by<K: SortKey, T>(rows: Seq<T>, ranks: Seq<K::Rank>) -> Seq<T> {
    arranged(rows, stable_order::<K>(ranks))
}

proof fn lemma_goes_before_irreflexive<K: SortKey>(ranks: Seq<K::Rank>, a: int, b: int)
    requires
        goes_before::<K>(ranks, a, b),
    ensures
        a != b,
        !goes_before::<K>(ranks, b, a),
{
    K::rank_total(ranks[a], ranks[b]);
}

proof fn lemma_goes_before_transitive<K: SortKey>(ranks: Seq<K::Rank>, a: int, b: int, c: int)
    requires
        goes_before::<K>(ranks, a, b),
        goes_before::<K>(ranks, b, c),
    ensures
        goes_before::<K>(ranks, a, c),
{
    K::rank_transitive(ranks[a], ranks[b], ranks[c]);
    if K::rank_le(ranks[c], ranks[a]) {
        K::rank_transitive(ranks[c], ranks[a], ranks[b]);
        K::rank_transitive(ranks[b], ranks[c], ranks[a]);
    }
}

proof fn lemma_order_no_duplicates<K: SortKey>(
    ranks: Seq<K::Rank>,
    lo: int,
    hi: int,
    order: Seq<usize>,
)
    requires
        orders_range::<K>(ranks, lo, hi, order),
    ensures
        order.no_duplicates(),
{
    assert forall|i: int, j: int| 0 <= i < order.len() && 0 <= j < order.len() && i != j implies
        order[i] != order[j] by {
        if i < j {
            lemma_goes_before_irreflexive::<K>(ranks, order[i] as int, order[j] as int);
        } else {
            lemma_goes_before_irreflexive::<K>(ranks, order[j] as int, order[i] as int);
        }
    }
}

/// Position `i` holds the same in two orders that agree before it.
proof fn lemma_orders_agree_at<K: SortKey>(
    ranks: Seq<K::Rank>,
    a: Seq<usize>,
    b: Seq<usize>,
    i: int,
)
    requires
        is_stable_order::<K>(ranks, a),
        is_stable_order::<K>(ranks, b),
        ranks.len() <= usize::MAX,
        0 <= i < a.len(),
        i < b.len(),
        forall|k: int| 0 <= k < i ==> a[k] == b[k],
    ensures
        a[i] == b[i],
{
    let n = ranks.len() as int;
    if a[i] != b[i] {
        assert(b.contains(a[i]));
        assert(a.contains(b[i]));
        let p = b.index_of(a[i]);
        let q = a.index_of(b[i]);
        lemma_order_no_duplicates::<K>(ranks, 0, n, a);
        lemma_order_no_duplicates::<K>(ranks, 0, n, b);
        assert(p > i) by {
            if p < i {
                assert(a[p] == b[p]);
            }
        }
        assert(q > i) by {
            if q < i {
                assert(a[q] == b[q]);
            }
        }
        assert(goes_before::<K>(ranks, b[i] as int, b[p] as int));
        assert(goes_before::<K>(ranks, a[i] as int, a[q] as int));
        lemma_goes_before_irreflexive::<K>(ranks, b[i] as int, a[i] as int);
    }
}

proof fn lemma_order_len<K: SortKey>(ranks: Seq<K::Rank>, order: Seq<usize>)
    requires
        is_stable_order::<K>(ranks, order),
        ranks.len() <= usize::MAX,
    ensures
        order.len() == ranks.len(),
{
    let n = ranks.len() as int;
    lemma_order_no_duplicates::<K>(ranks, 0, n, order);
    let all = Seq::<usize>::new(n as nat, |i: int| i as usize);
    assert(all.no_duplicates());
    assert(order.to_set() =~= all.to_set()) by {
        assert forall|p: usize| order.to_set().contains(p) implies all.to_set().contains(p) by {
            let i = order.index_of(p);
            assert(all[p as int] == p);
        }
        assert forall|p: usize| all.to_set().contains(p) implies order.to_set().contains(p) by {
            let i = all.index_of(p);
            assert(order.contains(p));
        }
    }
    order.unique_seq_to_set();
    all.unique_seq_to_set();
}

/// There is but one stable order.
pub proof fn lemma_stable_order_unique<K: SortKey>(
    ranks: Seq<K::Rank>,
    a: Seq<usize>,
    b: Seq<usize>,
)
    requires
        is_stable_order::<K>(ranks, a),
        is_stable_order::<K>(ranks, b),
        ranks.len() <= usize::MAX,
    ensures
        a == b,
{
    lemma_order_len::<K>(ranks, a);
    lemma_order_len::<K>(ranks, b);
    lemma_orders_agree_to::<K>(ranks, a, b, a.len() as int);
    assert(a =~= b);
}

proof fn lemma_orders_agree_to<K: SortKey>(
    ranks: Seq<K::Rank>,
    a: Seq<usize>,
    b: Seq<usize>,
    to: int,
)
    requires
        is_stable_order::<K>(ranks, a),
        is_stable_order::<K>(ranks, b),
        ranks.len() <= usize::MAX,
        a.len() == b.len(),
        0 <= to <= a.len(),
    ensures
        forall|k: int| 0 <= k < to ==> a[k] == b[k],
    decreases to,
{
    if to > 0 {
        lemma_orders_agree_to::<K>(ranks, a, b, to - 1);
        lemma_orders_agree_at::<K>(ranks, a, b, to - 1);
    }
}

/// Merges two ordered runs of positions; all of `left` are before all of
/// `right`.
fn merge<K: SortKey>(
    keys: &Vec<K>,
    left: Vec<usize>,
    right: Vec<usize>,
    Ghost(lo): Ghost<int>,
    Ghost(mid): Ghost<int>,
    Ghost(hi): Ghost<int>,
) -> (out: Vec<usize>)
    requires
        0 <= lo <= mid <= hi <= keys.len(),
        orders_range::<K>(ranks_of(keys@), lo, mid, left@),
        orders_range::<K>(ranks_of(keys@), mid, hi, right@),
    ensures
        orders_range::<K>(ranks_of(keys@), lo, hi, out@),
{
    let ghost ranks = ranks_of(keys@);
    let mut out: Vec<usize> = Vec::new();
    let mut i: usize = 0;
    let mut j: usize = 0;
    while i < left.len() || j < right.len()
        invariant
            ranks == ranks_of(keys@),
            0 <= lo <= mid <= hi <= keys.len(),
            orders_range::<K>(ranks, lo, mid, left@),
            orders_range::<K>(ranks, mid, hi, right@),
            i <= left.len(),
            j <= right.len(),
            forall|k: int| 0 <= k < i ==> out@.contains(#[trigger] left@[k]),
            forall|k: int| 0 <= k < j ==> out@.contains(#[trigger] right@[k]),
            forall|k: int| 0 <= k < out.len() ==> lo <= #[trigger] out@[k] < hi,
            forall|k: int, l: int|
                0 <= k < out.len() && i <= l < left.len() ==> goes_before::<K>(
                    ranks,
                    #[trigger] out@[k] as int,
                    #[trigger] left@[l] as int,
                ),
            forall|k: int, l: int|
                0 <= k < out.len() && j <= l < right.len() ==> goes_before::<K>(
                    ranks,
                    #[trigger] out@[k] as int,
                    #[trigger] right@[l] as int,
                ),
            forall|k: int, l: int|
                0 <= k < l < out.len() ==> goes_before::<K>(
                    ranks,
                    #[trigger] out@[k] as int,
                    #[trigger] out@[l] as int,
                ),
        decreases left.len() - i + right.len() - j,
    {
        let ghost before = out@;
        let take_left = if i == left.len() {
            false
        } else if j == right.len() {
            true
        } else {
            let a = left[i];
            let b = right[j];
            keys[a].le(&keys[b])
        };
        if take_left {
            let next = left[i];
            out.push(next);
            proof {
                assert(out@[before.len() as int] == next);
                assert forall|k: int| 0 <= k < i implies out@.contains(#[trigger] left@[k]) by {
                    let at = before.index_of(left@[k]);
                    assert(out@[at] == left@[k]);
                }
                assert forall|k: int| 0 <= k < j implies out@.contains(#[trigger] right@[k]) by {
                    let at = before.index_of(right@[k]);
                    assert(out@[at] == right@[k]);
                }
                assert forall|l: int| j <= l < right.len() implies goes_before::<K>(
                    ranks,
                    next as int,
                    #[trigger] right@[l] as int,
                ) by {
                    let b = right@[j as int];
                    assert(goes_before::<K>(ranks, next as int, b as int));
                    if l > j {
                        lemma_goes_before_transitive::<K>(
                            ranks,
                            next as int,
                            b as int,
                            right@[l] as int,
                        );
                    }
                }
            }
            i += 1;
        } else {
            let next = right[j];
            out.push(next);
            proof {
                assert(out@[before.len() as int] == next);
                assert forall|k: int| 0 <= k < i implies out@.contains(#[trigger] left@[k]) by {
                    let at = before.index_of(left@[k]);
                    assert(out@[at] == left@[k]);
                }
                assert forall|k: int| 0 <= k < j implies out@.contains(#[trigger] right@[k]) by {
                    let at = before.index_of(right@[k]);
                    assert(out@[at] == right@[k]);
                }
                assert forall|l: int| i <= l < left.len() implies goes_before::<K>(
                    ranks,
                    next as int,
                    #[trigger] left@[l] as int,
                ) by {
                    let a = left@[i as int];
                    K::rank_total(ranks[a as int], ranks[next as int]);
                    assert(goes_before::<K>(ranks, next as int, a as int));
                    if l > i {
                        lemma_goes_before_transitive::<K>(
                            ranks,
                            next as int,
                            a as int,
                            left@[l] as int,
                        );
                    }
                }
            }
            j += 1;
        }
    }
    proof {
        assert forall|p: usize| lo <= p < hi implies #[trigger] out@.contains(p) by {
            if p < mid {
                assert(left@.contains(p));
                let k = left@.index_of(p);
                assert(out@.contains(left@[k]));
            } else {
                assert(right@.contains(p));
                let k = right@.index_of(p);
                assert(out@.contains(right@[k]));
            }
        }
    }
    out
}

fn order_range<K: SortKey>(keys: &Vec<K>, lo: usize, hi: usize) -> (order: Vec<usize>)
    requires
        lo <= hi <= keys.len(),
    ensures
        orders_range::<K>(ranks_of(keys@), lo as int, hi as int, order@),
    decreases hi - lo,
{
    let mut order: Vec<usize> = Vec::new();
    if hi - lo == 0 {
        order
    } else if hi - lo == 1 {
        order.push(lo);
        assert(order@[0] == lo);
        order
    } else {
        let mid: usize = lo + (hi - lo) / 2;
        let left = order_range(keys, lo, mid);
        let right = order_range(keys, mid, hi);
        merge(keys, left, right, Ghost(lo as int), Ghost(mid as int), Ghost(hi as int))
    }
}

/// The positions of `keys` in sorted order; equal keys stay as they are.
pub fn sorted_positions<K: SortKey>(keys: &Vec<K>) -> (order: Vec<usize>)
    ensures
        is_stable_order::<K>(ranks_of(keys@), order@),
        order@ == stable_order::<K>(ranks_of(keys@)),
        order.len() == keys.len(),
{
    let order = order_range(keys, 0, keys.len());
    proof {
        let ranks = ranks_of(keys@);
        assert(is_stable_order::<K>(ranks, order@));
        lemma_stable_order_unique::<K>(ranks, order@, stable_order::<K>(ranks));
        lemma_order_len::<K>(ranks, order@);
    }
    order
}

// ---------------------------------------------------------------------------
// What sorting keeps
// ---------------------------------------------------------------------------

/// Some order of the positions below `hi` exists.
proof fn lemma_order_exists<K: SortKey>(ranks: Seq<K::Rank>, hi: int) -> (order: Seq<usize>)
    requires
        0 <= hi <= ranks.len(),
        ranks.len() <= usize::MAX,
    ensures
        orders_range::<K>(ranks, 0, hi, order),
    decreases hi,
{
    if hi == 0 {
        Seq::empty()
    } else {
        let last = hi - 1;
        let front = lemma_order_exists::<K>(ranks, last);
        let at = lemma_insertion_point::<K>(ranks, front, last, front.len() as int);
        let order = front.insert(at, last as usize);
        front.insert_ensures(at, last as usize);
        assert forall|p: usize| 0 <= p < hi implies #[trigger] order.contains(p) by {
            if p == last {
                assert(order[at] == p);
            } else {
                assert(front.contains(p));
                let i = front.index_of(p);
                if i < at {
                    assert(order[i] == p);
                } else {
                    assert(order[i + 1] == p);
                }
            }
        }
        assert forall|i: int, j: int| 0 <= i < j < order.len() implies goes_before::<K>(
            ranks,
            #[trigger] order[i] as int,
            #[trigger] order[j] as int,
        ) by {
            let x = if i < at {
                front[i]
            } else {
                front[i - 1]
            };
            let y = if j < at {
                front[j]
            } else {
                front[j - 1]
            };
            if i == at {
                assert(order[j] == y);
            } else if j == at {
                assert(order[i] == x);
            } else {
                assert(order[i] == x && order[j] == y);
            }
        }
        order
    }
}

/// Where position `last` goes into an order of the positions before it.
proof fn lemma_insertion_point<K: SortKey>(
    ranks: Seq<K::Rank>,
    order: Seq<usize>,
    last: int,
    from: int,
) -> (at: int)
    requires
        0 <= last < ranks.len(),
        orders_range::<K>(ranks, 0, last, order),
        0 <= from <= order.len(),
        forall|i: int|
            from <= i < order.len() ==> goes_before::<K>(ranks, last, #[trigger] order[i] as int),
    ensures
        0 <= at <= order.len(),
        forall|i: int|
            0 <= i < at ==> goes_before::<K>(ranks, #[trigger] order[i] as int, last),
        forall|i: int|
            at <= i < order.len() ==> goes_before::<K>(ranks, last, #[trigger] order[i] as int),
    decreases from,
{
    if from == 0 {
        0
    } else {
        let p = order[from - 1] as int;
        K::rank_total(ranks[p], ranks[last]);
        if K::rank_le(ranks[p], ranks[last]) {
            assert forall|i: int| 0 <= i < from implies goes_before::<K>(
                ranks,
                #[trigger] order[i] as int,
                last,
            ) by {
                if i < from - 1 {
                    lemma_goes_before_transitive::<K>(ranks, order[i] as int, p, last);
                }
            }
            from
        } else {
            lemma_insertion_point::<K>(ranks, order, last, from - 1)
        }
    }
}

/// The stable order is one.
pub proof fn lemma_stable_order<K: SortKey>(ranks: Seq<K::Rank>)
    requires
        ranks.len() <= usize::MAX,
    ensures
        is_stable_order::<K>(ranks, stable_order::<K>(ranks)),
        stable_order::<K>(ranks).len() == ranks.len(),
        stable_order::<K>(ranks).no_duplicates(),
{
    let order = lemma_order_exists::<K>(ranks, ranks.len() as int);
    assert(is_stable_order::<K>(ranks, order));
    lemma_order_len::<K>(ranks, stable_order::<K>(ranks));
    lemma_order_no_duplicates::<K>(ranks, 0, ranks.len() as int, stable_order::<K>(ranks));
}

pub(crate) proof fn lemma_filter_map_add<A, B>(a: Seq<A>, b: Seq<A>, f: spec_fn(A) -> Option<B>)
    ensures
        (a + b).filter_map(f) == a.filter_map(f) + b.filter_map(f),
    decreases b.len(),
{
    if b.len() == 0 {
        assert(a + b =~= a);
    } else {
        assert((a + b).drop_last() =~= a + b.drop_last());
        lemma_filter_map_add(a, b.drop_last(), f);
    }
}

/// What is picked from two listings of the same things is the same, the order
/// aside.
pub proof fn lemma_filter_map_multiset<A, B>(a: Seq<A>, b: Seq<A>, f: spec_fn(A) -> Option<B>)
    requires
        a.to_multiset() == b.to_multiset(),
    ensures
        a.filter_map(f).to_multiset() == b.filter_map(f).to_multiset(),
    decreases a.len(),
{
    broadcast use vstd::seq_lib::group_to_multiset_ensures;
    broadcast use vstd::multiset::group_multiset_axioms;

    assert(a.to_multiset().len() == a.len() && b.to_multiset().len() == b.len());
    if a.len() == 0 {
        assert(a =~= b);
    } else {
        let x = a.last();
        assert(a.contains(x));
        assert(a.to_multiset().count(x) > 0);
        assert(b.contains(x));
        let k = b.index_of(x);
        let left = b.take(k);
        let right = b.skip(k + 1);
        let rest = b.remove(k);
        assert(rest =~= left + right);
        assert(b =~= left + seq![x] + right);
        assert(a =~= a.drop_last().push(x));
        assert(a.drop_last().to_multiset() =~= rest.to_multiset()) by {
            assert(a.remove(a.len() - 1) =~= a.drop_last());
        }
        lemma_filter_map_multiset(a.drop_last(), rest, f);
        lemma_filter_map_add(left + seq![x], right, f);
        lemma_filter_map_add(left, seq![x], f);
        lemma_filter_map_add(left, right, f);
        reveal_with_fuel(Seq::filter_map, 2);
        assert(seq![x].drop_last() =~= Seq::<A>::empty());
        match f(x) {
            None => {
                assert(seq![x].filter_map(f) =~= Seq::<B>::empty());
                assert(b.filter_map(f) =~= rest.filter_map(f));
                assert(a.filter_map(f) == a.drop_last().filter_map(f));
            },
            Some(y) => {
                assert(seq![x].filter_map(f) =~= seq![y]);
                let fl = left.filter_map(f);
                let fr = right.filter_map(f);
                assert(b.filter_map(f) =~= fl + seq![y] + fr);
                assert((fl + seq![y] + fr).remove(fl.len() as int) =~= fl + fr);
                assert((fl + seq![y] + fr)[fl.len() as int] == y);
                assert((fl + fr).to_multiset().insert(y) =~= (fl + seq![y] + fr).to_multiset())
                    by {
                    assert((fl + seq![y] + fr).contains(y));
                    assert((fl + fr).to_multiset() =~= (fl + seq![y]
                        + fr).to_multiset().remove(y));
                }
                assert(a.filter_map(f) =~= a.drop_last().filter_map(f).push(y));
            },
        }
    }
}

/// Picking gives no more than there is.
pub(crate) proof fn lemma_filter_map_len<A, B>(a: Seq<A>, f: spec_fn(A) -> Option<B>)
    ensures
        a.filter_map(f).len() <= a.len(),
    decreases a.len(),
{
    if a.len() > 0 {
        lemma_filter_map_len(a.drop_last(), f);
    }
}

/// What was picked was picked from somewhere.
pub(crate) proof fn lemma_filter_map_from<A, B>(
    a: Seq<A>,
    f: spec_fn(A) -> Option<B>,
    k: int,
) -> (i: int)
    requires
        0 <= k < a.filter_map(f).len(),
    ensures
        0 <= i < a.len(),
        f(a[i]) == Some(a.filter_map(f)[k]),
    decreases a.len(),
{
    let front = a.drop_last().filter_map(f);
    if k < front.len() {
        lemma_filter_map_from(a.drop_last(), f, k)
    } else {
        a.len() - 1
    }
}

/// Nothing that is to be picked is left out.
pub(crate) proof fn lemma_filter_map_contains<A, B>(
    a: Seq<A>,
    f: spec_fn(A) -> Option<B>,
    i: int,
)
    requires
        0 <= i < a.len(),
        f(a[i]) is Some,
    ensures
        a.filter_map(f).contains(f(a[i])->0),
    decreases a.len(),
{
    let y = f(a[i])->0;
    let front = a.drop_last().filter_map(f);
    if i < a.len() - 1 {
        lemma_filter_map_contains(a.drop_last(), f, i);
        let k = front.index_of(y);
        assert(a.filter_map(f)[k] == y);
    } else {
        assert(a.filter_map(f)[front.len() as int] == y);
    }
}

/// Picking that leaves nothing out is mapping.
pub(crate) proof fn lemma_filter_map_total<A, B>(
    a: Seq<A>,
    f: spec_fn(A) -> Option<B>,
    g: spec_fn(A) -> B,
)
    requires
        forall|x: A| #[trigger] f(x) == Some(g(x)),
    ensures
        a.filter_map(f) == a.map_values(g),
    decreases a.len(),
{
    if a.len() > 0 {
        lemma_filter_map_total(a.drop_last(), f, g);
        assert(f(a.last()) == Some(g(a.last())));
        assert(a.map_values(g) =~= a.drop_last().map_values(g) + seq![g(a.last())]);
    } else {
        assert(a.map_values(g) =~= Seq::<B>::empty());
    }
}

/// Sorting keeps every row as often as it was there, and puts the ranks in
/// order.
pub proof fn law_sorted_by<K: SortKey, T>(rows: Seq<T>, ranks: Seq<K::Rank>)
    requires
        rows.len() == ranks.len(),
        ranks.len() <= usize::MAX,
    ensures
        sorted_by::<K, T>(rows, ranks).to_multiset() == rows.to_multiset(),
        sorted_by::<K, T>(rows, ranks).len() == rows.len(),
        forall|i: int, j: int|
            0 <= i < j < rows.len() ==> K::rank_le(
                #[trigger] sorted_by::<K, K::Rank>(ranks, ranks)[i],
                #[trigger] sorted_by::<K, K::Rank>(ranks, ranks)[j],
            ),
{
    broadcast use vstd::seq_lib::group_to_multiset_ensures;
    broadcast use vstd::multiset::group_multiset_axioms;

    let order = stable_order::<K>(ranks);
    let n = ranks.len();
    lemma_stable_order::<K>(ranks);
    let all = Seq::<usize>::new(n, |i: int| i as usize);
    assert(all.no_duplicates());
    order.lemma_multiset_has_no_duplicates();
    all.lemma_multiset_has_no_duplicates();
    assert(order.to_multiset() =~= all.to_multiset()) by {
        assert forall|p: usize| #[trigger] order.to_multiset().count(p) == all.to_multiset().count(
            p,
        ) by {
            if p < n {
                assert(order.contains(p));
                assert(all[p as int] == p);
                assert(all.contains(p));
            } else {
                if order.contains(p) {
                    let i = order.index_of(p);
                    assert(order[i] < n);
                }
                if all.contains(p) {
                    let i = all.index_of(p);
                }
            }
        }
    }
    let pick = |p: usize| rows[p as int];
    let keep = |p: usize| Some(pick(p));
    lemma_filter_map_multiset(order, all, keep);
    lemma_filter_map_total(order, keep, pick);
    lemma_filter_map_total(all, keep, pick);
    assert(all.map_values(pick) =~= rows);
    assert(arranged(rows, order) =~= order.map_values(pick));
    let sorted = sorted_by::<K, K::Rank>(ranks, ranks);
    assert forall|i: int, j: int| 0 <= i < j < n implies K::rank_le(
        #[trigger] sorted[i],
        #[trigger] sorted[j],
    ) by {
        assert(goes_before::<K>(ranks, order[i] as int, order[j] as int));
    }
}

/// Whether `rows` are in the order of the ranks that `g` gives them.
spec fn in_order<K: SortKey, T>(rows: Seq<T>, g: spec_fn(T) -> K::Rank) -> bool {
    forall|i: int, j: int|
        0 <= i < j < rows.len() ==> K::rank_le(g(#[trigger] rows[i]), g(#[trigger] rows[j]))
}

/// Whether no two different rows have the same rank.
pub open spec fn ranks_tell<K: SortKey, T>(rows: Seq<T>, g: spec_fn(T) -> K::Rank) -> bool {
    forall|p: T, q: T|
        #[trigger] rows.contains(p) && #[trigger] rows.contains(q) && K::rank_le(g(p), g(q))
            && K::rank_le(g(q), g(p)) ==> p == q
}

proof fn lemma_in_order_unique<K: SortKey, T>(x: Seq<T>, y: Seq<T>, g: spec_fn(T) -> K::Rank)
    requires
        x.to_multiset() == y.to_multiset(),
        in_order::<K, T>(x, g),
        in_order::<K, T>(y, g),
        ranks_tell::<K, T>(x, g),
    ensures
        x == y,
    decreases x.len(),
{
    broadcast use vstd::seq_lib::group_to_multiset_ensures;
    broadcast use vstd::multiset::group_multiset_axioms;

    assert(x.to_multiset().len() == x.len() && y.to_multiset().len() == y.len());
    if x.len() == 0 {
        assert(x =~= y);
    } else {
        assert(x.contains(x[0]) && y.contains(y[0]));
        assert(x.to_multiset().count(x[0]) > 0 && y.to_multiset().count(y[0]) > 0);
        let i = x.index_of(y[0]);
        let j = y.index_of(x[0]);
        assert(x.contains(y[0]) && y.contains(x[0]));
        K::rank_total(g(x[0]), g(x[0]));
        K::rank_total(g(y[0]), g(y[0]));
        assert(K::rank_le(g(x[0]), g(x[i])));
        assert(K::rank_le(g(y[0]), g(y[j])));
        assert(x[0] == y[0]);
        let a = x.drop_first();
        let b = y.drop_first();
        assert(x.remove(0) =~= a && y.remove(0) =~= b);
        assert(a.to_multiset() =~= b.to_multiset());
        assert forall|p: T| a.contains(p) implies x.contains(p) by {
            let k = a.index_of(p);
            assert(x[k + 1] == p);
        }
        assert forall|k: int, l: int| 0 <= k < l < a.len() implies K::rank_le(
            g(#[trigger] a[k]),
            g(#[trigger] a[l]),
        ) by {
            assert(a[k] == x[k + 1] && a[l] == x[l + 1]);
        }
        assert forall|k: int, l: int| 0 <= k < l < b.len() implies K::rank_le(
            g(#[trigger] b[k]),
            g(#[trigger] b[l]),
        ) by {
            assert(b[k] == y[k + 1] && b[l] == y[l + 1]);
        }
        lemma_in_order_unique::<K, T>(a, b, g);
        assert(x =~= seq![x[0]] + a);
        assert(y =~= seq![y[0]] + b);
    }
}

proof fn lemma_sorted_in_order<K: SortKey, T>(rows: Seq<T>, g: spec_fn(T) -> K::Rank)
    requires
        rows.len() <= usize::MAX,
    ensures
        in_order::<K, T>(sorted_by::<K, T>(rows, rows.map_values(g)), g),
        sorted_by::<K, T>(rows, rows.map_values(g)).to_multiset() == rows.to_multiset(),
{
    let ranks = rows.map_values(g);
    law_sorted_by::<K, T>(rows, ranks);
    lemma_stable_order::<K>(ranks);
    let order = stable_order::<K>(ranks);
    let sorted = sorted_by::<K, T>(rows, ranks);
    assert forall|i: int, j: int| 0 <= i < j < sorted.len() implies K::rank_le(
        g(#[trigger] sorted[i]),
        g(#[trigger] sorted[j]),
    ) by {
        assert(goes_before::<K>(ranks, order[i] as int, order[j] as int));
    }
}

/// Where the ranks tell the rows apart, sorting forgets the order that the rows
/// came in: rows that are the same but for their order are sorted to the same
/// rows.
pub proof fn law_sorting_forgets_order<K: SortKey, T>(
    a: Seq<T>,
    b: Seq<T>,
    g: spec_fn(T) -> K::Rank,
)
    requires
        a.to_multiset() == b.to_multiset(),
        a.len() <= usize::MAX,
        ranks_tell::<K, T>(a, g),
    ensures
        sorted_by::<K, T>(a, a.map_values(g)) == sorted_by::<K, T>(b, b.map_values(g)),
{
    broadcast use vstd::seq_lib::group_to_multiset_ensures;

    assert(a.to_multiset().len() == a.len() && b.to_multiset().len() == b.len());
    lemma_sorted_in_order::<K, T>(a, g);
    lemma_sorted_in_order::<K, T>(b, g);
    let x = sorted_by::<K, T>(a, a.map_values(g));
    assert forall|p: T| x.contains(p) implies a.contains(p) by {
        assert(x.to_multiset().count(p) > 0);
        assert(a.to_multiset().count(p) > 0);
    }
    lemma_in_order_unique::<K, T>(x, sorted_by::<K, T>(b, b.map_values(g)), g);
}

// ---------------------------------------------------------------------------
// Sets and maps in ascending order
// ---------------------------------------------------------------------------

/// Whether each number is less than the next.
pub open spec fn is_ascending(s: Seq<u32>) -> bool {
    forall|i: int, j: int| 0 <= i < j < s.len() ==> #[trigger] s[i] < #[trigger] s[j]
}

/// The numbers of a set, in ascending order.
pub open spec fn ascending(set: Set<u32>) -> Seq<u32> {
    choose|s: Seq<u32>| is_ascending(s) && s.to_set() == set
}

proof fn lemma_ascending_unique(a: Seq<u32>, b: Seq<u32>)
    requires
        is_ascending(a),
        is_ascending(b),
        a.to_set() == b.to_set(),
    ensures
        a == b,
    decreases a.len(),
{
    if a.len() == 0 {
        if b.len() > 0 {
            assert(b.to_set().contains(b[0]));
            assert(a.contains(b[0]));
        }
        assert(a =~= b);
    } else {
        assert(a.to_set().contains(a.last()));
        assert(b.contains(a.last()));
        assert(b.to_set().contains(b.last()));
        assert(a.contains(b.last()));
        let p = b.index_of(a.last());
        let q = a.index_of(b.last());
        assert(a.last() == b.last()) by {
            if q < a.len() - 1 {
                assert(a[q] < a[a.len() - 1]);
            }
            if p < b.len() - 1 {
                assert(b[p] < b[b.len() - 1]);
            }
        }
        let x = a.drop_last();
        let y = b.drop_last();
        assert forall|v: u32| x.to_set().contains(v) <==> y.to_set().contains(v) by {
            if x.contains(v) {
                let i = x.index_of(v);
                assert(a[i] == v && v < a.last());
                assert(a.to_set().contains(v));
                assert(b.contains(v));
                let j = b.index_of(v);
                assert(y[j] == v);
            }
            if y.contains(v) {
                let i = y.index_of(v);
                assert(b[i] == v && v < b.last());
                assert(b.to_set().contains(v));
                assert(a.contains(v));
                let j = a.index_of(v);
                assert(x[j] == v);
            }
        }
        assert(x.to_set() =~= y.to_set());
        lemma_ascending_unique(x, y);
        assert(a =~= x.push(a.last()));
        assert(b =~= y.push(b.last()));
    }
}

proof fn lemma_ascending_below(set: Set<u32>, n: int) -> (s: Seq<u32>)
    requires
        0 <= n <= 0x1_0000_0000,
    ensures
        is_ascending(s),
        forall|v: u32| #[trigger] s.contains(v) <==> set.contains(v) && v < n,
    decreases n,
{
    if n == 0 {
        Seq::empty()
    } else {
        let before = lemma_ascending_below(set, n - 1);
        let last = (n - 1) as u32;
        if set.contains(last) {
            let s = before.push(last);
            assert forall|i: int, j: int| 0 <= i < j < s.len() implies #[trigger] s[i]
                < #[trigger] s[j] by {
                if j == before.len() {
                    assert(before.contains(before[i]));
                }
            }
            assert forall|v: u32| #[trigger] s.contains(v) <==> set.contains(v) && v < n by {
                if before.contains(v) {
                    assert(s[before.index_of(v)] == v);
                }
                if v == last {
                    assert(s[before.len() as int] == v);
                }
                if s.contains(v) {
                    let i = s.index_of(v);
                    if i < before.len() {
                        assert(before[i] == v);
                        assert(before.contains(v));
                    }
                }
            }
            s
        } else {
            assert forall|v: u32| #[trigger] before.contains(v) <==> set.contains(v) && v < n by {
                assert(set.contains(v) ==> v != last);
            }
            before
        }
    }
}

/// The numbers of a set can be listed in ascending order in exactly one way.
pub proof fn law_ascending(set: Set<u32>)
    ensures
        is_ascending(ascending(set)),
        ascending(set).to_set() == set,
        forall|s: Seq<u32>| #[trigger] is_ascending(s) && s.to_set() == set ==> s == ascending(set),
{
    let s = lemma_ascending_below(set, 0x1_0000_0000);
    assert forall|v: u32| s.to_set().contains(v) <==> set.contains(v) by {
        assert(s.contains(v) <==> set.contains(v));
    }
    assert(s.to_set() =~= set);
    assert forall|t: Seq<u32>| #[trigger] is_ascending(t) && t.to_set() == set implies t
        == ascending(set) by {
        lemma_ascending_unique(t, ascending(set));
    }
}

/// The keys of a map, in ascending order.
pub fn keys_of<V>(map: &BTreeMap<u32, V>) -> (keys: Vec<u32>)
    ensures
        keys@ == ascending(map@.dom()),
        is_ascending(keys@),
        keys@.to_set() == map@.dom(),
{
    broadcast use vstd::std_specs::btree::group_btree_axioms;
    broadcast use vstd::laws_cmp::group_laws_cmp;

    let ghost listed = vstd::std_specs::iter::IteratorSpec::remaining(&map.iter()).map_values(
        |kv: (&u32, &V)| *kv.0,
    );
    let mut keys: Vec<u32> = Vec::new();
    for kv in it: map.iter()
        invariant
            listed == it.seq().map_values(|kv: (&u32, &V)| *kv.0),
            keys@ == listed.take(it.index()),
    {
        keys.push(*kv.0);
        assert(keys@ =~= listed.take(it.index() + 1));
    }
    proof {
        assert(keys@ =~= listed);
        assert(vstd::std_specs::btree::increasing_seq(listed));
        assert forall|i: int, j: int| 0 <= i < j < listed.len() implies #[trigger] listed[i]
            < #[trigger] listed[j] by {
            assert(vstd::std_specs::cmp::OrdSpec::cmp_spec(&listed[i], &listed[j]) is Less);
        }
        let pairs = vstd::std_specs::iter::IteratorSpec::remaining(&map.iter());
        assert forall|k: u32| listed.to_set().contains(k) <==> map@.dom().contains(k) by {
            if listed.contains(k) {
                let i = listed.index_of(k);
                assert(map@.contains_key(*pairs[i].0));
            }
            if map@.contains_key(k) {
                assert(pairs.contains((&k, &map@[k])));
                let i = pairs.index_of((&k, &map@[k]));
                assert(listed[i] == k);
            }
        }
        assert(listed.to_set() =~= map@.dom());
        lemma_ascending_unique(keys@, ascending(map@.dom()));
    }
    keys
}

/// What a map holds under a 32-bit key.
pub fn lookup32<V>(map: &BTreeMap<u32, V>, key: u32) -> (found: Option<&V>)
    ensures
        match found {
            Some(value) => map@.contains_key(key) && *value == map@[key],
            None => !map@.contains_key(key),
        },
{
    broadcast use vstd::std_specs::btree::group_btree_axioms;
    broadcast use vstd::laws_cmp::group_laws_cmp;

    map.get(&key)
}

/// What a map holds under a 64-bit key.
pub fn lookup64<V>(map: &BTreeMap<u64, V>, key: u64) -> (found: Option<&V>)
    ensures
        match found {
            Some(value) => map@.contains_key(key) && *value == map@[key],
            None => !map@.contains_key(key),
        },
{
    broadcast use vstd::std_specs::btree::group_btree_axioms;
    broadcast use vstd::laws_cmp::group_laws_cmp;

    map.get(&key)
}

fn note(seen: &mut BTreeMap<u32, ()>, value: u32)
    ensures
        final(seen)@.dom() == old(seen)@.dom().insert(value),
{
    broadcast use vstd::std_specs::btree::group_btree_axioms;
    broadcast use vstd::laws_cmp::group_laws_cmp;

    seen.insert(value, ());
    assert(seen@.dom() =~= old(seen)@.dom().insert(value));
}

/// The numbers of a list, each once, in ascending order.
pub fn ascending_distinct(values: &Vec<u32>) -> (distinct: Vec<u32>)
    ensures
        distinct@ == ascending(values@.to_set()),
        is_ascending(distinct@),
        distinct@.to_set() == values@.to_set(),
{
    let mut seen: BTreeMap<u32, ()> = BTreeMap::new();
    let mut i: usize = 0;
    assert(seen@.dom() =~= values@.take(0).to_set());
    while i < values.len()
        invariant
            i <= values.len(),
            seen@.dom() == values@.take(i as int).to_set(),
        decreases values.len() - i,
    {
        note(&mut seen, values[i]);
        assert(values@.take(i + 1) =~= values@.take(i as int) + seq![values@[i as int]]);
        proof {
            Seq::lemma_to_set_insert_commutes(values@.take(i as int), values@[i as int]);
        }
        i += 1;
    }
    assert(values@.take(values@.len() as int) =~= values@);
    keys_of(&seen)
}

// ---------------------------------------------------------------------------
// Positions
// ---------------------------------------------------------------------------

/// Whether `at` holds each position below `n` that is wanted, once, and no other.
pub open spec fn positions_of(at: Seq<int>, n: int, wanted: spec_fn(int) -> bool) -> bool {
    &&& at.no_duplicates()
    &&& forall|k: int| 0 <= k < at.len() ==> 0 <= #[trigger] at[k] < n && wanted(at[k])
    &&& forall|i: int| 0 <= i < n && #[trigger] wanted(i) ==> at.contains(i)
}

/// Whether numbers are strictly ascending.
pub open spec fn climbs(at: Seq<int>) -> bool {
    forall|k: int, l: int| 0 <= k < l < at.len() ==> #[trigger] at[k] < #[trigger] at[l]
}

/// The positions that something is picked from.
pub open spec fn picked<A, B>(a: Seq<A>, f: spec_fn(A) -> Option<B>) -> Seq<int>
    decreases a.len(),
{
    if a.len() == 0 {
        Seq::empty()
    } else {
        let before = picked(a.drop_last(), f);
        if f(a.last()) is Some {
            before.push(a.len() - 1)
        } else {
            before
        }
    }
}

pub(crate) proof fn lemma_picked<A, B>(a: Seq<A>, f: spec_fn(A) -> Option<B>)
    ensures
        picked(a, f).len() == a.filter_map(f).len(),
        forall|k: int|
            0 <= k < picked(a, f).len() ==> 0 <= #[trigger] picked(a, f)[k] < a.len() && f(
                a[picked(a, f)[k]],
            ) == Some(a.filter_map(f)[k]),
        climbs(picked(a, f)),
        picked(a, f).no_duplicates(),
        forall|i: int|
            0 <= i < a.len() && f(#[trigger] a[i]) is Some ==> picked(a, f).contains(i),
    decreases a.len(),
{
    if a.len() > 0 {
        let front = a.drop_last();
        let before = picked(front, f);
        let all = picked(a, f);
        lemma_picked(front, f);
        assert forall|k: int| 0 <= k < all.len() implies 0 <= #[trigger] all[k] < a.len() && f(
            a[all[k]],
        ) == Some(a.filter_map(f)[k]) by {
            if k < before.len() {
                assert(all[k] == before[k]);
                assert(front[before[k]] == a[before[k]]);
            }
        }
        assert forall|k: int, l: int| 0 <= k < l < all.len() implies #[trigger] all[k]
            < #[trigger] all[l] by {
            assert(all[k] == before[k]);
            if l < before.len() {
                assert(all[l] == before[l]);
            }
        }
        assert forall|i: int| 0 <= i < a.len() && f(#[trigger] a[i]) is Some implies all.contains(
            i,
        ) by {
            if i < front.len() {
                assert(front[i] == a[i]);
                let k = before.index_of(i);
                assert(all[k] == i);
            } else {
                assert(all[before.len() as int] == i);
            }
        }
    }
}

/// Where sorted rows come from: each row from a position of its own, by rank,
/// and rows of the same rank in the order in which they came.
pub proof fn law_sorted_from<K: SortKey, T>(rows: Seq<T>, ranks: Seq<K::Rank>) -> (at: Seq<int>)
    requires
        rows.len() == ranks.len(),
        ranks.len() <= usize::MAX,
    ensures
        at.len() == rows.len(),
        sorted_by::<K, T>(rows, ranks).len() == rows.len(),
        positions_of(at, rows.len() as int, |i: int| true),
        forall|k: int|
            0 <= k < at.len() ==> sorted_by::<K, T>(rows, ranks)[k] == rows[#[trigger] at[k]],
        forall|k: int, l: int|
            0 <= k < l < at.len() ==> {
                &&& K::rank_le(ranks[#[trigger] at[k]], ranks[#[trigger] at[l]])
                &&& K::rank_le(ranks[at[l]], ranks[at[k]]) ==> at[k] < at[l]
            },
{
    lemma_stable_order::<K>(ranks);
    let order = stable_order::<K>(ranks);
    let at = order.map_values(|p: usize| p as int);
    assert forall|i: int| 0 <= i < rows.len() implies #[trigger] at.contains(i) by {
        assert(order.contains(i as usize));
        let k = order.index_of(i as usize);
        assert(at[k] == i);
    }
    assert forall|k: int, l: int| 0 <= k < l < at.len() implies {
        &&& K::rank_le(ranks[#[trigger] at[k]], ranks[#[trigger] at[l]])
        &&& K::rank_le(ranks[at[l]], ranks[at[k]]) ==> at[k] < at[l]
    } by {
        assert(goes_before::<K>(ranks, order[k] as int, order[l] as int));
    }
    at
}

/// Where rows come from that are picked and then sorted.
pub(crate) proof fn lemma_picked_sorted<K: SortKey, A, T>(
    a: Seq<A>,
    f: spec_fn(A) -> Option<T>,
    ranks: Seq<K::Rank>,
) -> (at: Seq<int>)
    requires
        a.len() <= usize::MAX,
        ranks.len() == a.filter_map(f).len(),
    ensures
        positions_of(at, a.len() as int, |i: int| f(a[i]) is Some),
        at.len() == sorted_by::<K, T>(a.filter_map(f), ranks).len(),
        forall|k: int|
            0 <= k < at.len() ==> f(a[#[trigger] at[k]]) == Some(
                sorted_by::<K, T>(a.filter_map(f), ranks)[k],
            ),
        forall|k: int, l: int|
            0 <= k < l < at.len() ==> {
                let x = sorted_by::<K, K::Rank>(ranks, ranks)[k];
                let y = sorted_by::<K, K::Rank>(ranks, ranks)[l];
                &&& K::rank_le(x, y)
                &&& K::rank_le(y, x) ==> #[trigger] at[k] < #[trigger] at[l]
            },
{
    let found = a.filter_map(f);
    let from = picked(a, f);
    lemma_picked(a, f);
    lemma_filter_map_len(a, f);
    let order = stable_order::<K>(ranks);
    lemma_stable_order::<K>(ranks);
    let place = Seq::new(order.len(), |k: int| from[order[k] as int]);
    assert forall|k: int, l: int| 0 <= k < l < place.len() implies {
        let x = sorted_by::<K, K::Rank>(ranks, ranks)[k];
        let y = sorted_by::<K, K::Rank>(ranks, ranks)[l];
        &&& K::rank_le(x, y)
        &&& K::rank_le(y, x) ==> #[trigger] place[k] < #[trigger] place[l]
    } by {
        assert(goes_before::<K>(ranks, order[k] as int, order[l] as int));
        assert(0 <= order[k] < from.len() && 0 <= order[l] < from.len());
    }
    assert(place.no_duplicates()) by {
        assert forall|k: int, l: int| 0 <= k < place.len() && 0 <= l < place.len() && k != l implies
            place[k] != place[l] by {
            assert(order[k] != order[l]);
            assert(0 <= order[k] < from.len() && 0 <= order[l] < from.len());
        }
    }
    let wanted = |i: int| f(a[i]) is Some;
    assert forall|k: int| 0 <= k < place.len() implies 0 <= #[trigger] place[k] < a.len() && wanted(
        place[k],
    ) by {
        assert(0 <= order[k] < from.len());
        assert(place[k] == from[order[k] as int]);
    }
    assert forall|i: int| 0 <= i < a.len() && #[trigger] wanted(i) implies place.contains(i) by {
        assert(f(a[i]) is Some);
        let m = from.index_of(i);
        assert(order.contains(m as usize));
        let k = order.index_of(m as usize);
        assert(place[k] == i);
    }
    assert forall|k: int| 0 <= k < place.len() implies f(a[#[trigger] place[k]]) == Some(
        sorted_by::<K, T>(found, ranks)[k],
    ) by {
        assert(0 <= order[k] < from.len());
        assert(place[k] == from[order[k] as int]);
    }
    place
}

/// Whether `at` lists exactly the valid pairs, each once: by the first number,
/// and then by the second.
pub open spec fn lists_all(at: Seq<(u32, int)>, valid: spec_fn(u32, int) -> bool) -> bool {
    &&& forall|k: int| 0 <= k < at.len() ==> valid((#[trigger] at[k]).0, at[k].1)
    &&& forall|k: int, l: int|
        0 <= k < l < at.len() ==> (#[trigger] at[k]).0 < (#[trigger] at[l]).0 || (at[k].0
            == at[l].0 && at[k].1 < at[l].1)
    &&& forall|a: u32, b: int| #[trigger] valid(a, b) ==> at.contains((a, b))
}

/// The positions for each key, key by key.
pub open spec fn gathered(keys: Seq<u32>, within: spec_fn(u32) -> Seq<int>) -> Seq<(u32, int)>
    decreases keys.len(),
{
    if keys.len() == 0 {
        Seq::empty()
    } else {
        gathered(keys.drop_last(), within) + within(keys.last()).map_values(
            |i: int| (keys.last(), i),
        )
    }
}

pub(crate) proof fn lemma_gathered(keys: Seq<u32>, within: spec_fn(u32) -> Seq<int>)
    requires
        is_ascending(keys),
        forall|key: u32| keys.contains(key) ==> climbs(#[trigger] within(key)),
    ensures
        lists_all(
            gathered(keys, within),
            |key: u32, i: int| keys.contains(key) && within(key).contains(i),
        ),
    decreases keys.len(),
{
    let all = gathered(keys, within);
    let valid = |key: u32, i: int| keys.contains(key) && within(key).contains(i);
    if keys.len() > 0 {
        let front = keys.drop_last();
        let last = keys.last();
        let before = gathered(front, within);
        let own = within(last);
        assert forall|key: u32| front.contains(key) implies #[trigger] keys.contains(key) && key
            < last by {
            let k = front.index_of(key);
            assert(keys[k] == key);
            assert(keys[k] < keys[keys.len() - 1]);
        }
        assert(keys.contains(last)) by {
            assert(keys[keys.len() - 1] == last);
        }
        assert forall|key: u32| front.contains(key) implies climbs(#[trigger] within(key)) by {
            assert(keys.contains(key));
        }
        lemma_gathered(front, within);
        let inner = |key: u32, i: int| front.contains(key) && within(key).contains(i);
        assert(lists_all(before, inner));
        assert forall|k: int| 0 <= k < all.len() implies valid((#[trigger] all[k]).0, all[k].1) by {
            if k < before.len() {
                assert(all[k] == before[k]);
                assert(inner(before[k].0, before[k].1));
            } else {
                assert(own.contains(own[k - before.len()]));
            }
        }
        assert forall|k: int, l: int| 0 <= k < l < all.len() implies (#[trigger] all[k]).0 < (
        #[trigger] all[l]).0 || (all[k].0 == all[l].0 && all[k].1 < all[l].1) by {
            if l < before.len() {
                assert(all[k] == before[k] && all[l] == before[l]);
            } else if k < before.len() {
                assert(all[k] == before[k]);
                assert(inner(before[k].0, before[k].1));
                assert(front.contains(before[k].0));
            } else {
                assert(own[k - before.len()] < own[l - before.len()]);
            }
        }
        assert forall|key: u32, i: int| #[trigger] valid(key, i) implies all.contains((key, i)) by {
            if key == last {
                let k = own.index_of(i);
                assert(all[before.len() + k] == (key, i));
            } else {
                let m = keys.index_of(key);
                assert(front[m] == key);
                assert(inner(key, i));
                let k = before.index_of((key, i));
                assert(all[k] == (key, i));
            }
        }
    }
}

} // verus!
