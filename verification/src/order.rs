//! Orders: texts by their bytes, and a stable sort.

use crate::text;
use vstd::prelude::*;

verus! {

// ---------------------------------------------------------------------------
// Texts by their bytes
// ---------------------------------------------------------------------------

/// Whether a byte string comes before another: at the first difference the smaller byte decides,
/// and a beginning comes before the whole.
pub open spec fn bytes_before(a: Seq<u8>, b: Seq<u8>) -> bool
    decreases a.len(),
{
    if b.len() == 0 {
        false
    } else if a.len() == 0 {
        true
    } else if a[0] != b[0] {
        a[0] < b[0]
    } else {
        bytes_before(a.drop_first(), b.drop_first())
    }
}

/// Whether a text comes before another, byte by byte in UTF-8.
pub open spec fn text_before(a: Seq<char>, b: Seq<char>) -> bool {
    bytes_before(vstd::utf8::encode_utf8(a), vstd::utf8::encode_utf8(b))
}

proof fn lemma_bytes_order(a: Seq<u8>, b: Seq<u8>, c: Seq<u8>)
    ensures
        !bytes_before(a, a),
        bytes_before(a, b) && bytes_before(b, c) ==> bytes_before(a, c),
        bytes_before(a, b) || a == b || bytes_before(b, a),
        !(bytes_before(a, b) && bytes_before(b, a)),
    decreases a.len() + b.len() + c.len(),
{
    if a.len() > 0 && b.len() > 0 && c.len() > 0 {
        lemma_bytes_order(a.drop_first(), b.drop_first(), c.drop_first());
        if a.drop_first() == b.drop_first() && a[0] == b[0] {
            assert(a =~= seq![a[0]] + a.drop_first());
            assert(b =~= seq![b[0]] + b.drop_first());
        }
    } else if a.len() > 0 && b.len() > 0 {
        lemma_bytes_order(a.drop_first(), b.drop_first(), c);
        if a.drop_first() == b.drop_first() && a[0] == b[0] {
            assert(a =~= seq![a[0]] + a.drop_first());
            assert(b =~= seq![b[0]] + b.drop_first());
        }
    } else if a.len() > 0 {
        lemma_bytes_order(a.drop_first(), b, c);
        lemma_not_before_itself(a);
    } else {
        if b.len() == 0 {
            assert(a =~= b);
        }
    }
}

proof fn lemma_not_before_itself(a: Seq<u8>)
    ensures
        !bytes_before(a, a),
    decreases a.len(),
{
    if a.len() > 0 {
        lemma_not_before_itself(a.drop_first());
    }
}

/// The order of texts is total.
pub proof fn texts_are_totally_ordered(a: Seq<char>, b: Seq<char>, c: Seq<char>)
    ensures
        !text_before(a, a),
        text_before(a, b) && text_before(b, c) ==> text_before(a, c),
        text_before(a, b) || a == b || text_before(b, a),
        !(text_before(a, b) && text_before(b, a)),
{
    lemma_bytes_order(
        vstd::utf8::encode_utf8(a),
        vstd::utf8::encode_utf8(b),
        vstd::utf8::encode_utf8(c),
    );
    text::encoding_determines_text(a, b);
}

/// Whether a byte string comes before another.
fn bytes_come_before(a: &[u8], b: &[u8]) -> (r: bool)
    ensures
        r == bytes_before(a@, b@),
{
    let mut i: usize = 0;
    assert(a@.skip(0) =~= a@);
    assert(b@.skip(0) =~= b@);
    while i < a.len() && i < b.len() && a[i] == b[i]
        invariant
            i <= a@.len(),
            i <= b@.len(),
            bytes_before(a@, b@) == bytes_before(a@.skip(i as int), b@.skip(i as int)),
        decreases a@.len() - i,
    {
        assert(a@.skip(i as int).drop_first() =~= a@.skip(i + 1));
        assert(b@.skip(i as int).drop_first() =~= b@.skip(i + 1));
        i = i + 1;
    }
    if i >= b.len() {
        false
    } else if i >= a.len() {
        true
    } else {
        a[i] < b[i]
    }
}

/// Whether a text comes before another.
pub fn comes_before(a: &str, b: &str) -> (r: bool)
    ensures
        r == text_before(a@, b@),
{
    bytes_come_before(a.as_bytes(), b.as_bytes())
}

// ---------------------------------------------------------------------------
// A stable sort
// ---------------------------------------------------------------------------

/// Items of which some go before others.
pub trait Ranked: Sized {
    /// Whether this item goes before another.
    spec fn before(&self, other: &Self) -> bool;

    /// Going before is an order in which items may stand level.
    proof fn before_is_an_order(a: &Self, b: &Self, c: &Self)
        ensures
            !a.before(a),
            a.before(b) && b.before(c) ==> a.before(c),
            !a.before(b) && !b.before(c) ==> !a.before(c),
    ;

    /// Whether this item goes before another.
    fn goes_before(&self, other: &Self) -> (r: bool)
        ensures
            r == self.before(other),
    ;
}

/// Whether the item at one index has to stand before the item at another: level items keep their
/// order.
pub open spec fn stands_before<T: Ranked>(items: Seq<T>, i: int, j: int) -> bool {
    items[i].before(&items[j]) || (!items[j].before(&items[i]) && i < j)
}

/// Whether a list of indices names every item once, in order.
pub open spec fn is_stable_order<T: Ranked>(order: Seq<usize>, items: Seq<T>) -> bool {
    &&& order.len() == items.len()
    &&& forall|k: int| 0 <= k < order.len() ==> #[trigger] order[k] < items.len()
    &&& forall|i: int| 0 <= i < items.len() ==> #[trigger] order.contains(i as usize)
    &&& forall|k: int, l: int|
        0 <= k < l < order.len() ==> stands_before(
            items,
            #[trigger] order[k] as int,
            #[trigger] order[l] as int,
        )
}

/// Whether indices of a part of the items are in order.
spec fn is_sorted<T: Ranked>(order: Seq<usize>, items: Seq<T>, from: int, to: int) -> bool {
    &&& order.len() == to - from
    &&& forall|k: int| 0 <= k < order.len() ==> from <= #[trigger] order[k] < to
    &&& forall|i: int| from <= i < to ==> #[trigger] order.contains(i as usize)
    &&& forall|k: int, l: int|
        0 <= k < l < order.len() ==> stands_before(
            items,
            #[trigger] order[k] as int,
            #[trigger] order[l] as int,
        )
}

proof fn lemma_stands_before<T: Ranked>(items: Seq<T>, i: int, j: int, k: int)
    ensures
        !stands_before(items, i, i),
        stands_before(items, i, j) && stands_before(items, j, k) ==> stands_before(items, i, k),
        stands_before(items, i, j) || i == j || stands_before(items, j, i),
        !(stands_before(items, i, j) && stands_before(items, j, i)),
{
    T::before_is_an_order(&items[i], &items[j], &items[k]);
    T::before_is_an_order(&items[k], &items[j], &items[i]);
    T::before_is_an_order(&items[i], &items[j], &items[i]);
    T::before_is_an_order(&items[j], &items[i], &items[j]);
    T::before_is_an_order(&items[j], &items[k], &items[j]);
    T::before_is_an_order(&items[k], &items[i], &items[j]);
    T::before_is_an_order(&items[j], &items[k], &items[i]);
    T::before_is_an_order(&items[i], &items[k], &items[j]);
    T::before_is_an_order(&items[j], &items[i], &items[k]);
}

/// There is one such list.
pub proof fn stable_orders_are_unique<T: Ranked>(a: Seq<usize>, b: Seq<usize>, items: Seq<T>)
    requires
        items.len() <= usize::MAX,
        is_stable_order(a, items),
        is_stable_order(b, items),
    ensures
        a == b,
{
    lemma_same_prefix(a, b, items, items.len() as int);
    assert(a =~= b);
}

proof fn lemma_same_prefix<T: Ranked>(a: Seq<usize>, b: Seq<usize>, items: Seq<T>, n: int)
    requires
        items.len() <= usize::MAX,
        is_stable_order(a, items),
        is_stable_order(b, items),
        0 <= n <= items.len(),
    ensures
        forall|k: int| 0 <= k < n ==> a[k] == b[k],
    decreases n,
{
    if n > 0 {
        lemma_same_prefix(a, b, items, n - 1);
        let k = n - 1;
        let x = a[k];
        let y = b[k];
        if x != y {
            assert(b.contains(x as int as usize));
            assert(a.contains(y as int as usize));
            let p = choose|p: int| 0 <= p < b.len() && b[p] == x;
            let q = choose|q: int| 0 <= q < a.len() && a[q] == y;
            lemma_stands_before(items, x as int, y as int, x as int);
            if p < k {
                assert(a[p] == x);
                assert(stands_before(items, a[p] as int, a[k] as int));
                assert(false);
            }
            if q < k {
                assert(b[q] == y);
                assert(stands_before(items, b[q] as int, b[k] as int));
                lemma_stands_before(items, y as int, y as int, y as int);
                assert(false);
            }
            assert(stands_before(items, b[k] as int, b[p] as int));
            assert(stands_before(items, a[k] as int, a[q] as int));
            assert(false);
        }
    }
}

/// The order of the items: who goes before whom, and level items as they stand.
pub fn stable_order<T: Ranked>(items: &[T]) -> (order: Vec<usize>)
    ensures
        is_stable_order(order@, items@),
{
    sort_part(items, 0, items.len())
}

/// The order of a part of the items.
fn sort_part<T: Ranked>(items: &[T], from: usize, to: usize) -> (order: Vec<usize>)
    requires
        from <= to <= items@.len(),
    ensures
        is_sorted(order@, items@, from as int, to as int),
    decreases to - from,
{
    let mut order: Vec<usize> = Vec::new();
    if from == to {
        return order;
    }
    if to - from == 1 {
        order.push(from);
        assert(order@[0] == from);
        assert(order@.contains(from));
        return order;
    }
    let middle: usize = from + (to - from) / 2;
    let left = sort_part(items, from, middle);
    let right = sort_part(items, middle, to);
    merge(
        items,
        left.as_slice(),
        right.as_slice(),
        Ghost(from as int),
        Ghost(middle as int),
        Ghost(to as int),
    )
}

/// Merges the orders of two neighbouring parts.
fn merge<T: Ranked>(
    items: &[T],
    left: &[usize],
    right: &[usize],
    Ghost(from): Ghost<int>,
    Ghost(middle): Ghost<int>,
    Ghost(to): Ghost<int>,
) -> (order: Vec<usize>)
    requires
        0 <= from <= middle <= to <= items@.len(),
        is_sorted(left@, items@, from, middle),
        is_sorted(right@, items@, middle, to),
    ensures
        is_sorted(order@, items@, from, to),
{
    let mut order: Vec<usize> = Vec::new();
    let mut i: usize = 0;
    let mut j: usize = 0;
    while i < left.len() || j < right.len()
        invariant
            0 <= from <= middle <= to <= items@.len(),
            is_sorted(left@, items@, from, middle),
            is_sorted(right@, items@, middle, to),
            i <= left@.len(),
            j <= right@.len(),
            order@.len() == i + j,
            forall|k: int| 0 <= k < order@.len() ==> from <= #[trigger] order@[k] < to,
            forall|k: int| 0 <= k < i ==> #[trigger] order@.contains(left@[k]),
            forall|k: int| 0 <= k < j ==> #[trigger] order@.contains(right@[k]),
            forall|k: int, l: int|
                0 <= k < l < order@.len() ==> stands_before(
                    items@,
                    #[trigger] order@[k] as int,
                    #[trigger] order@[l] as int,
                ),
            forall|k: int, l: int|
                0 <= k < order@.len() && i <= l < left@.len() ==> stands_before(
                    items@,
                    #[trigger] order@[k] as int,
                    #[trigger] left@[l] as int,
                ),
            forall|k: int, l: int|
                0 <= k < order@.len() && j <= l < right@.len() ==> stands_before(
                    items@,
                    #[trigger] order@[k] as int,
                    #[trigger] right@[l] as int,
                ),
        decreases left@.len() - i + right@.len() - j,
    {
        let ghost before = order@;
        let take_left: bool = if i >= left.len() {
            false
        } else if j >= right.len() {
            true
        } else {
            !items[right[j]].goes_before(&items[left[i]])
        };
        let next: usize = if take_left {
            left[i]
        } else {
            right[j]
        };
        order.push(next);
        proof {
            assert(order@[before.len() as int] == next);
            assert forall|x: usize| before.contains(x) implies order@.contains(x) by {
                let k = choose|k: int| 0 <= k < before.len() && before[k] == x;
                assert(order@[k] == x);
            }
            assert(order@.contains(next));
            assert forall|k: int| 0 <= k < i implies #[trigger] order@.contains(left@[k]) by {
                assert(before.contains(left@[k]));
            }
            assert forall|k: int| 0 <= k < j implies #[trigger] order@.contains(right@[k]) by {
                assert(before.contains(right@[k]));
            }
            if take_left {
                if j < right@.len() {
                    assert(stands_before(items@, next as int, right@[j as int] as int));
                }
                assert forall|l: int| j <= l < right@.len() implies stands_before(
                    items@,
                    next as int,
                    #[trigger] right@[l] as int,
                ) by {
                    if l > j {
                        assert(stands_before(items@, right@[j as int] as int, right@[l] as int));
                        lemma_stands_before(
                            items@,
                            next as int,
                            right@[j as int] as int,
                            right@[l] as int,
                        );
                    }
                }
            } else {
                if i < left@.len() {
                    T::before_is_an_order(
                        &items@[next as int],
                        &items@[left@[i as int] as int],
                        &items@[next as int],
                    );
                    assert(stands_before(items@, next as int, left@[i as int] as int));
                }
                assert forall|l: int| i <= l < left@.len() implies stands_before(
                    items@,
                    next as int,
                    #[trigger] left@[l] as int,
                ) by {
                    if l > i {
                        assert(stands_before(items@, left@[i as int] as int, left@[l] as int));
                        lemma_stands_before(
                            items@,
                            next as int,
                            left@[i as int] as int,
                            left@[l] as int,
                        );
                    }
                }
            }
        }
        if take_left {
            i = i + 1;
        } else {
            j = j + 1;
        }
    }
    assert forall|x: int| from <= x < to implies #[trigger] order@.contains(x as usize) by {
        if x < middle {
            assert(left@.contains(x as usize));
            let k = choose|k: int| 0 <= k < left@.len() && left@[k] == x as usize;
            assert(order@.contains(left@[k]));
        } else {
            assert(right@.contains(x as usize));
            let k = choose|k: int| 0 <= k < right@.len() && right@[k] == x as usize;
            assert(order@.contains(right@[k]));
        }
    }
    order
}

/// Whether indices name the first `k` of `n` items: in order, and nothing that is left out has to
/// stand before them.
pub open spec fn is_page(
    picks: Seq<usize>,
    n: nat,
    k: nat,
    before: spec_fn(int, int) -> bool,
) -> bool {
    &&& picks.len() == (if n < k {
        n
    } else {
        k
    })
    &&& forall|a: int| 0 <= a < picks.len() ==> #[trigger] picks[a] < n
    &&& forall|a: int, b: int|
        0 <= a < b < picks.len() ==> #[trigger] picks[a] != #[trigger] picks[b] && !before(
            picks[b] as int,
            picks[a] as int,
        )
    &&& forall|a: int, m: int|
        0 <= a < picks.len() && 0 <= m < n && !(#[trigger] picks.contains(m as usize)) ==> !before(
            m,
            #[trigger] picks[a] as int,
        )
}

/// The first items in order.
pub fn first_in_order<T: Ranked>(items: &[T], k: usize) -> (picks: Vec<usize>)
    ensures
        is_page(
            picks@,
            items@.len(),
            k as nat,
            |i: int, j: int| items@[i].before(&items@[j]),
        ),
{
    let mut picks = stable_order(items);
    let ghost order = picks@;
    if picks.len() > k {
        picks.truncate(k);
    }
    proof {
        let n = items@.len();
        assert(picks@ =~= order.take(picks@.len() as int));
        assert forall|a: int, b: int| 0 <= a < b < picks@.len() implies #[trigger] picks@[a]
            != #[trigger] picks@[b] && !items@[picks@[b] as int].before(
            &items@[picks@[a] as int],
        ) by {
            assert(stands_before(items@, order[a] as int, order[b] as int));
            lemma_stands_before(items@, order[a] as int, order[b] as int, order[a] as int);
            T::before_is_an_order(
                &items@[order[a] as int],
                &items@[order[b] as int],
                &items@[order[a] as int],
            );
        }
        assert forall|a: int, m: int|
            0 <= a < picks@.len() && 0 <= m < n && !(#[trigger] picks@.contains(
                m as usize,
            )) implies !items@[m].before(&items@[#[trigger] picks@[a] as int]) by {
            assert(order.contains(m as usize));
            let l = choose|l: int| 0 <= l < order.len() && order[l] == m as usize;
            if l < picks@.len() {
                assert(picks@[l] == m as usize);
            }
            assert(stands_before(items@, order[a] as int, order[l] as int));
            T::before_is_an_order(&items@[order[a] as int], &items@[m], &items@[order[a] as int]);
        }
    }
    picks
}

/// Where no two items are level, there is one such page.
pub proof fn pages_are_unique(
    a: Seq<usize>,
    b: Seq<usize>,
    n: nat,
    k: nat,
    before: spec_fn(int, int) -> bool,
)
    requires
        n <= usize::MAX,
        is_page(a, n, k, before),
        is_page(b, n, k, before),
        forall|i: int, j: int| 0 <= i < n && 0 <= j < n && i != j ==> #[trigger] before(i, j)
            || before(j, i),
        forall|i: int, j: int| 0 <= i < n && 0 <= j < n ==> !(#[trigger] before(i, j) && before(
            j,
            i,
        )),
    ensures
        a == b,
{
    lemma_same_page_prefix(a, b, n, k, before, a.len() as int);
    assert(a =~= b);
}

proof fn lemma_same_page_prefix(
    a: Seq<usize>,
    b: Seq<usize>,
    n: nat,
    k: nat,
    before: spec_fn(int, int) -> bool,
    l: int,
)
    requires
        n <= usize::MAX,
        is_page(a, n, k, before),
        is_page(b, n, k, before),
        forall|i: int, j: int| 0 <= i < n && 0 <= j < n && i != j ==> #[trigger] before(i, j)
            || before(j, i),
        forall|i: int, j: int| 0 <= i < n && 0 <= j < n ==> !(#[trigger] before(i, j) && before(
            j,
            i,
        )),
        0 <= l <= a.len(),
    ensures
        forall|i: int| 0 <= i < l ==> a[i] == b[i],
    decreases l,
{
    if l > 0 {
        lemma_same_page_prefix(a, b, n, k, before, l - 1);
        let i = l - 1;
        let x = a[i];
        let y = b[i];
        if x != y {
            lemma_not_later(a, b, n, k, before, i);
            lemma_not_later(b, a, n, k, before, i);
        }
    }
}

/// The item at an index of one page goes before the item of another, where they agree up to it.
proof fn lemma_not_later(
    a: Seq<usize>,
    b: Seq<usize>,
    n: nat,
    k: nat,
    before: spec_fn(int, int) -> bool,
    i: int,
)
    requires
        n <= usize::MAX,
        is_page(a, n, k, before),
        is_page(b, n, k, before),
        0 <= i < a.len(),
        forall|j: int| 0 <= j < i ==> a[j] == b[j],
        a[i] != b[i],
        forall|i: int, j: int| 0 <= i < n && 0 <= j < n && i != j ==> #[trigger] before(i, j)
            || before(j, i),
        forall|i: int, j: int| 0 <= i < n && 0 <= j < n ==> !(#[trigger] before(i, j) && before(
            j,
            i,
        )),
    ensures
        before(b[i] as int, a[i] as int),
{
    let x = a[i];
    let y = b[i];
    assert(x < n && y < n);
    if b.contains(x) {
        let p = choose|p: int| 0 <= p < b.len() && b[p] == x;
        if p < i {
            assert(a[p] == x);
            assert(a[p] != a[i]);
        }
        assert(p > i);
        assert(!before(b[p] as int, b[i] as int));
    } else {
        assert(!b.contains((x as int) as usize));
        assert(!before(x as int, b[i] as int));
    }
    assert(before(x as int, y as int) || before(y as int, x as int));
}

/// A page with room for every item names every item.
pub proof fn roomy_pages_are_complete(
    picks: Seq<usize>,
    n: nat,
    k: nat,
    before: spec_fn(int, int) -> bool,
    m: int,
)
    requires
        n <= k,
        n <= usize::MAX,
        is_page(picks, n, k, before),
        0 <= m < n,
    ensures
        picks.contains(m as usize),
{
    if !picks.contains(m as usize) {
        let named = picks.map_values(|i: usize| i as int);
        assert forall|a: int, b: int| 0 <= a < named.len() && 0 <= b < named.len() && a != b implies named[a]
            != named[b] by {
            if a < b {
                assert(picks[a] != picks[b]);
            } else {
                assert(picks[b] != picks[a]);
            }
        }
        named.unique_seq_to_set();
        let others = vstd::set_lib::set_int_range(0, n as int).remove(m);
        vstd::set_lib::lemma_int_range(0, n as int);
        assert forall|x: int| named.to_set().contains(x) implies others.contains(x) by {
            let a = choose|a: int| 0 <= a < named.len() && named[a] == x;
            assert(picks[a] < n);
            assert(picks.contains(picks[a]));
        }
        vstd::set_lib::lemma_len_subset(named.to_set(), others);
    }
}

// ---------------------------------------------------------------------------
// What the orders are
// ---------------------------------------------------------------------------

/// A byte string comes before another exactly where they agree up to a place at which it ends, or
/// has the smaller byte, and the other goes on.
pub proof fn bytes_are_ordered_by_their_first_difference(a: Seq<u8>, b: Seq<u8>)
    ensures
        bytes_before(a, b) <==> exists|k: int|
            #![trigger a.take(k)]
            0 <= k <= a.len() && k < b.len() && a.take(k) == b.take(k) && (k == a.len() || a[k]
                < b[k]),
    decreases a.len(),
{
    if b.len() > 0 && a.len() > 0 && a[0] == b[0] {
        let p = a.drop_first();
        let q = b.drop_first();
        bytes_are_ordered_by_their_first_difference(p, q);
        if bytes_before(a, b) {
            let k = choose|k: int|
                #![trigger p.take(k)]
                0 <= k <= p.len() && k < q.len() && p.take(k) == q.take(k) && (k == p.len() || p[k]
                    < q[k]);
            assert(a.take(k + 1) =~= seq![a[0]] + p.take(k));
            assert(b.take(k + 1) =~= seq![b[0]] + q.take(k));
        }
        if exists|k: int|
            #![trigger a.take(k)]
            0 <= k <= a.len() && k < b.len() && a.take(k) == b.take(k) && (k == a.len() || a[k]
                < b[k]) {
            let k = choose|k: int|
                #![trigger a.take(k)]
                0 <= k <= a.len() && k < b.len() && a.take(k) == b.take(k) && (k == a.len() || a[k]
                    < b[k]);
            assert(k > 0);
            assert(p.take(k - 1) =~= a.take(k).drop_first());
            assert(q.take(k - 1) =~= b.take(k).drop_first());
        }
    } else if b.len() > 0 && bytes_before(a, b) {
        assert(a.take(0) =~= b.take(0));
    } else if a.len() > 0 && b.len() > 0 {
        assert forall|k: int|
            #![trigger a.take(k)]
            !(0 <= k <= a.len() && k < b.len() && a.take(k) == b.take(k) && (k == a.len() || a[k]
                < b[k])) by {
            if 0 < k <= a.len() && k < b.len() {
                assert(a.take(k)[0] == a[0] && b.take(k)[0] == b[0]);
            }
        }
    }
}

/// Texts are ordered by their bytes in UTF-8.
pub proof fn texts_are_ordered_by_their_bytes(a: Seq<char>, b: Seq<char>)
    ensures
        text_before(a, b) <==> exists|k: int|
            #![trigger vstd::utf8::encode_utf8(a).take(k)]
            0 <= k <= vstd::utf8::encode_utf8(a).len() && k < vstd::utf8::encode_utf8(b).len()
                && vstd::utf8::encode_utf8(a).take(k) == vstd::utf8::encode_utf8(b).take(k) && (k
                == vstd::utf8::encode_utf8(a).len() || vstd::utf8::encode_utf8(a)[k]
                < vstd::utf8::encode_utf8(b)[k]),
{
    bytes_are_ordered_by_their_first_difference(
        vstd::utf8::encode_utf8(a),
        vstd::utf8::encode_utf8(b),
    );
}

/// The first items in order: as many as are asked for, or all; no item twice; none after an item
/// that has to stand behind it; and nothing is left out that has to stand before one of them.
pub proof fn pages_are_the_first_items(
    picks: Seq<usize>,
    n: nat,
    k: nat,
    before: spec_fn(int, int) -> bool,
)
    requires
        is_page(picks, n, k, before),
    ensures
        n <= k ==> picks.len() == n,
        k <= n ==> picks.len() == k,
        forall|a: int| 0 <= a < picks.len() ==> 0 <= #[trigger] picks[a] < n,
        forall|a: int, b: int|
            0 <= a < b < picks.len() ==> #[trigger] picks[a] != #[trigger] picks[b] && !before(
                picks[b] as int,
                picks[a] as int,
            ),
        forall|a: int, m: int|
            0 <= a < picks.len() && 0 <= m < n && (forall|b: int|
                0 <= b < picks.len() ==> m as usize != #[trigger] picks[b]) ==> !(#[trigger] before(
                m,
                picks[a] as int,
            )),
{
    assert forall|a: int, m: int|
        0 <= a < picks.len() && 0 <= m < n && (forall|b: int|
            0 <= b < picks.len() ==> m as usize != #[trigger] picks[b]) implies !(#[trigger] before(
        m,
        picks[a] as int,
    )) by {
        assert(!picks.contains(m as usize));
    }
}

/// A stable order names every item once; an item stands behind those that go before it, and behind
/// those that are level with it and came earlier.
pub proof fn stable_orders_keep_the_order_of_level_items<T: Ranked>(
    order: Seq<usize>,
    items: Seq<T>,
    k: int,
    l: int,
)
    requires
        is_stable_order(order, items),
        0 <= k < l < order.len(),
    ensures
        order.len() == items.len(),
        order[k] != order[l],
        order[k] < items.len() && order[l] < items.len(),
        !items[order[l] as int].before(&items[order[k] as int]),
        !items[order[k] as int].before(&items[order[l] as int]) ==> order[k] < order[l],
{
    assert(stands_before(items, order[k] as int, order[l] as int));
    lemma_stands_before(items, order[k] as int, order[l] as int, order[k] as int);
    T::before_is_an_order(
        &items[order[k] as int],
        &items[order[l] as int],
        &items[order[k] as int],
    );
}

} // verus!
