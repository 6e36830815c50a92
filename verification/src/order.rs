//! Ordering rows by a rank and a text: a stable sort, given as the order of the indices.

use vstd::prelude::*;
use crate::text::{lemma_text_lt_total, lemma_text_lt_transitive, text_less, text_lt};

verus! {

/// What a row is ordered by: a rank first, then a text by code point.
pub struct SortKey {
    pub rank: i64,
    pub text: Vec<char>,
}

impl View for SortKey {
    type V = (int, Seq<char>);

    open spec fn view(&self) -> (int, Seq<char>) {
        (self.rank as int, self.text@)
    }
}

/// What a list of keys holds.
pub open spec fn key_views(keys: Seq<SortKey>) -> Seq<(int, Seq<char>)> {
    Seq::new(keys.len(), |i: int| keys[i]@)
}

/// Whether key `a` is smaller than key `b`.
pub open spec fn key_lt(a: (int, Seq<char>), b: (int, Seq<char>)) -> bool {
    a.0 < b.0 || (a.0 == b.0 && text_lt(a.1, b.1))
}

/// Whether a row with key `a` must stand before one with key `b`.
pub open spec fn before(a: (int, Seq<char>), b: (int, Seq<char>), descending: bool) -> bool {
    if descending {
        key_lt(b, a)
    } else {
        key_lt(a, b)
    }
}

/// Where in `order` a row with `key` goes: in front of the first row that must stand after it.
pub open spec fn slot(
    keys: Seq<(int, Seq<char>)>,
    order: Seq<int>,
    key: (int, Seq<char>),
    descending: bool,
) -> int
    decreases order.len(),
{
    if order.len() == 0 || before(key, keys[order.first()], descending) {
        0
    } else {
        1 + slot(keys, order.drop_first(), key, descending)
    }
}

/// The order of the first `n` rows: each row in turn is put behind the rows that need not
/// stand after it.
pub open spec fn order_of_first(keys: Seq<(int, Seq<char>)>, n: nat, descending: bool) -> Seq<
    int,
>
    decreases n,
{
    if n == 0 {
        Seq::empty()
    } else {
        let rest = order_of_first(keys, (n - 1) as nat, descending);
        rest.insert(slot(keys, rest, keys[n - 1], descending), n - 1)
    }
}

/// The indices of the rows in sorted order: ascending by key, or descending; rows with equal
/// keys keep the order in which they stand.
pub open spec fn sorted_order(keys: Seq<(int, Seq<char>)>, descending: bool) -> Seq<int> {
    order_of_first(keys, keys.len(), descending)
}

/// Whether `order` lists each of the first `n` indices once, sorted by key, with equal keys in
/// the order of the indices.
pub open spec fn orders_first(
    keys: Seq<(int, Seq<char>)>,
    n: nat,
    order: Seq<int>,
    descending: bool,
) -> bool {
    &&& order.len() == n
    &&& forall|j: int| 0 <= j < order.len() ==> 0 <= #[trigger] order[j] < n
    &&& forall|i: int| 0 <= i < n ==> #[trigger] order.contains(i)
    &&& forall|a: int, b: int| 0 <= a < b < order.len() ==> #[trigger] order[a] != #[trigger] order[b]
    &&& forall|a: int, b: int|
        0 <= a < b < order.len() ==> !before(
            keys[#[trigger] order[b]],
            keys[#[trigger] order[a]],
            descending,
        )
    &&& forall|a: int, b: int|
        0 <= a < b < order.len() && !before(
            keys[#[trigger] order[a]],
            keys[#[trigger] order[b]],
            descending,
        ) ==> order[a] < order[b]
}

/// The order of keys is a strict total order.
pub proof fn lemma_key_order(a: (int, Seq<char>), b: (int, Seq<char>), c: (int, Seq<char>))
    ensures
        !key_lt(a, a),
        !(key_lt(a, b) && key_lt(b, a)),
        a != b ==> key_lt(a, b) || key_lt(b, a),
        key_lt(a, b) && key_lt(b, c) ==> key_lt(a, c),
{
    lemma_text_lt_total(a.1, a.1);
    lemma_text_lt_total(a.1, b.1);
    if key_lt(a, b) && key_lt(b, c) {
        if a.0 == b.0 && b.0 == c.0 {
            lemma_text_lt_transitive(a.1, b.1, c.1);
        }
    }
}

proof fn lemma_slot(
    keys: Seq<(int, Seq<char>)>,
    order: Seq<int>,
    key: (int, Seq<char>),
    descending: bool,
)
    ensures
        0 <= slot(keys, order, key, descending) <= order.len(),
        forall|j: int|
            0 <= j < slot(keys, order, key, descending) ==> !before(
                key,
                keys[#[trigger] order[j]],
                descending,
            ),
        slot(keys, order, key, descending) < order.len() ==> before(
            key,
            keys[order[slot(keys, order, key, descending)]],
            descending,
        ),
    decreases order.len(),
{
    if order.len() == 0 || before(key, keys[order.first()], descending) {
    } else {
        let rest = order.drop_first();
        lemma_slot(keys, rest, key, descending);
        assert forall|j: int| 0 <= j < slot(keys, order, key, descending) implies !before(
            key,
            keys[#[trigger] order[j]],
            descending,
        ) by {
            if j > 0 {
                assert(order[j] == rest[j - 1]);
            }
        }
    }
}

/// The order of the first `n` rows lists each of them once, sorted, equal keys as they stood.
pub proof fn lemma_order_of_first(keys: Seq<(int, Seq<char>)>, n: nat, descending: bool)
    requires
        n <= keys.len(),
    ensures
        orders_first(keys, n, order_of_first(keys, n, descending), descending),
    decreases n,
{
    if n > 0 {
        let rest = order_of_first(keys, (n - 1) as nat, descending);
        lemma_order_of_first(keys, (n - 1) as nat, descending);
        let key = keys[n - 1];
        let p = slot(keys, rest, key, descending);
        lemma_slot(keys, rest, key, descending);
        let order = rest.insert(p, n - 1);
        assert(order == order_of_first(keys, n, descending));
        assert forall|j: int| 0 <= j < order.len() implies 0 <= #[trigger] order[j] < n by {
            if j < p {
                assert(order[j] == rest[j]);
            } else if j > p {
                assert(order[j] == rest[j - 1]);
            }
        }
        assert forall|i: int| 0 <= i < n implies #[trigger] order.contains(i) by {
            if i == n - 1 {
                assert(order[p] == i);
            } else {
                assert(rest.contains(i));
                let j = choose|j: int| 0 <= j < rest.len() && rest[j] == i;
                if j < p {
                    assert(order[j] == i);
                } else {
                    assert(order[j + 1] == i);
                }
            }
        }
        // what stands behind the slot must stand after the new row
        assert forall|j: int| p <= j < rest.len() implies before(
            key,
            keys[#[trigger] rest[j]],
            descending,
        ) by {
            if j > p {
                lemma_key_order(key, keys[rest[p]], keys[rest[j]]);
                lemma_key_order(keys[rest[j]], keys[rest[p]], key);
                lemma_key_order(keys[rest[p]], keys[rest[j]], key);
            }
        }
        assert forall|a: int, b: int| 0 <= a < b < order.len() implies #[trigger] order[a]
            != #[trigger] order[b] && !before(keys[order[b]], keys[order[a]], descending) && (
        !before(keys[order[a]], keys[order[b]], descending) ==> order[a] < order[b]) by {
            let ia = if a < p {
                a
            } else {
                a - 1
            };
            let ib = if b < p {
                b
            } else {
                b - 1
            };
            if a == p {
                assert(order[b] == rest[ib]);
                lemma_key_order(key, keys[rest[ib]], key);
            } else if b == p {
                assert(order[a] == rest[ia]);
            } else {
                assert(order[a] == rest[ia]);
                assert(order[b] == rest[ib]);
            }
        }
    }
}

/// The sorted order lists each index once, sorted by key, equal keys as they stood.
pub proof fn lemma_sorted_order(keys: Seq<(int, Seq<char>)>, descending: bool)
    ensures
        orders_first(keys, keys.len(), sorted_order(keys, descending), descending),
{
    lemma_order_of_first(keys, keys.len(), descending);
}

fn key_before(a: &SortKey, b: &SortKey, descending: bool) -> (r: bool)
    ensures
        r == before(a@, b@, descending),
{
    if descending {
        b.rank < a.rank || (b.rank == a.rank && text_less(&b.text, &a.text))
    } else {
        a.rank < b.rank || (a.rank == b.rank && text_less(&a.text, &b.text))
    }
}

/// The indices of `keys` in sorted order.
pub fn sort_order(keys: &Vec<SortKey>, descending: bool) -> (order: Vec<usize>)
    ensures
        order@.len() == keys@.len(),
        sorted_order(key_views(keys@), descending).len() == keys@.len(),
        forall|j: int|
            0 <= j < order@.len() ==> #[trigger] order@[j] as int == sorted_order(
                key_views(keys@),
                descending,
            )[j],
        forall|j: int| 0 <= j < order@.len() ==> #[trigger] order@[j] < keys@.len(),
{
    let ghost kv = key_views(keys@);
    proof {
        lemma_sorted_order(kv, descending);
    }
    let mut order: Vec<usize> = Vec::new();
    let mut i: usize = 0;
    while i < keys.len()
        invariant
            i <= keys.len(),
            kv == key_views(keys@),
            order@.len() == i,
            forall|j: int|
                0 <= j < order@.len() ==> #[trigger] order@[j] as int == order_of_first(
                    kv,
                    i as nat,
                    descending,
                )[j],
            forall|j: int| 0 <= j < order@.len() ==> #[trigger] order@[j] < i,
        decreases keys.len() - i,
    {
        let ghost ord = order_of_first(kv, i as nat, descending);
        proof {
            lemma_order_of_first(kv, i as nat, descending);
        }
        let mut p: usize = 0;
        assert(ord.skip(0) =~= ord);
        while p < order.len() && !key_before(&keys[i], &keys[order[p]], descending)
            invariant
                p <= order@.len(),
                i < keys.len(),
                kv == key_views(keys@),
                order@.len() == ord.len(),
                forall|j: int| 0 <= j < order@.len() ==> #[trigger] order@[j] as int == ord[j],
                forall|j: int| 0 <= j < order@.len() ==> #[trigger] order@[j] < i,
                slot(kv, ord, kv[i as int], descending) == p + slot(
                    kv,
                    ord.skip(p as int),
                    kv[i as int],
                    descending,
                ),
            decreases order@.len() - p,
        {
            assert(ord.skip(p as int).first() == ord[p as int]);
            assert(ord.skip(p as int).drop_first() =~= ord.skip(p + 1));
            p += 1;
        }
        proof {
            if p < order.len() {
                assert(ord.skip(p as int).first() == ord[p as int]);
            }
            assert(slot(kv, ord, kv[i as int], descending) == p);
        }
        let ghost before_insert = order@;
        order.insert(p, i);
        proof {
            let next = order_of_first(kv, (i + 1) as nat, descending);
            assert(next == ord.insert(p as int, i as int));
            assert forall|j: int| 0 <= j < order@.len() implies #[trigger] order@[j] as int
                == next[j] && order@[j] < i + 1 by {
                if j < p {
                    assert(order@[j] == before_insert[j]);
                } else if j > p {
                    assert(order@[j] == before_insert[j - 1]);
                }
            }
        }
        i += 1;
    }
    order
}

} // verus!
