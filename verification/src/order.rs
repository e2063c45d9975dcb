//! Sort keys, and the stable order they put a list into.

use vstd::prelude::*;
use vstd::utf8::encode_utf8;
use crate::text::{
    bytes_before, bytes_lt, bytes_precede, lemma_bytes_strict_total, lemma_encoding_is_injective,
};

verus! {

/// What a document is sorted by: a priority, then a depth, then a text.
pub struct SortKey {
    pub priority: u8,
    pub depth: usize,
    pub text: String,
}

/// The value of a sort key.
pub struct SortKeyView {
    pub priority: nat,
    pub depth: nat,
    pub text: Seq<char>,
}

impl View for SortKey {
    type V = SortKeyView;

    open spec fn view(&self) -> SortKeyView {
        SortKeyView { priority: self.priority as nat, depth: self.depth as nat, text: self.text@ }
    }
}

/// Text in the order of its encoding.
pub open spec fn text_before(a: Seq<char>, b: Seq<char>) -> bool {
    bytes_before(encode_utf8(a), encode_utf8(b))
}

/// The order of sort keys: the smaller priority first, then the smaller depth, then the text.
pub open spec fn key_before(a: SortKeyView, b: SortKeyView) -> bool {
    ||| a.priority < b.priority
    ||| a.priority == b.priority && a.depth < b.depth
    ||| a.priority == b.priority && a.depth == b.depth && text_before(a.text, b.text)
}

/// Sort keys are in a strict total order.
pub proof fn lemma_key_order(a: SortKeyView, b: SortKeyView, c: SortKeyView)
    ensures
        !key_before(a, a),
        key_before(a, b) || key_before(b, a) || a == b,
        !(key_before(a, b) && key_before(b, a)),
        key_before(a, b) && key_before(b, c) ==> key_before(a, c),
{
    lemma_bytes_strict_total();
    let x = encode_utf8(a.text);
    let y = encode_utf8(b.text);
    let z = encode_utf8(c.text);
    lemma_encoding_is_injective(a.text, b.text);
    assert(bytes_lt()(x, x) == bytes_before(x, x));
    assert(bytes_lt()(x, y) == bytes_before(x, y));
    assert(bytes_lt()(y, x) == bytes_before(y, x));
    assert(bytes_lt()(y, z) == bytes_before(y, z));
    assert(bytes_lt()(x, z) == bytes_before(x, z));
    assert(bytes_lt()(x, y) && bytes_lt()(y, x) ==> bytes_lt()(x, x));
}

impl SortKey {
    /// Whether this key sorts strictly before the other.
    pub fn precedes(&self, other: &SortKey) -> (res: bool)
        ensures
            res == key_before(self@, other@),
    {
        if self.priority != other.priority {
            self.priority < other.priority
        } else if self.depth != other.depth {
            self.depth < other.depth
        } else {
            bytes_precede(self.text.as_str().as_bytes(), other.text.as_str().as_bytes())
        }
    }
}

/// The values of a list of keys.
pub open spec fn key_views(keys: Seq<SortKey>) -> Seq<SortKeyView> {
    Seq::new(keys.len(), |i: int| keys[i]@)
}

/// Whether item `i` stands before item `j`: by key, and by position among equal keys.
pub open spec fn stands_before(keys: Seq<SortKeyView>, i: int, j: int) -> bool {
    key_before(keys[i], keys[j]) || (keys[i] == keys[j] && i < j)
}

/// Whether the positions are strictly ascending under `stands_before`.
pub open spec fn ascending(keys: Seq<SortKeyView>, order: Seq<usize>) -> bool {
    forall|a: int, b: int|
        0 <= a < b < order.len() ==> stands_before(keys, #[trigger] order[a] as int, #[trigger] order[b] as int)
}

/// Whether the positions are drawn from `lo..hi`.
pub open spec fn drawn_from(order: Seq<usize>, lo: int, hi: int) -> bool {
    forall|a: int| 0 <= a < order.len() ==> lo <= #[trigger] order[a] < hi
}

/// The stable order of a list: every position once, ascending by key, positions with equal keys
/// in the order they had.
pub open spec fn stable_order(keys: Seq<SortKeyView>, order: Seq<usize>) -> bool {
    &&& order.len() == keys.len()
    &&& drawn_from(order, 0, keys.len() as int)
    &&& ascending(keys, order)
}

/// `stands_before` is a strict total order of positions.
pub proof fn lemma_stands_before(keys: Seq<SortKeyView>, i: int, j: int, k: int)
    ensures
        !stands_before(keys, i, i),
        stands_before(keys, i, j) || stands_before(keys, j, i) || i == j,
        !(stands_before(keys, i, j) && stands_before(keys, j, i)),
        stands_before(keys, i, j) && stands_before(keys, j, k) ==> stands_before(keys, i, k),
{
    lemma_key_order(keys[i], keys[j], keys[k]);
    lemma_key_order(keys[j], keys[k], keys[i]);
    lemma_key_order(keys[i], keys[k], keys[j]);
}

/// Merges two ascending lists of positions, those of the first below those of the second.
fn merge(
    keys: &Vec<SortKey>,
    left: &Vec<usize>,
    right: &Vec<usize>,
    lo: usize,
    mid: usize,
    hi: usize,
) -> (res: Vec<usize>)
    requires
        lo <= mid <= hi <= keys@.len(),
        left@.len() == mid - lo,
        right@.len() == hi - mid,
        drawn_from(left@, lo as int, mid as int),
        drawn_from(right@, mid as int, hi as int),
        ascending(key_views(keys@), left@),
        ascending(key_views(keys@), right@),
    ensures
        res@.len() == hi - lo,
        drawn_from(res@, lo as int, hi as int),
        ascending(key_views(keys@), res@),
{
    let ghost kv = key_views(keys@);
    let mut res: Vec<usize> = Vec::new();
    let mut i: usize = 0;
    let mut j: usize = 0;
    while i < left.len() || j < right.len()
        invariant
            kv == key_views(keys@),
            lo <= mid <= hi <= keys@.len(),
            left@.len() == mid - lo,
            right@.len() == hi - mid,
            drawn_from(left@, lo as int, mid as int),
            drawn_from(right@, mid as int, hi as int),
            ascending(kv, left@),
            ascending(kv, right@),
            i <= left@.len(),
            j <= right@.len(),
            res@.len() == i + j,
            drawn_from(res@, lo as int, hi as int),
            ascending(kv, res@),
            forall|a: int, b: int|
                0 <= a < res@.len() && i <= b < left@.len() ==> stands_before(
                    kv,
                    #[trigger] res@[a] as int,
                    #[trigger] left@[b] as int,
                ),
            forall|a: int, b: int|
                0 <= a < res@.len() && j <= b < right@.len() ==> stands_before(
                    kv,
                    #[trigger] res@[a] as int,
                    #[trigger] right@[b] as int,
                ),
        decreases left@.len() - i + right@.len() - j,
    {
        let ghost before = res@;
        let take_left: bool = if i == left.len() {
            false
        } else if j == right.len() {
            true
        } else {
            !keys[right[j]].precedes(&keys[left[i]])
        };
        if take_left {
            let ghost x = left@[i as int] as int;
            res.push(left[i]);
            proof {
                if j < right@.len() {
                    let y = right@[j as int] as int;
                    lemma_key_order(kv[x], kv[y], kv[x]);
                    assert(stands_before(kv, x, y));
                }
                assert forall|b: int| j <= b < right@.len() implies stands_before(
                    kv,
                    x,
                    #[trigger] right@[b] as int,
                ) by {
                    let y = right@[j as int] as int;
                    if b > j {
                        assert(stands_before(kv, right@[j as int] as int, right@[b] as int));
                        lemma_stands_before(kv, x, y, right@[b] as int);
                    }
                }
            }
            i += 1;
        } else {
            let ghost y = right@[j as int] as int;
            res.push(right[j]);
            proof {
                if i < left@.len() {
                    let x = left@[i as int] as int;
                    assert(key_before(kv[y], kv[x]));
                    assert(stands_before(kv, y, x));
                }
                assert forall|b: int| i <= b < left@.len() implies stands_before(
                    kv,
                    y,
                    #[trigger] left@[b] as int,
                ) by {
                    let x = left@[i as int] as int;
                    if b > i {
                        assert(stands_before(kv, left@[i as int] as int, left@[b] as int));
                        lemma_stands_before(kv, y, x, left@[b] as int);
                    }
                }
            }
            j += 1;
        }
        assert(forall|a: int| 0 <= a < before.len() ==> res@[a] == before[a]);
    }
    res
}

/// The positions `lo..hi` in stable order.
fn sort_between(keys: &Vec<SortKey>, lo: usize, hi: usize) -> (res: Vec<usize>)
    requires
        lo <= hi <= keys@.len(),
    ensures
        res@.len() == hi - lo,
        drawn_from(res@, lo as int, hi as int),
        ascending(key_views(keys@), res@),
    decreases hi - lo,
{
    if hi - lo < 2 {
        let mut res: Vec<usize> = Vec::new();
        if lo < hi {
            res.push(lo);
        }
        res
    } else {
        let mid: usize = lo + (hi - lo) / 2;
        let left: Vec<usize> = sort_between(keys, lo, mid);
        let right: Vec<usize> = sort_between(keys, mid, hi);
        merge(keys, &left, &right, lo, mid, hi)
    }
}

/// The stable order of a list of keys.
pub fn sorted_positions(keys: &Vec<SortKey>) -> (res: Vec<usize>)
    ensures
        stable_order(key_views(keys@), res@),
{
    sort_between(keys, 0, keys.len())
}

/// A list has one stable order only.
pub proof fn law_stable_order_is_unique(keys: Seq<SortKeyView>, a: Seq<usize>, b: Seq<usize>)
    requires
        stable_order(keys, a),
        stable_order(keys, b),
    ensures
        a == b,
{
    lemma_ascending_positions(keys, a, b, keys.len() as int);
    assert(a =~= b);
}

/// Every position occurs in a stable order.
pub proof fn lemma_stable_order_is_onto(keys: Seq<SortKeyView>, order: Seq<usize>, p: int)
    requires
        stable_order(keys, order),
        0 <= p < keys.len(),
    ensures
        exists|a: int| 0 <= a < order.len() && order[a] == p,
{
    let n = keys.len() as int;
    let positions = order.map_values(|u: usize| u as int);
    assert forall|a: int, b: int|
        0 <= a < positions.len() && 0 <= b < positions.len() && a != b implies positions[a]
        != positions[b] by {
        if a < b {
            assert(stands_before(keys, order[a] as int, order[b] as int));
            lemma_stands_before(keys, order[a] as int, order[b] as int, 0);
        } else {
            assert(stands_before(keys, order[b] as int, order[a] as int));
            lemma_stands_before(keys, order[b] as int, order[a] as int, 0);
        }
    }
    positions.unique_seq_to_set();
    let all = vstd::set_lib::set_int_range(0, n);
    vstd::set_lib::lemma_int_range(0, n);
    assert(positions.to_set().subset_of(all));
    vstd::set_lib::lemma_subset_equality(positions.to_set(), all);
    assert(all.contains(p));
    assert(positions.contains(p));
    let a = choose|a: int| 0 <= a < positions.len() && positions[a] == p;
    assert(order[a] == p);
}

/// Two stable orders agree on their first `k` positions.
proof fn lemma_ascending_positions(keys: Seq<SortKeyView>, a: Seq<usize>, b: Seq<usize>, k: int)
    requires
        stable_order(keys, a),
        stable_order(keys, b),
        0 <= k <= keys.len(),
    ensures
        forall|i: int| 0 <= i < k ==> a[i] == b[i],
    decreases k,
{
    if k > 0 {
        lemma_ascending_positions(keys, a, b, k - 1);
        let i = k - 1;
        let x = a[i] as int;
        let y = b[i] as int;
        lemma_stable_order_is_onto(keys, b, x);
        lemma_stable_order_is_onto(keys, a, y);
        let p = choose|p: int| 0 <= p < b.len() && b[p] == x;
        let q = choose|q: int| 0 <= q < a.len() && a[q] == y;
        if p < i {
            assert(a[p] == b[p]);
            lemma_stands_before(keys, a[p] as int, a[i] as int, 0);
        }
        if q < i {
            assert(a[q] == b[q]);
            lemma_stands_before(keys, b[q] as int, b[i] as int, 0);
        }
        if p > i && q > i {
            assert(stands_before(keys, b[i] as int, b[p] as int));
            assert(stands_before(keys, a[i] as int, a[q] as int));
            lemma_stands_before(keys, x, y, 0);
        }
    }
}

} // verus!
