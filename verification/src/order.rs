//! Stable sorting by a key.

use vstd::prelude::*;

use crate::text::is_before;

verus! {

broadcast use vstd::seq_lib::group_seq_properties;

/// A key by which things are sorted.
pub trait SortKey: Sized {
    /// `self` sorts strictly before `other`.
    spec fn precedes(&self, other: &Self) -> bool;

    proof fn precedes_is_strict(a: Self, b: Self)
        ensures
            !(a.precedes(&b) && b.precedes(&a)),
    ;

    proof fn precedes_is_weak(a: Self, b: Self, c: Self)
        requires
            a.precedes(&c),
        ensures
            a.precedes(&b) || b.precedes(&c),
    ;

    /// Whether `self` sorts strictly before `other`.
    fn sorts_before(&self, other: &Self) -> (r: bool)
        ensures
            r == self.precedes(other),
    ;
}

impl SortKey for u64 {
    open spec fn precedes(&self, other: &Self) -> bool {
        *self < *other
    }

    proof fn precedes_is_strict(a: Self, b: Self) {
    }

    proof fn precedes_is_weak(a: Self, b: Self, c: Self) {
    }

    fn sorts_before(&self, other: &Self) -> (r: bool) {
        *self < *other
    }
}

impl SortKey for i64 {
    open spec fn precedes(&self, other: &Self) -> bool {
        *self < *other
    }

    proof fn precedes_is_strict(a: Self, b: Self) {
    }

    proof fn precedes_is_weak(a: Self, b: Self, c: Self) {
    }

    fn sorts_before(&self, other: &Self) -> (r: bool) {
        *self < *other
    }
}

impl SortKey for u16 {
    open spec fn precedes(&self, other: &Self) -> bool {
        *self < *other
    }

    proof fn precedes_is_strict(a: Self, b: Self) {
    }

    proof fn precedes_is_weak(a: Self, b: Self, c: Self) {
    }

    fn sorts_before(&self, other: &Self) -> (r: bool) {
        *self < *other
    }
}

impl SortKey for String {
    open spec fn precedes(&self, other: &Self) -> bool {
        crate::text::text_before(self@, other@)
    }

    proof fn precedes_is_strict(a: Self, b: Self) {
        crate::text::law_text_order_total(a@, b@);
    }

    proof fn precedes_is_weak(a: Self, b: Self, c: Self) {
        crate::text::law_text_order_total(a@, b@);
        if crate::text::text_before(b@, a@) {
            crate::text::law_text_order_transitive(b@, a@, c@);
        }
    }

    fn sorts_before(&self, other: &Self) -> (r: bool) {
        is_before(self.as_str(), other.as_str())
    }
}

/// Item `a` stands before item `b` in a stable sort: its key sorts before that of
/// `b`, or the keys are equivalent and it stood before `b` already.
pub open spec fn ordered_pair<K: SortKey>(keys: Seq<K>, a: int, b: int) -> bool {
    keys[a].precedes(&keys[b]) || (!keys[b].precedes(&keys[a]) && a < b)
}

/// `order` lists the positions of `keys`, each once, in the order of a stable sort.
pub open spec fn is_stable_order<K: SortKey>(keys: Seq<K>, order: Seq<usize>) -> bool {
    &&& order.len() == keys.len()
    &&& forall|i: int| 0 <= i < order.len() ==> (#[trigger] order[i]) < keys.len()
    &&& forall|p: usize| (p as int) < keys.len() ==> #[trigger] order.contains(p)
    &&& forall|i: int, j: int|
        0 <= i < j < order.len() ==> ordered_pair(
            keys,
            (#[trigger] order[i]) as int,
            (#[trigger] order[j]) as int,
        )
}

proof fn lemma_pair_transitive<K: SortKey>(keys: Seq<K>, a: int, b: int, c: int)
    requires
        ordered_pair(keys, a, b),
        ordered_pair(keys, b, c),
    ensures
        ordered_pair(keys, a, c),
{
    let (ka, kb, kc) = (keys[a], keys[b], keys[c]);
    K::precedes_is_strict(ka, kc);
    K::precedes_is_strict(ka, kb);
    K::precedes_is_strict(kb, kc);
    if ka.precedes(&kb) {
        K::precedes_is_weak(ka, kc, kb);
    }
    if kb.precedes(&kc) {
        K::precedes_is_weak(kb, ka, kc);
    }
    if kc.precedes(&ka) {
        K::precedes_is_weak(kc, kb, ka);
    }
}

/// `order` lists the positions `lo..hi` of `keys`, each once, in the order of a stable sort.
spec fn is_sorted_block<K: SortKey>(keys: Seq<K>, order: Seq<usize>, lo: int, hi: int) -> bool {
    &&& order.len() == hi - lo
    &&& forall|i: int| 0 <= i < order.len() ==> lo <= (#[trigger] order[i]) < hi
    &&& forall|p: usize| lo <= p < hi ==> #[trigger] order.contains(p)
    &&& forall|i: int, j: int|
        0 <= i < j < order.len() ==> ordered_pair(
            keys,
            (#[trigger] order[i]) as int,
            (#[trigger] order[j]) as int,
        )
}

/// Merges two neighbouring blocks.
fn merge<K: SortKey>(
    keys: &Vec<K>,
    left: &Vec<usize>,
    right: &Vec<usize>,
    lo: usize,
    mid: usize,
    hi: usize,
) -> (out: Vec<usize>)
    requires
        lo <= mid <= hi <= keys@.len(),
        is_sorted_block(keys@, left@, lo as int, mid as int),
        is_sorted_block(keys@, right@, mid as int, hi as int),
    ensures
        is_sorted_block(keys@, out@, lo as int, hi as int),
{
    let mut out: Vec<usize> = Vec::new();
    let mut i: usize = 0;
    let mut j: usize = 0;
    while i < left.len() || j < right.len()
        invariant
            lo <= mid <= hi <= keys@.len(),
            is_sorted_block(keys@, left@, lo as int, mid as int),
            is_sorted_block(keys@, right@, mid as int, hi as int),
            i <= left@.len(),
            j <= right@.len(),
            out@.len() == i + j,
            forall|k: int| 0 <= k < out@.len() ==> lo <= (#[trigger] out@[k]) < hi,
            forall|k: int| 0 <= k < i ==> out@.contains(#[trigger] left@[k]),
            forall|k: int| 0 <= k < j ==> out@.contains(#[trigger] right@[k]),
            forall|a: int, b: int|
                0 <= a < b < out@.len() ==> ordered_pair(
                    keys@,
                    (#[trigger] out@[a]) as int,
                    (#[trigger] out@[b]) as int,
                ),
            forall|a: int, b: int|
                0 <= a < out@.len() && i <= b < left@.len() ==> ordered_pair(
                    keys@,
                    (#[trigger] out@[a]) as int,
                    (#[trigger] left@[b]) as int,
                ),
            forall|a: int, b: int|
                0 <= a < out@.len() && j <= b < right@.len() ==> ordered_pair(
                    keys@,
                    (#[trigger] out@[a]) as int,
                    (#[trigger] right@[b]) as int,
                ),
        decreases left@.len() + right@.len() - i - j,
    {
        let take_right: bool = if i >= left.len() {
            true
        } else if j >= right.len() {
            false
        } else {
            keys[right[j]].sorts_before(&keys[left[i]])
        };
        let ghost before = out@;
        if take_right {
            let p: usize = right[j];
            out.push(p);
            proof {
                assert forall|b: int| i <= b < left@.len() implies ordered_pair(
                    keys@,
                    p as int,
                    (#[trigger] left@[b]) as int,
                ) by {
                    let first = left@[i as int] as int;
                    assert(ordered_pair(keys@, p as int, first));
                    if b > i {
                        assert(ordered_pair(keys@, first, left@[b] as int));
                        lemma_pair_transitive(keys@, p as int, first, left@[b] as int);
                    }
                }
                lemma_pushed(before, p);
            }
            j += 1;
        } else {
            let p: usize = left[i];
            out.push(p);
            proof {
                assert forall|b: int| j <= b < right@.len() implies ordered_pair(
                    keys@,
                    p as int,
                    (#[trigger] right@[b]) as int,
                ) by {
                    let first = right@[j as int] as int;
                    assert(p < mid <= first);
                    assert(ordered_pair(keys@, p as int, first));
                    if b > j {
                        assert(ordered_pair(keys@, first, right@[b] as int));
                        lemma_pair_transitive(keys@, p as int, first, right@[b] as int);
                    }
                }
                lemma_pushed(before, p);
            }
            i += 1;
        }
    }
    proof {
        assert forall|p: usize| lo <= p < hi implies #[trigger] out@.contains(p) by {
            if p < mid {
                assert(left@.contains(p));
                let k = choose|k: int| 0 <= k < left@.len() && left@[k] == p;
                assert(out@.contains(left@[k]));
            } else {
                assert(right@.contains(p));
                let k = choose|k: int| 0 <= k < right@.len() && right@[k] == p;
                assert(out@.contains(right@[k]));
            }
        }
    }
    out
}

/// What a sequence holds after one more item.
proof fn lemma_pushed(before: Seq<usize>, p: usize)
    ensures
        before.push(p).contains(p),
        forall|x: usize| before.contains(x) ==> #[trigger] before.push(p).contains(x),
{
    let after = before.push(p);
    assert(after[before.len() as int] == p);
    assert forall|x: usize| before.contains(x) implies #[trigger] after.contains(x) by {
        let k = choose|k: int| 0 <= k < before.len() && before[k] == x;
        assert(after[k] == x);
    }
}

fn sort_block<K: SortKey>(keys: &Vec<K>, lo: usize, hi: usize) -> (order: Vec<usize>)
    requires
        lo <= hi <= keys@.len(),
    ensures
        is_sorted_block(keys@, order@, lo as int, hi as int),
    decreases hi - lo,
{
    if hi - lo <= 1 {
        let mut order: Vec<usize> = Vec::new();
        if lo < hi {
            order.push(lo);
            assert(order@[0] == lo);
        }
        return order;
    }
    let mid: usize = lo + (hi - lo) / 2;
    let left: Vec<usize> = sort_block(keys, lo, mid);
    let right: Vec<usize> = sort_block(keys, mid, hi);
    merge(keys, &left, &right, lo, mid, hi)
}

/// The positions of `keys` in the order of a stable sort.
pub fn stable_order<K: SortKey>(keys: &Vec<K>) -> (order: Vec<usize>)
    ensures
        is_stable_order(keys@, order@),
{
    sort_block(keys, 0, keys.len())
}

/// A stable order lists no position twice.
pub proof fn law_stable_order_lists_once<K: SortKey>(keys: Seq<K>, order: Seq<usize>)
    requires
        is_stable_order(keys, order),
    ensures
        order.no_duplicates(),
{
    assert forall|i: int, j: int|
        0 <= i < order.len() && 0 <= j < order.len() && i != j implies order[i] != order[j] by {
        if i < j {
            assert(ordered_pair(keys, order[i] as int, order[j] as int));
            K::precedes_is_strict(keys[order[i] as int], keys[order[j] as int]);
        } else {
            assert(ordered_pair(keys, order[j] as int, order[i] as int));
            K::precedes_is_strict(keys[order[j] as int], keys[order[i] as int]);
        }
    }
}

/// Numbers are listed from the least to the greatest, equal ones in the order in which they
/// stand, and every place once.
pub proof fn law_numbers_are_sorted(
    keys: &Vec<i64>,
    order: Vec<usize>,
    others: &Vec<u64>,
    other_order: Vec<usize>,
    codes: &Vec<u16>,
    code_order: Vec<usize>,
)
    requires
        call_ensures(stable_order::<i64>, (keys,), order),
        call_ensures(stable_order::<u64>, (others,), other_order),
        call_ensures(stable_order::<u16>, (codes,), code_order),
    ensures
        order@.len() == keys@.len(),
        order@.no_duplicates(),
        forall|i: int, j: int|
            0 <= i < j < order@.len() ==> keys@[(#[trigger] order@[i]) as int]
                <= keys@[(#[trigger] order@[j]) as int],
        forall|i: int, j: int|
            0 <= i < j < order@.len() && keys@[(#[trigger] order@[i]) as int]
                == keys@[(#[trigger] order@[j]) as int] ==> order@[i] < order@[j],
        other_order@.len() == others@.len(),
        other_order@.no_duplicates(),
        forall|i: int, j: int|
            0 <= i < j < other_order@.len() ==> others@[(#[trigger] other_order@[i]) as int]
                <= others@[(#[trigger] other_order@[j]) as int],
        forall|i: int, j: int|
            0 <= i < j < other_order@.len() && others@[(#[trigger] other_order@[i]) as int]
                == others@[(#[trigger] other_order@[j]) as int] ==> other_order@[i]
                < other_order@[j],
        code_order@.len() == codes@.len(),
        code_order@.no_duplicates(),
        forall|i: int, j: int|
            0 <= i < j < code_order@.len() ==> codes@[(#[trigger] code_order@[i]) as int]
                <= codes@[(#[trigger] code_order@[j]) as int],
        forall|i: int, j: int|
            0 <= i < j < code_order@.len() && codes@[(#[trigger] code_order@[i]) as int]
                == codes@[(#[trigger] code_order@[j]) as int] ==> code_order@[i]
                < code_order@[j],
{
    law_stable_order_lists_once(keys@, order@);
    law_stable_order_lists_once(others@, other_order@);
    law_stable_order_lists_once(codes@, code_order@);
    assert forall|i: int, j: int| 0 <= i < j < order@.len() implies keys@[(
    #[trigger] order@[i]) as int] <= keys@[(#[trigger] order@[j]) as int] by {
        assert(ordered_pair(keys@, order@[i] as int, order@[j] as int));
    }
    assert forall|i: int, j: int|
        0 <= i < j < order@.len() && keys@[(#[trigger] order@[i]) as int] == keys@[(
        #[trigger] order@[j]) as int] implies order@[i] < order@[j] by {
        assert(ordered_pair(keys@, order@[i] as int, order@[j] as int));
    }
    assert forall|i: int, j: int| 0 <= i < j < other_order@.len() implies others@[(
    #[trigger] other_order@[i]) as int] <= others@[(#[trigger] other_order@[j]) as int] by {
        assert(ordered_pair(others@, other_order@[i] as int, other_order@[j] as int));
    }
    assert forall|i: int, j: int|
        0 <= i < j < other_order@.len() && others@[(#[trigger] other_order@[i]) as int]
            == others@[(#[trigger] other_order@[j]) as int] implies other_order@[i]
        < other_order@[j] by {
        assert(ordered_pair(others@, other_order@[i] as int, other_order@[j] as int));
    }
    assert forall|i: int, j: int| 0 <= i < j < code_order@.len() implies codes@[(
    #[trigger] code_order@[i]) as int] <= codes@[(#[trigger] code_order@[j]) as int] by {
        assert(ordered_pair(codes@, code_order@[i] as int, code_order@[j] as int));
    }
    assert forall|i: int, j: int|
        0 <= i < j < code_order@.len() && codes@[(#[trigger] code_order@[i]) as int] == codes@[(
        #[trigger] code_order@[j]) as int] implies code_order@[i] < code_order@[j] by {
        assert(ordered_pair(codes@, code_order@[i] as int, code_order@[j] as int));
    }
}

/// Texts are listed in their order, equal ones in the order in which they stand: of two
/// neighbours the second never comes before the first.
pub proof fn law_texts_are_sorted(keys: &Vec<String>, order: Vec<usize>)
    requires
        call_ensures(stable_order::<String>, (keys,), order),
    ensures
        order@.len() == keys@.len(),
        order@.no_duplicates(),
        forall|i: int, j: int|
            0 <= i < j < order@.len() ==> !crate::text::text_before(
                keys@[(#[trigger] order@[j]) as int]@,
                keys@[(#[trigger] order@[i]) as int]@,
            ),
        forall|i: int, j: int|
            0 <= i < j < order@.len() && keys@[(#[trigger] order@[i]) as int]@ == keys@[(
            #[trigger] order@[j]) as int]@ ==> order@[i] < order@[j],
{
    law_stable_order_lists_once(keys@, order@);
    assert forall|i: int, j: int| 0 <= i < j < order@.len() implies !crate::text::text_before(
        keys@[(#[trigger] order@[j]) as int]@,
        keys@[(#[trigger] order@[i]) as int]@,
    ) by {
        let (a, b) = (order@[i] as int, order@[j] as int);
        assert(ordered_pair(keys@, a, b));
        crate::text::law_text_order_total(keys@[a]@, keys@[b]@);
    }
    assert forall|i: int, j: int|
        0 <= i < j < order@.len() && keys@[(#[trigger] order@[i]) as int]@ == keys@[(
        #[trigger] order@[j]) as int]@ implies order@[i] < order@[j] by {
        let (a, b) = (order@[i] as int, order@[j] as int);
        assert(ordered_pair(keys@, a, b));
        crate::text::law_text_order_total(keys@[a]@, keys@[b]@);
    }
}

} // verus!
