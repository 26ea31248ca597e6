//! The order in which rows are sorted: keys compared byte by byte, and the
//! positions of a list of keys put in that order.

use vstd::prelude::*;
use vstd::relations::{sorted_by, total_ordering};
use vstd::seq_lib::lemma_sorted_unique;
use vstd::set_lib::{lemma_len_subset, lemma_subset_equality};

verus! {

/// Whether `a` comes before `b` in the order of byte strings: at the first
/// index where they differ `a` holds the smaller byte, or `a` ends there and
/// `b` goes on.
pub open spec fn lex_lt(a: Seq<u8>, b: Seq<u8>) -> bool
    decreases a.len(),
{
    if b.len() == 0 {
        false
    } else if a.len() == 0 {
        true
    } else if a[0] != b[0] {
        a[0] < b[0]
    } else {
        lex_lt(a.skip(1), b.skip(1))
    }
}

/// Whether position `i` of `keys` is sorted before position `j`: its key is
/// the smaller one, or the keys are equal and `i` is the earlier position.
pub open spec fn comes_before(keys: Seq<Seq<u8>>, i: usize, j: usize) -> bool {
    lex_lt(keys[i as int], keys[j as int]) || (keys[i as int] == keys[j as int] && i < j)
}

/// Whether `order` lists the positions of `keys` in sorted order: as many
/// entries as there are keys, each a position, each before all that follow.
/// No position is listed twice then, so each is listed once.
pub open spec fn is_sorted_order(order: Seq<usize>, keys: Seq<Seq<u8>>) -> bool {
    &&& order.len() == keys.len()
    &&& forall|k: int| 0 <= k < order.len() ==> (#[trigger] order[k]) < keys.len()
    &&& forall|a: int, b: int|
        0 <= a < b < order.len() ==> comes_before(keys, #[trigger] order[a], #[trigger] order[b])
}

/// The positions of `keys` in sorted order: smaller keys first, equal keys in
/// the order of their positions.
pub open spec fn sorted_order(keys: Seq<Seq<u8>>) -> Seq<usize> {
    choose|order: Seq<usize>| is_sorted_order(order, keys)
}

/// No byte string comes before itself.
pub proof fn lemma_lex_irreflexive(a: Seq<u8>)
    ensures
        !lex_lt(a, a),
    decreases a.len(),
{
    if a.len() > 0 {
        lemma_lex_irreflexive(a.skip(1));
    }
}

/// Of two different byte strings one comes before the other.
pub proof fn lemma_lex_connected(a: Seq<u8>, b: Seq<u8>)
    ensures
        a == b || lex_lt(a, b) || lex_lt(b, a),
    decreases a.len(),
{
    if a.len() > 0 && b.len() > 0 && a[0] == b[0] {
        lemma_lex_connected(a.skip(1), b.skip(1));
        if a.skip(1) == b.skip(1) {
            assert(a =~= seq![a[0]] + a.skip(1));
            assert(b =~= seq![b[0]] + b.skip(1));
        }
    } else if a.len() == 0 && b.len() == 0 {
        assert(a =~= b);
    }
}

/// No two byte strings come before each other.
pub proof fn lemma_lex_asymmetric(a: Seq<u8>, b: Seq<u8>)
    requires
        lex_lt(a, b),
    ensures
        !lex_lt(b, a),
    decreases a.len(),
{
    if a.len() > 0 && b.len() > 0 && a[0] == b[0] {
        lemma_lex_asymmetric(a.skip(1), b.skip(1));
    }
}

/// What comes before a byte string comes before all that it comes before.
pub proof fn lemma_lex_transitive(a: Seq<u8>, b: Seq<u8>, c: Seq<u8>)
    requires
        lex_lt(a, b),
        lex_lt(b, c),
    ensures
        lex_lt(a, c),
    decreases a.len(),
{
    if a.len() > 0 && b.len() > 0 && c.len() > 0 && a[0] == b[0] && b[0] == c[0] {
        lemma_lex_transitive(a.skip(1), b.skip(1), c.skip(1));
    }
}

/// Of two different positions one is sorted before the other.
pub proof fn lemma_comes_before_connected(keys: Seq<Seq<u8>>, i: usize, j: usize)
    ensures
        i == j || comes_before(keys, i, j) || comes_before(keys, j, i),
{
    lemma_lex_connected(keys[i as int], keys[j as int]);
}

/// No two positions are sorted before each other, and none before itself.
pub proof fn lemma_comes_before_asymmetric(keys: Seq<Seq<u8>>, i: usize, j: usize)
    requires
        comes_before(keys, i, j),
    ensures
        !comes_before(keys, j, i),
        i != j,
{
    lemma_lex_irreflexive(keys[i as int]);
    if lex_lt(keys[i as int], keys[j as int]) {
        lemma_lex_asymmetric(keys[i as int], keys[j as int]);
    }
}

/// A position sorted before another is sorted before all that the other is
/// sorted before.
pub proof fn lemma_comes_before_transitive(keys: Seq<Seq<u8>>, i: usize, j: usize, k: usize)
    requires
        comes_before(keys, i, j),
        comes_before(keys, j, k),
    ensures
        comes_before(keys, i, k),
{
    if lex_lt(keys[i as int], keys[j as int]) && lex_lt(keys[j as int], keys[k as int]) {
        lemma_lex_transitive(keys[i as int], keys[j as int], keys[k as int]);
    }
}

/// The positions below `n`.
pub open spec fn positions_below(n: nat) -> Set<usize> {
    Set::new(|i: usize| i < n)
}

proof fn lemma_positions_below(n: nat)
    requires
        n <= usize::MAX + 1,
    ensures
        positions_below(n).finite(),
        positions_below(n).len() == n,
    decreases n,
{
    if n == 0 {
        assert(positions_below(n) =~= Set::<usize>::empty());
    } else {
        lemma_positions_below((n - 1) as nat);
        assert(positions_below((n - 1) as nat).insert((n - 1) as usize) =~= positions_below(n));
    }
}

/// A sorted order lists no position twice and leaves none out.
pub proof fn lemma_sorted_order_is_permutation(order: Seq<usize>, keys: Seq<Seq<u8>>)
    requires
        is_sorted_order(order, keys),
    ensures
        order.no_duplicates(),
        forall|i: usize| i < keys.len() ==> order.contains(i),
{
    assert forall|a: int, b: int| 0 <= a < order.len() && 0 <= b < order.len() && a != b implies order[a]
        != order[b] by {
        if a < b {
            lemma_comes_before_asymmetric(keys, order[a], order[b]);
        } else {
            lemma_comes_before_asymmetric(keys, order[b], order[a]);
        }
    }
    if keys.len() > 0 {
        assert(order[0] < keys.len());
        order.unique_seq_to_set();
        vstd::seq_lib::seq_to_set_is_finite(order);
        if keys.len() > usize::MAX + 1 {
            let all = positions_below((usize::MAX + 1) as nat);
            lemma_positions_below((usize::MAX + 1) as nat);
            assert(order.to_set().subset_of(all));
            lemma_len_subset(order.to_set(), all);
        }
        lemma_positions_below(keys.len());
        assert(order.to_set().subset_of(positions_below(keys.len()))) by {
            assert forall|x: usize| order.to_set().contains(x) implies positions_below(
                keys.len(),
            ).contains(x) by {
                let k = choose|k: int| 0 <= k < order.len() && order[k] == x;
                assert(order[k] < keys.len());
            }
        }
        lemma_subset_equality(order.to_set(), positions_below(keys.len()));
        assert forall|i: usize| i < keys.len() implies order.contains(i) by {
            assert(positions_below(keys.len()).contains(i));
            assert(order.to_set().contains(i));
        }
    }
}

/// The order by which `lemma_sorted_unique` tells two sorted orders to be the
/// same.
spec fn before_or_same(keys: Seq<Seq<u8>>) -> spec_fn(usize, usize) -> bool {
    |i: usize, j: usize| i == j || comes_before(keys, i, j)
}

proof fn lemma_before_or_same_total(keys: Seq<Seq<u8>>)
    ensures
        total_ordering(before_or_same(keys)),
{
    let leq = before_or_same(keys);
    assert forall|x: usize, y: usize| #[trigger] leq(x, y) && #[trigger] leq(y, x) implies x
        == y by {
        if x != y {
            lemma_comes_before_asymmetric(keys, x, y);
        }
    }
    assert forall|x: usize, y: usize, z: usize| #[trigger] leq(x, y) && #[trigger] leq(
        y,
        z,
    ) implies leq(x, z) by {
        if x != y && y != z {
            lemma_comes_before_transitive(keys, x, y, z);
        }
    }
    assert forall|x: usize, y: usize| #[trigger] leq(x, y) || #[trigger] leq(y, x) by {
        lemma_comes_before_connected(keys, x, y);
    }
}

/// There is one sorted order of the positions of `keys` at most.
pub proof fn lemma_sorted_order_unique(first: Seq<usize>, second: Seq<usize>, keys: Seq<Seq<u8>>)
    requires
        is_sorted_order(first, keys),
        is_sorted_order(second, keys),
    ensures
        first == second,
{
    broadcast use vstd::seq_lib::group_to_multiset_ensures;

    let leq = before_or_same(keys);
    lemma_before_or_same_total(keys);
    lemma_sorted_order_is_permutation(first, keys);
    lemma_sorted_order_is_permutation(second, keys);
    first.lemma_multiset_has_no_duplicates();
    second.lemma_multiset_has_no_duplicates();
    assert forall|x: usize| first.to_multiset().count(x) == second.to_multiset().count(x) by {
        if x < keys.len() {
            assert(first.contains(x));
            assert(second.contains(x));
        } else {
            if first.contains(x) {
                let k = choose|k: int| 0 <= k < first.len() && first[k] == x;
                assert(first[k] < keys.len());
            }
            if second.contains(x) {
                let k = choose|k: int| 0 <= k < second.len() && second[k] == x;
                assert(second[k] < keys.len());
            }
        }
    }
    assert(first.to_multiset() =~= second.to_multiset());
    assert(sorted_by(first, leq));
    assert(sorted_by(second, leq));
    lemma_sorted_unique(first, second, leq);
}

/// Every list of keys has a sorted order of its positions, as long as the
/// positions can be numbered.
pub proof fn lemma_sorted_order_exists(keys: Seq<Seq<u8>>)
    requires
        keys.len() <= usize::MAX,
    ensures
        is_sorted_order(sorted_order(keys), keys),
{
    broadcast use vstd::seq_lib::group_to_multiset_ensures;

    let leq = before_or_same(keys);
    lemma_before_or_same_total(keys);
    let positions = Seq::new(keys.len(), |i: int| i as usize);
    let sorted = positions.sort_by(leq);
    positions.lemma_sort_by_ensures(leq);
    assert(sorted.len() == positions.len()) by {
        assert(sorted.to_multiset().len() == positions.to_multiset().len());
    }
    assert forall|k: int| 0 <= k < sorted.len() implies (#[trigger] sorted[k]) < keys.len() by {
        if sorted[k] >= keys.len() {
            if positions.contains(sorted[k]) {
                let at = choose|at: int| 0 <= at < positions.len() && positions[at] == sorted[k];
                assert(positions[at] == at);
            }
            assert(sorted.contains(sorted[k]));
        }
    }
    assert(positions.no_duplicates());
    positions.lemma_multiset_has_no_duplicates();
    sorted.lemma_multiset_has_no_duplicates_conv();
    assert forall|a: int, b: int| 0 <= a < b < sorted.len() implies comes_before(
        keys,
        #[trigger] sorted[a],
        #[trigger] sorted[b],
    ) by {
        assert(leq(sorted[a], sorted[b]));
        assert(sorted[a] != sorted[b]);
    }
    assert(is_sorted_order(sorted, keys));
}

/// A sorted order of the positions of `keys` is the sorted order.
pub proof fn lemma_is_the_sorted_order(order: Seq<usize>, keys: Seq<Seq<u8>>)
    requires
        is_sorted_order(order, keys),
    ensures
        order == sorted_order(keys),
{
    lemma_sorted_order_unique(order, sorted_order(keys), keys);
}

/// The byte strings that `keys` holds, in order.
pub open spec fn key_bytes(keys: Seq<Vec<u8>>) -> Seq<Seq<u8>> {
    Seq::new(keys.len(), |i: int| keys[i]@)
}

/// Whether `a` comes before `b` in the order of byte strings.
pub fn bytes_lt(a: &[u8], b: &[u8]) -> (lt: bool)
    ensures
        lt == lex_lt(a@, b@),
{
    let mut i: usize = 0;
    assert(a@.skip(0) =~= a@ && b@.skip(0) =~= b@);
    while i < a.len() && i < b.len()
        invariant
            i <= a.len(),
            i <= b.len(),
            lex_lt(a@, b@) == lex_lt(a@.skip(i as int), b@.skip(i as int)),
        decreases a.len() - i,
    {
        if a[i] != b[i] {
            return a[i] < b[i];
        }
        assert(a@.skip(i as int).skip(1) =~= a@.skip(i + 1));
        assert(b@.skip(i as int).skip(1) =~= b@.skip(i + 1));
        i = i + 1;
    }
    i < b.len()
}

/// Merges two sorted runs of positions, all of `left` below all of `right`,
/// into one.
fn merge_runs(keys: &Vec<Vec<u8>>, left: &Vec<usize>, right: &Vec<usize>) -> (merged: Vec<usize>)
    requires
        forall|k: int| 0 <= k < left.len() ==> (#[trigger] left[k]) < keys.len(),
        forall|k: int| 0 <= k < right.len() ==> (#[trigger] right[k]) < keys.len(),
        forall|a: int, b: int|
            0 <= a < left.len() && 0 <= b < right.len() ==> (#[trigger] left[a]) < (
            #[trigger] right[b]),
        forall|a: int, b: int|
            0 <= a < b < left.len() ==> comes_before(
                key_bytes(keys@),
                #[trigger] left[a],
                #[trigger] left[b],
            ),
        forall|a: int, b: int|
            0 <= a < b < right.len() ==> comes_before(
                key_bytes(keys@),
                #[trigger] right[a],
                #[trigger] right[b],
            ),
    ensures
        merged.len() == left.len() + right.len(),
        forall|k: int|
            0 <= k < merged.len() ==> left@.contains(#[trigger] merged[k]) || right@.contains(
                merged[k],
            ),
        forall|a: int, b: int|
            0 <= a < b < merged.len() ==> comes_before(
                key_bytes(keys@),
                #[trigger] merged[a],
                #[trigger] merged[b],
            ),
{
    let ghost spec_keys = key_bytes(keys@);
    let mut merged: Vec<usize> = Vec::new();
    let mut i: usize = 0;
    let mut j: usize = 0;
    while i < left.len() || j < right.len()
        invariant
            spec_keys == key_bytes(keys@),
            i <= left.len(),
            j <= right.len(),
            merged.len() == i + j,
            forall|k: int| 0 <= k < left.len() ==> (#[trigger] left[k]) < keys.len(),
            forall|k: int| 0 <= k < right.len() ==> (#[trigger] right[k]) < keys.len(),
            forall|a: int, b: int|
                0 <= a < left.len() && 0 <= b < right.len() ==> (#[trigger] left[a]) < (
                #[trigger] right[b]),
            forall|a: int, b: int|
                0 <= a < b < left.len() ==> comes_before(
                    spec_keys,
                    #[trigger] left[a],
                    #[trigger] left[b],
                ),
            forall|a: int, b: int|
                0 <= a < b < right.len() ==> comes_before(
                    spec_keys,
                    #[trigger] right[a],
                    #[trigger] right[b],
                ),
            forall|k: int|
                0 <= k < merged.len() ==> left@.contains(#[trigger] merged[k]) || right@.contains(
                    merged[k],
                ),
            forall|a: int, b: int|
                0 <= a < b < merged.len() ==> comes_before(
                    spec_keys,
                    #[trigger] merged[a],
                    #[trigger] merged[b],
                ),
            forall|a: int|
                0 <= a < merged.len() && i < left.len() ==> comes_before(
                    spec_keys,
                    #[trigger] merged[a],
                    left[i as int],
                ),
            forall|a: int|
                0 <= a < merged.len() && j < right.len() ==> comes_before(
                    spec_keys,
                    #[trigger] merged[a],
                    right[j as int],
                ),
        decreases left.len() - i + right.len() - j,
    {
        let ghost before = merged@;
        let take_right = if i == left.len() {
            true
        } else if j == right.len() {
            false
        } else {
            bytes_lt(keys[right[j]].as_slice(), keys[left[i]].as_slice())
        };
        if take_right {
            let next = right[j];
            merged.push(next);
            proof {
                assert(right@[j as int] == next);
                assert forall|a: int| 0 <= a < before.len() && j + 1 < right.len() implies comes_before(
                    spec_keys,
                    #[trigger] merged[a],
                    right[j + 1],
                ) by {
                    lemma_comes_before_transitive(spec_keys, before[a], next, right[j + 1]);
                }
            }
            j = j + 1;
        } else {
            let next = left[i];
            merged.push(next);
            proof {
                assert(left@[i as int] == next);
                if j < right.len() {
                    lemma_lex_connected(spec_keys[next as int], spec_keys[right[j as int] as int]);
                    assert(comes_before(spec_keys, next, right[j as int]));
                }
                assert forall|a: int| 0 <= a < before.len() && i + 1 < left.len() implies comes_before(
                    spec_keys,
                    #[trigger] merged[a],
                    left[i + 1],
                ) by {
                    lemma_comes_before_transitive(spec_keys, before[a], next, left[i + 1]);
                }
            }
            i = i + 1;
        }
    }
    merged
}

/// Sorts the positions from `lo` up to, not including, `hi`.
fn sort_range(keys: &Vec<Vec<u8>>, lo: usize, hi: usize) -> (order: Vec<usize>)
    requires
        lo <= hi <= keys.len(),
    ensures
        order.len() == hi - lo,
        forall|k: int| 0 <= k < order.len() ==> lo <= (#[trigger] order[k]) < hi,
        forall|a: int, b: int|
            0 <= a < b < order.len() ==> comes_before(
                key_bytes(keys@),
                #[trigger] order[a],
                #[trigger] order[b],
            ),
    decreases hi - lo,
{
    if hi - lo == 0 {
        Vec::new()
    } else if hi - lo == 1 {
        let mut order: Vec<usize> = Vec::new();
        order.push(lo);
        order
    } else {
        let mid: usize = lo + (hi - lo) / 2;
        let left = sort_range(keys, lo, mid);
        let right = sort_range(keys, mid, hi);
        let order = merge_runs(keys, &left, &right);
        proof {
            assert forall|k: int| 0 <= k < order.len() implies lo <= (#[trigger] order[k])
                < hi by {
                if left@.contains(order[k]) {
                    let at = choose|at: int| 0 <= at < left.len() && left[at] == order[k];
                    assert(lo <= left[at] < mid);
                } else {
                    let at = choose|at: int| 0 <= at < right.len() && right[at] == order[k];
                    assert(mid <= right[at] < hi);
                }
            }
        }
        order
    }
}

/// Returns the positions of `keys` in sorted order: smaller keys first, equal
/// keys in the order in which `keys` holds them.
pub fn sort_order(keys: &Vec<Vec<u8>>) -> (order: Vec<usize>)
    ensures
        is_sorted_order(order@, key_bytes(keys@)),
        order@ == sorted_order(key_bytes(keys@)),
{
    let order = sort_range(keys, 0, keys.len());
    proof {
        lemma_is_the_sorted_order(order@, key_bytes(keys@));
    }
    order
}

} // verus!
