use std::cmp::Ordering;
use vstd::prelude::*;
use vstd::seq_lib::lemma_multiset_commutative;
use crate::wide::{bit_length, power, power_of_self};

verus! {

/// `le` is a total preorder: any two values are related one way or the
/// other, and the relation is transitive.
pub open spec fn is_total_preorder<T>(le: spec_fn(T, T) -> bool) -> bool {
    &&& forall|a: T, b: T| #[trigger] le(a, b) || le(b, a)
    &&& forall|a: T, b: T, c: T| #[trigger] le(a, b) && #[trigger] le(b, c) ==> le(a, c)
}

/// The three-way answer that the preorder `le` gives for `a` against `b`.
pub open spec fn order_of<T>(le: spec_fn(T, T) -> bool, a: T, b: T) -> Ordering {
    if le(a, b) {
        if le(b, a) {
            Ordering::Equal
        } else {
            Ordering::Less
        }
    } else {
        Ordering::Greater
    }
}

/// Every answer that `cmp` gives is the one that the total preorder `le`
/// gives.
pub open spec fn compares_by<T, F: Fn(&T, &T) -> Ordering>(cmp: F, le: spec_fn(T, T) -> bool) -> bool {
    &&& is_total_preorder(le)
    &&& forall|a: &T, b: &T, r: Ordering| #[trigger] cmp.ensures((a, b), r) ==> r == order_of(le, *a, *b)
}

/// `cmp` may be called on any two items of `s`.
pub open spec fn callable_on<T, F: Fn(&T, &T) -> Ordering>(cmp: F, s: Seq<T>) -> bool {
    forall|a: T, b: T| s.contains(a) && s.contains(b) ==> #[trigger] cmp.requires((&a, &b))
}

/// `cmp` is a comparator: it answers as some total preorder does.
pub open spec fn is_comparator<T, F: Fn(&T, &T) -> Ordering>(cmp: F) -> bool {
    exists|le: spec_fn(T, T) -> bool| #[trigger] compares_by(cmp, le)
}

/// `s` is non-decreasing under `le`.
pub open spec fn sorted_by<T>(le: spec_fn(T, T) -> bool, s: Seq<T>) -> bool {
    forall|i: int, j: int| 0 <= i < j < s.len() ==> #[trigger] le(s[i], s[j])
}

/// The first `m` items of `s` are non-decreasing under `le`.
pub open spec fn sorted_prefix<T>(le: spec_fn(T, T) -> bool, s: Seq<T>, m: int) -> bool {
    forall|i: int, j: int| 0 <= i < j < m ==> #[trigger] le(s[i], s[j])
}

/// Every item of `s` is strictly greater under `le` than each item after it.
pub open spec fn strictly_descending<T>(le: spec_fn(T, T) -> bool, s: Seq<T>) -> bool {
    forall|i: int, j: int| 0 <= i < j < s.len() ==> !#[trigger] le(s[i], s[j])
}

/// `2` raised to `k`.
pub open spec fn two_pow(k: nat) -> nat
    decreases k,
{
    if k == 0 {
        1
    } else {
        2 * two_pow((k - 1) as nat)
    }
}

/// The integer part of the base-2 logarithm of `n` (zero below `2`).
pub open spec fn log2_floor(n: nat) -> nat
    decreases n,
{
    if n < 2 {
        0
    } else {
        1 + log2_floor(n / 2)
    }
}

/// How many comparisons the insertion passes may spend on `n` items before
/// the full sort takes over: `⌊n · log2(n) / 2⌋`, which is
/// `⌊log2(n^n)⌋ / 2`, the largest `m` with `2^(2m) ≤ n^n`.  Zero for
/// `n < 2`.
pub open spec fn comparison_budget(n: nat) -> nat {
    if n < 2 {
        0
    } else {
        log2_floor(power(n, n)) / 2
    }
}

/// What one run of `insertion_sort` did.
pub struct SortStats {
    /// Comparator calls made by the insertion passes.
    pub comparisons: u128,
    /// Whether the budget ran out and the full sort finished the work.
    pub fell_back: bool,
}

proof fn lemma_log2_floor(n: nat, k: nat)
    requires
        two_pow(k) <= n < 2 * two_pow(k),
    ensures
        log2_floor(n) == k,
    decreases k,
{
    if k > 0 {
        assert(two_pow((k - 1) as nat) <= n / 2 < 2 * two_pow((k - 1) as nat));
        lemma_log2_floor(n / 2, (k - 1) as nat);
    }
}

pub proof fn lemma_two_pow_positive(k: nat)
    ensures
        two_pow(k) >= 1,
    decreases k,
{
    if k > 0 {
        lemma_two_pow_positive((k - 1) as nat);
    }
}

proof fn lemma_power_positive(b: nat, e: nat)
    requires
        b >= 1,
    ensures
        power(b, e) >= 1,
    decreases e,
{
    if e > 0 {
        lemma_power_positive(b, (e - 1) as nat);
        assert(b * power(b, (e - 1) as nat) >= 1) by (nonlinear_arith)
            requires b >= 1, power(b, (e - 1) as nat) >= 1;
    }
}

proof fn lemma_power_grows_with_base(a: nat, b: nat, e: nat)
    requires
        1 <= a <= b,
    ensures
        power(a, e) <= power(b, e),
    decreases e,
{
    if e > 0 {
        lemma_power_grows_with_base(a, b, (e - 1) as nat);
        lemma_power_positive(a, (e - 1) as nat);
        let pa = power(a, (e - 1) as nat);
        let pb = power(b, (e - 1) as nat);
        assert(a * pa <= b * pb) by (nonlinear_arith)
            requires 1 <= a <= b, 1 <= pa <= pb;
    }
}

proof fn lemma_power_of_four(e: nat)
    ensures
        power(4, e) == two_pow(2 * e),
    decreases e,
{
    if e > 0 {
        lemma_power_of_four((e - 1) as nat);
        assert(two_pow(2 * e) == 2 * two_pow((2 * e - 1) as nat));
        assert(two_pow((2 * e - 1) as nat) == 2 * two_pow((2 * e - 2) as nat));
        assert((2 * e - 2) as nat == 2 * ((e - 1) as nat));
    }
}

/// On input that is already in order, the insertion passes make one
/// comparison per item after the first; the budget always allows that.
proof fn lemma_budget_covers_one_pass(n: nat)
    requires
        n >= 2,
    ensures
        comparison_budget(n) >= n - 1,
{
    let x = power(n, n);
    let want = (2 * n - 2) as nat;
    if n >= 4 {
        lemma_power_grows_with_base(4, n, n);
        lemma_power_of_four(n);
        lemma_two_pow_mono(want, 2 * n);
        assert(x >= power(4, n));
    } else if n == 2 {
        reveal_with_fuel(power, 3);
        reveal_with_fuel(two_pow, 3);
        assert(power(2, 2) == 4);
        assert(two_pow(2) == 4);
    } else {
        assert(n == 3);
        reveal_with_fuel(power, 4);
        reveal_with_fuel(two_pow, 5);
        assert(power(3, 3) == 27);
        assert(two_pow(4) == 16);
    }
    assert(x >= two_pow(want));
    lemma_two_pow_positive(want);
    lemma_log2_floor_bounds(x);
    let k = log2_floor(x);
    if k < want {
        lemma_two_pow_mono(k + 1, want);
        assert(two_pow(k + 1) == 2 * two_pow(k));
    }
}

proof fn lemma_log2_floor_bounds(n: nat)
    requires
        n >= 1,
    ensures
        two_pow(log2_floor(n)) <= n < 2 * two_pow(log2_floor(n)),
    decreases n,
{
    if n >= 2 {
        lemma_log2_floor_bounds(n / 2);
    }
}

/// Computes `comparison_budget(n)` exactly, from the number of bits of
/// `n^n`.
fn budget_for(n: usize) -> (r: u128)
    ensures
        r == comparison_budget(n as nat),
{
    if n < 2 {
        return 0;
    }
    let big = power_of_self(n as u64);
    proof {
        lemma_power_positive(n as nat, n as nat);
    }
    let bits = bit_length(&big);
    proof {
        assert(two_pow((bits - 1) as nat) <= power(n as nat, n as nat) < 2 * two_pow((bits - 1) as nat)) by {
            assert(two_pow(bits as nat) == 2 * two_pow((bits - 1) as nat));
        }
        lemma_log2_floor(power(n as nat, n as nat), (bits - 1) as nat);
    }
    (bits - 1) / 2
}

pub proof fn lemma_two_pow_mono(a: nat, b: nat)
    requires
        a <= b,
    ensures
        two_pow(a) <= two_pow(b),
    decreases b,
{
    if a < b {
        lemma_two_pow_mono(a, (b - 1) as nat);
        lemma_two_pow_positive((b - 1) as nat);
    }
}

/// How many items of `s` lie strictly above `t` under `le`.
pub open spec fn count_above<T>(le: spec_fn(T, T) -> bool, s: Seq<T>, t: T) -> nat
    decreases s.len(),
{
    if s.len() == 0 {
        0
    } else {
        count_above(le, s.drop_last(), t) + if le(s.last(), t) { 0nat } else { 1nat }
    }
}

/// The comparisons that inserting item `i` of `s` into the sorted first
/// `i` items takes: one for each of those items above it, and one more for
/// the item it stops at, if any.
pub open spec fn pass_cost<T>(le: spec_fn(T, T) -> bool, s: Seq<T>, i: int) -> nat {
    let g = count_above(le, s.subrange(0, i), s[i]);
    if g < i {
        g + 1
    } else {
        g
    }
}

/// The comparisons that plain insertion sort makes on the first `m` items
/// of `s`, with no budget.
pub open spec fn insertion_cost<T>(le: spec_fn(T, T) -> bool, s: Seq<T>, m: int) -> nat
    decreases m,
{
    if m <= 1 {
        0
    } else {
        insertion_cost(le, s, m - 1) + pass_cost(le, s, m - 1)
    }
}

proof fn lemma_count_above_remove<T>(le: spec_fn(T, T) -> bool, s: Seq<T>, k: int, t: T)
    requires
        0 <= k < s.len(),
    ensures
        count_above(le, s, t) == count_above(le, s.remove(k), t) + if le(s[k], t) { 0nat } else { 1nat },
    decreases s.len(),
{
    if k == s.len() - 1 {
        assert(s.remove(k) =~= s.drop_last());
    } else {
        lemma_count_above_remove(le, s.drop_last(), k, t);
        assert(s.remove(k).drop_last() =~= s.drop_last().remove(k));
        assert(s.remove(k).last() == s.last());
    }
}

proof fn lemma_count_above_same_items<T>(le: spec_fn(T, T) -> bool, a: Seq<T>, b: Seq<T>, t: T)
    requires
        a.to_multiset() == b.to_multiset(),
    ensures
        count_above(le, a, t) == count_above(le, b, t),
    decreases a.len(),
{
    broadcast use vstd::seq_lib::group_to_multiset_ensures;

    assert(a.len() == b.len()) by {
        a.to_multiset_ensures();
        b.to_multiset_ensures();
    }
    if a.len() > 0 {
        let x = a.last();
        assert(a.contains(x)) by {
            assert(a[a.len() - 1] == x);
        }
        assert(a.to_multiset().count(x) > 0);
        assert(b.contains(x));
        let k = choose|k: int| 0 <= k < b.len() && b[k] == x;
        assert(a.drop_last().push(x) =~= a);
        assert(a.drop_last().to_multiset() =~= a.to_multiset().remove(x));
        assert(b.remove(k).to_multiset() =~= b.to_multiset().remove(x));
        lemma_count_above_same_items(le, a.drop_last(), b.remove(k), t);
        lemma_count_above_remove(le, b, k, t);
    } else {
        assert(b.len() == 0);
    }
}

proof fn lemma_count_above_split<T>(le: spec_fn(T, T) -> bool, s: Seq<T>, t: T, j: int)
    requires
        0 <= j <= s.len(),
        forall|k: int| j <= k < s.len() ==> !le(#[trigger] s[k], t),
    ensures
        count_above(le, s, t) >= s.len() - j,
        (forall|k: int| 0 <= k < j ==> le(#[trigger] s[k], t)) ==> count_above(le, s, t) == s.len() - j,
    decreases s.len(),
{
    if s.len() > j {
        lemma_count_above_split(le, s.drop_last(), t, j);
        assert(!le(s[s.len() - 1], t));
    } else if s.len() > 0 {
        lemma_count_above_split(le, s.drop_last(), t, (s.len() - 1) as int);
        if forall|k: int| 0 <= k < j ==> le(#[trigger] s[k], t) {
            lemma_count_above_none(le, s, t);
        }
    }
}

proof fn lemma_count_above_none<T>(le: spec_fn(T, T) -> bool, s: Seq<T>, t: T)
    requires
        forall|k: int| 0 <= k < s.len() ==> le(#[trigger] s[k], t),
    ensures
        count_above(le, s, t) == 0,
    decreases s.len(),
{
    if s.len() > 0 {
        lemma_count_above_none(le, s.drop_last(), t);
        assert(le(s[s.len() - 1], t));
    }
}

proof fn lemma_insertion_cost_grows<T>(le: spec_fn(T, T) -> bool, s: Seq<T>, a: int, b: int)
    requires
        a <= b,
    ensures
        insertion_cost(le, s, a) <= insertion_cost(le, s, b),
    decreases b - a,
{
    if a < b {
        lemma_insertion_cost_grows(le, s, a, b - 1);
    }
}

/// Relies on `slice::sort_by`: for a comparator that answers as a total
/// order does, it rearranges the slice into non-decreasing order.
#[verifier::external_body]
fn sort_fully<T, F: Fn(&T, &T) -> Ordering>(slice: &mut [T], comparator: F)
    requires
        is_comparator(comparator),
        callable_on(comparator, old(slice)@),
    ensures
        final(slice)@.len() == old(slice)@.len(),
        final(slice)@.to_multiset() == old(slice)@.to_multiset(),
        forall|le: spec_fn(T, T) -> bool| #[trigger] compares_by(comparator, le) ==> sorted_by(le, final(slice)@),
{
    slice.sort_by(comparator)
}

/// Putting `t` at position `j` of `p`, after moving `p[j..i]` up by one
/// place, keeps the same items when `t` was at position `i`.
proof fn lemma_insert_keeps_items<T>(p: Seq<T>, q: Seq<T>, i: int, j: int)
    requires
        0 <= j <= i < p.len(),
        q.len() == p.len(),
        forall|k: int| 0 <= k < j ==> q[k] == p[k],
        q[j] == p[i],
        forall|k: int| j < k <= i ==> q[k] == p[k - 1],
        forall|k: int| i < k < p.len() ==> q[k] == p[k],
    ensures
        q.to_multiset() == p.to_multiset(),
{
    let a = p.subrange(0, j);
    let b = p.subrange(j, i);
    let c = seq![p[i]];
    let d = p.subrange(i + 1, p.len() as int);
    assert(p =~= a + b + c + d);
    assert(q =~= a + c + b + d);
    lemma_multiset_commutative(a + b + c, d);
    lemma_multiset_commutative(a + b, c);
    lemma_multiset_commutative(a, b);
    lemma_multiset_commutative(a + c + b, d);
    lemma_multiset_commutative(a + c, b);
    lemma_multiset_commutative(a, c);
    assert(q.to_multiset() =~= p.to_multiset());
}

/// Putting `t` after every item of a sorted prefix that is not above it, and
/// before those that are not below it, keeps the prefix sorted.
proof fn lemma_insert_keeps_order<T>(le: spec_fn(T, T) -> bool, p: Seq<T>, q: Seq<T>, i: int, j: int)
    requires
        is_total_preorder(le),
        0 <= j <= i < p.len(),
        q.len() == p.len(),
        sorted_prefix(le, p, i),
        j > 0 ==> le(p[j - 1], p[i]),
        forall|k: int| j <= k < i ==> le(p[i], #[trigger] p[k]),
        forall|k: int| 0 <= k < j ==> q[k] == p[k],
        q[j] == p[i],
        forall|k: int| j < k <= i ==> q[k] == p[k - 1],
    ensures
        sorted_prefix(le, q, i + 1),
{
    let t = p[i];
    assert forall|a: int, b: int| 0 <= a < b < i + 1 implies #[trigger] le(q[a], q[b]) by {
        if b < j {
        } else if b == j {
            assert(le(p[a], p[j - 1]) || a == j - 1);
            assert(le(p[j - 1], p[j - 1]) || le(p[j - 1], p[j - 1]));
        } else if a < j {
            assert(le(p[a], p[j - 1]) || a == j - 1);
            assert(le(p[j - 1], p[j - 1]) || le(p[j - 1], p[j - 1]));
            assert(le(p[a], t));
            assert(le(t, p[b - 1]));
        } else if a == j {
            assert(le(t, p[b - 1]));
        } else {
            assert(le(p[a - 1], p[b - 1]));
        }
    }
}

proof fn lemma_item_of_same_items<T>(orig: Seq<T>, p: Seq<T>, k: int)
    requires
        p.to_multiset() == orig.to_multiset(),
        0 <= k < p.len(),
    ensures
        orig.contains(p[k]),
{
    broadcast use vstd::seq_lib::group_to_multiset_ensures;

    assert(p.contains(p[k]));
    assert(p.to_multiset().count(p[k]) > 0);
}

proof fn lemma_same_items_callable<T, F: Fn(&T, &T) -> Ordering>(cmp: F, orig: Seq<T>, q: Seq<T>)
    requires
        q.to_multiset() == orig.to_multiset(),
        callable_on(cmp, orig),
    ensures
        callable_on(cmp, q),
{
    broadcast use vstd::seq_lib::group_to_multiset_ensures;

    assert forall|a: T, b: T| q.contains(a) && q.contains(b) implies #[trigger] cmp.requires((&a, &b)) by {
        assert(q.to_multiset().count(a) > 0);
        assert(q.to_multiset().count(b) > 0);
        assert(orig.contains(a));
        assert(orig.contains(b));
    }
}

/// In pass `i`, with the items of `p` from `j` to `i` all above the item
/// being inserted, that pass costs more than the `i − j` comparisons spent
/// on them when `j > 0`.
proof fn lemma_pass_cost_at_least<T>(le: spec_fn(T, T) -> bool, p: Seq<T>, orig: Seq<T>, i: int, j: int)
    requires
        0 < j <= i < p.len(),
        i < orig.len(),
        p[i] == orig[i],
        p.subrange(0, i).to_multiset() == orig.subrange(0, i).to_multiset(),
        forall|k: int| j <= k < i ==> !le(#[trigger] p[k], p[i]),
    ensures
        insertion_cost(le, orig, i + 1) >= insertion_cost(le, orig, i) + (i - j) + 1,
{
    let pre = p.subrange(0, i);
    lemma_count_above_same_items(le, pre, orig.subrange(0, i), orig[i]);
    assert forall|k: int| j <= k < pre.len() implies !le(#[trigger] pre[k], orig[i]) by {
        assert(pre[k] == p[k]);
    }
    lemma_count_above_split(le, pre, orig[i], j);
}

/// At the end of pass `i`, with the items of `p` below `j` not above the
/// inserted item and those from `j` on above it, the pass costs exactly the
/// comparisons spent.
proof fn lemma_pass_cost_exact<T>(le: spec_fn(T, T) -> bool, p: Seq<T>, orig: Seq<T>, i: int, j: int)
    requires
        0 <= j <= i < p.len(),
        i < orig.len(),
        p[i] == orig[i],
        p.subrange(0, i).to_multiset() == orig.subrange(0, i).to_multiset(),
        forall|k: int| j <= k < i ==> !le(#[trigger] p[k], p[i]),
        forall|k: int| 0 <= k < j ==> le(#[trigger] p[k], p[i]),
    ensures
        insertion_cost(le, orig, i + 1) == insertion_cost(le, orig, i) + (i - j) + if j > 0 { 1int } else { 0int },
{
    let pre = p.subrange(0, i);
    lemma_count_above_same_items(le, pre, orig.subrange(0, i), orig[i]);
    assert forall|k: int| j <= k < pre.len() implies !le(#[trigger] pre[k], orig[i]) by {
        assert(pre[k] == p[k]);
    }
    assert forall|k: int| 0 <= k < j implies le(#[trigger] pre[k], orig[i]) by {
        assert(pre[k] == p[k]);
    }
    lemma_count_above_split(le, pre, orig[i], j);
}

/// After pass `i`, the first `i + 1` items hold the first `i + 1` items of
/// the input.
proof fn lemma_prefix_keeps_items<T>(p: Seq<T>, q: Seq<T>, orig: Seq<T>, i: int, j: int)
    requires
        0 <= j <= i < p.len(),
        q.len() == p.len(),
        i < orig.len(),
        p[i] == orig[i],
        p.subrange(0, i).to_multiset() == orig.subrange(0, i).to_multiset(),
        forall|k: int| 0 <= k < j ==> q[k] == p[k],
        q[j] == p[i],
        forall|k: int| j < k <= i ==> q[k] == p[k - 1],
    ensures
        q.subrange(0, i + 1).to_multiset() == orig.subrange(0, i + 1).to_multiset(),
{
    broadcast use vstd::seq_lib::group_to_multiset_ensures;

    let p_head = p.subrange(0, i + 1);
    let q_head = q.subrange(0, i + 1);
    lemma_insert_keeps_items(p_head, q_head, i, j);
    assert(p_head =~= p.subrange(0, i).push(p[i]));
    assert(orig.subrange(0, i + 1) =~= orig.subrange(0, i).push(orig[i]));
}

/// Sorts `slice` under `comparator` by insertion, within a budget of
/// comparisons fixed by its length (`comparison_budget`).  Once the budget
/// is spent, the item being inserted is put back and the whole slice is
/// handed to a full O(n log n) sort.  Reports what it did: the comparator
/// calls of the insertion passes, and whether the full sort ran (its own
/// calls come on top of those).  The result holds the same items, in
/// non-decreasing order.
pub fn insertion_sort<T: Copy, F: Fn(&T, &T) -> Ordering>(slice: &mut [T], comparator: F) -> (stats: SortStats)
    requires
        is_comparator(comparator),
        callable_on(comparator, old(slice)@),
    ensures
        final(slice)@.len() == old(slice)@.len(),
        final(slice)@.to_multiset() == old(slice)@.to_multiset(),
        forall|le: spec_fn(T, T) -> bool| #[trigger] compares_by(comparator, le) ==> sorted_by(le, final(slice)@),
        stats.comparisons <= comparison_budget(old(slice)@.len()),
        stats.fell_back ==> stats.comparisons == comparison_budget(old(slice)@.len()),
        (exists|le: spec_fn(T, T) -> bool| #[trigger] compares_by(comparator, le) && sorted_by(le, old(slice)@))
            ==> !stats.fell_back && stats.comparisons == (if old(slice)@.len() == 0 { 0 } else { old(slice)@.len() - 1 })
            && final(slice)@ == old(slice)@,
        old(slice)@.len() <= 1 ==> stats.comparisons == 0 && !stats.fell_back,
        (exists|le: spec_fn(T, T) -> bool| #[trigger] compares_by(comparator, le) && strictly_descending(le, old(slice)@))
            && !stats.fell_back ==> stats.comparisons == old(slice)@.len() * (old(slice)@.len() - 1) / 2,
        (exists|le: spec_fn(T, T) -> bool| #[trigger] compares_by(comparator, le) && strictly_descending(le, old(slice)@))
            && comparison_budget(old(slice)@.len()) < old(slice)@.len() * (old(slice)@.len() - 1) / 2
            ==> stats.fell_back,
        forall|le: spec_fn(T, T) -> bool| #[trigger] compares_by(comparator, le) ==> {
            &&& stats.fell_back <==> insertion_cost(le, old(slice)@, old(slice)@.len() as int) > comparison_budget(
                old(slice)@.len(),
            )
            &&& !stats.fell_back ==> stats.comparisons == insertion_cost(le, old(slice)@, old(slice)@.len() as int)
        },
{
    let n = slice.len();
    let ghost orig = slice@;
    let ghost was_sorted = exists|le: spec_fn(T, T) -> bool| #[trigger] compares_by(comparator, le) && sorted_by(le, orig);
    let ghost was_descending = exists|le: spec_fn(T, T) -> bool| #[trigger] compares_by(comparator, le) && strictly_descending(le, orig);
    let threshold = budget_for(n);
    if n >= 2 {
        proof {
            lemma_budget_covers_one_pass(n as nat);
        }
    }
    let mut count: u128 = 0;
    let mut i: usize = 1;
    while i < n
        invariant
            n == slice@.len(),
            n == orig.len(),
            orig == old(slice)@,
            1 <= i,
            i <= n || n == 0,
            threshold == comparison_budget(n as nat),
            n >= 2 ==> threshold >= n - 1,
            count <= threshold,
            slice@.to_multiset() == orig.to_multiset(),
            forall|le: spec_fn(T, T) -> bool| #[trigger] compares_by(comparator, le) ==> sorted_prefix(le, slice@, i as int),
            forall|le: spec_fn(T, T) -> bool| #[trigger] compares_by(comparator, le) ==> count == insertion_cost(le, orig, i as int),
            n >= 1 ==> slice@.subrange(0, i as int).to_multiset() == orig.subrange(0, i as int).to_multiset(),
            forall|k: int| i <= k < n ==> slice@[k] == orig[k],
            was_sorted ==> slice@ == orig && count == i - 1,
            was_descending ==> 2 * count == i * (i - 1) && forall|k: int| 0 <= k < i ==> slice@[k] == orig[i - 1 - k],
            was_sorted == exists|le: spec_fn(T, T) -> bool| #[trigger] compares_by(comparator, le) && sorted_by(le, orig),
            was_descending == exists|le: spec_fn(T, T) -> bool| #[trigger] compares_by(comparator, le) && strictly_descending(le, orig),
            is_comparator(comparator),
            callable_on(comparator, orig),
        decreases n - i,
    {
        let ghost p = slice@;
        let ghost count0 = count;
        let target = slice[i];
        let mut j: usize = i;
        let mut done = false;
        while j > 0 && !done
            invariant
                n == slice@.len(),
                n == p.len(),
                n == orig.len(),
                0 <= j <= i < n,
                target == p[i as int],
                forall|k: int| 0 <= k <= j ==> slice@[k] == p[k],
                forall|k: int| j < k <= i ==> slice@[k] == p[k - 1],
                forall|k: int| i < k < n ==> slice@[k] == p[k],
                count <= threshold,
                count == count0 + (i - j) + if done { 1int } else { 0int },
                done ==> j > 0,
                forall|le: spec_fn(T, T) -> bool| #[trigger] compares_by(comparator, le) ==> (done ==> le(p[j - 1], target)),
                forall|le: spec_fn(T, T) -> bool| #[trigger] compares_by(comparator, le) ==>
                    forall|k: int| j <= k < i ==> le(target, #[trigger] p[k]),
                forall|le: spec_fn(T, T) -> bool| #[trigger] compares_by(comparator, le) ==>
                    forall|k: int| j <= k < i ==> !le(#[trigger] p[k], target),
                forall|le: spec_fn(T, T) -> bool| #[trigger] compares_by(comparator, le) ==> count0 == insertion_cost(le, orig, i as int),
                forall|le: spec_fn(T, T) -> bool| #[trigger] compares_by(comparator, le) ==> sorted_prefix(le, p, i as int),
                p.subrange(0, i as int).to_multiset() == orig.subrange(0, i as int).to_multiset(),
                was_sorted ==> j == i && p == orig,
                was_descending ==> !done,
                was_descending ==> forall|k: int| 0 <= k < i ==> p[k] == orig[i - 1 - k],
                forall|k: int| i <= k < n ==> p[k] == orig[k],
                p.to_multiset() == orig.to_multiset(),
                orig == old(slice)@,
                threshold == comparison_budget(n as nat),
                threshold >= n - 1,
                was_sorted ==> count0 == i - 1,
                was_sorted == exists|le: spec_fn(T, T) -> bool| #[trigger] compares_by(comparator, le) && sorted_by(le, orig),
                was_descending == exists|le: spec_fn(T, T) -> bool| #[trigger] compares_by(comparator, le) && strictly_descending(le, orig),
                is_comparator(comparator),
                callable_on(comparator, orig),
            decreases j + if done { 0int } else { 1int },
        {
            if count >= threshold {
                slice[j] = target;
                proof {
                    lemma_insert_keeps_items(p, slice@, i as int, j as int);
                    lemma_same_items_callable(comparator, orig, slice@);
                    assert forall|le: spec_fn(T, T) -> bool| #[trigger] compares_by(comparator, le) implies insertion_cost(
                        le,
                        orig,
                        n as int,
                    ) > threshold by {
                        lemma_pass_cost_at_least(le, p, orig, i as int, j as int);
                        lemma_insertion_cost_grows(le, orig, i + 1, n as int);
                    }
                }
                sort_fully(slice, comparator);
                return SortStats { comparisons: count, fell_back: true };
            }
            count = count + 1;
            let prev = slice[j - 1];
            proof {
                lemma_item_of_same_items(orig, p, j - 1);
                lemma_item_of_same_items(orig, p, i as int);
            }
            let answer = comparator(&prev, &target);
            proof {
                if was_sorted {
                    let le0 = choose|le: spec_fn(T, T) -> bool| #[trigger] compares_by(comparator, le) && sorted_by(le, orig);
                    assert(le0(orig[i - 1], orig[i as int]));
                    assert(answer == order_of(le0, prev, target));
                }
                if was_descending {
                    let le0 = choose|le: spec_fn(T, T) -> bool| #[trigger] compares_by(comparator, le) && strictly_descending(le, orig);
                    assert(prev == p[j - 1]);
                    assert(p[j - 1] == orig[i - 1 - (j - 1)]);
                    assert(prev == orig[i - j]);
                    assert(!le0(orig[i - j], orig[i as int]));
                    assert(answer == order_of(le0, prev, target));
                }
            }
            match answer {
                Ordering::Greater => {
                    slice[j] = prev;
                    j = j - 1;
                },
                _ => {
                    done = true;
                },
            }
        }
        slice[j] = target;
        proof {
            lemma_insert_keeps_items(p, slice@, i as int, j as int);
            lemma_prefix_keeps_items(p, slice@, orig, i as int, j as int);
            assert forall|le: spec_fn(T, T) -> bool| #[trigger] compares_by(comparator, le) implies count
                == insertion_cost(le, orig, i + 1) by {
                if done {
                    assert forall|k: int| 0 <= k < j implies le(#[trigger] p[k], target) by {
                        if k < j - 1 {
                            assert(le(p[k], p[j - 1]));
                        } else {
                            assert(le(p[k], target));
                        }
                    }
                }
                lemma_pass_cost_exact(le, p, orig, i as int, j as int);
            }
            assert forall|le: spec_fn(T, T) -> bool| #[trigger] compares_by(comparator, le) implies
                sorted_prefix(le, slice@, i + 1) by {
                lemma_insert_keeps_order(le, p, slice@, i as int, j as int);
            }
            if was_descending {
                assert(j == 0);
                assert(2 * count == (i + 1) * i) by (nonlinear_arith)
                    requires 2 * count0 == i * (i - 1), count == count0 + i;
            }
            if was_sorted {
                assert(slice@ =~= orig);
            }
        }
        i = i + 1;
    }
    proof {
        if was_descending {
            if n >= 1 {
                assert(i == n);
                assert(count == n * (n - 1) / 2) by (nonlinear_arith)
                    requires 2 * count == n * (n - 1);
            } else {
                assert(count == 0);
                assert(n * (n - 1) == 0) by (nonlinear_arith)
                    requires n == 0;
            }
            assert(count == orig.len() * (orig.len() - 1) / 2);
        }
    }
    SortStats { comparisons: count, fell_back: false }
}

/// No two distinct values tie under `le`.
pub open spec fn is_antisymmetric<T>(le: spec_fn(T, T) -> bool) -> bool {
    forall|a: T, b: T| #[trigger] le(a, b) && le(b, a) ==> a == b
}

/// Under a total order (a total preorder in which no two distinct values
/// tie) there is one sorted arrangement of a given collection of items: the
/// output of `insertion_sort` is the output of any other correct full sort
/// under the same comparator.
pub proof fn lemma_sorted_arrangement_unique<T>(le: spec_fn(T, T) -> bool, a: Seq<T>, b: Seq<T>)
    requires
        is_total_preorder(le),
        is_antisymmetric(le),
        a.to_multiset() == b.to_multiset(),
        sorted_by(le, a),
        sorted_by(le, b),
    ensures
        a == b,
    decreases a.len(),
{
    broadcast use vstd::seq_lib::group_to_multiset_ensures;

    assert(a.len() == b.len()) by {
        a.to_multiset_ensures();
        b.to_multiset_ensures();
    }
    if a.len() == 0 {
        assert(a =~= b);
    } else {
        let n = a.len() - 1;
        let x = a[n];
        let y = b[n];
        assert(b.contains(x)) by {
            assert(a.contains(x));
            assert(a.to_multiset().count(x) > 0);
        }
        assert(a.contains(y)) by {
            assert(b.contains(y));
            assert(b.to_multiset().count(y) > 0);
        }
        let kx = choose|k: int| 0 <= k < b.len() && b[k] == x;
        let ky = choose|k: int| 0 <= k < a.len() && a[k] == y;
        assert(le(x, y)) by {
            if kx < n {
                assert(le(b[kx], b[n]));
            } else {
                assert(le(x, x) || le(x, x));
            }
        }
        assert(le(y, x)) by {
            if ky < n {
                assert(le(a[ky], a[n]));
            } else {
                assert(le(y, y) || le(y, y));
            }
        }
        assert(x == y);
        let a0 = a.drop_last();
        let b0 = b.drop_last();
        assert(a.remove(n) =~= a0);
        assert(b.remove(n) =~= b0);
        assert(a0.to_multiset() =~= b0.to_multiset());
        assert(sorted_by(le, a0)) by {
            assert forall|i: int, j: int| 0 <= i < j < a0.len() implies #[trigger] le(a0[i], a0[j]) by {
                assert(le(a[i], a[j]));
            }
        }
        assert(sorted_by(le, b0)) by {
            assert forall|i: int, j: int| 0 <= i < j < b0.len() implies #[trigger] le(b0[i], b0[j]) by {
                assert(le(b[i], b[j]));
            }
        }
        lemma_sorted_arrangement_unique(le, a0, b0);
        assert(a =~= a0.push(x));
        assert(b =~= b0.push(y));
    }
}

} // verus!
