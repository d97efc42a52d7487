//! Choosing, among candidates that compete, the ones that stand: candidates are
//! taken in order of priority, and one that conflicts with a candidate taken before
//! it is passed over.
use vstd::prelude::*;

verus! {

/// What competes for a place in a selection.
pub trait Candidate: Sized {
    /// Whether `self` has priority over `other`.
    spec fn outranks(self, other: Self) -> bool;

    /// Whether the two cannot both stand.
    spec fn conflicts(self, other: Self) -> bool;

    /// A conflict is mutual.
    proof fn conflict_is_mutual(self, other: Self)
        ensures
            self.conflicts(other) == other.conflicts(self),
    ;

    /// Whether `self` has priority over `other`.
    fn has_priority(&self, other: &Self) -> (r: bool)
        ensures
            r == self.outranks(*other),
    ;

    /// Whether the two cannot both stand.
    fn in_conflict(&self, other: &Self) -> (r: bool)
        ensures
            r == self.conflicts(*other),
    ;
}

/// Whether priority is a weak order of the items: no two outrank each other, and not
/// being outranked carries over from item to item.
pub open spec fn weak_order<T: Candidate>(items: Seq<T>) -> bool {
    &&& forall|i: int, j: int|
        0 <= i < items.len() && 0 <= j < items.len() && #[trigger] items[i].outranks(items[j])
            ==> !items[j].outranks(items[i])
    &&& forall|i: int, j: int, k: int|
        #![trigger items[j].outranks(items[i]), items[k].outranks(items[j])]
        0 <= i < items.len() && 0 <= j < items.len() && 0 <= k < items.len()
            && !items[j].outranks(items[i]) && !items[k].outranks(items[j])
            ==> !items[k].outranks(items[i])
}

/// Whether item `i` comes before item `j`: it outranks it, or neither outranks the
/// other and it stands first.
pub open spec fn precedes<T: Candidate>(items: Seq<T>, i: int, j: int) -> bool {
    items[i].outranks(items[j]) || (!items[j].outranks(items[i]) && i < j)
}

/// Whether `order` holds every position below `n` once.
pub open spec fn is_permutation(order: Seq<usize>, n: nat) -> bool {
    &&& order.len() == n
    &&& order.no_duplicates()
    &&& forall|a: int| 0 <= a < order.len() ==> #[trigger] order[a] < n
}

/// Whether each position in `order` comes before those after it.
pub open spec fn in_priority_order<T: Candidate>(items: Seq<T>, order: Seq<usize>) -> bool {
    forall|a: int, b: int|
        0 <= a < b < order.len() ==> precedes(
            items,
            #[trigger] order[a] as int,
            #[trigger] order[b] as int,
        )
}

/// Whether `chosen` is what stands of the items: positions without repetition, no
/// two in conflict, and every item that is not chosen conflicts with a chosen one
/// (one that comes before it, where priority is a weak order).
pub open spec fn is_selection<T: Candidate>(items: Seq<T>, chosen: Seq<usize>) -> bool {
    &&& chosen.no_duplicates()
    &&& forall|a: int| 0 <= a < chosen.len() ==> #[trigger] chosen[a] < items.len()
    &&& forall|a: int, b: int|
        0 <= a < chosen.len() && 0 <= b < chosen.len() && a != b ==> !items[#[trigger] chosen[a] as int].conflicts(
            items[#[trigger] chosen[b] as int],
        )
    &&& forall|i: usize|
        i < items.len() && !#[trigger] chosen.contains(i) ==> is_passed_over(items, chosen, i)
}

/// Whether a chosen item stands in the way of item `i`.
pub open spec fn is_passed_over<T: Candidate>(items: Seq<T>, chosen: Seq<usize>, i: usize) -> bool {
    exists|a: int|
        0 <= a < chosen.len() && items[i as int].conflicts(
            items[#[trigger] chosen[a] as int],
        ) && (weak_order(items) ==> precedes(items, chosen[a] as int, i as int))
}

/// Where position `k` goes among the first `p` positions: behind the last of them that
/// it does not outrank.
spec fn place<T: Candidate>(items: Seq<T>, order: Seq<usize>, k: int, p: int) -> int
    decreases p,
{
    if p > 0 && items[k].outranks(items[order[p - 1] as int]) {
        place(items, order, k, p - 1)
    } else {
        p
    }
}

/// The first `k` positions, each put in its place.
spec fn order_below<T: Candidate>(items: Seq<T>, k: int) -> Seq<usize>
    decreases k,
{
    if k <= 0 {
        Seq::empty()
    } else {
        let front = order_below(items, k - 1);
        front.insert(place(items, front, k - 1, front.len() as int), (k - 1) as usize)
    }
}

/// The positions of the items in order of priority. Where priority is no weak order of
/// them, some order that the items determine.
pub closed spec fn order_of<T: Candidate>(items: Seq<T>) -> Seq<usize> {
    order_below(items, items.len() as int)
}

/// Everything behind the place is outranked, and what stands right before it is not.
proof fn lemma_place<T: Candidate>(items: Seq<T>, order: Seq<usize>, k: int, p: int)
    requires
        0 <= p <= order.len(),
    ensures
        0 <= place(items, order, k, p) <= p,
        place(items, order, k, p) > 0 ==> !items[k].outranks(
            items[order[place(items, order, k, p) - 1] as int],
        ),
        forall|b: int|
            place(items, order, k, p) <= b < p ==> items[k].outranks(
                items[#[trigger] order[b] as int],
            ),
    decreases p,
{
    if p > 0 && items[k].outranks(items[order[p - 1] as int]) {
        lemma_place(items, order, k, p - 1);
    }
}

/// The first `k` positions in their places are in order.
proof fn lemma_order_below<T: Candidate>(items: Seq<T>, k: int)
    requires
        0 <= k <= items.len() <= usize::MAX,
    ensures
        is_permutation(order_below(items, k), k as nat),
        weak_order(items) ==> in_priority_order(items, order_below(items, k)),
    decreases k,
{
    if k > 0 {
        lemma_order_below(items, k - 1);
        let front = order_below(items, k - 1);
        lemma_place(items, front, k - 1, front.len() as int);
        let p = place(items, front, k - 1, front.len() as int);
        lemma_insert_keeps_order(items, front, (k - 1) as usize, p);
    }
}

/// The order of the items is a permutation of their positions, in order of priority.
pub proof fn lemma_order_of<T: Candidate>(items: Seq<T>)
    requires
        items.len() <= usize::MAX,
    ensures
        is_permutation(order_of(items), items.len()),
        weak_order(items) ==> in_priority_order(items, order_of(items)),
{
    lemma_order_below(items, items.len() as int);
}

/// The positions of the items in order of priority; among items of one priority,
/// the one that stands first comes first.
pub fn priority_order<T: Candidate>(items: &Vec<T>) -> (order: Vec<usize>)
    ensures
        order@ == order_of(items@),
        is_permutation(order@, items@.len()),
        weak_order(items@) ==> in_priority_order(items@, order@),
{
    let mut order: Vec<usize> = Vec::new();
    let mut k: usize = 0;
    assert(order@ =~= order_below(items@, 0));
    assert(items@.len() == items.len());
    while k < items.len()
        invariant
            items@.len() <= usize::MAX,
            k <= items@.len(),
            order@ == order_below(items@, k as int),
        decreases items@.len() - k,
    {
        proof {
            lemma_order_below(items@, k as int);
        }
        let mut p: usize = order.len();
        while p > 0 && items[k].has_priority(&items[order[p - 1]])
            invariant
                k < items@.len(),
                p <= order@.len(),
                is_permutation(order@, k as nat),
                place(items@, order@, k as int, p as int) == place(
                    items@,
                    order@,
                    k as int,
                    order@.len() as int,
                ),
            decreases p,
        {
            p -= 1;
        }
        order.insert(p, k);
        k += 1;
    }
    proof {
        lemma_order_of(items@);
    }
    order
}

/// Inserting the next position `k` behind everything that it does not outrank keeps
/// the positions in order.
proof fn lemma_insert_keeps_order<T: Candidate>(items: Seq<T>, order: Seq<usize>, k: usize, p: int)
    requires
        k < items.len(),
        is_permutation(order, k as nat),
        0 <= p <= order.len(),
        p > 0 ==> !items[k as int].outranks(items[order[p - 1] as int]),
        forall|b: int|
            p <= b < order.len() ==> items[k as int].outranks(
                items[#[trigger] order[b] as int],
            ),
        weak_order(items) ==> in_priority_order(items, order),
    ensures
        is_permutation(order.insert(p, k), (k + 1) as nat),
        weak_order(items) ==> in_priority_order(items, order.insert(p, k)),
{
    let after = order.insert(p, k);
    assert forall|a: int| 0 <= a < after.len() implies #[trigger] after[a] < k + 1 by {
        if a < p {
            assert(after[a] == order[a]);
        } else if a > p {
            assert(after[a] == order[a - 1]);
        }
    }
    assert forall|a: int, b: int|
        0 <= a < after.len() && 0 <= b < after.len() && a != b implies after[a] != after[b] by {
        let x = if a < p {
            a
        } else {
            a - 1
        };
        let y = if b < p {
            b
        } else {
            b - 1
        };
        if a != p {
            assert(after[a] == order[x]);
        }
        if b != p {
            assert(after[b] == order[y]);
        }
    }
    if weak_order(items) {
        assert forall|a: int, b: int| 0 <= a < b < after.len() implies precedes(
            items,
            #[trigger] after[a] as int,
            #[trigger] after[b] as int,
        ) by {
            if b < p {
                assert(after[a] == order[a] && after[b] == order[b]);
            } else if b == p {
                assert(after[a] == order[a]);
                if a < p - 1 {
                    assert(precedes(items, order[a] as int, order[p - 1] as int));
                    assert(!items[order[p - 1] as int].outranks(items[order[a] as int]));
                }
            } else {
                assert(after[b] == order[b - 1]);
                if a < p {
                    assert(after[a] == order[a]);
                } else if a > p {
                    assert(after[a] == order[a - 1]);
                }
            }
        }
    }
}

/// Whether item `i` conflicts with one of the chosen items.
spec fn is_blocked<T: Candidate>(items: Seq<T>, chosen: Seq<usize>, i: usize) -> bool {
    exists|a: int|
        0 <= a < chosen.len() && items[i as int].conflicts(items[#[trigger] chosen[a] as int])
}

/// Whether item `i` conflicts with one of the chosen items.
fn meets_conflict<T: Candidate>(items: &Vec<T>, chosen: &Vec<usize>, i: usize) -> (r: bool)
    requires
        i < items@.len(),
        forall|a: int| 0 <= a < chosen@.len() ==> #[trigger] chosen@[a] < items@.len(),
    ensures
        r == is_blocked(items@, chosen@, i),
{
    let mut a: usize = 0;
    while a < chosen.len()
        invariant
            i < items@.len(),
            a <= chosen@.len(),
            forall|b: int| 0 <= b < chosen@.len() ==> #[trigger] chosen@[b] < items@.len(),
            forall|b: int|
                0 <= b < a ==> !items@[i as int].conflicts(items@[#[trigger] chosen@[b] as int]),
        decreases chosen@.len() - a,
    {
        if items[i].in_conflict(&items[chosen[a]]) {
            assert(items@[i as int].conflicts(items@[chosen@[a as int] as int]));
            return true;
        }
        a += 1;
    }
    false
}

/// What is chosen of the first `k` positions of an order.
spec fn chosen_below<T: Candidate>(items: Seq<T>, order: Seq<usize>, k: int) -> Seq<usize>
    decreases k,
{
    if k <= 0 {
        Seq::empty()
    } else {
        let front = chosen_below(items, order, k - 1);
        if is_blocked(items, front, order[k - 1]) {
            front
        } else {
            front.push(order[k - 1])
        }
    }
}

/// What stands of the items, in the order in which it is chosen. Where priority is no
/// weak order of them, some selection that the items determine.
pub closed spec fn selection_of<T: Candidate>(items: Seq<T>) -> Seq<usize> {
    chosen_below(items, order_of(items), items.len() as int)
}

/// What is chosen of the first `k` positions of an order stands of them.
proof fn lemma_chosen_below<T: Candidate>(items: Seq<T>, order: Seq<usize>, k: int)
    requires
        0 <= k <= items.len(),
        is_permutation(order, items.len()),
        weak_order(items) ==> in_priority_order(items, order),
    ensures
        ({
            let chosen = chosen_below(items, order, k);
            &&& chosen.len() <= k
            &&& forall|a: int|
                0 <= a < chosen.len() ==> order.take(k).contains(#[trigger] chosen[a])
            &&& chosen.no_duplicates()
            &&& forall|a: int, b: int|
                0 <= a < chosen.len() && 0 <= b < chosen.len() && a
                    != b ==> !items[#[trigger] chosen[a] as int].conflicts(
                    items[#[trigger] chosen[b] as int],
                )
            &&& weak_order(items) ==> in_priority_order(items, chosen)
            &&& forall|q: int|
                0 <= q < k ==> chosen.contains(#[trigger] order[q]) || is_passed_over(
                    items,
                    chosen,
                    order[q],
                )
        }),
    decreases k,
{
    if k > 0 {
        lemma_chosen_below(items, order, k - 1);
        let before = chosen_below(items, order, k - 1);
        let chosen = chosen_below(items, order, k);
        let i = order[k - 1];
        assert forall|a: int| 0 <= a < before.len() implies order.take(k).contains(
            #[trigger] before[a],
        ) && before[a] != i && (weak_order(items) ==> precedes(
            items,
            before[a] as int,
            i as int,
        )) by {
            assert(order.take(k - 1).contains(before[a]));
            let front = order.take(k - 1);
            let q = choose|q: int| 0 <= q < front.len() && front[q] == before[a];
            assert(order.take(k)[q] == before[a]);
            assert(order[q] == before[a]);
            if weak_order(items) {
                assert(precedes(items, order[q] as int, order[k - 1] as int));
            }
        }
        if is_blocked(items, before, i) {
            let a = choose|a: int|
                0 <= a < before.len() && items[i as int].conflicts(
                    items[#[trigger] before[a] as int],
                );
            assert(order.take(k).contains(before[a]));
            assert(is_passed_over(items, chosen, i));
        } else {
            lemma_one_more_chosen(items, order, k, before);
        }
    }
}

/// Choosing position `k - 1` of an order, which nothing chosen blocks, keeps what is
/// said of the chosen.
proof fn lemma_one_more_chosen<T: Candidate>(
    items: Seq<T>,
    order: Seq<usize>,
    k: int,
    before: Seq<usize>,
)
    requires
        0 < k <= order.len(),
        !is_blocked(items, before, order[k - 1]),
        before.no_duplicates(),
        forall|a: int|
            0 <= a < before.len() ==> order.take(k).contains(#[trigger] before[a]) && before[a]
                != order[k - 1] && (weak_order(items) ==> precedes(
                items,
                before[a] as int,
                order[k - 1] as int,
            )),
        forall|a: int, b: int|
            0 <= a < before.len() && 0 <= b < before.len() && a
                != b ==> !items[#[trigger] before[a] as int].conflicts(
                items[#[trigger] before[b] as int],
            ),
        weak_order(items) ==> in_priority_order(items, before),
        forall|q: int|
            0 <= q < k - 1 ==> before.contains(#[trigger] order[q]) || is_passed_over(
                items,
                before,
                order[q],
            ),
    ensures
        ({
            let chosen = before.push(order[k - 1]);
            &&& forall|a: int|
                0 <= a < chosen.len() ==> order.take(k).contains(#[trigger] chosen[a])
            &&& chosen.no_duplicates()
            &&& forall|a: int, b: int|
                0 <= a < chosen.len() && 0 <= b < chosen.len() && a
                    != b ==> !items[#[trigger] chosen[a] as int].conflicts(
                    items[#[trigger] chosen[b] as int],
                )
            &&& weak_order(items) ==> in_priority_order(items, chosen)
            &&& forall|q: int|
                0 <= q < k ==> chosen.contains(#[trigger] order[q]) || is_passed_over(
                    items,
                    chosen,
                    order[q],
                )
        }),
{
    let i = order[k - 1];
    let chosen = before.push(i);
    assert(order.take(k)[k - 1] == i);
    assert forall|a: int| 0 <= a < chosen.len() implies order.take(k).contains(
        #[trigger] chosen[a],
    ) by {
        if a < before.len() {
            assert(chosen[a] == before[a]);
        }
    }
    assert forall|a: int, b: int|
        0 <= a < chosen.len() && 0 <= b < chosen.len() && a != b implies chosen[a]
        != chosen[b] by {
        if a < before.len() {
            assert(chosen[a] == before[a]);
        }
        if b < before.len() {
            assert(chosen[b] == before[b]);
        }
    }
    assert forall|a: int, b: int|
        0 <= a < chosen.len() && 0 <= b < chosen.len() && a
            != b implies !items[#[trigger] chosen[a] as int].conflicts(
        items[#[trigger] chosen[b] as int],
    ) by {
        if a < before.len() && b < before.len() {
            assert(before[a] == chosen[a] && before[b] == chosen[b]);
        } else if a < before.len() {
            assert(before[a] == chosen[a]);
            items[i as int].conflict_is_mutual(items[before[a] as int]);
        } else {
            assert(before[b] == chosen[b]);
        }
    }
    if weak_order(items) {
        assert forall|a: int, b: int| 0 <= a < b < chosen.len() implies precedes(
            items,
            #[trigger] chosen[a] as int,
            #[trigger] chosen[b] as int,
        ) by {
            assert(chosen[a] == before[a]);
            if b < before.len() {
                assert(chosen[b] == before[b]);
            }
        }
    }
    assert forall|q: int| 0 <= q < k implies chosen.contains(#[trigger] order[q])
        || is_passed_over(items, chosen, order[q]) by {
        if q == k - 1 {
            assert(chosen[before.len() as int] == i);
        } else if before.contains(order[q]) {
            let a = choose|a: int| 0 <= a < before.len() && before[a] == order[q];
            assert(chosen[a] == order[q]);
        } else {
            let a = choose|a: int|
                0 <= a < before.len() && items[order[q] as int].conflicts(
                    items[#[trigger] before[a] as int],
                ) && (weak_order(items) ==> precedes(items, before[a] as int, order[q] as int));
            assert(chosen[a] == before[a]);
        }
    }
}

/// What stands of the items is a selection of them, chosen in order of priority.
pub proof fn lemma_selection_of<T: Candidate>(items: Seq<T>)
    requires
        items.len() <= usize::MAX,
    ensures
        is_selection(items, selection_of(items)),
        weak_order(items) ==> in_priority_order(items, selection_of(items)),
        selection_of(items).len() <= items.len(),
{
    let order = order_of(items);
    let chosen = selection_of(items);
    lemma_order_of(items);
    lemma_chosen_below(items, order, items.len() as int);
    assert(order.take(items.len() as int) =~= order);
    assert forall|a: int| 0 <= a < chosen.len() implies #[trigger] chosen[a] < items.len() by {
        assert(order.contains(chosen[a]));
        let q = choose|q: int| 0 <= q < order.len() && order[q] == chosen[a];
        assert(order[q] < items.len());
    }
    assert forall|i: usize| i < items.len() && !#[trigger] chosen.contains(
        i,
    ) implies is_passed_over(items, chosen, i) by {
        lemma_permutation_hits(order, items.len(), i);
        let q = choose|q: int| 0 <= q < order.len() && order[q] == i;
        assert(order[q] == i);
    }
}

/// What stands of the items, in the order in which it was chosen.
pub fn select<T: Candidate>(items: &Vec<T>) -> (chosen: Vec<usize>)
    ensures
        chosen@ == selection_of(items@),
        is_selection(items@, chosen@),
        weak_order(items@) ==> in_priority_order(items@, chosen@),
{
    let order = priority_order(items);
    let mut chosen: Vec<usize> = Vec::new();
    let mut k: usize = 0;
    assert(chosen@ =~= chosen_below(items@, order@, 0));
    assert(items@.len() == items.len());
    while k < order.len()
        invariant
            k <= order@.len(),
            is_permutation(order@, items@.len()),
            weak_order(items@) ==> in_priority_order(items@, order@),
            chosen@ == chosen_below(items@, order@, k as int),
        decreases order@.len() - k,
    {
        let item = order[k];
        proof {
            lemma_chosen_below(items@, order@, k as int);
            assert forall|a: int| 0 <= a < chosen@.len() implies #[trigger] chosen@[a]
                < items@.len() by {
                assert(order@.take(k as int).contains(chosen@[a]));
                let front = order@.take(k as int);
                let q = choose|q: int| 0 <= q < front.len() && front[q] == chosen@[a];
                assert(order@[q] == chosen@[a]);
            }
        }
        if !meets_conflict(items, &chosen, item) {
            chosen.push(item);
        }
        k += 1;
    }
    proof {
        lemma_selection_of(items@);
    }
    chosen
}

/// A permutation of the positions below `n` holds each of them.
pub proof fn lemma_permutation_hits(order: Seq<usize>, n: nat, i: usize)
    requires
        is_permutation(order, n),
        i < n,
    ensures
        order.contains(i),
{
    if !order.contains(i) {
        let ints = order.map_values(|j: usize| j as int);
        assert(ints.no_duplicates());
        ints.unique_seq_to_set();
        let range = vstd::set_lib::set_int_range(0, n as int);
        vstd::set_lib::lemma_int_range(0, n as int);
        assert(ints.to_set().subset_of(range.remove(i as int))) by {
            assert forall|j: int| ints.to_set().contains(j) implies range.remove(
                i as int,
            ).contains(j) by {
                let a = choose|a: int| 0 <= a < ints.len() && ints[a] == j;
                assert(order[a] as int == j);
            }
        }
        vstd::set_lib::lemma_len_subset(ints.to_set(), range.remove(i as int));
    }
}

/// How many items come before item `i`.
spec fn how_many_precede<T: Candidate>(items: Seq<T>, i: int) -> nat {
    Set::new(|j: int| 0 <= j < items.len() && precedes(items, j, i)).len()
}

/// Fewer items come before an item than before one that it precedes.
proof fn lemma_precedes_descends<T: Candidate>(items: Seq<T>, i: int, j: int)
    requires
        weak_order(items),
        0 <= i < items.len(),
        0 <= j < items.len(),
        precedes(items, j, i),
    ensures
        how_many_precede(items, j) < how_many_precede(items, i),
{
    let before_i = Set::new(|k: int| 0 <= k < items.len() && precedes(items, k, i));
    let before_j = Set::new(|k: int| 0 <= k < items.len() && precedes(items, k, j));
    let range = vstd::set_lib::set_int_range(0, items.len() as int);
    vstd::set_lib::lemma_int_range(0, items.len() as int);
    assert(before_i.subset_of(range));
    vstd::set_lib::lemma_len_subset(before_i, range);
    assert forall|k: int| before_j.contains(k) implies before_i.remove(j).contains(k) by {
        assert(!items[j].outranks(items[k]));
        assert(!items[i].outranks(items[j]));
        assert(!items[i].outranks(items[k]));
        if !items[k].outranks(items[i]) {
            assert(!items[j].outranks(items[i]) ==> j < i);
            assert(!items[k].outranks(items[j]) ==> k < j);
        }
    }
    assert(before_i.contains(j));
    vstd::set_lib::lemma_len_subset(before_j, before_i.remove(j));
}

/// An item that stands in one selection stands in every selection of the same items.
proof fn lemma_same_choice<T: Candidate>(
    items: Seq<T>,
    a: Seq<usize>,
    b: Seq<usize>,
    i: usize,
)
    requires
        weak_order(items),
        is_selection(items, a),
        is_selection(items, b),
        i < items.len(),
        a.contains(i),
    ensures
        b.contains(i),
    decreases how_many_precede(items, i as int),
{
    if !b.contains(i) {
        assert(is_passed_over(items, b, i));
        let q = choose|q: int|
            0 <= q < b.len() && items[i as int].conflicts(
                items[#[trigger] b[q] as int],
            ) && precedes(items, b[q] as int, i as int);
        let j = b[q];
        assert(b.contains(j));
        lemma_precedes_descends(items, i as int, j as int);
        lemma_same_choice(items, b, a, j);
        let x = choose|x: int| 0 <= x < a.len() && a[x] == i;
        let y = choose|y: int| 0 <= y < a.len() && a[y] == j;
        assert(!items[a[x] as int].conflicts(items[a[y] as int]));
    }
}

/// Whether each position in `order` comes before those after it, by `before`.
pub open spec fn is_ordered_by(before: spec_fn(int, int) -> bool, order: Seq<usize>) -> bool {
    forall|a: int, b: int|
        0 <= a < b < order.len() ==> before(#[trigger] order[a] as int, #[trigger] order[b] as int)
}

/// The same positions in the same order are the same sequence.
pub proof fn lemma_order_unique(
    n: nat,
    before: spec_fn(int, int) -> bool,
    a: Seq<usize>,
    b: Seq<usize>,
)
    requires
        forall|i: int, j: int|
            0 <= i < n && 0 <= j < n && #[trigger] before(i, j) ==> !before(j, i),
        a.no_duplicates(),
        b.no_duplicates(),
        is_ordered_by(before, a),
        is_ordered_by(before, b),
        forall|x: int| 0 <= x < a.len() ==> #[trigger] a[x] < n,
        forall|i: usize| a.contains(i) <==> b.contains(i),
    ensures
        a == b,
    decreases a.len(),
{
    if a.len() == 0 {
        if b.len() > 0 {
            assert(b.contains(b[0]));
        }
        assert(a =~= b);
    } else {
        assert(a.contains(a[0]));
        assert(b.contains(a[0]));
        let q = choose|q: int| 0 <= q < b.len() && b[q] == a[0];
        assert(b.contains(b[0]));
        assert(a.contains(b[0]));
        let r = choose|r: int| 0 <= r < a.len() && a[r] == b[0];
        if q > 0 && r > 0 {
            assert(before(b[0] as int, b[q] as int));
            assert(before(a[0] as int, a[r] as int));
            assert(a[0] < n && a[r] < n);
        }
        let x = a.drop_first();
        let y = b.drop_first();
        assert forall|i: usize| x.contains(i) <==> y.contains(i) by {
            if x.contains(i) {
                let p = choose|p: int| 0 <= p < x.len() && x[p] == i;
                assert(a[p + 1] == i);
                assert(b.contains(i));
                let s = choose|s: int| 0 <= s < b.len() && b[s] == i;
                assert(y[s - 1] == i);
            }
            if y.contains(i) {
                let p = choose|p: int| 0 <= p < y.len() && y[p] == i;
                assert(b[p + 1] == i);
                assert(a.contains(i));
                let s = choose|s: int| 0 <= s < a.len() && a[s] == i;
                assert(x[s - 1] == i);
            }
        }
        assert forall|c: int, d: int| 0 <= c < d < x.len() implies before(
            #[trigger] x[c] as int,
            #[trigger] x[d] as int,
        ) by {
            assert(before(a[c + 1] as int, a[d + 1] as int));
        }
        assert forall|c: int, d: int| 0 <= c < d < y.len() implies before(
            #[trigger] y[c] as int,
            #[trigger] y[d] as int,
        ) by {
            assert(before(b[c + 1] as int, b[d + 1] as int));
        }
        lemma_order_unique(n, before, x, y);
        assert(a =~= seq![a[0]] + x);
        assert(b =~= seq![b[0]] + y);
    }
}

/// A selection is determined by its items, where priority is a weak order of them:
/// two selections of the same items hold the same positions.
pub proof fn law_selection_is_unique<T: Candidate>(items: Seq<T>, a: Seq<usize>, b: Seq<usize>)
    requires
        weak_order(items),
        is_selection(items, a),
        is_selection(items, b),
    ensures
        forall|i: usize| a.contains(i) <==> b.contains(i),
{
    assert forall|i: usize| a.contains(i) <==> b.contains(i) by {
        if a.contains(i) {
            let x = choose|x: int| 0 <= x < a.len() && a[x] == i;
            assert(a[x] < items.len());
            lemma_same_choice(items, a, b, i);
        }
        if b.contains(i) {
            let x = choose|x: int| 0 <= x < b.len() && b[x] == i;
            assert(b[x] < items.len());
            lemma_same_choice(items, b, a, i);
        }
    }
}

/// Items of which no two conflict all stand.
pub proof fn law_no_conflict_no_loss<T: Candidate>(items: Seq<T>, chosen: Seq<usize>)
    requires
        is_selection(items, chosen),
        forall|i: int, j: int|
            0 <= i < items.len() && 0 <= j < items.len() && i != j
                ==> !#[trigger] items[i].conflicts(items[j]),
    ensures
        forall|i: usize| i < items.len() ==> chosen.contains(i),
{
    assert forall|i: usize| i < items.len() implies chosen.contains(i) by {
        if !chosen.contains(i) {
            assert(is_passed_over(items, chosen, i));
            let q = choose|q: int|
                0 <= q < chosen.len() && items[i as int].conflicts(
                    items[#[trigger] chosen[q] as int],
                );
            assert(chosen[q] < items.len());
            assert(chosen.contains(chosen[q]));
        }
    }
}

} // verus!
