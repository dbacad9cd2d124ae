//! Sums over ranges and over lists.
use vstd::prelude::*;

verus! {

/// The values at the numbers below `n`, added up.
pub open spec fn sum_below(f: spec_fn(int) -> nat, n: nat) -> nat
    decreases n,
{
    if n == 0 {
        0
    } else {
        sum_below(f, (n - 1) as nat) + f(n - 1)
    }
}

/// The values of the members of a list, added up.
pub open spec fn sum_over<A>(list: Seq<A>, f: spec_fn(A) -> nat) -> nat
    decreases list.len(),
{
    if list.len() == 0 {
        0
    } else {
        sum_over(list.drop_last(), f) + f(list.last())
    }
}

pub proof fn lemma_below_same(f: spec_fn(int) -> nat, g: spec_fn(int) -> nat, n: nat)
    requires
        forall|i: int| 0 <= i < n ==> #[trigger] f(i) == g(i),
    ensures
        sum_below(f, n) == sum_below(g, n),
    decreases n,
{
    if n > 0 {
        lemma_below_same(f, g, (n - 1) as nat);
        assert(f(n - 1) == g(n - 1));
    }
}

pub proof fn lemma_below_at_most(f: spec_fn(int) -> nat, g: spec_fn(int) -> nat, n: nat)
    requires
        forall|i: int| 0 <= i < n ==> #[trigger] f(i) <= g(i),
    ensures
        sum_below(f, n) <= sum_below(g, n),
    decreases n,
{
    if n > 0 {
        lemma_below_at_most(f, g, (n - 1) as nat);
        assert(f(n - 1) <= g(n - 1));
    }
}

pub proof fn lemma_below_plus(
    f: spec_fn(int) -> nat,
    g: spec_fn(int) -> nat,
    h: spec_fn(int) -> nat,
    n: nat,
)
    requires
        forall|i: int| 0 <= i < n ==> #[trigger] h(i) == f(i) + g(i),
    ensures
        sum_below(h, n) == sum_below(f, n) + sum_below(g, n),
    decreases n,
{
    if n > 0 {
        lemma_below_plus(f, g, h, (n - 1) as nat);
        assert(h(n - 1) == f(n - 1) + g(n - 1));
    }
}

/// Sums of functions that differ in one value differ by as much.
pub proof fn lemma_below_raised(
    f: spec_fn(int) -> nat,
    g: spec_fn(int) -> nat,
    k: int,
    x: nat,
    n: nat,
)
    requires
        forall|i: int|
            0 <= i < n ==> #[trigger] g(i) == f(i) + (if i == k {
                x
            } else {
                0
            }),
    ensures
        sum_below(g, n) == sum_below(f, n) + (if 0 <= k < n {
            x
        } else {
            0
        }),
    decreases n,
{
    if n > 0 {
        lemma_below_raised(f, g, k, x, (n - 1) as nat);
        assert(g(n - 1) == f(n - 1) + (if n - 1 == k {
            x
        } else {
            0
        }));
    }
}

/// A value is at most the sum that it is part of.
pub proof fn lemma_below_part(f: spec_fn(int) -> nat, k: int, n: nat)
    requires
        0 <= k < n,
    ensures
        f(k) <= sum_below(f, n),
    decreases n,
{
    if k < n - 1 {
        lemma_below_part(f, k, (n - 1) as nat);
    }
}

pub proof fn lemma_over_same<A>(list: Seq<A>, f: spec_fn(A) -> nat, g: spec_fn(A) -> nat)
    requires
        forall|i: int| 0 <= i < list.len() ==> f(#[trigger] list[i]) == g(list[i]),
    ensures
        sum_over(list, f) == sum_over(list, g),
    decreases list.len(),
{
    if list.len() > 0 {
        let front = list.drop_last();
        assert forall|i: int| 0 <= i < front.len() implies f(#[trigger] front[i]) == g(
            front[i],
        ) by {
            assert(front[i] == list[i]);
        }
        lemma_over_same(front, f, g);
        assert(f(list[list.len() - 1]) == g(list[list.len() - 1]));
    }
}

pub proof fn lemma_over_at_most<A>(list: Seq<A>, f: spec_fn(A) -> nat, g: spec_fn(A) -> nat)
    requires
        forall|i: int| 0 <= i < list.len() ==> f(#[trigger] list[i]) <= g(list[i]),
    ensures
        sum_over(list, f) <= sum_over(list, g),
    decreases list.len(),
{
    if list.len() > 0 {
        let front = list.drop_last();
        assert forall|i: int| 0 <= i < front.len() implies f(#[trigger] front[i]) <= g(
            front[i],
        ) by {
            assert(front[i] == list[i]);
        }
        lemma_over_at_most(front, f, g);
        assert(f(list[list.len() - 1]) <= g(list[list.len() - 1]));
    }
}

pub proof fn lemma_over_plus<A>(
    list: Seq<A>,
    f: spec_fn(A) -> nat,
    g: spec_fn(A) -> nat,
    h: spec_fn(A) -> nat,
)
    requires
        forall|a: A| #[trigger] h(a) == f(a) + g(a),
    ensures
        sum_over(list, h) == sum_over(list, f) + sum_over(list, g),
    decreases list.len(),
{
    if list.len() > 0 {
        lemma_over_plus(list.drop_last(), f, g, h);
        assert(h(list.last()) == f(list.last()) + g(list.last()));
    }
}

/// Sums over a list without duplicates of functions that differ in one value differ by as
/// much, if the list has it.
pub proof fn lemma_over_raised<A>(
    list: Seq<A>,
    f: spec_fn(A) -> nat,
    g: spec_fn(A) -> nat,
    k: A,
    x: nat,
)
    requires
        list.no_duplicates(),
        forall|a: A| #[trigger]
            g(a) == f(a) + (if a == k {
                x
            } else {
                0
            }),
    ensures
        sum_over(list, g) == sum_over(list, f) + (if list.contains(k) {
            x
        } else {
            0
        }),
    decreases list.len(),
{
    if list.len() > 0 {
        let front = list.drop_last();
        let last = list.len() - 1;
        assert(front.no_duplicates());
        lemma_over_raised(front, f, g, k, x);
        assert(g(list[last]) == f(list[last]) + (if list[last] == k {
            x
        } else {
            0
        }));
        if front.contains(k) {
            let i = choose|i: int| 0 <= i < front.len() && front[i] == k;
            assert(list[i] == k);
            assert(list[last] != k);
        } else if list.contains(k) {
            let i = choose|i: int| 0 <= i < list.len() && list[i] == k;
            if i < last {
                assert(front[i] == k);
            }
        }
    }
}

/// The value of a member is at most the sum over the list.
pub proof fn lemma_over_part<A>(list: Seq<A>, f: spec_fn(A) -> nat, k: A)
    requires
        list.contains(k),
    ensures
        f(k) <= sum_over(list, f),
    decreases list.len(),
{
    let i = choose|i: int| 0 <= i < list.len() && list[i] == k;
    if i < list.len() - 1 {
        assert(list.drop_last()[i] == k);
        lemma_over_part(list.drop_last(), f, k);
    }
}

pub proof fn lemma_over_nothing<A>(list: Seq<A>, f: spec_fn(A) -> nat)
    requires
        forall|i: int| 0 <= i < list.len() ==> f(#[trigger] list[i]) == 0,
    ensures
        sum_over(list, f) == 0,
    decreases list.len(),
{
    if list.len() > 0 {
        let front = list.drop_last();
        assert forall|i: int| 0 <= i < front.len() implies f(#[trigger] front[i]) == 0 by {
            assert(front[i] == list[i]);
        }
        lemma_over_nothing(front, f);
        assert(f(list[list.len() - 1]) == 0);
    }
}

pub proof fn lemma_below_nothing(f: spec_fn(int) -> nat, n: nat)
    requires
        forall|i: int| 0 <= i < n ==> #[trigger] f(i) == 0,
    ensures
        sum_below(f, n) == 0,
    decreases n,
{
    if n > 0 {
        lemma_below_nothing(f, (n - 1) as nat);
        assert(f(n - 1) == 0);
    }
}

/// A list can be added up from either end.
pub proof fn lemma_over_first<A>(list: Seq<A>, f: spec_fn(A) -> nat)
    requires
        list.len() > 0,
    ensures
        sum_over(list, f) == f(list[0]) + sum_over(list.drop_first(), f),
    decreases list.len(),
{
    if list.len() > 1 {
        let front = list.drop_last();
        lemma_over_first(front, f);
        assert(front.drop_first() =~= list.drop_first().drop_last());
        assert(front[0] == list[0]);
        assert(list.drop_first().last() == list.last());
    } else {
        assert(list.drop_first() =~= Seq::empty());
        assert(list.drop_last() =~= Seq::empty());
        assert(sum_over(list.drop_first(), f) == 0);
        assert(sum_over(list.drop_last(), f) == 0);
    }
}

pub proof fn lemma_over_reverse<A>(list: Seq<A>, f: spec_fn(A) -> nat)
    ensures
        sum_over(list.reverse(), f) == sum_over(list, f),
    decreases list.len(),
{
    if list.len() > 0 {
        lemma_over_first(list, f);
        lemma_over_reverse(list.drop_first(), f);
        assert(list.reverse().drop_last() =~= list.drop_first().reverse());
        assert(list.reverse().last() == list[0]);
    }
}

/// A double sum, over a list and a range, can be taken in either order.
pub proof fn lemma_exchange_list<A>(list: Seq<A>, h: spec_fn(A, int) -> nat, n: nat)
    ensures
        sum_over(list, |a: A| sum_below(|i: int| h(a, i), n)) == sum_below(
            |i: int| sum_over(list, |a: A| h(a, i)),
            n,
        ),
    decreases n,
{
    let rows = |a: A| sum_below(|i: int| h(a, i), n);
    if n == 0 {
        lemma_over_nothing(list, rows);
    } else {
        let m = (n - 1) as nat;
        let before = |a: A| sum_below(|i: int| h(a, i), m);
        let last = |a: A| h(a, n - 1);
        lemma_exchange_list(list, h, m);
        lemma_over_plus(list, before, last, rows);
    }
}

/// A double sum over two ranges can be taken in either order.
pub proof fn lemma_exchange_ranges(h: spec_fn(int, int) -> nat, n: nat, m: nat)
    ensures
        sum_below(|i: int| sum_below(|j: int| h(i, j), m), n) == sum_below(
            |j: int| sum_below(|i: int| h(i, j), n),
            m,
        ),
    decreases m,
{
    let rows = |i: int| sum_below(|j: int| h(i, j), m);
    if m == 0 {
        lemma_below_nothing(rows, n);
    } else {
        let k = (m - 1) as nat;
        let before = |i: int| sum_below(|j: int| h(i, j), k);
        let last = |i: int| h(i, m - 1);
        lemma_exchange_ranges(h, n, k);
        lemma_below_plus(before, last, rows, n);
    }
}

} // verus!
