//! Sums over finite sets.

use vstd::prelude::*;

verus! {

/// The sum of a function over a finite set.
pub open spec fn sum_over<A>(s: Set<A>, f: spec_fn(A) -> nat) -> nat
    decreases s.len(),
    when s.finite()
{
    if s.len() == 0 {
        0
    } else {
        let a = s.choose();
        f(a) + sum_over(s.remove(a), f)
    }
}

/// Any element can be taken out of a sum first.
pub proof fn lemma_sum_remove<A>(s: Set<A>, f: spec_fn(A) -> nat, x: A)
    requires
        s.finite(),
        s.contains(x),
    ensures
        sum_over(s, f) == f(x) + sum_over(s.remove(x), f),
    decreases s.len(),
{
    let a = s.choose();
    if a != x {
        lemma_sum_remove(s.remove(a), f, x);
        lemma_sum_remove(s.remove(x), f, a);
        assert(s.remove(a).remove(x) =~= s.remove(x).remove(a));
    }
}

/// A new element adds its value to the sum.
pub proof fn lemma_sum_insert<A>(s: Set<A>, f: spec_fn(A) -> nat, x: A)
    requires
        s.finite(),
        !s.contains(x),
    ensures
        sum_over(s.insert(x), f) == f(x) + sum_over(s, f),
{
    lemma_sum_remove(s.insert(x), f, x);
    assert(s.insert(x).remove(x) =~= s);
}

/// Functions that agree on the set have the same sum.
pub proof fn lemma_sum_agree<A>(s: Set<A>, f: spec_fn(A) -> nat, g: spec_fn(A) -> nat)
    requires
        s.finite(),
        forall|a: A| s.contains(a) ==> #[trigger] f(a) == g(a),
    ensures
        sum_over(s, f) == sum_over(s, g),
    decreases s.len(),
{
    if s.len() != 0 {
        let a = s.choose();
        lemma_sum_agree(s.remove(a), f, g);
    }
}

/// The sum of two functions is the sum of their sums.
pub proof fn lemma_sum_add<A>(
    s: Set<A>,
    f: spec_fn(A) -> nat,
    g: spec_fn(A) -> nat,
    both: spec_fn(A) -> nat,
)
    requires
        s.finite(),
        forall|a: A| s.contains(a) ==> #[trigger] both(a) == f(a) + g(a),
    ensures
        sum_over(s, both) == sum_over(s, f) + sum_over(s, g),
    decreases s.len(),
{
    if s.len() != 0 {
        let a = s.choose();
        lemma_sum_add(s.remove(a), f, g, both);
    }
}

/// Elements on which the function is zero can be left out of the sum.
pub proof fn lemma_sum_support<A>(s: Set<A>, part: Set<A>, f: spec_fn(A) -> nat)
    requires
        s.finite(),
        part.subset_of(s),
        forall|a: A| s.contains(a) && !part.contains(a) ==> #[trigger] f(a) == 0,
    ensures
        part.finite(),
        sum_over(s, f) == sum_over(part, f),
    decreases s.len(),
{
    vstd::set_lib::lemma_set_subset_finite(s, part);
    if s.len() == 0 {
        assert(part =~= s);
    } else {
        let a = s.choose();
        if part.contains(a) {
            lemma_sum_support(s.remove(a), part.remove(a), f);
            lemma_sum_remove(part, f, a);
        } else {
            lemma_sum_support(s.remove(a), part, f);
        }
    }
}

/// A sum of sums can be taken in either order.
pub proof fn lemma_sum_swap<A, B>(
    rows: Set<A>,
    columns: Set<B>,
    cell: spec_fn(A, B) -> nat,
    by_row: spec_fn(A) -> nat,
    by_column: spec_fn(B) -> nat,
)
    requires
        rows.finite(),
        columns.finite(),
        forall|a: A| rows.contains(a) ==> #[trigger] by_row(a)
            == sum_over(columns, |b: B| cell(a, b)),
        forall|b: B| columns.contains(b) ==> #[trigger] by_column(b)
            == sum_over(rows, |a: A| cell(a, b)),
    ensures
        sum_over(rows, by_row) == sum_over(columns, by_column),
    decreases rows.len(),
{
    if rows.len() == 0 {
        assert forall|b: B| columns.contains(b) implies #[trigger] by_column(b) == 0 by {}
        lemma_sum_support(columns, Set::<B>::empty(), by_column);
    } else {
        let a = rows.choose();
        let fewer = rows.remove(a);
        let rest = |b: B| sum_over(fewer, |a2: A| cell(a2, b));
        let first = |b: B| cell(a, b);
        lemma_sum_swap(fewer, columns, cell, by_row, rest);
        assert forall|b: B| columns.contains(b) implies #[trigger] by_column(b)
            == first(b) + rest(b) by {
            lemma_sum_remove(rows, |a2: A| cell(a2, b), a);
        }
        lemma_sum_add(columns, first, rest, by_column);
    }
}

/// A part of a set has no greater sum than the set.
pub proof fn lemma_sum_part<A>(s: Set<A>, part: Set<A>, f: spec_fn(A) -> nat)
    requires
        s.finite(),
        part.subset_of(s),
    ensures
        part.finite(),
        sum_over(part, f) <= sum_over(s, f),
    decreases s.len(),
{
    vstd::set_lib::lemma_set_subset_finite(s, part);
    if s.len() == 0 {
        assert(part =~= s);
    } else {
        let a = s.choose();
        if part.contains(a) {
            lemma_sum_part(s.remove(a), part.remove(a), f);
            lemma_sum_remove(part, f, a);
        } else {
            lemma_sum_part(s.remove(a), part, f);
        }
    }
}

} // verus!
