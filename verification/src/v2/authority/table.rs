//! Searching retained rows.

use vstd::prelude::*;

verus! {

/// The index of the first row that satisfies `p`, or the number of rows where none does.
pub open spec fn index_where<T>(s: Seq<T>, p: spec_fn(T) -> bool) -> int
    decreases s.len(),
{
    if s.len() == 0 || p(s[0]) {
        0
    } else {
        1 + index_where(s.drop_first(), p)
    }
}

pub proof fn lemma_index_where<T>(s: Seq<T>, p: spec_fn(T) -> bool)
    ensures
        0 <= index_where(s, p) <= s.len(),
        index_where(s, p) < s.len() ==> p(s[index_where(s, p)]),
        forall|j: int| 0 <= j < index_where(s, p) ==> !p(#[trigger] s[j]),
    decreases s.len(),
{
    if s.len() > 0 && !p(s[0]) {
        lemma_index_where(s.drop_first(), p);
        assert forall|j: int| 0 <= j < index_where(s, p) implies !p(#[trigger] s[j]) by {
            if j > 0 {
                assert(!p(s.drop_first()[j - 1]));
            }
        }
    }
}

pub proof fn lemma_index_unique<T>(s: Seq<T>, p: spec_fn(T) -> bool, i: int)
    requires
        0 <= i <= s.len(),
        forall|j: int| 0 <= j < i ==> !p(#[trigger] s[j]),
        i < s.len() ==> p(s[i]),
    ensures
        index_where(s, p) == i,
{
    lemma_index_where(s, p);
    let k = index_where(s, p);
    if k < i {
        assert(!p(s[k]));
    }
    if i < k {
        assert(!p(s[i]));
    }
}

/// Rows that the predicate tells alike are found in the same place.
pub proof fn lemma_index_alike<T>(s: Seq<T>, p: spec_fn(T) -> bool, t: Seq<T>)
    requires
        s.len() == t.len(),
        forall|i: int| 0 <= i < s.len() ==> p(#[trigger] s[i]) == p(t[i]),
    ensures
        index_where(s, p) == index_where(t, p),
{
    lemma_index_where(s, p);
    let k = index_where(s, p);
    assert forall|j: int| 0 <= j < k implies !p(#[trigger] t[j]) by {
        assert(!p(s[j]));
    }
    if k < s.len() {
        assert(p(s[k]) == p(t[k]));
    }
    lemma_index_unique(t, p, k);
}

/// The rows that satisfy `p`, in their order.
pub open spec fn rows_where<T>(s: Seq<T>, p: spec_fn(T) -> bool) -> Seq<T>
    decreases s.len(),
{
    if s.len() == 0 {
        Seq::empty()
    } else if p(s.last()) {
        rows_where(s.drop_last(), p).push(s.last())
    } else {
        rows_where(s.drop_last(), p)
    }
}

pub proof fn lemma_rows_where_push<T>(s: Seq<T>, p: spec_fn(T) -> bool, x: T)
    ensures
        rows_where(s.push(x), p) == if p(x) {
            rows_where(s, p).push(x)
        } else {
            rows_where(s, p)
        },
{
    assert(s.push(x).drop_last() =~= s);
}

pub proof fn lemma_rows_where_member<T>(s: Seq<T>, p: spec_fn(T) -> bool, i: int)
    requires
        0 <= i < rows_where(s, p).len(),
    ensures
        p(rows_where(s, p)[i]),
        exists|j: int| 0 <= j < s.len() && s[j] == #[trigger] rows_where(s, p)[i],
    decreases s.len(),
{
    if p(s.last()) && i == rows_where(s, p).len() - 1 {
        assert(s[s.len() - 1] == rows_where(s, p)[i]);
    } else {
        lemma_rows_where_member(s.drop_last(), p, i);
        let j = choose|j: int|
            0 <= j < s.drop_last().len() && s.drop_last()[j] == #[trigger] rows_where(
                s.drop_last(),
                p,
            )[i];
        assert(s[j] == rows_where(s, p)[i]);
    }
}

/// Every row that was found is one of the rows.
pub proof fn lemma_rows_where_from<T>(s: Seq<T>, p: spec_fn(T) -> bool, i: int) -> (j: int)
    requires
        0 <= i < rows_where(s, p).len(),
    ensures
        0 <= j < s.len(),
        s[j] == rows_where(s, p)[i],
        p(s[j]),
    decreases s.len(),
{
    let rest = rows_where(s.drop_last(), p);
    if p(s.last()) && i == rest.len() {
        s.len() - 1
    } else {
        let j = lemma_rows_where_from(s.drop_last(), p, i);
        assert(s[j] == s.drop_last()[j]);
        j
    }
}

pub proof fn lemma_rows_where_len<T>(s: Seq<T>, p: spec_fn(T) -> bool)
    ensures
        rows_where(s, p).len() <= s.len(),
    decreases s.len(),
{
    if s.len() > 0 {
        lemma_rows_where_len(s.drop_last(), p);
    }
}

pub proof fn lemma_rows_where_prefix<T>(s: Seq<T>, p: spec_fn(T) -> bool, i: int)
    requires
        0 <= i <= s.len(),
    ensures
        rows_where(s.take(i), p).len() <= rows_where(s, p).len(),
        rows_where(s, p).take(rows_where(s.take(i), p).len() as int) == rows_where(s.take(i), p),
    decreases s.len() - i,
{
    let here = rows_where(s.take(i), p);
    if i < s.len() {
        lemma_rows_where_prefix(s, p, i + 1);
        assert(s.take(i + 1) =~= s.take(i).push(s[i]));
        lemma_rows_where_push(s.take(i), p, s[i]);
        let next = rows_where(s.take(i + 1), p);
        assert(rows_where(s, p).take(here.len() as int) =~= next.take(here.len() as int));
        assert(next.take(here.len() as int) =~= here);
    } else {
        assert(s.take(i) =~= s);
        assert(rows_where(s, p).take(here.len() as int) =~= here);
    }
}

/// The indices of the last `n` rows that satisfy `p`, the latest first.
pub open spec fn latest<T>(s: Seq<T>, p: spec_fn(T) -> bool, n: nat) -> Seq<int>
    decreases s.len(),
{
    if s.len() == 0 || n == 0 {
        Seq::empty()
    } else if p(s.last()) {
        seq![s.len() - 1] + latest(s.drop_last(), p, (n - 1) as nat)
    } else {
        latest(s.drop_last(), p, n)
    }
}

pub proof fn lemma_latest_len<T>(s: Seq<T>, p: spec_fn(T) -> bool, n: nat)
    ensures
        latest(s, p, n).len() <= n,
        forall|i: int|
            0 <= i < latest(s, p, n).len() ==> 0 <= #[trigger] latest(s, p, n)[i] < s.len() && p(
                s[latest(s, p, n)[i]],
            ),
    decreases s.len(),
{
    if s.len() > 0 && n > 0 {
        if p(s.last()) {
            let rest = latest(s.drop_last(), p, (n - 1) as nat);
            lemma_latest_len(s.drop_last(), p, (n - 1) as nat);
            assert forall|i: int| 0 <= i < latest(s, p, n).len() implies 0 <= #[trigger] latest(
                s,
                p,
                n,
            )[i] < s.len() && p(s[latest(s, p, n)[i]]) by {
                if i > 0 {
                    assert(latest(s, p, n)[i] == rest[i - 1]);
                    assert(s[rest[i - 1]] == s.drop_last()[rest[i - 1]]);
                }
            }
        } else {
            lemma_latest_len(s.drop_last(), p, n);
        }
    }
}

/// Where no row was found, none satisfies the predicate.
pub proof fn lemma_latest_none<T>(s: Seq<T>, p: spec_fn(T) -> bool, n: nat)
    requires
        latest(s, p, n).len() == 0,
        n > 0,
    ensures
        forall|i: int| 0 <= i < s.len() ==> !p(#[trigger] s[i]),
    decreases s.len(),
{
    if s.len() > 0 {
        lemma_latest_none(s.drop_last(), p, n);
        assert forall|i: int| 0 <= i < s.len() implies !p(#[trigger] s[i]) by {
            if i < s.len() - 1 {
                assert(s[i] == s.drop_last()[i]);
            }
        }
    }
}

/// What the first row that `f` objects to is objected to with.
pub open spec fn first_fault<T, F>(s: Seq<T>, f: spec_fn(T) -> Option<F>) -> Option<F>
    decreases s.len(),
{
    if s.len() == 0 {
        None
    } else {
        match first_fault(s.drop_last(), f) {
            Some(fault) => Some(fault),
            None => f(s.last()),
        }
    }
}

pub proof fn lemma_first_fault_step<T, F>(s: Seq<T>, f: spec_fn(T) -> Option<F>, i: int)
    requires
        0 <= i < s.len(),
        first_fault(s.take(i), f) is None,
    ensures
        first_fault(s.take(i + 1), f) == f(s[i]),
        f(s[i]) is Some ==> first_fault(s, f) == f(s[i]),
{
    assert(s.take(i + 1).drop_last() =~= s.take(i));
    assert(s.take(i + 1).last() == s[i]);
    if f(s[i]) is Some {
        lemma_first_fault_prefix(s, f, i + 1);
    }
}

proof fn lemma_first_fault_prefix<T, F>(s: Seq<T>, f: spec_fn(T) -> Option<F>, i: int)
    requires
        0 <= i <= s.len(),
        first_fault(s.take(i), f) is Some,
    ensures
        first_fault(s, f) == first_fault(s.take(i), f),
    decreases s.len() - i,
{
    if i < s.len() {
        assert(s.take(i + 1).drop_last() =~= s.take(i));
        lemma_first_fault_prefix(s, f, i + 1);
    } else {
        assert(s.take(i) =~= s);
    }
}

pub proof fn lemma_first_fault_whole<T, F>(s: Seq<T>, f: spec_fn(T) -> Option<F>)
    ensures
        first_fault(s.take(s.len() as int), f) == first_fault(s, f),
        first_fault(s.take(0), f) is None,
{
    assert(s.take(s.len() as int) =~= s);
}

/// Nothing is objected to where every row is in order.
pub proof fn lemma_first_fault_none<T, F>(s: Seq<T>, f: spec_fn(T) -> Option<F>)
    ensures
        first_fault(s, f) is None <==> forall|i: int| 0 <= i < s.len() ==> f(#[trigger] s[i]) is None,
    decreases s.len(),
{
    if s.len() > 0 {
        lemma_first_fault_none(s.drop_last(), f);
        assert forall|i: int| 0 <= i < s.len() - 1 implies s.drop_last()[i] == #[trigger] s[i] by {}
        if first_fault(s, f) is None {
            assert forall|i: int| 0 <= i < s.len() implies f(#[trigger] s[i]) is None by {
                if i < s.len() - 1 {
                    assert(f(s.drop_last()[i]) is None);
                }
            }
        }
    }
}

/// A row that is not the one looked for may go.
pub proof fn lemma_found_after_removal<T>(s: Seq<T>, i: int, p: spec_fn(T) -> bool)
    requires
        0 <= i < s.len(),
        !p(s[i]),
    ensures
        ({
            let k = index_where(s, p);
            let m = index_where(s.remove(i), p);
            &&& k < s.len() <==> m < s.remove(i).len()
            &&& k < s.len() ==> s.remove(i)[m] == s[k]
        }),
{
    let k = index_where(s, p);
    let rest = s.remove(i);
    lemma_index_where(s, p);
    let m = if k <= i {
        k
    } else {
        k - 1
    };
    assert forall|j: int| 0 <= j < m implies !p(#[trigger] rest[j]) by {
        let old = if j < i {
            j
        } else {
            j + 1
        };
        assert(rest[j] == s[old]);
        assert(!p(s[old]));
    }
    lemma_index_unique(rest, p, m);
}

} // verus!
