//! How a status root is built over its leaves: halves join, an odd last subtree is doubled, and no leaf
//! is moved.

use super::commitments;
use vstd::prelude::*;

verus! {

/// A power of two.
pub open spec fn doubled(n: nat) -> nat
    decreases n,
{
    if n == 0 {
        1
    } else {
        2 * doubled((n - 1) as nat)
    }
}

proof fn lemma_pairs_join(a: Seq<Seq<u8>>, b: Seq<Seq<u8>>)
    requires
        a.len() % 2 == 0,
    ensures
        commitments::pairs(a + b) == commitments::pairs(a) + commitments::pairs(b),
{
    let x = commitments::pairs(a + b);
    let y = commitments::pairs(a) + commitments::pairs(b);
    assert(x.len() == y.len());
    assert forall|i: int| 0 <= i < x.len() implies x[i] == y[i] by {
        let half = a.len() / 2;
        if i < half {
            assert((a + b)[2 * i] == a[2 * i]);
            assert((a + b)[2 * i + 1] == a[2 * i + 1]);
        } else {
            assert((a + b)[2 * i] == b[2 * (i - half)]);
            assert((a + b)[2 * i + 1] == b[2 * (i - half) + 1]);
        }
    }
    assert(x =~= y);
}

/// The root of one leaf is the leaf, and that of two is the node over them, the first to the left.
pub proof fn law_root_of_few(a: Seq<u8>, b: Seq<u8>)
    ensures
        commitments::merkle_root(seq![a]) == a,
        commitments::merkle_root(seq![a, b]) == commitments::node(a, b),
{
    let s = seq![a, b];
    assert(commitments::pairs(commitments::evened(s)) =~= seq![commitments::node(a, b)]);
    assert(commitments::merkle_root(seq![commitments::node(a, b)]) == commitments::node(a, b));
}

/// The roots of two halves, each of the same power of two, join in the node over them.
pub proof fn law_halves_join(a: Seq<Seq<u8>>, b: Seq<Seq<u8>>, n: nat)
    requires
        a.len() == doubled(n),
        b.len() == doubled(n),
    ensures
        commitments::merkle_root(a + b) == commitments::node(
            commitments::merkle_root(a),
            commitments::merkle_root(b),
        ),
    decreases n,
{
    if n == 0 {
        assert(a + b =~= seq![a[0], b[0]]);
        assert(a =~= seq![a[0]]);
        assert(b =~= seq![b[0]]);
        law_root_of_few(a[0], b[0]);
    } else {
        let m = (n - 1) as nat;
        lemma_doubled(m);
        assert(a.len() == 2 * doubled(m));
        assert(commitments::evened(a) == a);
        assert(commitments::evened(b) == b);
        assert(commitments::evened(a + b) == a + b);
        lemma_pairs_join(a, b);
        law_halves_join(commitments::pairs(a), commitments::pairs(b), m);
    }
}

proof fn lemma_doubled(n: nat)
    ensures
        doubled(n) > 0,
    decreases n,
{
    if n > 0 {
        lemma_doubled((n - 1) as nat);
    }
}

/// An odd last leaf counts twice, and is not padded: of more than one leaf, the root is that with the
/// last leaf repeated.
pub proof fn law_odd_leaf_counts_twice(s: Seq<Seq<u8>>)
    requires
        s.len() > 1,
        s.len() % 2 == 1,
    ensures
        commitments::merkle_root(s) == commitments::merkle_root(s.push(s.last())),
{
    assert(commitments::evened(s) == s.push(s.last()));
    assert(commitments::evened(s.push(s.last())) == s.push(s.last()));
}

/// Three leaves: the last one is doubled beside the node over the first two.
pub proof fn law_root_of_three(a: Seq<u8>, b: Seq<u8>, c: Seq<u8>)
    ensures
        commitments::merkle_root(seq![a, b, c]) == commitments::node(
            commitments::node(a, b),
            commitments::node(c, c),
        ),
{
    law_odd_leaf_counts_twice(seq![a, b, c]);
    assert(seq![a, b, c].push(c) =~= seq![a, b] + seq![c, c]);
    reveal_with_fuel(doubled, 2);
    assert(doubled(1) == 2);
    law_halves_join(seq![a, b], seq![c, c], 1);
    law_root_of_few(a, b);
    law_root_of_few(c, c);
}

} // verus!
