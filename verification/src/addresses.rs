//! IPv6 addresses in their canonical text: every address is read back from it, and it leaves out the
//! longest run of zero groups.

use crate::ipv6;
use crate::spelling;
use crate::text;
use vstd::prelude::*;

verus! {

/// A text of small hexadecimal groups: no colon at either end, and no two side by side.
spec fn tight(s: Seq<u8>) -> bool {
    &&& s.len() > 0
    &&& s[0] != 0x3a && s[s.len() - 1] != 0x3a
    &&& forall|i: int| #![trigger s[i]] 0 <= i < s.len() - 1 ==> !(s[i] == 0x3a && s[i + 1] == 0x3a)
}

proof fn lemma_tight_pair(a: Seq<u8>, b: Seq<u8>)
    requires
        tight(a),
        tight(b),
    ensures
        tight(a + seq![0x3au8] + b),
{
    let s = a + seq![0x3au8] + b;
    assert(s[0] == a[0]);
    assert(s[s.len() - 1] == b[b.len() - 1]);
    assert forall|i: int| #![trigger s[i]] 0 <= i < s.len() - 1 implies !(s[i] == 0x3a && s[i + 1]
        == 0x3a) by {
        let k = a.len() as int;
        if i < k - 1 {
            assert(s[i] == a[i]);
            assert(s[i + 1] == a[i + 1]);
        } else if i == k - 1 {
            assert(s[i] == a[i]);
        } else if i == k {
            assert(s[i + 1] == b[0]);
        } else {
            assert(s[i] == b[i - k - 1]);
            assert(s[i + 1] == b[i - k]);
        }
    }
}

proof fn lemma_hex(n: nat)
    ensures
        ipv6::hex_digits(n).len() > 0,
        ipv6::all_hex(ipv6::hex_digits(n)),
        ipv6::hex_value(ipv6::hex_digits(n)) == n,
        spelling::free_of(ipv6::hex_digits(n), 0x3a),
        spelling::free_of(ipv6::hex_digits(n), 0x2e),
        n < 16 ==> ipv6::hex_digits(n).len() == 1,
        16 <= n ==> ipv6::hex_digits(n).len() == ipv6::hex_digits(n / 16).len() + 1,
    decreases n,
{
    let s = ipv6::hex_digits(n);
    let d = n % 16;
    if n < 16 {
        assert(s.drop_last() =~= Seq::empty());
        assert(ipv6::hex_value(s.drop_last()) == 0);
    } else {
        lemma_hex(n / 16);
        let front = ipv6::hex_digits(n / 16);
        assert(s.drop_last() =~= front);
        assert forall|i: int| 0 <= i < s.len() implies ipv6::hex_digit(#[trigger] s[i]) is Some
            && s[i] != 0x3a && s[i] != 0x2e by {
            if i < front.len() {
                assert(s[i] == front[i]);
                assert(ipv6::hex_digit(front[i]) is Some);
            }
        }
        assert(n == (n / 16) * 16 + d);
    }
}

proof fn lemma_group(n: u16)
    ensures
        ipv6::group_of(ipv6::hex_digits(n as nat)) == Some(n),
        spelling::free_of(ipv6::hex_digits(n as nat), 0x3a),
        spelling::free_of(ipv6::hex_digits(n as nat), 0x2e),
        tight(ipv6::hex_digits(n as nat)),
{
    let k = n as nat;
    lemma_hex(k);
    lemma_hex(k / 16);
    lemma_hex(k / 16 / 16);
    lemma_hex(k / 16 / 16 / 16);
    assert(k / 16 / 16 / 16 < 16);
    let s = ipv6::hex_digits(k);
    assert(s.len() <= 4);
    assert(s[0] != 0x3a && s[s.len() - 1] != 0x3a);
}

/// The groups, each spelled.
spec fn spelled(g: Seq<u16>) -> Seq<Seq<u8>> {
    Seq::new(g.len(), |i: int| ipv6::hex_digits(g[i] as nat))
}

proof fn lemma_together_push(parts: Seq<Seq<u8>>, last: Seq<u8>, c: u8)
    requires
        parts.len() > 0,
    ensures
        spelling::put_together(parts.push(last), c) == spelling::put_together(parts, c) + seq![c]
            + last,
    decreases parts.len(),
{
    let all = parts.push(last);
    let rest = parts.drop_first();
    assert(all.drop_first() =~= rest.push(last));
    if parts.len() == 1 {
        assert(all.drop_first() =~= seq![last]);
        assert(spelling::put_together(seq![last], c) == last);
        assert(spelling::put_together(all, c) == parts[0] + seq![c] + last);
    } else {
        lemma_together_push(rest, last, c);
        assert(spelling::put_together(all, c) =~= spelling::put_together(parts, c) + seq![c] + last);
    }
}

proof fn lemma_joined(g: Seq<u16>)
    requires
        g.len() > 0,
    ensures
        ipv6::joined(g) == spelling::put_together(spelled(g), 0x3a),
        tight(ipv6::joined(g)),
    decreases g.len(),
{
    lemma_group(g[g.len() - 1]);
    if g.len() == 1 {
        assert(spelled(g)[0] == ipv6::hex_digits(g[0] as nat));
    } else {
        let front = g.drop_last();
        lemma_joined(front);
        assert(spelled(g) =~= spelled(front).push(ipv6::hex_digits(g.last() as nat)));
        lemma_together_push(spelled(front), ipv6::hex_digits(g.last() as nat), 0x3a);
        lemma_tight_pair(ipv6::joined(front), ipv6::hex_digits(g.last() as nat));
        assert(ipv6::joined(g) =~= ipv6::joined(front) + seq![0x3au8] + ipv6::hex_digits(
            g.last() as nat,
        ));
    }
}

proof fn lemma_pieces(g: Seq<u16>, dotted: bool)
    ensures
        ipv6::piece_groups(spelled(g), dotted) == Some(g),
    decreases g.len(),
{
    if g.len() == 0 {
        assert(spelled(g).len() == 0);
        assert(g =~= Seq::empty());
    } else {
        let rest = g.drop_first();
        lemma_group(g[0]);
        lemma_pieces(rest, dotted);
        assert(spelled(g).drop_first() =~= spelled(rest));
        assert(spelled(g)[0] == ipv6::hex_digits(g[0] as nat));
        assert(seq![g[0]] + rest =~= g);
    }
}

proof fn lemma_side(g: Seq<u16>, dotted: bool)
    ensures
        ipv6::side_groups(ipv6::joined(g), dotted) == Some(g),
{
    if g.len() == 0 {
        assert(g =~= Seq::empty());
    } else {
        lemma_joined(g);
        let parts = spelled(g);
        assert forall|k: int| 0 <= k < parts.len() implies spelling::free_of(
            #[trigger] parts[k],
            0x3a,
        ) by {
            lemma_group(g[k]);
        }
        spelling::law_parts_are_read_back(parts, 0x3a);
        lemma_pieces(g, dotted);
    }
}

proof fn lemma_gap(s: Seq<u8>, k: int)
    requires
        0 <= k <= s.len(),
        forall|i: int| #![trigger s[i]] 0 <= i < k && i + 1 < s.len() ==> !(s[i] == 0x3a && s[i + 1]
            == 0x3a),
        k < s.len() ==> k + 1 < s.len() && s[k] == 0x3a && s[k + 1] == 0x3a,
    ensures
        ipv6::first_gap(s) == k,
    decreases s.len(),
{
    if s.len() >= 2 && k > 0 {
        let rest = s.drop_first();
        assert(!(s[0] == 0x3a && s[1] == 0x3a));
        assert forall|i: int| #![trigger rest[i]] 0 <= i < k - 1 && i + 1 < rest.len() implies !(
        rest[i] == 0x3a && rest[i + 1] == 0x3a) by {
            assert(rest[i] == s[i + 1]);
            assert(rest[i + 1] == s[i + 1 + 1]);
        }
        if k < s.len() {
            assert(rest[k - 1] == s[k]);
            assert(rest[k] == s[k + 1]);
        }
        lemma_gap(rest, k - 1);
    }
}

/// The `n` groups from `i` on are zero.
pub open spec fn zeros_at(g: Seq<u16>, i: int, n: int) -> bool {
    &&& 0 <= i && 0 <= n && i + n <= g.len()
    &&& forall|j: int| i <= j < i + n ==> #[trigger] g[j] == 0
}

proof fn lemma_zero_run(g: Seq<u16>, i: int)
    requires
        0 <= i <= g.len(),
    ensures
        zeros_at(g, i, ipv6::zero_run(g, i) as int),
        forall|n: int| #[trigger] zeros_at(g, i, n) ==> n <= ipv6::zero_run(g, i),
    decreases g.len() - i,
{
    if i < g.len() && g[i] == 0 {
        lemma_zero_run(g, i + 1);
        let k = ipv6::zero_run(g, i + 1) as int;
        assert(zeros_at(g, i + 1, k));
        assert forall|n: int| #[trigger] zeros_at(g, i, n) implies n <= ipv6::zero_run(g, i) by {
            if n > 0 {
                assert(zeros_at(g, i + 1, n - 1));
            }
        }
    } else {
        assert forall|n: int| #[trigger] zeros_at(g, i, n) implies n <= 0 by {
            if n > 0 {
                assert(g[i] == 0);
            }
        }
    }
}

proof fn lemma_longest(g: Seq<u16>, n: int)
    requires
        0 <= n <= g.len(),
    ensures
        ({
            let best = ipv6::longest_run(g, n);
            &&& best.1 > 0 ==> 0 <= best.0 < n && best.1 == ipv6::zero_run(g, best.0)
            &&& forall|i: int| 0 <= i < n ==> #[trigger] ipv6::zero_run(g, i) <= best.1
            &&& forall|i: int| 0 <= i < best.0 && best.1 > 0 ==> #[trigger] ipv6::zero_run(g, i)
                < best.1
        }),
    decreases n,
{
    if n > 0 {
        lemma_longest(g, n - 1);
    }
}

proof fn lemma_octet(n: nat)
    requires
        n < 256,
    ensures
        ipv6::octet_of(text::decimal_digits(n)) == Some(n as u8),
        spelling::free_of(text::decimal_digits(n), 0x2e),
        spelling::free_of(text::decimal_digits(n), 0x3a),
{
    text::lemma_decimal_roundtrip(n);
    spelling::lemma_digits_plain(n);
    assert(n / 10 / 10 < 10);
    assert(text::decimal_digits(n / 10 / 10).len() == 1);
    assert(text::decimal_digits(n / 10).len() <= 2);
    assert(text::decimal_digits(n).len() <= 3);
}

proof fn lemma_dotted(a: u16, b: u16)
    ensures
        ipv6::dotted_of(ipv6::dotted_text(a, b)) == Some(seq![a, b]),
        spelling::free_of(ipv6::dotted_text(a, b), 0x3a),
        ipv6::group_of(ipv6::dotted_text(a, b)) is None,
{
    let p = text::decimal_digits(a as nat / 256);
    let q = text::decimal_digits(a as nat % 256);
    let r = text::decimal_digits(b as nat / 256);
    let t = text::decimal_digits(b as nat % 256);
    lemma_octet(a as nat / 256);
    lemma_octet(a as nat % 256);
    lemma_octet(b as nat / 256);
    lemma_octet(b as nat % 256);
    let parts = seq![p, q, r, t];
    let s = ipv6::dotted_text(a, b);
    assert forall|k: int| 0 <= k < parts.len() implies spelling::free_of(#[trigger] parts[k], 0x2e) by {}
    spelling::law_parts_are_read_back(parts, 0x2e);
    assert(parts.drop_first() =~= seq![q, r, t]);
    assert(seq![q, r, t].drop_first() =~= seq![r, t]);
    assert(seq![r, t].drop_first() =~= seq![t]);
    let one = spelling::put_together(seq![t], 0x2e);
    let two = spelling::put_together(seq![r, t], 0x2e);
    let three = spelling::put_together(seq![q, r, t], 0x2e);
    assert(one == t);
    assert(two == r + seq![0x2eu8] + t);
    assert(three == q + seq![0x2eu8] + two);
    assert(s =~= spelling::put_together(parts, 0x2e));
    assert((a as nat / 256) * 256 + a as nat % 256 == a);
    assert((b as nat / 256) * 256 + b as nat % 256 == b);
    assert(ipv6::dotted_of(s)->0 =~= seq![a, b]);
    assert forall|i: int| 0 <= i < s.len() implies #[trigger] s[i] != 0x3a by {
        let x = p.len() as int;
        let y = x + 1 + q.len();
        let z = y + 1 + r.len();
        if i < x {
            assert(s[i] == p[i]);
        } else if i == x {
        } else if i < y {
            assert(s[i] == q[i - x - 1]);
        } else if i == y {
        } else if i < z {
            assert(s[i] == r[i - y - 1]);
        } else if i > z {
            assert(s[i] == t[i - z - 1]);
        }
    }
    assert(s[p.len() as int] == 0x2e);
    assert(ipv6::hex_digit(s[p.len() as int]) is None);
}

proof fn lemma_mapped(g: Seq<u16>)
    requires
        g.len() == 8,
        ipv6::is_mapped(g),
    ensures
        ipv6::address_of(ipv6::canonical_text(g)) == Some(g),
{
    let d = ipv6::dotted_text(g[6], g[7]);
    let s = ipv6::canonical_text(g);
    let f = seq![0x66u8, 0x66, 0x66, 0x66];
    lemma_dotted(g[6], g[7]);
    assert(s[0] == 0x3a && s[1] == 0x3a);
    lemma_gap(s, 0);
    assert(s.subrange(0, 0) =~= Seq::empty());
    let back = s.subrange(2, s.len() as int);
    assert(back =~= f + seq![0x3au8] + d);
    spelling::lemma_split_front(f, d, 0x3a);
    text::lemma_first_index_unique(d, 0x3a, d.len());
    let parts = text::split(back, 0x3a);
    assert(parts =~= seq![f, d]);
    assert(ipv6::group_of(f) == Some(0xffffu16)) by {
        reveal_with_fuel(ipv6::hex_value, 5);
        assert(f.drop_last() =~= seq![0x66u8, 0x66, 0x66]);
        assert(seq![0x66u8, 0x66, 0x66].drop_last() =~= seq![0x66u8, 0x66]);
        assert(seq![0x66u8, 0x66].drop_last() =~= seq![0x66u8]);
        assert(seq![0x66u8].drop_last() =~= Seq::<u8>::empty());
        assert(ipv6::hex_value(Seq::<u8>::empty()) == 0);
        assert(ipv6::hex_value(seq![0x66u8]) == 15);
        assert(ipv6::hex_value(seq![0x66u8, 0x66]) == 255);
        assert(ipv6::hex_value(seq![0x66u8, 0x66, 0x66]) == 4095);
        assert(ipv6::hex_value(f) == 65535);
    }
    assert(parts.drop_first() =~= seq![d]);
    assert(ipv6::piece_groups(seq![d], true) == ipv6::dotted_of(d));
    assert(ipv6::piece_groups(parts, true) == Some(seq![0xffffu16] + seq![g[6], g[7]]));
    assert(Seq::<u16>::empty() + ipv6::zeros(5) + (seq![0xffffu16] + seq![g[6], g[7]]) =~= g);
}

/// Every address is read back from its canonical text.
pub proof fn law_address_is_read_back(g: Seq<u16>)
    requires
        g.len() == 8,
    ensures
        ipv6::address_of(ipv6::canonical_text(g)) == Some(g),
{
    let s = ipv6::canonical_text(g);
    let run = ipv6::longest_run(g, 8);
    lemma_longest(g, 8);
    if ipv6::is_mapped(g) {
        lemma_mapped(g);
    } else if run.1 > 1 {
        lemma_zero_run(g, run.0);
        let front = g.subrange(0, run.0);
        let back = g.subrange(run.0 + run.1, 8);
        let left = ipv6::joined(front);
        let right = ipv6::joined(back);
        let k = left.len() as int;
        if front.len() > 0 {
            lemma_joined(front);
        }
        assert(s == left + seq![0x3au8, 0x3a] + right);
        assert forall|i: int| #![trigger s[i]] 0 <= i < k && i + 1 < s.len() implies !(s[i] == 0x3a
            && s[i + 1] == 0x3a) by {
            assert(s[i] == left[i]);
            if i + 1 < k {
                assert(s[i + 1] == left[i + 1]);
            }
        }
        assert(s[k] == 0x3a && s[k + 1] == 0x3a);
        lemma_gap(s, k);
        assert(s.subrange(0, k) =~= left);
        assert(s.subrange(k + 2, s.len() as int) =~= right);
        lemma_side(front, false);
        lemma_side(back, true);
        assert(front + ipv6::zeros((8 - front.len() - back.len()) as nat) + back =~= g);
    } else {
        lemma_joined(g);
        lemma_gap(s, s.len() as int);
        lemma_side(g, true);
    }
}

/// The canonical text leaves out the longest run of zero groups, the first of several as long, where
/// it is longer than one group; an address that stands for an IPv4 address is written with dots.
pub proof fn law_longest_zeros_are_left_out(g: Seq<u16>, i: int, n: int)
    requires
        g.len() == 8,
        n > 1,
        zeros_at(g, i, n),
        forall|j: int, m: int| #[trigger] zeros_at(g, j, m) ==> m <= n,
        forall|j: int| 0 <= j < i ==> !#[trigger] zeros_at(g, j, n),
        !(zeros_at(g, 0, 5) && g[5] == 0xffff),
    ensures
        ipv6::canonical_text(g) == ipv6::joined(g.subrange(0, i)) + seq![0x3au8, 0x3a]
            + ipv6::joined(g.subrange(i + n, 8)),
{
    let run = ipv6::longest_run(g, 8);
    lemma_longest(g, 8);
    lemma_zero_run(g, i);
    assert(ipv6::zero_run(g, i) == n);
    assert(run.1 >= n);
    lemma_zero_run(g, run.0);
    assert(run.1 == n);
    assert(zeros_at(g, run.0, n));
    assert(run.0 == i);
    if ipv6::is_mapped(g) {
        assert(zeros_at(g, 0, 5));
    }
}

/// Where no two zero groups stand side by side, the canonical text has all eight groups.
pub proof fn law_lone_zeros_are_kept(g: Seq<u16>)
    requires
        g.len() == 8,
        forall|j: int| !#[trigger] zeros_at(g, j, 2),
    ensures
        ipv6::canonical_text(g) == ipv6::joined(g),
{
    let run = ipv6::longest_run(g, 8);
    lemma_longest(g, 8);
    if run.1 > 1 {
        lemma_zero_run(g, run.0);
        assert(zeros_at(g, run.0, 2));
    }
    if ipv6::is_mapped(g) {
        assert(zeros_at(g, 0, 2));
    }
}

} // verus!
