//! How texts are put together and taken apart: what stands between two marks is read back, and
//! numbers have one spelling.

use crate::text;
use vstd::prelude::*;

verus! {

/// The parts, one `c` between each two.
pub open spec fn put_together(parts: Seq<Seq<u8>>, c: u8) -> Seq<u8>
    decreases parts.len(),
{
    if parts.len() == 0 {
        Seq::empty()
    } else if parts.len() == 1 {
        parts[0]
    } else {
        parts[0] + seq![c] + put_together(parts.drop_first(), c)
    }
}

pub open spec fn free_of(s: Seq<u8>, c: u8) -> bool {
    forall|i: int| 0 <= i < s.len() ==> #[trigger] s[i] != c
}

/// ASCII octets other than `@`, `?`, `#` and `%`.
pub open spec fn plain(s: Seq<u8>) -> bool {
    forall|i: int| 0 <= i < s.len() ==> {
        &&& #[trigger] s[i] < 128
        &&& s[i] != 0x40 && s[i] != 0x3f && s[i] != 0x23 && s[i] != 0x25
    }
}

pub proof fn lemma_split_front(a: Seq<u8>, b: Seq<u8>, c: u8)
    requires
        free_of(a, c),
    ensures
        text::split(a + seq![c] + b, c) == seq![a] + text::split(b, c),
{
    let s = a + seq![c] + b;
    assert(s[a.len() as int] == c);
    assert forall|j: int| 0 <= j < a.len() implies s[j] != c by {
        assert(s[j] == a[j]);
    }
    text::lemma_first_index_unique(s, c, a.len());
    assert(s.subrange(0, a.len() as int) =~= a);
    assert(s.subrange(a.len() as int + 1, s.len() as int) =~= b);
}

/// Splitting undoes putting together, where no part holds the octet between them.
pub proof fn law_parts_are_read_back(parts: Seq<Seq<u8>>, c: u8)
    requires
        parts.len() > 0,
        forall|k: int| 0 <= k < parts.len() ==> free_of(#[trigger] parts[k], c),
    ensures
        text::split(put_together(parts, c), c) == parts,
    decreases parts.len(),
{
    assert(free_of(parts[0], c));
    if parts.len() == 1 {
        text::lemma_first_index_unique(parts[0], c, parts[0].len());
        assert(text::split(put_together(parts, c), c) =~= parts);
    } else {
        let rest = parts.drop_first();
        assert forall|k: int| 0 <= k < rest.len() implies free_of(#[trigger] rest[k], c) by {
            assert(rest[k] == parts[k + 1]);
        }
        law_parts_are_read_back(rest, c);
        lemma_split_front(parts[0], put_together(rest, c), c);
        assert(seq![parts[0]] + rest =~= parts);
    }
}

pub proof fn lemma_plain_together(parts: Seq<Seq<u8>>, c: u8)
    requires
        plain(seq![c]),
        forall|k: int| 0 <= k < parts.len() ==> plain(#[trigger] parts[k]),
    ensures
        plain(put_together(parts, c)),
    decreases parts.len(),
{
    if parts.len() > 0 {
        assert(plain(parts[0]));
    }
    if parts.len() > 1 {
        let rest = parts.drop_first();
        assert forall|k: int| 0 <= k < rest.len() implies plain(#[trigger] rest[k]) by {
            assert(rest[k] == parts[k + 1]);
        }
        lemma_plain_together(rest, c);
        assert(seq![c][0] == c);
    }
}

pub proof fn lemma_last_index(a: Seq<u8>, b: Seq<u8>, c: u8)
    requires
        free_of(b, c),
    ensures
        text::last_index(a + seq![c] + b, c) == a.len(),
    decreases b.len(),
{
    let s = a + seq![c] + b;
    if b.len() == 0 {
        assert(s.last() == c);
    } else {
        let front = b.drop_last();
        assert(s.last() == b[b.len() - 1]);
        assert(s.drop_last() =~= a + seq![c] + front);
        assert forall|i: int| 0 <= i < front.len() implies #[trigger] front[i] != c by {
            assert(front[i] == b[i]);
        }
        lemma_last_index(a, front, c);
    }
}

proof fn lemma_digits_positive(a: Seq<u8>)
    requires
        text::canonical_digits(a),
        a.len() > 1 || a[0] != 0x30,
    ensures
        text::decimal_value(a) > 0,
    decreases a.len(),
{
    if a.len() > 1 {
        let front = a.drop_last();
        assert forall|i: int| 0 <= i < front.len() implies text::is_digit(#[trigger] front[i]) by {
            assert(front[i] == a[i]);
        }
        assert(front[0] == a[0]);
        lemma_digits_positive(front);
        assert(text::is_digit(a[a.len() - 1]));
    } else {
        assert(text::is_digit(a[0]));
        assert(a.drop_last() =~= Seq::empty());
        assert(text::decimal_value(a.drop_last()) == 0);
    }
}

/// A number has one spelling: its digits are read as the number, and nothing else is.
pub proof fn law_numbers_have_one_spelling(s: Seq<u8>, n: u64)
    ensures
        text::decimal_of(s) == Some(n) <==> s == text::decimal_digits(n as nat),
{
    text::lemma_decimal_roundtrip(n as nat);
    if text::decimal_of(s) == Some(n) {
        lemma_spelled(s);
    }
}

proof fn lemma_spelled(s: Seq<u8>)
    requires
        text::canonical_digits(s),
    ensures
        text::decimal_digits(text::decimal_value(s)) == s,
    decreases s.len(),
{
    let d = s.last();
    assert(text::is_digit(s[s.len() - 1]));
    if s.len() == 1 {
        assert(s.drop_last() =~= Seq::empty());
        assert(text::decimal_value(s.drop_last()) == 0);
        assert(text::decimal_digits(text::decimal_value(s)) =~= s);
    } else {
        let front = s.drop_last();
        assert forall|i: int| 0 <= i < front.len() implies text::is_digit(#[trigger] front[i]) by {
            assert(front[i] == s[i]);
        }
        assert(front[0] == s[0]);
        lemma_spelled(front);
        lemma_digits_positive(front);
        let v = text::decimal_value(front);
        assert(text::decimal_value(s) == v * 10 + (d - 0x30) as nat);
        assert(text::decimal_value(s) / 10 == v);
        assert(text::decimal_value(s) % 10 == (d - 0x30) as nat);
        assert(front.push(d) =~= s);
    }
}

pub proof fn lemma_digits_plain(n: nat)
    ensures
        plain(text::decimal_digits(n)),
        free_of(text::decimal_digits(n), 0x2f),
        free_of(text::decimal_digits(n), 0x3a),
        free_of(text::decimal_digits(n), 0x2e),
{
    text::lemma_decimal_roundtrip(n);
    let s = text::decimal_digits(n);
    assert forall|i: int| 0 <= i < s.len() implies 0x30 <= #[trigger] s[i] <= 0x39 by {
        assert(text::is_digit(s[i]));
    }
}

} // verus!
