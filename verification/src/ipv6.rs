//! The textual form of IPv6 addresses: groups of hexadecimal digits with at most one `::`, and
//! an optional dotted-decimal tail.

use crate::text::{self, parse_decimal, push_decimal, split_octets};
use vstd::prelude::*;

verus! {

pub open spec fn hex_digit(b: u8) -> Option<nat> {
    if 0x30 <= b <= 0x39 {
        Some((b - 0x30) as nat)
    } else if 0x61 <= b <= 0x66 {
        Some((b - 0x61 + 10) as nat)
    } else if 0x41 <= b <= 0x46 {
        Some((b - 0x41 + 10) as nat)
    } else {
        None
    }
}

pub open spec fn all_hex(s: Seq<u8>) -> bool {
    forall|i: int| 0 <= i < s.len() ==> hex_digit(#[trigger] s[i]) is Some
}

pub open spec fn hex_value(s: Seq<u8>) -> nat
    decreases s.len(),
{
    if s.len() == 0 {
        0
    } else {
        hex_value(s.drop_last()) * 16 + hex_digit(s.last())->0
    }
}

/// One to four hexadecimal digits.
pub open spec fn group_of(s: Seq<u8>) -> Option<u16> {
    if 1 <= s.len() <= 4 && all_hex(s) {
        Some(hex_value(s) as u16)
    } else {
        None
    }
}

/// One to three decimal digits without a superfluous zero, at most 255.
pub open spec fn octet_of(s: Seq<u8>) -> Option<u8> {
    if text::canonical_digits(s) && s.len() <= 3 && text::decimal_value(s) <= 255 {
        Some(text::decimal_value(s) as u8)
    } else {
        None
    }
}

/// Four dotted octets, as two groups.
pub open spec fn dotted_of(s: Seq<u8>) -> Option<Seq<u16>> {
    let p = text::split(s, 0x2e);
    if p.len() == 4 && octet_of(p[0]) is Some && octet_of(p[1]) is Some && octet_of(p[2]) is Some
        && octet_of(p[3]) is Some {
        Some(
            seq![
                (octet_of(p[0])->0 * 256 + octet_of(p[1])->0) as u16,
                (octet_of(p[2])->0 * 256 + octet_of(p[3])->0) as u16,
            ],
        )
    } else {
        None
    }
}

/// The groups that colon-separated pieces stand for; only the last piece may be dotted.
pub open spec fn piece_groups(parts: Seq<Seq<u8>>, dotted: bool) -> Option<Seq<u16>>
    decreases parts.len(),
{
    if parts.len() == 0 {
        Some(Seq::empty())
    } else if group_of(parts[0]) is Some {
        match piece_groups(parts.drop_first(), dotted) {
            Some(rest) => Some(seq![group_of(parts[0])->0] + rest),
            None => None,
        }
    } else if dotted && parts.len() == 1 {
        dotted_of(parts[0])
    } else {
        None
    }
}

/// The groups of one side of a `::`, or of a whole address without one.
pub open spec fn side_groups(s: Seq<u8>, dotted: bool) -> Option<Seq<u16>> {
    if s.len() == 0 {
        Some(Seq::empty())
    } else {
        piece_groups(text::split(s, 0x3a), dotted)
    }
}

/// The index of the first `::`, or the length where there is none.
pub open spec fn first_gap(s: Seq<u8>) -> nat
    decreases s.len(),
{
    if s.len() < 2 {
        s.len()
    } else if s[0] == 0x3a && s[1] == 0x3a {
        0
    } else {
        1 + first_gap(s.drop_first())
    }
}

pub open spec fn zeros(n: nat) -> Seq<u16> {
    Seq::new(n, |i: int| 0u16)
}

/// The eight groups that an address text stands for.
pub open spec fn address_of(s: Seq<u8>) -> Option<Seq<u16>> {
    let gap = first_gap(s);
    if gap >= s.len() {
        match side_groups(s, true) {
            Some(g) => if g.len() == 8 {
                Some(g)
            } else {
                None
            },
            None => None,
        }
    } else {
        let front = side_groups(s.subrange(0, gap as int), false);
        let back = side_groups(s.subrange(gap as int + 2, s.len() as int), true);
        if front is Some && back is Some && front->0.len() + back->0.len() <= 7 {
            Some(
                front->0 + zeros((8 - front->0.len() - back->0.len()) as nat) + back->0,
            )
        } else {
            None
        }
    }
}

fn parse_group(s: &[u8]) -> (r: Option<u16>)
    ensures
        r == group_of(s@),
{
    if s.len() == 0 || s.len() > 4 {
        return None;
    }
    let mut value: u32 = 0;
    let mut i: usize = 0;
    while i < s.len()
        invariant
            i <= s@.len() <= 4,
            all_hex(s@.take(i as int)),
            value == hex_value(s@.take(i as int)),
            i == 0 ==> value < 1,
            i == 1 ==> value < 16,
            i == 2 ==> value < 256,
            i == 3 ==> value < 4096,
            i == 4 ==> value < 65536,
        decreases s@.len() - i,
    {
        let b: u8 = s[i];
        let digit: u32 = if 0x30 <= b && b <= 0x39 {
            (b - 0x30) as u32
        } else if 0x61 <= b && b <= 0x66 {
            (b - 0x61 + 10) as u32
        } else if 0x41 <= b && b <= 0x46 {
            (b - 0x41 + 10) as u32
        } else {
            assert(hex_digit(s@[i as int]) is None);
            return None;
        };
        proof {
            assert(s@.take(i + 1).drop_last() =~= s@.take(i as int));
            assert forall|j: int| 0 <= j < i + 1 implies hex_digit(
                #[trigger] s@.take(i + 1)[j],
            ) is Some by {
                if j < i {
                    assert(hex_digit(s@.take(i as int)[j]) is Some);
                }
            }
        }
        value = value * 16 + digit;
        i += 1;
    }
    assert(s@.take(i as int) =~= s@);
    Some(value as u16)
}

fn parse_octet(s: &[u8]) -> (r: Option<u8>)
    ensures
        r == octet_of(s@),
{
    if s.len() > 3 {
        return None;
    }
    match parse_decimal(s) {
        Some(n) => if n <= 255 {
            Some(n as u8)
        } else {
            None
        },
        None => None,
    }
}

fn parse_dotted(s: &[u8]) -> (r: Option<(u16, u16)>)
    ensures
        match r {
            Some(g) => dotted_of(s@) == Some(seq![g.0, g.1]),
            None => dotted_of(s@) is None,
        },
{
    let parts = split_octets(s, 0x2e);
    if parts.len() != 4 {
        return None;
    }
    assert(text::views(parts@)[0] == parts@[0]@);
    assert(text::views(parts@)[1] == parts@[1]@);
    assert(text::views(parts@)[2] == parts@[2]@);
    assert(text::views(parts@)[3] == parts@[3]@);
    match (parse_octet(parts[0]), parse_octet(parts[1]), parse_octet(parts[2]), parse_octet(parts[3])) {
        (Some(a), Some(b), Some(c), Some(d)) => Some(
            (a as u16 * 256 + b as u16, c as u16 * 256 + d as u16),
        ),
        _ => None,
    }
}

fn parse_side(s: &[u8], dotted: bool) -> (r: Option<Vec<u16>>)
    ensures
        match r {
            Some(g) => side_groups(s@, dotted) == Some(g@),
            None => side_groups(s@, dotted) is None,
        },
{
    let mut groups: Vec<u16> = Vec::new();
    if s.len() == 0 {
        assert(groups@ =~= Seq::empty());
        return Some(groups);
    }
    let parts = split_octets(s, 0x3a);
    let ghost all = text::views(parts@);
    let mut i: usize = 0;
    assert(all.skip(0) =~= all);
    assert(piece_groups(all, dotted) matches Some(g) ==> Seq::<u16>::empty() + g =~= g);
    while i < parts.len()
        invariant
            i <= parts@.len(),
            s@.len() > 0,
            all == text::views(parts@),
            all == text::split(s@, 0x3a),
            match piece_groups(all.skip(i as int), dotted) {
                Some(g) => piece_groups(all, dotted) == Some(groups@ + g),
                None => piece_groups(all, dotted) is None,
            },
        decreases parts@.len() - i,
    {
        assert(all.skip(i as int)[0] == parts@[i as int]@);
        assert(all.skip(i as int).drop_first() =~= all.skip(i + 1));
        match parse_group(parts[i]) {
            Some(g) => {
                let ghost before = groups@;
                groups.push(g);
                proof {
                    if let Some(rest) = piece_groups(all.skip(i + 1), dotted) {
                        assert(before + (seq![g] + rest) =~= groups@ + rest);
                    }
                }
            },
            None => {
                if dotted && i + 1 == parts.len() {
                    let ghost before = groups@;
                    match parse_dotted(parts[i]) {
                        Some((a, b)) => {
                            groups.push(a);
                            groups.push(b);
                            assert(groups@ =~= before + seq![a, b]);
                            return Some(groups);
                        },
                        None => {
                            return None;
                        },
                    }
                }
                return None;
            },
        }
        i += 1;
    }
    assert(all.skip(i as int) =~= Seq::empty());
    assert(groups@ + Seq::<u16>::empty() =~= groups@);
    Some(groups)
}

fn find_gap(s: &[u8]) -> (r: usize)
    ensures
        r == first_gap(s@),
        r <= s@.len(),
        r < s@.len() ==> r + 2 <= s@.len(),
{
    let mut i: usize = 0;
    assert(s@.skip(0) =~= s@);
    while s.len() - i >= 2
        invariant
            i <= s@.len(),
            first_gap(s@) == i + first_gap(s@.skip(i as int)),
        decreases s@.len() - i,
    {
        assert(s@.skip(i as int)[0] == s@[i as int]);
        assert(s@.skip(i as int)[1] == s@[i + 1]);
        if s[i] == 0x3a && s[i + 1] == 0x3a {
            return i;
        }
        assert(s@.skip(i as int).drop_first() =~= s@.skip(i + 1));
        i += 1;
    }
    s.len()
}

/// Parses an address text into its eight groups.
pub fn parse_address(s: &[u8]) -> (r: Option<Vec<u16>>)
    ensures
        match r {
            Some(g) => address_of(s@) == Some(g@) && g@.len() == 8,
            None => address_of(s@) is None,
        },
{
    let gap = find_gap(s);
    if gap >= s.len() {
        return match parse_side(s, true) {
            Some(g) => if g.len() == 8 {
                Some(g)
            } else {
                None
            },
            None => None,
        };
    }
    let front = match parse_side(vstd::slice::slice_subrange(s, 0, gap), false) {
        Some(g) => g,
        None => return None,
    };
    let back = match parse_side(vstd::slice::slice_subrange(s, gap + 2, s.len()), true) {
        Some(g) => g,
        None => return None,
    };
    if front.len() > 7 || back.len() > 7 || front.len() + back.len() > 7 {
        return None;
    }
    let ghost head = front@;
    let ghost gapped = (8 - front@.len() - back@.len()) as nat;
    let mut groups = front;
    let fill: usize = 8 - groups.len() - back.len();
    let mut i: usize = 0;
    while i < fill
        invariant
            i <= fill,
            fill == gapped,
            groups@ == head + zeros(i as nat),
        decreases fill - i,
    {
        groups.push(0);
        i += 1;
        assert(groups@ =~= head + zeros(i as nat));
    }
    let ghost filled = groups@;
    let mut j: usize = 0;
    while j < back.len()
        invariant
            j <= back@.len(),
            groups@ == filled + back@.take(j as int),
        decreases back@.len() - j,
    {
        groups.push(back[j]);
        j += 1;
        assert(groups@ =~= filled + back@.take(j as int));
    }
    assert(back@.take(j as int) =~= back@);
    Some(groups)
}

/// The hexadecimal digits of `n`, in small letters.
pub open spec fn hex_digits(n: nat) -> Seq<u8>
    decreases n,
{
    let d = n % 16;
    let c = if d < 10 {
        (0x30 + d) as u8
    } else {
        (0x57 + d) as u8
    };
    if n < 16 {
        seq![c]
    } else {
        hex_digits(n / 16).push(c)
    }
}

/// Groups separated by colons.
pub open spec fn joined(g: Seq<u16>) -> Seq<u8>
    decreases g.len(),
{
    if g.len() == 0 {
        Seq::empty()
    } else if g.len() == 1 {
        hex_digits(g[0] as nat)
    } else {
        joined(g.drop_last()).push(0x3a) + hex_digits(g.last() as nat)
    }
}

/// How many zero groups stand in a row from `i` on.
pub open spec fn zero_run(g: Seq<u16>, i: int) -> nat
    decreases g.len() - i,
{
    if !(0 <= i < g.len()) || g[i] != 0 {
        0
    } else {
        1 + zero_run(g, i + 1)
    }
}

/// The start and the length of the longest run of zero groups that starts before `n`, the first
/// such where several are equally long.
pub open spec fn longest_run(g: Seq<u16>, n: int) -> (int, nat)
    decreases n,
{
    if n <= 0 {
        (0, 0)
    } else {
        let best = longest_run(g, n - 1);
        if zero_run(g, n - 1) > best.1 {
            (n - 1, zero_run(g, n - 1))
        } else {
            best
        }
    }
}

pub open spec fn is_mapped(g: Seq<u16>) -> bool {
    g[0] == 0 && g[1] == 0 && g[2] == 0 && g[3] == 0 && g[4] == 0 && g[5] == 0xffff
}

pub open spec fn dotted_text(a: u16, b: u16) -> Seq<u8> {
    text::decimal_digits(a as nat / 256).push(0x2e) + text::decimal_digits(
        a as nat % 256,
    ).push(0x2e) + text::decimal_digits(b as nat / 256).push(0x2e) + text::decimal_digits(
        b as nat % 256,
    )
}

/// The canonical text of an address.
pub open spec fn canonical_text(g: Seq<u16>) -> Seq<u8> {
    let run = longest_run(g, 8);
    if is_mapped(g) {
        seq![0x3au8, 0x3a, 0x66, 0x66, 0x66, 0x66, 0x3a] + dotted_text(g[6], g[7])
    } else if run.1 > 1 {
        joined(g.subrange(0, run.0)) + seq![0x3au8, 0x3a] + joined(
            g.subrange(run.0 + run.1, g.len() as int),
        )
    } else {
        joined(g)
    }
}

fn push_hex(out: &mut Vec<u8>, n: u16)
    ensures
        final(out)@ == old(out)@ + hex_digits(n as nat),
    decreases n,
{
    let d: u8 = (n % 16) as u8;
    let c: u8 = if d < 10 {
        0x30 + d
    } else {
        0x57 + d
    };
    if n >= 16 {
        push_hex(out, n / 16);
    }
    out.push(c);
    assert(out@ =~= old(out)@ + hex_digits(n as nat));
}

fn push_joined(out: &mut Vec<u8>, g: &Vec<u16>, from: usize, to: usize)
    requires
        from <= to <= g@.len(),
    ensures
        final(out)@ == old(out)@ + joined(g@.subrange(from as int, to as int)),
{
    let mut i: usize = from;
    assert(g@.subrange(from as int, from as int) =~= Seq::empty());
    assert(out@ =~= old(out)@ + joined(g@.subrange(from as int, i as int)));
    while i < to
        invariant
            from <= i <= to <= g@.len(),
            out@ == old(out)@ + joined(g@.subrange(from as int, i as int)),
        decreases to - i,
    {
        if i > from {
            out.push(0x3a);
        }
        push_hex(out, g[i]);
        i += 1;
        let ghost part = g@.subrange(from as int, i as int);
        assert(part.drop_last() =~= g@.subrange(from as int, i - 1));
        assert(out@ =~= old(out)@ + joined(part));
    }
}

proof fn lemma_run_bound(g: Seq<u16>, i: int)
    requires
        0 <= i <= g.len(),
    ensures
        i + zero_run(g, i) <= g.len(),
    decreases g.len() - i,
{
    if i < g.len() && g[i] == 0 {
        lemma_run_bound(g, i + 1);
    }
}

fn count_run(g: &Vec<u16>, i: usize) -> (r: usize)
    requires
        i <= g@.len(),
    ensures
        r == zero_run(g@, i as int),
        i + r <= g@.len(),
{
    let mut n: usize = 0;
    while n < g.len() - i && g[i + n] == 0
        invariant
            i + n <= g@.len(),
            zero_run(g@, i as int) == n + zero_run(g@, i + n),
        decreases g@.len() - n,
    {
        n += 1;
    }
    n
}

proof fn lemma_joined_ascii(g: Seq<u16>)
    ensures
        text::all_ascii(joined(g)),
    decreases g.len(),
{
    if g.len() > 0 {
        lemma_hex_ascii(g.last() as nat);
        lemma_hex_ascii(g[0] as nat);
        if g.len() > 1 {
            lemma_joined_ascii(g.drop_last());
        }
    }
}

proof fn lemma_hex_ascii(n: nat)
    ensures
        text::all_ascii(hex_digits(n)),
    decreases n,
{
    if n >= 16 {
        lemma_hex_ascii(n / 16);
    }
}

proof fn lemma_digits_ascii(n: nat)
    ensures
        text::all_ascii(text::decimal_digits(n)),
    decreases n,
{
    if n >= 10 {
        lemma_digits_ascii(n / 10);
    }
}

pub proof fn lemma_canonical_ascii(g: Seq<u16>)
    requires
        g.len() == 8,
    ensures
        text::all_ascii(canonical_text(g)),
{
    let run = longest_run(g, 8);
    lemma_joined_ascii(g);
    lemma_joined_ascii(g.subrange(0, run.0));
    lemma_joined_ascii(g.subrange(run.0 + run.1, g.len() as int));
    lemma_digits_ascii(g[6] as nat / 256);
    lemma_digits_ascii(g[6] as nat % 256);
    lemma_digits_ascii(g[7] as nat / 256);
    lemma_digits_ascii(g[7] as nat % 256);
}

/// Writes the canonical text of an address.
pub fn format_address(g: &Vec<u16>) -> (r: Vec<u8>)
    requires
        g@.len() == 8,
    ensures
        r@ == canonical_text(g@),
        text::all_ascii(r@),
{
    let mut out: Vec<u8> = Vec::new();
    proof {
        lemma_canonical_ascii(g@);
    }
    if g[0] == 0 && g[1] == 0 && g[2] == 0 && g[3] == 0 && g[4] == 0 && g[5] == 0xffff {
        out.push(0x3a);
        out.push(0x3a);
        out.push(0x66);
        out.push(0x66);
        out.push(0x66);
        out.push(0x66);
        out.push(0x3a);
        push_decimal(&mut out, (g[6] / 256) as u64);
        out.push(0x2e);
        push_decimal(&mut out, (g[6] % 256) as u64);
        out.push(0x2e);
        push_decimal(&mut out, (g[7] / 256) as u64);
        out.push(0x2e);
        push_decimal(&mut out, (g[7] % 256) as u64);
        assert(out@ =~= canonical_text(g@));
        return out;
    }
    let mut start: usize = 0;
    let mut length: usize = 0;
    let mut i: usize = 0;
    while i < 8
        invariant
            g@.len() == 8,
            i <= 8,
            longest_run(g@, i as int) == (start as int, length as nat),
            start + length <= 8,
        decreases 8 - i,
    {
        let n = count_run(g, i);
        if n > length {
            start = i;
            length = n;
        }
        i += 1;
    }
    if length > 1 {
        push_joined(&mut out, g, 0, start);
        out.push(0x3a);
        out.push(0x3a);
        push_joined(&mut out, g, start + length, 8);
    } else {
        push_joined(&mut out, g, 0, 8);
        assert(g@.subrange(0, 8) =~= g@);
    }
    assert(out@ =~= canonical_text(g@));
    out
}

} // verus!
