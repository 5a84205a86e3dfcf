//! Result locators: `pipestream://host:port/v2/sessions/../outputs/..`.

use super::error::{require, Error, ErrorCode};
use super::labels::{self, read_text};
use super::numbers::{Id, Number, OutputIndex, Producer};
use super::records::WorkKey;
use super::wire::{self, same_octets, Solid, Wire, Writer};
use crate::cbor;
use crate::ipv6::{self, format_address, parse_address};
use crate::text::{
    self, ascii_string, find_last_octet, find_octet, is_canonical, parse_decimal, split_octets,
    to_lower,
};
use vstd::prelude::*;
use vstd::utf8::*;

verus! {

/// Exact locator text is retained for manifest byte commitments. Parsed endpoint
/// fields are for comparison only, never authorization or credential discovery.
#[derive(Debug, Clone, PartialEq, Eq)]
pub struct ResultLocator(pub String);

#[derive(Debug, Clone, PartialEq, Eq)]
pub struct ResultTarget {
    pub host: String,
    pub port: u16,
    pub generation: Id,
    pub work: WorkKey,
    pub attempt: Id,
    pub index: OutputIndex,
}

/// What a locator names, with the host as octets.
pub struct Target {
    pub host: Seq<u8>,
    pub port: u16,
    pub generation: Id,
    pub work: WorkKey,
    pub attempt: Id,
    pub index: OutputIndex,
}

impl View for ResultTarget {
    type V = Target;

    open spec fn view(&self) -> Target {
        Target {
            host: encode_utf8(self.host@),
            port: self.port,
            generation: self.generation,
            work: self.work,
            attempt: self.attempt,
            index: self.index,
        }
    }
}

/// An octet that has no meaning in a locator: not ASCII, or one of `@?#%`.
pub open spec fn foreign_octet(b: u8) -> bool {
    b >= 128 || b == 0x40 || b == 0x3f || b == 0x23 || b == 0x25
}

pub open spec fn dns_octet(b: u8) -> bool {
    0x30 <= b <= 0x39 || 0x41 <= b <= 0x5a || 0x61 <= b <= 0x7a || b == 0x2d
}

/// One label of a host name: letters, digits and inner hyphens.
pub open spec fn dns_label(s: Seq<u8>) -> bool {
    &&& 1 <= s.len() <= 63
    &&& s[0] != 0x2d
    &&& s.last() != 0x2d
    &&& forall|i: int| 0 <= i < s.len() ==> dns_octet(#[trigger] s[i])
}

pub open spec fn dns_name(s: Seq<u8>) -> bool {
    &&& 1 <= s.len() <= 253
    &&& forall|i: int| 0 <= i < text::split(s, 0x2e).len() ==> dns_label(#[trigger] text::split(s, 0x2e)[i])
}

/// The host in its canonical form: a bracketed IPv6 address, or a host name in small letters.
pub open spec fn host_of(s: Seq<u8>) -> Option<Seq<u8>> {
    if s.len() >= 2 && s[0] == 0x5b && s.last() == 0x5d {
        match ipv6::address_of(s.subrange(1, s.len() - 1)) {
            Some(g) => Some(ipv6::canonical_text(g)),
            None => None,
        }
    } else if dns_name(s) {
        Some(text::lowered(s))
    } else {
        None
    }
}

pub open spec fn port_of(s: Seq<u8>) -> Option<u16> {
    match text::decimal_of(s) {
        Some(n) => if 1 <= n <= 65535 {
            Some(n as u16)
        } else {
            None
        },
        None => None,
    }
}

/// The six numbers of a result path, in order.
pub open spec fn path_numbers(path: Seq<u8>) -> Option<(u64, u64, u64, u64, u64, u64)> {
    let p = text::split(path, 0x2f);
    if p.len() == 13 && p[0] == encode_utf8("v2"@) && p[1] == encode_utf8("sessions"@) && p[3]
        == encode_utf8("scopes"@) && p[5] == encode_utf8("producers"@) && p[7] == encode_utf8(
        "entities"@,
    ) && p[9] == encode_utf8("attempts"@) && p[11] == encode_utf8("outputs"@) {
        match (
            text::decimal_of(p[2]),
            text::decimal_of(p[4]),
            text::decimal_of(p[6]),
            text::decimal_of(p[8]),
            text::decimal_of(p[10]),
            text::decimal_of(p[12]),
        ) {
            (Some(g), Some(s), Some(r), Some(e), Some(a), Some(i)) => Some((g, s, r, e, a, i)),
            _ => None,
        }
    } else {
        None
    }
}

/// What a locator text names, where it is a locator.
pub open spec fn target_of(s: Seq<u8>) -> Option<Target> {
    let rest = s.subrange(13, s.len() as int);
    let slash = text::first_index(rest, 0x2f) as int;
    let authority = rest.subrange(0, slash);
    let path = rest.subrange(slash + 1, rest.len() as int);
    let colon = text::last_index(authority, 0x3a);
    let host = host_of(authority.subrange(0, colon));
    let port = port_of(authority.subrange(colon + 1, authority.len() as int));
    let numbers = path_numbers(path);
    if s.len() > 1024 || exists|i: int| 0 <= i < s.len() && foreign_octet(#[trigger] s[i]) {
        None
    } else if !(s.len() >= 13 && text::lowered(s.subrange(0, 10)) == encode_utf8("pipestream"@)
        && s.subrange(10, 13) == encode_utf8("://"@)) {
        None
    } else if slash >= rest.len() || colon < 0 || host is None || port is None || numbers is None {
        None
    } else {
        let n = numbers->0;
        let generation = Id(n.0);
        let work = WorkKey { scope: Number(n.1), producer: Producer(n.2), entity: Id(n.3) };
        let attempt = Id(n.4);
        let index = OutputIndex(n.5);
        if generation.valid() && work.valid() && attempt.valid() && index.valid() {
            Some(Target { host: host->0, port: port->0, generation, work, attempt, index })
        } else {
            None
        }
    }
}

fn decimal(s: &[u8]) -> (r: Result<u64, Error>)
    ensures
        match r {
            Ok(n) => text::decimal_of(s@) == Some(n),
            Err(e) => text::decimal_of(s@) is None && e.code == ErrorCode::FrameError && e.detail@
                == if text::canonical_digits(s@) {
                "locator integer overflow"@
            } else {
                "invalid locator decimal"@
            },
        },
{
    match parse_decimal(s) {
        Some(n) => Ok(n),
        None => if is_canonical(s) {
            Err(Error::frame("locator integer overflow"))
        } else {
            Err(Error::frame("invalid locator decimal"))
        },
    }
}

fn is_dns_label(s: &[u8]) -> (r: bool)
    ensures
        r == dns_label(s@),
{
    if s.len() == 0 || s.len() > 63 || s[0] == 0x2d || s[s.len() - 1] == 0x2d {
        return false;
    }
    let mut i: usize = 0;
    while i < s.len()
        invariant
            i <= s@.len(),
            forall|j: int| 0 <= j < i ==> dns_octet(#[trigger] s@[j]),
        decreases s@.len() - i,
    {
        let b: u8 = s[i];
        if !((0x30 <= b && b <= 0x39) || (0x41 <= b && b <= 0x5a) || (0x61 <= b && b <= 0x7a) || b
            == 0x2d) {
            assert(!dns_octet(s@[i as int]));
            return false;
        }
        i += 1;
    }
    true
}

fn is_dns_name(s: &[u8]) -> (r: bool)
    ensures
        r == dns_name(s@),
{
    if s.len() == 0 || s.len() > 253 {
        return false;
    }
    let parts = split_octets(s, 0x2e);
    let ghost pieces = text::split(s@, 0x2e);
    let mut i: usize = 0;
    while i < parts.len()
        invariant
            i <= parts@.len(),
            text::views(parts@) == pieces,
            pieces == text::split(s@, 0x2e),
            forall|j: int| 0 <= j < i ==> dns_label(#[trigger] pieces[j]),
        decreases parts@.len() - i,
    {
        assert(pieces[i as int] == parts@[i as int]@);
        if !is_dns_label(parts[i]) {
            assert(!dns_label(text::split(s@, 0x2e)[i as int]));
            return false;
        }
        i += 1;
    }
    true
}

fn parse_host(s: &[u8]) -> (r: Result<String, Error>)
    requires
        text::all_ascii(s@),
    ensures
        match r {
            Ok(host) => host_of(s@) == Some(encode_utf8(host@)),
            Err(e) => host_of(s@) is None && e.code == ErrorCode::FrameError,
        },
{
    if s.len() >= 2 && s[0] == 0x5b && s[s.len() - 1] == 0x5d {
        match parse_address(vstd::slice::slice_subrange(s, 1, s.len() - 1)) {
            Some(g) => Ok(ascii_string(format_address(&g))),
            None => Err(Error::frame("invalid IPv6 locator")),
        }
    } else {
        require(is_dns_name(s), "invalid DNS locator")?;
        let host = to_lower(s);
        assert forall|i: int| 0 <= i < host@.len() implies #[trigger] host@[i] < 128 by {
            assert(s@[i] < 128);
        }
        Ok(ascii_string(host))
    }
}

fn segment_is(s: &[u8], name: &str) -> (r: bool)
    ensures
        r == (s@ == encode_utf8(name@)),
{
    same_octets(s, name.as_bytes())
}

fn parse_path(path: &[u8]) -> (r: Result<(u64, u64, u64, u64, u64, u64), Error>)
    ensures
        match r {
            Ok(n) => path_numbers(path@) == Some(n),
            Err(e) => path_numbers(path@) is None && e.code == ErrorCode::FrameError,
        },
{
    let p = split_octets(path, 0x2f);
    if p.len() != 13 {
        return Err(Error::frame("invalid V2 result path"));
    }
    proof {
        let pieces = text::views(p@);
        assert forall|i: int| 0 <= i < 13 implies #[trigger] pieces[i] == p@[i]@ by {}
    }
    if !(segment_is(p[0], "v2") && segment_is(p[1], "sessions") && segment_is(p[3], "scopes")
        && segment_is(p[5], "producers") && segment_is(p[7], "entities") && segment_is(
        p[9],
        "attempts",
    ) && segment_is(p[11], "outputs")) {
        return Err(Error::frame("invalid V2 result path"));
    }
    let generation = decimal(p[2])?;
    let scope = decimal(p[4])?;
    let producer = decimal(p[6])?;
    let entity = decimal(p[8])?;
    let attempt = decimal(p[10])?;
    let index = decimal(p[12])?;
    Ok((generation, scope, producer, entity, attempt, index))
}

fn has_foreign_octet(s: &[u8]) -> (r: bool)
    ensures
        r == exists|i: int| 0 <= i < s@.len() && foreign_octet(#[trigger] s@[i]),
        !r ==> text::all_ascii(s@),
{
    let mut i: usize = 0;
    while i < s.len()
        invariant
            i <= s@.len(),
            forall|j: int| 0 <= j < i ==> !foreign_octet(#[trigger] s@[j]),
        decreases s@.len() - i,
    {
        let b: u8 = s[i];
        if b >= 128 || b == 0x40 || b == 0x3f || b == 0x23 || b == 0x25 {
            assert(foreign_octet(s@[i as int]));
            return true;
        }
        i += 1;
    }
    assert forall|i: int| 0 <= i < s@.len() implies #[trigger] s@[i] < 128 by {
        assert(!foreign_octet(s@[i]));
    }
    false
}

impl ResultLocator {
    /// Parses the locator.
    pub fn target(&self) -> (r: Result<ResultTarget, Error>)
        ensures
            match r {
                Ok(t) => target_of(encode_utf8(self.0@)) == Some(t@),
                Err(e) => target_of(encode_utf8(self.0@)) is None && e.code
                    == ErrorCode::FrameError,
            },
    {
        let value = self.0.as_str().as_bytes();
        require(value.len() <= 1024 && !has_foreign_octet(value), "invalid locator encoding")?;
        require(value.len() >= 13, "locator scheme absent")?;
        let scheme = to_lower(vstd::slice::slice_subrange(value, 0, 10));
        require(segment_is(scheme.as_slice(), "pipestream"), "wrong locator scheme")?;
        require(
            segment_is(vstd::slice::slice_subrange(value, 10, 13), "://"),
            "locator scheme absent",
        )?;
        let rest = vstd::slice::slice_subrange(value, 13, value.len());
        let slash = find_octet(rest, 0x2f);
        require(slash < rest.len(), "locator path absent")?;
        let authority = vstd::slice::slice_subrange(rest, 0, slash);
        let path = vstd::slice::slice_subrange(rest, slash + 1, rest.len());
        let colon = match find_last_octet(authority, 0x3a) {
            Some(colon) => colon,
            None => {
                return Err(Error::frame("explicit port absent"));
            },
        };
        let host = parse_host(vstd::slice::slice_subrange(authority, 0, colon))?;
        let port = decimal(vstd::slice::slice_subrange(authority, colon + 1, authority.len()))?;
        require(port <= 65535, "locator port overflow")?;
        require(port != 0, "zero locator port")?;
        let (generation, scope, producer, entity, attempt, index) = parse_path(path)?;
        let target = ResultTarget {
            host,
            port: port as u16,
            generation: Id(generation),
            work: WorkKey {
                scope: Number(scope),
                producer: Producer(producer),
                entity: Id(entity),
            },
            attempt: Id(attempt),
            index: OutputIndex(index),
        };
        target.generation.check()?;
        target.work.check()?;
        target.attempt.check()?;
        target.index.check()?;
        Ok(target)
    }
}

impl Wire for ResultLocator {
    open spec fn wire(&self) -> Seq<u8> {
        wire::text_wire(self.0@)
    }

    open spec fn shaped(&self) -> bool {
        target_of(encode_utf8(self.0@)) is Some
    }

    open spec fn valid(&self) -> bool {
        target_of(encode_utf8(self.0@)) is Some
    }

    open spec fn refusal(&self) -> ErrorCode {
        ErrorCode::FrameError
    }

    open spec fn agrees(&self, other: &Self) -> bool {
        self.0@ == other.0@
    }

    proof fn valid_shaped(&self) {
    }

    proof fn prefix_free(a: &Self, b: &Self, x: Seq<u8>, y: Seq<u8>) {
        labels::lemma_text_prefix_free(a.0@, b.0@, x, y);
    }

    proof fn agrees_reflexive(&self) {
    }

    proof fn agrees_carries(a: &Self, b: &Self) {
    }

    fn check(&self) -> (r: Result<(), Error>) {
        match self.target() {
            Ok(_) => Ok(()),
            Err(e) => Err(e),
        }
    }

    fn same(&self, other: &Self) -> (r: bool) {
        self.0 == other.0
    }

    fn duplicate(&self) -> (r: Self) {
        ResultLocator(self.0.clone())
    }

    fn write(&self, w: &mut Writer) {
        w.text(self.0.as_str());
    }

    fn read(bytes: &[u8], pos: usize) -> (r: Result<(Self, usize), Error>) {
        let (text, next) = read_text(bytes, pos)?;
        require(text.as_bytes().len() <= 1024, "locator too long")?;
        let value = ResultLocator(text.to_owned());
        value.check()?;
        Ok((value, next))
    }
}

impl Solid for ResultLocator {
    proof fn solid(&self) {
        let n = encode_utf8(self.0@).len();
        cbor::lemma_head(3, n);
        assert(self.wire()[0] == cbor::head(3, n)[0]);
    }

    proof fn plain(&self) {
    }
}

} // verus!
