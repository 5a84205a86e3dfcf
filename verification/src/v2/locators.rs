//! What a result locator names: a text put together from its parts is read as those parts.

use super::numbers::{Id, OutputIndex};
use super::records::WorkKey;
use super::uri::{self, Target};
use super::wire::Wire;
use crate::{spelling, text};
use vstd::prelude::*;
use vstd::utf8::*;

verus! {

/// The path of one output.
pub open spec fn path_of(generation: Id, work: WorkKey, attempt: Id, index: OutputIndex) -> Seq<u8> {
    spelling::put_together(
        seq![
            encode_utf8("v2"@),
            encode_utf8("sessions"@),
            text::decimal_digits(generation.0 as nat),
            encode_utf8("scopes"@),
            text::decimal_digits(work.scope.0 as nat),
            encode_utf8("producers"@),
            text::decimal_digits(work.producer.0 as nat),
            encode_utf8("entities"@),
            text::decimal_digits(work.entity.0 as nat),
            encode_utf8("attempts"@),
            text::decimal_digits(attempt.0 as nat),
            encode_utf8("outputs"@),
            text::decimal_digits(index.0 as nat),
        ],
        0x2f,
    )
}

proof fn lemma_words()
    ensures
        spelling::plain(encode_utf8("v2"@)) && spelling::free_of(encode_utf8("v2"@), 0x2f),
        spelling::plain(encode_utf8("sessions"@)) && spelling::free_of(encode_utf8("sessions"@), 0x2f),
        spelling::plain(encode_utf8("scopes"@)) && spelling::free_of(encode_utf8("scopes"@), 0x2f),
        spelling::plain(encode_utf8("producers"@)) && spelling::free_of(
            encode_utf8("producers"@),
            0x2f,
        ),
        spelling::plain(encode_utf8("entities"@)) && spelling::free_of(encode_utf8("entities"@), 0x2f),
        spelling::plain(encode_utf8("attempts"@)) && spelling::free_of(encode_utf8("attempts"@), 0x2f),
        spelling::plain(encode_utf8("outputs"@)) && spelling::free_of(encode_utf8("outputs"@), 0x2f),
        encode_utf8("://"@).len() == 3 && spelling::plain(encode_utf8("://"@)),
        encode_utf8("pipestream"@).len() == 10,
{
    reveal_strlit("v2");
    reveal_strlit("sessions");
    reveal_strlit("scopes");
    reveal_strlit("producers");
    reveal_strlit("entities");
    reveal_strlit("attempts");
    reveal_strlit("outputs");
    reveal_strlit("://");
    reveal_strlit("pipestream");
    is_ascii_chars_encode_utf8("v2"@);
    is_ascii_chars_encode_utf8("sessions"@);
    is_ascii_chars_encode_utf8("scopes"@);
    is_ascii_chars_encode_utf8("producers"@);
    is_ascii_chars_encode_utf8("entities"@);
    is_ascii_chars_encode_utf8("attempts"@);
    is_ascii_chars_encode_utf8("outputs"@);
    is_ascii_chars_encode_utf8("://"@);
    is_ascii_chars_encode_utf8("pipestream"@);
}

proof fn lemma_path(generation: Id, work: WorkKey, attempt: Id, index: OutputIndex)
    ensures
        spelling::plain(path_of(generation, work, attempt, index)),
        uri::path_numbers(path_of(generation, work, attempt, index)) == Some(
            (generation.0, work.scope.0, work.producer.0, work.entity.0, attempt.0, index.0),
        ),
{
    let parts = seq![
        encode_utf8("v2"@),
        encode_utf8("sessions"@),
        text::decimal_digits(generation.0 as nat),
        encode_utf8("scopes"@),
        text::decimal_digits(work.scope.0 as nat),
        encode_utf8("producers"@),
        text::decimal_digits(work.producer.0 as nat),
        encode_utf8("entities"@),
        text::decimal_digits(work.entity.0 as nat),
        encode_utf8("attempts"@),
        text::decimal_digits(attempt.0 as nat),
        encode_utf8("outputs"@),
        text::decimal_digits(index.0 as nat),
    ];
    lemma_words();
    spelling::lemma_digits_plain(generation.0 as nat);
    spelling::lemma_digits_plain(work.scope.0 as nat);
    spelling::lemma_digits_plain(work.producer.0 as nat);
    spelling::lemma_digits_plain(work.entity.0 as nat);
    spelling::lemma_digits_plain(attempt.0 as nat);
    spelling::lemma_digits_plain(index.0 as nat);
    assert forall|k: int| 0 <= k < parts.len() implies spelling::plain(#[trigger] parts[k]) && spelling::free_of(
        parts[k],
        0x2f,
    ) by {}
    spelling::lemma_plain_together(parts, 0x2f);
    spelling::law_parts_are_read_back(parts, 0x2f);
    spelling::law_numbers_have_one_spelling(parts[2], generation.0);
    spelling::law_numbers_have_one_spelling(parts[4], work.scope.0);
    spelling::law_numbers_have_one_spelling(parts[6], work.producer.0);
    spelling::law_numbers_have_one_spelling(parts[8], work.entity.0);
    spelling::law_numbers_have_one_spelling(parts[10], attempt.0);
    spelling::law_numbers_have_one_spelling(parts[12], index.0);
}

/// The locator of one output at `host` and `port`.
pub open spec fn locator_of(
    scheme: Seq<u8>,
    host: Seq<u8>,
    port: u16,
    generation: Id,
    work: WorkKey,
    attempt: Id,
    index: OutputIndex,
) -> Seq<u8> {
    scheme + encode_utf8("://"@) + host + seq![0x3au8] + text::decimal_digits(port as nat)
        + seq![0x2fu8] + path_of(generation, work, attempt, index)
}

/// A locator names the parts that it was put together from, however the scheme is capitalised.
#[verifier::spinoff_prover]
#[verifier::rlimit(40)]
pub proof fn law_locator_names_its_parts(
    scheme: Seq<u8>,
    host: Seq<u8>,
    name: Seq<u8>,
    port: u16,
    generation: Id,
    work: WorkKey,
    attempt: Id,
    index: OutputIndex,
)
    requires
        text::lowered(scheme) == encode_utf8("pipestream"@),
        uri::host_of(host) == Some(name),
        spelling::plain(host),
        spelling::free_of(host, 0x2f),
        port > 0,
        generation.valid(),
        work.valid(),
        attempt.valid(),
        index.valid(),
        locator_of(scheme, host, port, generation, work, attempt, index).len() <= 1024,
    ensures
        uri::target_of(locator_of(scheme, host, port, generation, work, attempt, index)) == Some(
            (Target { host: name, port, generation, work, attempt, index }),
        ),
{
    let s = locator_of(scheme, host, port, generation, work, attempt, index);
    let digits = text::decimal_digits(port as nat);
    let path = path_of(generation, work, attempt, index);
    let mark = encode_utf8("://"@);
    let authority = host + seq![0x3au8] + digits;
    let rest = authority + seq![0x2fu8] + path;
    lemma_words();
    lemma_path(generation, work, attempt, index);
    spelling::lemma_digits_plain(port as nat);
    spelling::law_numbers_have_one_spelling(digits, port as u64);
    assert(scheme.len() == 10);
    assert(s.subrange(0, 10) =~= scheme);
    assert(s.subrange(10, 13) =~= mark);
    assert(s.subrange(13, s.len() as int) =~= rest);
    assert forall|j: int| 0 <= j < authority.len() implies rest[j] != 0x2f by {
        if j < host.len() {
            assert(rest[j] == host[j]);
        } else if j > host.len() {
            assert(rest[j] == digits[j - host.len() - 1]);
        }
    }
    assert(rest[authority.len() as int] == 0x2f);
    text::lemma_first_index_unique(rest, 0x2f, authority.len());
    assert(rest.subrange(0, authority.len() as int) =~= authority);
    assert(rest.subrange(authority.len() as int + 1, rest.len() as int) =~= path);
    spelling::lemma_last_index(host, digits, 0x3a);
    assert(authority.subrange(0, host.len() as int) =~= host);
    assert(authority.subrange(host.len() as int + 1, authority.len() as int) =~= digits);
    assert(uri::port_of(digits) == Some(port));
    assert forall|i: int| 0 <= i < scheme.len() implies !uri::foreign_octet(
        #[trigger] scheme[i],
    ) by {
        reveal_strlit("pipestream");
        is_ascii_chars_encode_utf8("pipestream"@);
        assert(text::lowered(scheme)[i] == text::lower(scheme[i]));
        assert(encode_utf8("pipestream"@)[i] == "pipestream"@[i] as u8);
    }
    assert forall|i: int| 0 <= i < s.len() implies !uri::foreign_octet(#[trigger] s[i]) by {
        if i < 10 {
            assert(s[i] == scheme[i]);
        } else if i < 13 {
            assert(s[i] == mark[i - 10]);
        } else {
            assert(s[i] == rest[i - 13]);
            if i - 13 < host.len() {
                assert(rest[i - 13] == host[i - 13]);
            } else if i - 13 == host.len() {
            } else if i - 13 < authority.len() {
                assert(rest[i - 13] == digits[i - 13 - host.len() - 1]);
            } else if i - 13 > authority.len() {
                assert(rest[i - 13] == path[i - 13 - authority.len() - 1]);
            }
        }
    }
}

/// A label of a host name: letters, digits and inner hyphens, at most sixty-three of them.
pub open spec fn label(s: Seq<u8>) -> bool {
    &&& 0 < s.len() < 64
    &&& s[0] != '-' as u8 && s[s.len() - 1] != '-' as u8
    &&& forall|i: int| 0 <= i < s.len() ==> {
        let c = #[trigger] s[i];
        ||| 'a' as u8 <= c <= 'z' as u8
        ||| 'A' as u8 <= c <= 'Z' as u8
        ||| '0' as u8 <= c <= '9' as u8
        ||| c == '-' as u8
    }
}

/// A host is named by its labels, small letters for capitals; a text with a part between two dots
/// that is no label, or of more than two hundred and fifty-three octets, names no host.
pub proof fn law_labels_name_a_host(parts: Seq<Seq<u8>>)
    requires
        parts.len() > 0,
        forall|k: int| 0 <= k < parts.len() ==> spelling::free_of(#[trigger] parts[k], 0x2e),
        forall|k: int| 0 <= k < parts.len() ==> spelling::free_of(#[trigger] parts[k], 0x5b),
    ensures
        uri::host_of(spelling::put_together(parts, 0x2e)) == if spelling::put_together(parts, 0x2e).len() <= 253
            && forall|k: int| 0 <= k < parts.len() ==> label(#[trigger] parts[k]) {
            Some(text::lowered(spelling::put_together(parts, 0x2e)))
        } else {
            None
        },
{
    let s = spelling::put_together(parts, 0x2e);
    spelling::law_parts_are_read_back(parts, 0x2e);
    assert(text::split(s, 0x2e) == parts);
    assert forall|k: int| 0 <= k < parts.len() implies label(#[trigger] parts[k])
        == uri::dns_label(parts[k]) by {
        lemma_label(parts[k]);
    }
    assert(spelling::free_of(parts[0], 0x5b));
    if s.len() > 0 {
        assert(s[0] != 0x5b) by {
            if parts.len() > 1 && parts[0].len() == 0 {
                assert(s[0] == 0x2e);
            } else {
                assert(s[0] == parts[0][0]);
            }
        }
    } else {
        assert(parts.len() == 1);
        assert(!label(parts[0]));
    }
    assert(uri::dns_name(s) == (s.len() <= 253 && forall|k: int| 0 <= k < parts.len() ==> label(
        #[trigger] parts[k],
    )));
}

proof fn lemma_label(s: Seq<u8>)
    ensures
        label(s) == uri::dns_label(s),
{
    if label(s) {
        assert forall|i: int| 0 <= i < s.len() implies uri::dns_octet(#[trigger] s[i]) by {}
    }
    if uri::dns_label(s) {
        assert forall|i: int| 0 <= i < s.len() implies ({
            let c = #[trigger] s[i];
            ||| 'a' as u8 <= c <= 'z' as u8
            ||| 'A' as u8 <= c <= 'Z' as u8
            ||| '0' as u8 <= c <= '9' as u8
            ||| c == '-' as u8
        }) by {
            assert(uri::dns_octet(s[i]));
        }
    }
}

} // verus!
