//! What texts say: numbers, addresses and lists can be read from them.
use crate::addr::{IpAddr, Peer, SocketAddr};
use crate::errors::KaboodleError;
use crate::listing::{comma_separated, not_after};
use crate::mdns::first_label;
use crate::report::{fingerprint_text, identity_label, latency_label, peer_label};
use crate::structs::{Fingerprint, PeerState};
use crate::text::{
    addr_text, compressed_text, digit, full_text, groups_text, ip_text, ipv4_text, ipv6_text,
    longest_zero_run, number_text, padded_group_text, padded_groups_text, segments,
    uncompressed_text, zero_run,
};
use crate::time::{Duration, Instant};
use vstd::prelude::*;

verus! {

// Numbers.

/// The value of a digit, of which there are sixteen.
pub open spec fn digit_value(c: char) -> int {
    if '0' <= c <= '9' {
        c as int - '0' as int
    } else {
        c as int - 'a' as int + 10
    }
}

/// A character that is a digit in the given base.
pub open spec fn is_digit(c: char, base: int) -> bool {
    ('0' <= c <= '9' || 'a' <= c <= 'f') && digit_value(c) < base
}

/// The number that a text says in the given base.
pub open spec fn text_value(text: Seq<char>, base: int) -> int
    decreases text.len(),
{
    if text.len() == 0 {
        0
    } else {
        text_value(text.drop_last(), base) * base + digit_value(text.last())
    }
}

proof fn lemma_digit(d: nat)
    requires
        d < 16,
    ensures
        digit_value(digit(d)) == d,
        '0' <= digit(d) <= '9' || 'a' <= digit(d) <= 'f',
        digit(d) == '0' <==> d == 0,
{
}

proof fn lemma_one_more_digit(text: Seq<char>, i: int, d: int)
    requires
        0 <= i < text.len(),
        digit_value(text[i]) == d,
    ensures
        text_value(text.take(i + 1), 16) == text_value(text.take(i), 16) * 16 + d,
{
    assert(text.take(i + 1).drop_last() =~= text.take(i));
}

/// A number can be read from its text, which holds nothing but digits, and no leading zero.
pub proof fn law_numbers_can_be_read(n: nat, base: nat)
    requires
        2 <= base <= 16,
    ensures
        number_text(n, base).len() > 0,
        text_value(number_text(n, base), base as int) == n,
        forall|i: int|
            0 <= i < number_text(n, base).len() ==> is_digit(
                #[trigger] number_text(n, base)[i],
                base as int,
            ),
        number_text(n, base).len() > 1 ==> number_text(n, base)[0] != '0',
        n > 0 ==> number_text(n, base)[0] != '0',
    decreases n,
{
    let text = number_text(n, base);
    if n < base {
        lemma_digit(n);
        assert(text.drop_last() =~= Seq::<char>::empty());
        reveal_with_fuel(text_value, 2);
    } else {
        vstd::arithmetic::div_mod::lemma_div_decreases(n as int, base as int);
        vstd::arithmetic::div_mod::lemma_fundamental_div_mod(n as int, base as int);
        vstd::arithmetic::mul::lemma_mul_is_commutative(base as int, n as int / base as int);
        vstd::arithmetic::div_mod::lemma_div_non_zero(n as int, base as int);
        let shorter = number_text(n / base, base);
        law_numbers_can_be_read(n / base, base);
        lemma_digit(n % base);
        assert(text == shorter.push(digit(n % base)));
        assert(text.drop_last() =~= shorter);
        assert forall|i: int| 0 <= i < text.len() implies is_digit(
            #[trigger] text[i],
            base as int,
        ) by {
            if i < shorter.len() {
                assert(text[i] == shorter[i]);
            }
        }
        assert(text[0] == shorter[0]);
    }
}

/// Different numbers have different texts.
pub proof fn law_texts_tell_numbers_apart(a: nat, b: nat, base: nat)
    requires
        2 <= base <= 16,
        a != b,
    ensures
        number_text(a, base) != number_text(b, base),
{
    law_numbers_can_be_read(a, base);
    law_numbers_can_be_read(b, base);
}

// Addresses.

/// The text of an IPv4 address says the four bytes that make it up, from the highest to the lowest, as
/// numbers with dots between them.
pub proof fn law_ipv4_texts(a: u8, b: u8, c: u8, d: u8, ip: u32)
    requires
        ip == ((a * 256 + b) * 256 + c) * 256 + d,
    ensures
        ipv4_text(ip) == number_text(a as nat, 10) + seq!['.'] + number_text(b as nat, 10) + seq![
            '.',
        ] + number_text(c as nat, 10) + seq!['.'] + number_text(d as nat, 10),
{
    assert(ip / 0x100_0000 == a);
    assert(ip / 0x1_0000 % 256 == b);
    assert(ip / 0x100 % 256 == c);
    assert(ip % 256 == d);
    assert(ipv4_text(ip) =~= number_text(a as nat, 10) + seq!['.'] + number_text(b as nat, 10)
        + seq!['.'] + number_text(c as nat, 10) + seq!['.'] + number_text(d as nat, 10));
}

proof fn lemma_next_place(n: int, place: int, base: int)
    requires
        0 <= n,
        0 < place,
        0 < base,
    ensures
        n / place == (n / (place * base)) * base + (n / place) % base,
{
    vstd::arithmetic::div_mod::lemma_fundamental_div_mod(n / place, base);
    vstd::arithmetic::mul::lemma_mul_is_commutative(base, n / place / base);
    vstd::arithmetic::div_mod::lemma_div_denominator(n, place, base);
}

/// The groups of an IPv6 address make it up, eight of them.
pub proof fn law_groups_make_up_the_address(ip: u128)
    ensures
        segments(ip).len() == 8,
        ip == ((((((segments(ip)[0] * 0x1_0000 + segments(ip)[1]) * 0x1_0000 + segments(ip)[2])
            * 0x1_0000 + segments(ip)[3]) * 0x1_0000 + segments(ip)[4]) * 0x1_0000
            + segments(ip)[5]) * 0x1_0000 + segments(ip)[6]) * 0x1_0000 + segments(ip)[7],
{
    let n = ip as int;
    lemma_next_place(n, 1, 0x1_0000);
    lemma_next_place(n, 0x1_0000, 0x1_0000);
    lemma_next_place(n, 0x1_0000_0000, 0x1_0000);
    lemma_next_place(n, 0x1_0000_0000_0000, 0x1_0000);
    lemma_next_place(n, 0x1_0000_0000_0000_0000, 0x1_0000);
    lemma_next_place(n, 0x1_0000_0000_0000_0000_0000, 0x1_0000);
    lemma_next_place(n, 0x1_0000_0000_0000_0000_0000_0000, 0x1_0000);
}

/// Groups are written one behind the other with colons between them, without leading zeros or in
/// four digits each, from which each can be read.
pub proof fn law_groups_texts(groups: Seq<u16>, group: u16)
    ensures
        groups_text(Seq::empty()).len() == 0,
        groups_text(seq![group]) == number_text(group as nat, 16),
        groups.len() > 0 ==> groups_text(groups.push(group)) == groups_text(groups) + seq![':']
            + number_text(group as nat, 16),
        padded_groups_text(Seq::empty()).len() == 0,
        padded_groups_text(seq![group]) == padded_group_text(group),
        groups.len() > 0 ==> padded_groups_text(groups.push(group)) == padded_groups_text(groups)
            + seq![':'] + padded_group_text(group),
        padded_group_text(group).len() == 4,
        text_value(padded_group_text(group), 16) == group,
        forall|i: int| 0 <= i < 4 ==> is_digit(#[trigger] padded_group_text(group)[i], 16),
{
    assert(groups.push(group).drop_last() =~= groups);
    if groups.len() > 0 {
        assert(groups_text(groups.push(group)) =~= groups_text(groups) + seq![':'] + number_text(
            group as nat,
            16,
        ));
        assert(padded_groups_text(groups.push(group)) =~= padded_groups_text(groups) + seq![':']
            + padded_group_text(group));
    }
    let text = padded_group_text(group);
    let (a, b, c, d) = (group / 0x1000, group / 0x100 % 16, group / 0x10 % 16, group % 16);
    lemma_digit(a as nat);
    lemma_digit(b as nat);
    lemma_digit(c as nat);
    lemma_digit(d as nat);
    assert(text_value(text.take(0), 16) == 0);
    assert(text.take(4) =~= text);
    lemma_one_more_digit(text, 0, a as int);
    lemma_one_more_digit(text, 1, b as int);
    lemma_one_more_digit(text, 2, c as int);
    lemma_one_more_digit(text, 3, d as int);
    lemma_next_place(group as int, 0x100, 16);
    lemma_next_place(group as int, 0x10, 16);
    lemma_next_place(group as int, 1, 16);
}

/// In its shortest form, the first of the longest runs of zero groups is written as two colons, if
/// there are at least two groups in it; everything else stands as it is.
pub proof fn law_zero_groups_are_left_out(groups: Seq<u16>, start: int, len: int)
    requires
        0 <= start,
        0 <= len,
        start + len <= groups.len(),
        forall|i: int| start <= i < start + len ==> #[trigger] groups[i] == 0,
        forall|s: int, l: int|
            0 <= s && 0 <= l && s + l <= groups.len() && (forall|i: int|
                s <= i < s + l ==> #[trigger] groups[i] == 0) ==> #[trigger] is_no_better(
                s,
                l,
                start,
                len,
            ),
    ensures
        compressed_text(groups) == if len > 1 {
            groups_text(groups.take(start)) + seq![':', ':'] + groups_text(groups.skip(start + len))
        } else {
            groups_text(groups)
        },
{
    assert(zero_run(groups, start, len));
    assert forall|s: int, l: int| #[trigger] zero_run(groups, s, l) implies l <= len && (l == len
        ==> start <= s) by {
        assert(is_no_better(s, l, start, len));
    }
    assert(longest_zero_run(groups, start, len));
    let (start2, len2) = choose|start: int, len: int| longest_zero_run(groups, start, len);
    assert(longest_zero_run(groups, start2, len2));
    assert(zero_run(groups, start2, len2));
}

/// A run of `l` from `s` on is not longer than one of `len` from `start` on, and does not come before
/// it if it is as long.
pub open spec fn is_no_better(s: int, l: int, start: int, len: int) -> bool {
    l <= len && (l == len ==> start <= s)
}

/// The texts of addresses, in each of their forms.
pub proof fn law_address_texts(ip: u128, v4: u32, port: u16, flowinfo: u32, scope_id: u32)
    ensures
        ip_text(IpAddr::V4(v4)) == ipv4_text(v4),
        uncompressed_text(IpAddr::V4(v4)) == ipv4_text(v4),
        full_text(IpAddr::V4(v4)) == ipv4_text(v4),
        ip_text(IpAddr::V6(ip)) == ipv6_text(ip),
        uncompressed_text(IpAddr::V6(ip)) == groups_text(segments(ip)),
        full_text(IpAddr::V6(ip)) == padded_groups_text(segments(ip)),
        // The addresses that stand for IPv4 addresses are `::ffff:0:0` and those behind it.
        ip == 0xffff_0000_0000 + v4 ==> ipv6_text(ip) == seq![':', ':', 'f', 'f', 'f', 'f', ':']
            + ipv4_text(v4),
        !(0xffff_0000_0000 <= ip <= 0xffff_ffff_ffff) ==> ipv6_text(ip) == compressed_text(
            segments(ip),
        ),
        addr_text(SocketAddr::V4 { ip: v4, port }) == ipv4_text(v4) + seq![':'] + number_text(
            port as nat,
            10,
        ),
        addr_text(SocketAddr::V6 { ip, port, flowinfo, scope_id: 0 }) == seq!['['] + ipv6_text(ip)
            + seq![']', ':'] + number_text(port as nat, 10),
        scope_id > 0 ==> addr_text(SocketAddr::V6 { ip, port, flowinfo, scope_id }) == seq!['[']
            + ipv6_text(ip) + seq!['%'] + number_text(scope_id as nat, 10) + seq![']', ':']
            + number_text(port as nat, 10),
{
    reveal_strlit("::ffff:");
    assert("::ffff:"@ =~= seq![':', ':', 'f', 'f', 'f', 'f', ':']);
    assert(addr_text(SocketAddr::V4 { ip: v4, port }) =~= ipv4_text(v4) + seq![':'] + number_text(
        port as nat,
        10,
    ));
}

// What is shown of the mesh.

/// A fingerprint can be read from its text, which has eight hexadecimal digits.
pub proof fn law_fingerprints_can_be_read(fingerprint: Fingerprint)
    ensures
        fingerprint_text(fingerprint).len() == 8,
        text_value(fingerprint_text(fingerprint), 16) == fingerprint,
        forall|i: int| 0 <= i < 8 ==> is_digit(#[trigger] fingerprint_text(fingerprint)[i], 16),
{
    let text = fingerprint_text(fingerprint);
    let f = fingerprint as int;
    lemma_digit((f / 0x1000_0000) as nat);
    lemma_digit((f / 0x100_0000 % 16) as nat);
    lemma_digit((f / 0x10_0000 % 16) as nat);
    lemma_digit((f / 0x1_0000 % 16) as nat);
    lemma_digit((f / 0x1000 % 16) as nat);
    lemma_digit((f / 0x100 % 16) as nat);
    lemma_digit((f / 0x10 % 16) as nat);
    lemma_digit((f % 16) as nat);
    assert(text_value(text.take(0), 16) == 0);
    assert(text.take(8) =~= text);
    lemma_one_more_digit(text, 0, f / 0x1000_0000);
    lemma_next_place(f, 0x100_0000, 16);
    lemma_one_more_digit(text, 1, f / 0x100_0000 % 16);
    lemma_next_place(f, 0x10_0000, 16);
    lemma_one_more_digit(text, 2, f / 0x10_0000 % 16);
    lemma_next_place(f, 0x1_0000, 16);
    lemma_one_more_digit(text, 3, f / 0x1_0000 % 16);
    lemma_next_place(f, 0x1000, 16);
    lemma_one_more_digit(text, 4, f / 0x1000 % 16);
    lemma_next_place(f, 0x100, 16);
    lemma_one_more_digit(text, 5, f / 0x100 % 16);
    lemma_next_place(f, 0x10, 16);
    lemma_one_more_digit(text, 6, f / 0x10 % 16);
    lemma_next_place(f, 1, 16);
    lemma_one_more_digit(text, 7, f % 16);
}

/// What is shown of a peer: its address; its identity in brackets, if it can be shown; its latency in
/// whole milliseconds, if it is known; and whether it is us.
pub proof fn law_what_is_shown_of_a_peer(
    peer: Peer,
    identity: Option<Seq<char>>,
    latency: Option<Duration>,
    self_addr: Peer,
)
    ensures
        identity matches Some(text) ==> identity_label(identity) == seq![' ', '('] + text + seq![
            ')',
        ],
        identity is None ==> identity_label(identity).len() == 0,
        latency is None ==> latency_label(latency).len() == 0,
        latency matches Some(span) ==> {
            let ms = (span / 1_000_000) as nat;
            &&& ms == 0 ==> latency_label(latency) == seq![
                ' ',
                '-',
                '-',
                ' ',
                '<',
                ' ',
                '1',
                'm',
                's',
            ]
            &&& 0 < ms < 0x1_0000_0000 ==> latency_label(latency) == seq![' ', '-', '-', ' ']
                + number_text(ms, 10) + seq!['m', 's']
        },
        peer_label(peer, identity, latency, self_addr) == seq!['+', ' '] + addr_text(peer)
            + identity_label(identity) + latency_label(latency) + if peer == self_addr {
            " -- (this is us)"@
        } else {
            Seq::empty()
        },
{
    reveal_strlit(" (");
    reveal_strlit(")");
    reveal_strlit(" -- < 1ms");
    reveal_strlit(" -- ");
    reveal_strlit("ms");
    reveal_strlit("+ ");
    assert(" ("@ =~= seq![' ', '(']);
    assert(")"@ =~= seq![')']);
    assert(" -- < 1ms"@ =~= seq![' ', '-', '-', ' ', '<', ' ', '1', 'm', 's']);
    assert(" -- "@ =~= seq![' ', '-', '-', ' ']);
    assert("ms"@ =~= seq!['m', 's']);
    assert("+ "@ =~= seq!['+', ' ']);
}

// Names and lists.

/// The first label of a name is what stands before its first dot, or all of it if there is none.
pub proof fn law_first_labels(name: Seq<char>)
    ensures
        first_label(name).len() <= name.len(),
        first_label(name) == name.take(first_label(name).len() as int),
        forall|i: int| 0 <= i < first_label(name).len() ==> #[trigger] name[i] != '.',
        first_label(name).len() < name.len() ==> name[first_label(name).len() as int] == '.',
    decreases name.len(),
{
    let label = first_label(name);
    if name.len() == 0 || name[0] == '.' {
        assert(label =~= name.take(0));
    } else {
        let rest = name.skip(1);
        law_first_labels(rest);
        let shorter = first_label(rest);
        assert(label =~= seq![name[0]] + shorter);
        assert(label =~= name.take(label.len() as int));
        assert forall|i: int| 0 <= i < label.len() implies #[trigger] name[i] != '.' by {
            if i > 0 {
                assert(rest[i - 1] == name[i]);
            }
        }
        if label.len() < name.len() {
            assert(rest[shorter.len() as int] == name[label.len() as int]);
        }
    }
}

/// Of two texts, the first character in which they differ decides which comes first; one that the
/// other begins with comes first.
pub proof fn law_order_of_texts(a: Seq<char>, b: Seq<char>, i: int)
    requires
        0 <= i <= a.len(),
        i <= b.len(),
        a.take(i) == b.take(i),
    ensures
        i < a.len() && i < b.len() && a[i] != b[i] ==> (not_after(a, b) <==> a[i] < b[i]),
        i == a.len() ==> not_after(a, b),
        i == b.len() && i < a.len() ==> !not_after(a, b),
    decreases i,
{
    if i > 0 {
        let (a2, b2) = (a.skip(1), b.skip(1));
        assert(a[0] == a.take(i)[0] && b[0] == b.take(i)[0]);
        assert(a2.take(i - 1) =~= a.take(i).skip(1));
        assert(b2.take(i - 1) =~= b.take(i).skip(1));
        law_order_of_texts(a2, b2, i - 1);
        if i < a.len() && i < b.len() {
            assert(a2[i - 1] == a[i] && b2[i - 1] == b[i]);
        }
    }
}

/// Texts are listed one behind the other, with commas between them.
pub proof fn law_lists_of_texts(texts: Seq<Seq<char>>, text: Seq<char>)
    ensures
        comma_separated(Seq::empty()).len() == 0,
        comma_separated(seq![text]) == text,
        texts.len() > 0 ==> comma_separated(texts.push(text)) == comma_separated(texts) + seq![',']
            + text,
{
    if texts.len() > 0 {
        assert(texts.push(text).drop_last() =~= texts);
        assert(comma_separated(texts.push(text)) =~= comma_separated(texts) + seq![','] + text);
    }
}

// Errors and states.

/// Where an error comes with details, its text ends with all of them, behind words that depend on the
/// kind of the error alone and tell the kinds apart.
pub proof fn law_errors_say_what_went_wrong(detail: String, other: String)
    ensures
        ({
            let io = KaboodleError::IoError(detail).text();
            let stopping = KaboodleError::StoppingFailed(detail).text();
            let invalid = KaboodleError::InvalidOperation(detail).text();
            let len = detail@.len() as int;
            &&& io.len() == len + 16 && io.skip(16) == detail@
            &&& stopping.len() == len + 16 && stopping.skip(16) == detail@
            &&& invalid.len() == len + 19 && invalid.skip(19) == detail@
            &&& io.take(16) == KaboodleError::IoError(other).text().take(16)
            &&& stopping.take(16) == KaboodleError::StoppingFailed(other).text().take(16)
            &&& invalid.take(19) == KaboodleError::InvalidOperation(other).text().take(19)
            &&& io[0] == 's' && stopping[0] == 'U' && invalid[0] == 'I'
        }),
{
    reveal_strlit("std::io::Error: ");
    reveal_strlit("Unable to stop: ");
    reveal_strlit("Invalid operation: ");
    let (a, b, c) = ("std::io::Error: "@, "Unable to stop: "@, "Invalid operation: "@);
    assert((a + detail@).skip(16) =~= detail@);
    assert((b + detail@).skip(16) =~= detail@);
    assert((c + detail@).skip(19) =~= detail@);
    assert((a + detail@).take(16) =~= a && (a + other@).take(16) =~= a);
    assert((b + detail@).take(16) =~= b && (b + other@).take(16) =~= b);
    assert((c + detail@).take(19) =~= c && (c + other@).take(19) =~= c);
}

/// The name of a state tells which it is, and nothing of its time.
pub proof fn law_names_of_states(at: Instant, other: Instant)
    ensures
        PeerState::Known(at).text() == PeerState::Known(other).text(),
        PeerState::WaitingForPing(at).text() == PeerState::WaitingForPing(other).text(),
        PeerState::WaitingForIndirectPing(at).text() == PeerState::WaitingForIndirectPing(
            other,
        ).text(),
        PeerState::Known(at).text() != PeerState::WaitingForPing(other).text(),
        PeerState::Known(at).text() != PeerState::WaitingForIndirectPing(other).text(),
        PeerState::WaitingForPing(at).text() != PeerState::WaitingForIndirectPing(other).text(),
{
    reveal_strlit("Known");
    reveal_strlit("WaitingForPing");
    reveal_strlit("WaitingForIndirectPing");
    assert("Known"@.len() != "WaitingForPing"@.len());
    assert("Known"@.len() != "WaitingForIndirectPing"@.len());
    assert("WaitingForPing"@.len() != "WaitingForIndirectPing"@.len());
}

} // verus!
