//! Addresses in words.
use crate::addr::{IpAddr, SocketAddr};
use vstd::prelude::*;

verus! {

/// The digit of value `d`, which is less than sixteen.
pub open spec fn digit(d: nat) -> char {
    if d < 10 {
        ('0' as u32 + d) as char
    } else {
        ('a' as u32 + (d - 10)) as char
    }
}

/// `n` written in the given base, most significant digit first and without leading zeros.
pub open spec fn number_text(n: nat, base: nat) -> Seq<char>
    decreases n,
{
    if base < 2 || n < base {
        seq![digit(n)]
    } else {
        proof {
            vstd::arithmetic::div_mod::lemma_div_decreases(n as int, base as int);
        }
        number_text(n / base, base).push(digit(n % base))
    }
}

pub(crate) fn digit_str(d: u32) -> (r: &'static str)
    requires
        d < 16,
    ensures
        r@ == seq![digit(d as nat)],
{
    proof {
        reveal_strlit("0");
        reveal_strlit("1");
        reveal_strlit("2");
        reveal_strlit("3");
        reveal_strlit("4");
        reveal_strlit("5");
        reveal_strlit("6");
        reveal_strlit("7");
        reveal_strlit("8");
        reveal_strlit("9");
        reveal_strlit("a");
        reveal_strlit("b");
        reveal_strlit("c");
        reveal_strlit("d");
        reveal_strlit("e");
        reveal_strlit("f");
    }
    let r = match d {
        0 => "0",
        1 => "1",
        2 => "2",
        3 => "3",
        4 => "4",
        5 => "5",
        6 => "6",
        7 => "7",
        8 => "8",
        9 => "9",
        10 => "a",
        11 => "b",
        12 => "c",
        13 => "d",
        14 => "e",
        _ => "f",
    };
    assert(r@ =~= seq![digit(d as nat)]);
    r
}

pub(crate) fn push_number(text: &mut String, n: u32, base: u32)
    requires
        2 <= base <= 16,
    ensures
        final(text)@ == old(text)@ + number_text(n as nat, base as nat),
    decreases n,
{
    if n >= base {
        proof {
            vstd::arithmetic::div_mod::lemma_div_decreases(n as int, base as int);
        }
        push_number(text, n / base, base);
        text.append(digit_str(n % base));
        assert(number_text(n as nat, base as nat) == number_text((n / base) as nat, base as nat).push(
            digit((n % base) as nat),
        ));
    } else {
        text.append(digit_str(n));
    }
    assert(text@ =~= old(text)@ + number_text(n as nat, base as nat));
}

/// The four bytes of an IPv4 address in decimal, with dots between them.
pub open spec fn ipv4_text(ip: u32) -> Seq<char> {
    number_text((ip / 0x100_0000) as nat, 10).push('.') + number_text(
        ((ip / 0x1_0000) % 256) as nat,
        10,
    ).push('.') + number_text(((ip / 0x100) % 256) as nat, 10).push('.') + number_text(
        (ip % 256) as nat,
        10,
    )
}

fn push_ipv4(text: &mut String, ip: u32)
    ensures
        final(text)@ == old(text)@ + ipv4_text(ip),
{
    proof {
        reveal_strlit(".");
    }
    push_number(text, ip / 0x100_0000, 10);
    text.append(".");
    push_number(text, (ip / 0x1_0000) % 256, 10);
    text.append(".");
    push_number(text, (ip / 0x100) % 256, 10);
    text.append(".");
    push_number(text, ip % 256, 10);
    assert("."@ =~= seq!['.']);
    assert(text@ =~= old(text)@ + ipv4_text(ip));
}

/// The eight groups of sixteen bits of an IPv6 address, most significant first.
pub open spec fn segments(ip: u128) -> Seq<u16> {
    seq![
        (ip / 0x1_0000_0000_0000_0000_0000_0000_0000u128) as u16,
        ((ip / 0x1_0000_0000_0000_0000_0000_0000u128) % 0x1_0000) as u16,
        ((ip / 0x1_0000_0000_0000_0000_0000u128) % 0x1_0000) as u16,
        ((ip / 0x1_0000_0000_0000_0000u128) % 0x1_0000) as u16,
        ((ip / 0x1_0000_0000_0000u128) % 0x1_0000) as u16,
        ((ip / 0x1_0000_0000u128) % 0x1_0000) as u16,
        ((ip / 0x1_0000u128) % 0x1_0000) as u16,
        (ip % 0x1_0000) as u16,
    ]
}

fn ip_segments(ip: u128) -> (r: Vec<u16>)
    ensures
        r@ == segments(ip),
{
    let mut r: Vec<u16> = Vec::new();
    r.push((ip / 0x1_0000_0000_0000_0000_0000_0000_0000u128) as u16);
    r.push(((ip / 0x1_0000_0000_0000_0000_0000_0000u128) % 0x1_0000) as u16);
    r.push(((ip / 0x1_0000_0000_0000_0000_0000u128) % 0x1_0000) as u16);
    r.push(((ip / 0x1_0000_0000_0000_0000u128) % 0x1_0000) as u16);
    r.push(((ip / 0x1_0000_0000_0000u128) % 0x1_0000) as u16);
    r.push(((ip / 0x1_0000_0000u128) % 0x1_0000) as u16);
    r.push(((ip / 0x1_0000u128) % 0x1_0000) as u16);
    r.push((ip % 0x1_0000) as u16);
    assert(r@ =~= segments(ip));
    r
}

/// The groups in hexadecimal, with colons between them.
pub open spec fn groups_text(groups: Seq<u16>) -> Seq<char>
    decreases groups.len(),
{
    if groups.len() == 0 {
        Seq::empty()
    } else if groups.len() == 1 {
        number_text(groups[0] as nat, 16)
    } else {
        groups_text(groups.drop_last()).push(':') + number_text(groups.last() as nat, 16)
    }
}

fn push_groups(text: &mut String, groups: &Vec<u16>, from: usize, to: usize)
    requires
        from <= to <= groups@.len(),
    ensures
        final(text)@ == old(text)@ + groups_text(groups@.subrange(from as int, to as int)),
{
    proof {
        reveal_strlit(":");
        assert(":"@ =~= seq![':']);
    }
    let mut i: usize = from;
    assert(groups@.subrange(from as int, from as int) =~= Seq::<u16>::empty());
    assert(text@ =~= old(text)@ + groups_text(groups@.subrange(from as int, i as int)));
    while i < to
        invariant
            from <= i <= to <= groups@.len(),
            ":"@ == seq![':'],
            text@ == old(text)@ + groups_text(groups@.subrange(from as int, i as int)),
        decreases to - i,
    {
        let ghost before = text@;
        if i > from {
            text.append(":");
        }
        push_number(text, groups[i] as u32, 16);
        proof {
            let longer = groups@.subrange(from as int, i + 1);
            assert(longer.drop_last() =~= groups@.subrange(from as int, i as int));
            assert(longer.last() == groups@[i as int]);
            assert(text@ =~= old(text)@ + groups_text(longer));
        }
        i += 1;
    }
}

/// `len` groups from `start` on are zero.
pub open spec fn zero_run(groups: Seq<u16>, start: int, len: int) -> bool {
    &&& 0 <= start
    &&& 0 <= len
    &&& start + len <= groups.len()
    &&& forall|i: int| start <= i < start + len ==> #[trigger] groups[i] == 0
}

/// No run of zero groups is longer than that at `start`, and those before it are shorter.
pub open spec fn longest_zero_run(groups: Seq<u16>, start: int, len: int) -> bool {
    &&& zero_run(groups, start, len)
    &&& forall|s: int, l: int| #[trigger]
        zero_run(groups, s, l) ==> l <= len && (l == len ==> start <= s)
}

/// The groups with the first longest run of two or more zero groups written as `::`.
pub open spec fn compressed_text(groups: Seq<u16>) -> Seq<char> {
    let (start, len) = choose|start: int, len: int| longest_zero_run(groups, start, len);
    if len > 1 {
        groups_text(groups.take(start)) + seq![':', ':'] + groups_text(groups.skip(start + len))
    } else {
        groups_text(groups)
    }
}

fn find_longest_zero_run(groups: &Vec<u16>) -> (r: (usize, usize))
    ensures
        longest_zero_run(groups@, r.0 as int, r.1 as int),
{
    let mut start: usize = 0;
    let mut len: usize = 0;
    let mut s: usize = 0;
    let n: usize = groups.len();
    while s < n
        invariant
            s <= n,
            n == groups@.len(),
            zero_run(groups@, start as int, len as int),
            start <= s,
            len == 0 ==> start == 0,
            forall|a: int, l: int| #[trigger]
                zero_run(groups@, a, l) && a < s ==> l <= len && (l == len ==> start <= a),
        decreases groups@.len() - s,
    {
        let mut l: usize = 0;
        while s + l < n && groups[s + l] == 0
            invariant
                s + l <= n,
                n == groups@.len(),
                zero_run(groups@, s as int, l as int),
            ensures
                s + l <= n,
                zero_run(groups@, s as int, l as int),
                s + l == groups@.len() || groups@[s + l] != 0,
            decreases groups@.len() - (s + l),
        {
            l += 1;
        }
        assert forall|m: int| #[trigger] zero_run(groups@, s as int, m) implies m <= l by {
            if m > l {
                assert(groups@[s + l] == 0);
            }
        }
        if l > len {
            start = s;
            len = l;
        }
        s += 1;
    }
    (start, len)
}

fn push_compressed(text: &mut String, groups: &Vec<u16>)
    ensures
        final(text)@ == old(text)@ + compressed_text(groups@),
{
    proof {
        reveal_strlit("::");
        assert("::"@ =~= seq![':', ':']);
    }
    let n: usize = groups.len();
    let (start, len) = find_longest_zero_run(groups);
    proof {
        let (start2, len2) = choose|start: int, len: int| longest_zero_run(groups@, start, len);
        assert(longest_zero_run(groups@, start2, len2));
        assert(zero_run(groups@, start as int, len as int));
        assert(zero_run(groups@, start2, len2));
        assert(start == start2 && len == len2);
    }
    if len > 1 {
        push_groups(text, groups, 0, start);
        text.append("::");
        push_groups(text, groups, start + len, n);
        assert(groups@.take(start as int) =~= groups@.subrange(0, start as int));
        assert(groups@.skip(start + len) =~= groups@.subrange(start + len, groups@.len() as int));
    } else {
        push_groups(text, groups, 0, n);
        assert(groups@ =~= groups@.subrange(0, groups@.len() as int));
    }
    assert(text@ =~= old(text)@ + compressed_text(groups@));
}

/// An IPv6 address in words. One that stands for an IPv4 address is written as such.
pub open spec fn ipv6_text(ip: u128) -> Seq<char> {
    if ip / 0x1_0000_0000 == 0xffff {
        "::ffff:"@ + ipv4_text((ip % 0x1_0000_0000) as u32)
    } else {
        compressed_text(segments(ip))
    }
}

fn push_ipv6(text: &mut String, ip: u128)
    ensures
        final(text)@ == old(text)@ + ipv6_text(ip),
{
    if ip / 0x1_0000_0000 == 0xffff {
        text.append("::ffff:");
        push_ipv4(text, (ip % 0x1_0000_0000) as u32);
    } else {
        let groups = ip_segments(ip);
        push_compressed(text, &groups);
    }
    assert(text@ =~= old(text)@ + ipv6_text(ip));
}

/// An IP address in words.
pub open spec fn ip_text(ip: IpAddr) -> Seq<char> {
    match ip {
        IpAddr::V4(ip) => ipv4_text(ip),
        IpAddr::V6(ip) => ipv6_text(ip),
    }
}

/// An IP address in words, with nothing compressed: all eight groups of an IPv6 address, without
/// leading zeros.
pub open spec fn uncompressed_text(ip: IpAddr) -> Seq<char> {
    match ip {
        IpAddr::V4(ip) => ipv4_text(ip),
        IpAddr::V6(ip) => groups_text(segments(ip)),
    }
}

/// A group of an IPv6 address in four hexadecimal digits.
pub open spec fn padded_group_text(group: u16) -> Seq<char> {
    seq![
        digit((group / 0x1000) as nat),
        digit((group / 0x100 % 16) as nat),
        digit((group / 0x10 % 16) as nat),
        digit((group % 16) as nat),
    ]
}

/// The groups in four hexadecimal digits each, with colons between them.
pub open spec fn padded_groups_text(groups: Seq<u16>) -> Seq<char>
    decreases groups.len(),
{
    if groups.len() == 0 {
        Seq::empty()
    } else if groups.len() == 1 {
        padded_group_text(groups[0])
    } else {
        padded_groups_text(groups.drop_last()).push(':') + padded_group_text(groups.last())
    }
}

/// An IP address in full: all eight groups of an IPv6 address, in four digits each.
pub open spec fn full_text(ip: IpAddr) -> Seq<char> {
    match ip {
        IpAddr::V4(ip) => ipv4_text(ip),
        IpAddr::V6(ip) => padded_groups_text(segments(ip)),
    }
}

fn push_padded_groups(text: &mut String, groups: &Vec<u16>)
    ensures
        final(text)@ == old(text)@ + padded_groups_text(groups@),
{
    proof {
        reveal_strlit(":");
        assert(":"@ =~= seq![':']);
    }
    let mut i: usize = 0;
    assert(text@ =~= old(text)@ + padded_groups_text(groups@.take(0)));
    while i < groups.len()
        invariant
            i <= groups@.len(),
            ":"@ == seq![':'],
            text@ == old(text)@ + padded_groups_text(groups@.take(i as int)),
        decreases groups@.len() - i,
    {
        if i > 0 {
            text.append(":");
        }
        let group: u32 = groups[i] as u32;
        text.append(digit_str(group / 0x1000));
        text.append(digit_str(group / 0x100 % 16));
        text.append(digit_str(group / 0x10 % 16));
        text.append(digit_str(group % 16));
        proof {
            let longer = groups@.take(i + 1);
            assert(longer.drop_last() =~= groups@.take(i as int));
            assert(longer.last() == groups@[i as int]);
            assert(text@ =~= old(text)@ + padded_groups_text(longer));
        }
        i += 1;
    }
    assert(groups@.take(i as int) =~= groups@);
}

/// A socket address in words: the IP address and the port, with a colon between them. An IPv6
/// address stands in brackets, and its scope, if it has one, behind a percent sign.
pub open spec fn addr_text(addr: SocketAddr) -> Seq<char> {
    match addr {
        SocketAddr::V4 { ip, port } => ipv4_text(ip).push(':') + number_text(port as nat, 10),
        SocketAddr::V6 { ip, port, flowinfo, scope_id } => if scope_id == 0 {
            seq!['['] + ipv6_text(ip) + seq![']', ':'] + number_text(port as nat, 10)
        } else {
            seq!['['] + ipv6_text(ip) + seq!['%'] + number_text(scope_id as nat, 10) + seq![']', ':']
                + number_text(port as nat, 10)
        },
    }
}

impl IpAddr {
    /// The address in words.
    pub fn to_string(&self) -> (r: String)
        ensures
            r@ == ip_text(*self),
    {
        let mut text: String = String::new();
        match *self {
            IpAddr::V4(ip) => {
                push_ipv4(&mut text, ip);
            },
            IpAddr::V6(ip) => {
                push_ipv6(&mut text, ip);
            },
        }
        assert(text@ =~= ip_text(*self));
        text
    }

    /// The address in words, with nothing compressed.
    pub fn to_uncompressed_string(&self) -> (r: String)
        ensures
            r@ == uncompressed_text(*self),
    {
        let mut text: String = String::new();
        match *self {
            IpAddr::V4(ip) => {
                push_ipv4(&mut text, ip);
            },
            IpAddr::V6(ip) => {
                let groups = ip_segments(ip);
                let n: usize = groups.len();
                push_groups(&mut text, &groups, 0, n);
                assert(groups@ =~= groups@.subrange(0, groups@.len() as int));
            },
        }
        assert(text@ =~= uncompressed_text(*self));
        text
    }

    /// The address in full.
    pub fn to_full_string(&self) -> (r: String)
        ensures
            r@ == full_text(*self),
    {
        let mut text: String = String::new();
        match *self {
            IpAddr::V4(ip) => {
                push_ipv4(&mut text, ip);
            },
            IpAddr::V6(ip) => {
                let groups = ip_segments(ip);
                push_padded_groups(&mut text, &groups);
            },
        }
        assert(text@ =~= full_text(*self));
        text
    }
}

impl SocketAddr {
    /// The address in words.
    pub fn to_string(&self) -> (r: String)
        ensures
            r@ == addr_text(*self),
    {
        proof {
            reveal_strlit(":");
            reveal_strlit("[");
            reveal_strlit("]:");
            reveal_strlit("%");
        }
        let mut text: String = String::new();
        match *self {
            SocketAddr::V4 { ip, port } => {
                push_ipv4(&mut text, ip);
                text.append(":");
                push_number(&mut text, port as u32, 10);
            },
            SocketAddr::V6 { ip, port, flowinfo: _, scope_id } => {
                text.append("[");
                push_ipv6(&mut text, ip);
                if scope_id != 0 {
                    text.append("%");
                    push_number(&mut text, scope_id, 10);
                }
                text.append("]:");
                push_number(&mut text, port as u32, 10);
            },
        }
        assert(text@ =~= addr_text(*self));
        text
    }
}

} // verus!
