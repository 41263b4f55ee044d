//! Advertising a service over mDNS.
use crate::networking::{ipv4_addrs, my_ipv4_addrs, Interface};
use crate::text::digit;
use uuid::Uuid;
use vstd::prelude::*;

verus! {

/// The number that `Uuid::parse_str` reads in a text, most significant byte first; `None` if it
/// returns an error.
pub uninterp spec fn parsed_uuid(text: Seq<char>) -> Option<u128>;

/// A number as a UUID is written: in 32 hexadecimal digits, with hyphens that divide them into
/// groups of 8, 4, 4, 4 and 12.
pub open spec fn uuid_text(id: u128) -> Seq<char> {
    Seq::new(
        36,
        |i: int|
            if i == 8 || i == 13 || i == 18 || i == 23 {
                '-'
            } else {
                let hyphens: int = if i < 8 {
                    0
                } else if i < 13 {
                    1
                } else if i < 18 {
                    2
                } else if i < 23 {
                    3
                } else {
                    4
                };
                digit(((id >> ((124 - 4 * (i - hyphens)) as u128)) & 0xf) as nat)
            },
    )
}

/// `Uuid::parse_str`: what it reads depends on the text alone.
#[verifier::external_body]
fn parse_uuid(text: &str) -> (r: Option<u128>)
    ensures
        r == parsed_uuid(text@),
{
    Uuid::parse_str(text).ok().map(|id| id.as_u128())
}

/// `Uuid::to_string`: the digits with hyphens, in lower case, from which `Uuid::parse_str` reads the
/// same UUID.
#[verifier::external_body]
fn write_uuid(id: u128) -> (r: String)
    ensures
        r@ == uuid_text(id),
        parsed_uuid(r@) == Some(id),
{
    Uuid::from_u128(id).to_string()
}

/// A service as it is advertised.
#[derive(Debug)]
pub struct Advertisement {
    /// The type of the service, with the domain.
    pub service_domain: String,
    /// The name of the instance: its UUID.
    pub instance_name: String,
    pub service_hostname: String,
    /// The IPv4 addresses at which the service is.
    pub addrs: Vec<u32>,
    pub port: u16,
    /// What else there is to say about the service.
    pub props: Option<Vec<(String, String)>>,
}

impl Advertisement {
    /// The full name of the instance, as it is seen by others.
    pub open spec fn fullname(&self) -> Seq<char> {
        self.instance_name@.push('.') + self.service_domain@
    }
}

/// The part of a name before its first dot.
pub open spec fn first_label(name: Seq<char>) -> Seq<char>
    decreases name.len(),
{
    if name.len() == 0 || name[0] == '.' {
        Seq::empty()
    } else {
        seq![name[0]] + first_label(name.skip(1))
    }
}

/// The advertisement of a service of the given name at the IPv4 addresses of the given interfaces.
pub fn advertise_service(
    service_name: &str,
    port: u16,
    instance_id: u128,
    props: Option<Vec<(String, String)>>,
    interfaces: &Vec<Interface>,
) -> (r: Advertisement)
    ensures
        r.service_domain@ == "_"@ + service_name@ + "._tcp.local."@,
        r.instance_name@ == uuid_text(instance_id),
        r.service_hostname@ == service_name@ + ".local."@,
        r.addrs@ == ipv4_addrs(interfaces@),
        r.port == port,
        r.props == props,
        parsed_uuid(first_label(r.fullname())) == Some(instance_id),
{
    let mut service_domain: String = "_".to_owned();
    service_domain.append(service_name);
    service_domain.append("._tcp.local.");
    let mut service_hostname: String = service_name.to_owned();
    service_hostname.append(".local.");
    let instance_name = write_uuid(instance_id);
    proof {
        assert forall|i: int| 0 <= i < uuid_text(instance_id).len() implies #[trigger] uuid_text(
            instance_id,
        )[i] != '.' by {
            lemma_nibble(instance_id, i);
        }
        lemma_first_label(uuid_text(instance_id), service_domain@);
    }
    Advertisement {
        service_domain,
        instance_name,
        service_hostname,
        addrs: my_ipv4_addrs(interfaces),
        port,
        props,
    }
}

/// The instance of a service with the given full name: the UUID before the first dot.
pub fn get_service_instance_id(fullname: &str) -> (r: Result<u128, ()>)
    ensures
        match r {
            Ok(id) => parsed_uuid(first_label(fullname@)) == Some(id),
            Err(()) => parsed_uuid(first_label(fullname@)) is None,
        },
{
    let len: usize = fullname.unicode_len();
    let mut i: usize = 0;
    assert(fullname@.skip(0) =~= fullname@);
    assert(fullname@.take(0) + first_label(fullname@) =~= first_label(fullname@));
    while i < len && fullname.get_char(i) != '.'
        invariant
            i <= len,
            len == fullname@.len(),
            first_label(fullname@) == fullname@.take(i as int) + first_label(
                fullname@.skip(i as int),
            ),
        ensures
            i <= fullname@.len(),
            first_label(fullname@) == fullname@.take(i as int),
        decreases len - i,
    {
        proof {
            assert(fullname@.skip(i as int).skip(1) =~= fullname@.skip(i + 1));
            assert(fullname@.take(i + 1) + first_label(fullname@.skip(i + 1)) =~= fullname@.take(
                i as int,
            ) + (seq![fullname@[i as int]] + first_label(fullname@.skip(i + 1))));
        }
        i += 1;
    }
    let label = fullname.substring_char(0, i);
    assert(label@ =~= fullname@.take(i as int));
    match parse_uuid(label) {
        Some(id) => Ok(id),
        None => Err(()),
    }
}

proof fn lemma_nibble(id: u128, i: int)
    requires
        0 <= i < 36,
    ensures
        uuid_text(id)[i] != '.',
{
    if !(i == 8 || i == 13 || i == 18 || i == 23) {
        let hyphens: int = if i < 8 {
            0
        } else if i < 13 {
            1
        } else if i < 18 {
            2
        } else if i < 23 {
            3
        } else {
            4
        };
        let shifted = id >> ((124 - 4 * (i - hyphens)) as u128);
        assert(shifted & 0xf < 16) by (bit_vector);
    }
}

/// What comes before the first dot is what stands there, if there is no dot in it.
proof fn lemma_first_label(label: Seq<char>, rest: Seq<char>)
    requires
        forall|i: int| 0 <= i < label.len() ==> #[trigger] label[i] != '.',
    ensures
        first_label(label.push('.') + rest) == label,
    decreases label.len(),
{
    let name = label.push('.') + rest;
    if label.len() == 0 {
        assert(name[0] == '.');
    } else {
        let shorter = label.skip(1);
        assert(name[0] == label[0]);
        assert(name.skip(1) =~= shorter.push('.') + rest);
        assert forall|i: int| 0 <= i < shorter.len() implies #[trigger] shorter[i] != '.' by {
            assert(shorter[i] == label[i + 1]);
        }
        lemma_first_label(shorter, rest);
        assert(seq![label[0]] + shorter =~= label);
    }
}

} // verus!
