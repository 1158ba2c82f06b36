use vstd::prelude::*;
use crate::address::{canonical, components, packed, IPv4};
use crate::parse::{addresses_of, parse_addresses};

verus! {

/// The output representation that a batch call asks for.
#[derive(Clone, Copy, Debug, PartialEq, Eq, Structural)]
pub enum Representation {
    Packed,
    Canonical,
    Components,
}

/// The addresses of a batch, all in one representation.
#[derive(Debug)]
pub enum Converted {
    Packed(Vec<u32>),
    Canonical(Vec<String>),
    Components(Vec<(u8, u8, u8, u8)>),
}

/// Whether `c` holds the addresses `addrs`, in order, in the representation `kind`.
pub open spec fn converted_from(c: Converted, kind: Representation, addrs: Seq<IPv4>) -> bool {
    match c {
        Converted::Packed(v) => kind == Representation::Packed && v@ == addrs.map_values(
            |a: IPv4| packed(a),
        ),
        Converted::Canonical(v) => kind == Representation::Canonical && v@.len() == addrs.len()
            && forall|i: int| 0 <= i < addrs.len() ==> (#[trigger] v@[i])@ == canonical(addrs[i]),
        Converted::Components(v) => kind == Representation::Components && v@ == addrs.map_values(
            |a: IPv4| components(a),
        ),
    }
}

/// Parses every space-separated token of `ips`, drops the malformed ones, and
/// converts the addresses, in order, into the representation `kind`.
pub fn parse_ips_as(ips: &str, kind: Representation) -> (r: Converted)
    ensures
        converted_from(r, kind, addresses_of(ips@)),
{
    let addrs = parse_addresses(ips);
    match kind {
        Representation::Packed => {
            let mut out: Vec<u32> = Vec::new();
            for j in 0..addrs.len()
                invariant
                    out@ == addrs@.take(j as int).map_values(|a: IPv4| packed(a)),
            {
                out.push(addrs[j].to_packed());
                assert(out@ =~= addrs@.take(j + 1).map_values(|a: IPv4| packed(a)));
            }
            assert(addrs@.take(addrs@.len() as int) =~= addrs@);
            Converted::Packed(out)
        },
        Representation::Canonical => {
            let mut out: Vec<String> = Vec::new();
            for j in 0..addrs.len()
                invariant
                    out@.len() == j,
                    forall|i: int| 0 <= i < j ==> (#[trigger] out@[i])@ == canonical(addrs@[i]),
            {
                out.push(addrs[j].to_canonical());
            }
            Converted::Canonical(out)
        },
        Representation::Components => {
            let mut out: Vec<(u8, u8, u8, u8)> = Vec::new();
            for j in 0..addrs.len()
                invariant
                    out@ == addrs@.take(j as int).map_values(|a: IPv4| components(a)),
            {
                out.push(addrs[j].to_components());
                assert(out@ =~= addrs@.take(j + 1).map_values(|a: IPv4| components(a)));
            }
            assert(addrs@.take(addrs@.len() as int) =~= addrs@);
            Converted::Components(out)
        },
    }
}

} // verus!
