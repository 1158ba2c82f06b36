use vstd::prelude::*;

verus! {

/// A dotted-quad address: four byte components, the first one most significant.
#[derive(Clone, Copy, Debug, PartialEq, Eq, Structural)]
pub struct IPv4(pub u8, pub u8, pub u8, pub u8);

/// The character of a decimal digit `d < 10`.
pub open spec fn digit_char(d: nat) -> char {
    ((d + 48) as u8) as char
}

/// Decimal text of `n`, with no leading zeros.
pub open spec fn decimal(n: nat) -> Seq<char>
    decreases n,
{
    if n < 10 {
        seq![digit_char(n)]
    } else {
        decimal(n / 10).push(digit_char(n % 10))
    }
}

/// The big-endian packing of the four components into one 32-bit value.
pub open spec fn packed(a: IPv4) -> u32 {
    (a.0 as int * 0x100_0000 + a.1 as int * 0x1_0000 + a.2 as int * 0x100 + a.3 as int) as u32
}

/// The four components in decimal, joined by dots.
pub open spec fn canonical(a: IPv4) -> Seq<char> {
    decimal(a.0 as nat) + seq!['.'] + decimal(a.1 as nat) + seq!['.'] + decimal(a.2 as nat)
        + seq!['.'] + decimal(a.3 as nat)
}

/// The four components as a tuple, in order.
pub open spec fn components(a: IPv4) -> (u8, u8, u8, u8) {
    (a.0, a.1, a.2, a.3)
}

/// Relies on String::push: the character is appended at the end.
#[verifier::external_body]
fn push_char(s: &mut String, c: char)
    ensures
        final(s)@ == old(s)@.push(c),
{
    s.push(c);
}

fn digit(d: u8) -> (c: char)
    requires
        d < 10,
    ensures
        c == digit_char(d as nat),
{
    (d + 48) as char
}

/// Appends the decimal text of `n` to `s`.
fn push_decimal(s: &mut String, n: u8)
    ensures
        final(s)@ == old(s)@ + decimal(n as nat),
{
    let ghost start = s@;
    if n >= 100 {
        push_char(s, digit(n / 100));
    }
    if n >= 10 {
        push_char(s, digit((n / 10) % 10));
    }
    push_char(s, digit(n % 10));
    proof {
        let m = n as nat;
        if m >= 100 {
            assert(decimal(m / 100) == seq![digit_char(m / 100)]);
            assert(decimal(m / 10) == decimal(m / 100).push(digit_char((m / 10) % 10)));
        } else if m >= 10 {
            assert(decimal(m / 10) == seq![digit_char(m / 10)]);
        }
        assert(s@ =~= start + decimal(m));
    }
}

impl IPv4 {
    /// The components packed big-endian: `c0 << 24 | c1 << 16 | c2 << 8 | c3`.
    pub fn to_packed(self) -> (r: u32)
        ensures
            r == packed(self),
    {
        let (a, b, c, d) = (self.0 as u32, self.1 as u32, self.2 as u32, self.3 as u32);
        assert(0u32 + d + (c << 8) + (b << 16) + (a << 24) == a * 0x100_0000 + b * 0x1_0000 + c
            * 0x100 + d) by (bit_vector)
            requires
                a < 256 && b < 256 && c < 256 && d < 256,
        ;
        0u32 + d + (c << 8) + (b << 16) + (a << 24)
    }

    /// The components in decimal, joined by dots (`192.168.0.1`).
    pub fn to_canonical(self) -> (r: String)
        ensures
            r@ == canonical(self),
    {
        let mut s = String::new();
        push_decimal(&mut s, self.0);
        push_char(&mut s, '.');
        push_decimal(&mut s, self.1);
        push_char(&mut s, '.');
        push_decimal(&mut s, self.2);
        push_char(&mut s, '.');
        push_decimal(&mut s, self.3);
        assert(s@ =~= canonical(self));
        s
    }

    /// The components as a tuple, in order.
    pub fn to_components(self) -> (r: (u8, u8, u8, u8))
        ensures
            r == components(self),
    {
        (self.0, self.1, self.2, self.3)
    }
}

impl From<IPv4> for u32 {
    fn from(ip: IPv4) -> u32 {
        ip.to_packed()
    }
}

impl vstd::std_specs::convert::FromSpecImpl<IPv4> for u32 {
    open spec fn obeys_from_spec() -> bool {
        true
    }

    open spec fn from_spec(v: IPv4) -> u32 {
        packed(v)
    }
}

impl From<IPv4> for (u8, u8, u8, u8) {
    fn from(ip: IPv4) -> (u8, u8, u8, u8) {
        ip.to_components()
    }
}

impl vstd::std_specs::convert::FromSpecImpl<IPv4> for (u8, u8, u8, u8) {
    open spec fn obeys_from_spec() -> bool {
        true
    }

    open spec fn from_spec(v: IPv4) -> (u8, u8, u8, u8) {
        components(v)
    }
}

impl From<IPv4> for String {
    fn from(ip: IPv4) -> (r: String)
        ensures
            r@ == canonical(ip),
    {
        ip.to_canonical()
    }
}

/// Text has no spec-level value to name, so generic callers learn nothing from
/// this conversion; `IPv4::to_canonical` states the result.
impl vstd::std_specs::convert::FromSpecImpl<IPv4> for String {
    open spec fn obeys_from_spec() -> bool {
        false
    }

    open spec fn from_spec(v: IPv4) -> String {
        vstd::pervasive::arbitrary()
    }
}

/// Unpacking the packed value byte by byte, most significant first, gives
/// back the four components; so distinct addresses pack to distinct values.
pub proof fn lemma_packed_decodes(a: IPv4)
    ensures
        (packed(a) >> 24u32) & 0xffu32 == a.0 as u32,
        (packed(a) >> 16u32) & 0xffu32 == a.1 as u32,
        (packed(a) >> 8u32) & 0xffu32 == a.2 as u32,
        packed(a) & 0xffu32 == a.3 as u32,
{
    let (w, x, y, z) = (a.0 as u32, a.1 as u32, a.2 as u32, a.3 as u32);
    assert(packed(a) == w * 0x100_0000 + x * 0x1_0000 + y * 0x100 + z) by (nonlinear_arith)
        requires
            w < 256 && x < 256 && y < 256 && z < 256,
            packed(a) == (w as int * 0x100_0000 + x as int * 0x1_0000 + y as int * 0x100
                + z as int) as u32,
    ;
    let v = packed(a);
    assert({
        &&& (v >> 24u32) & 0xffu32 == w
        &&& (v >> 16u32) & 0xffu32 == x
        &&& (v >> 8u32) & 0xffu32 == y
        &&& v & 0xffu32 == z
    }) by (bit_vector)
        requires
            w < 256 && x < 256 && y < 256 && z < 256,
            v == w * 0x100_0000 + x * 0x1_0000 + y * 0x100 + z,
    ;
}

/// Packing is injective: two addresses with the same packed value are equal.
pub proof fn lemma_packed_injective(a: IPv4, b: IPv4)
    ensures
        packed(a) == packed(b) <==> a == b,
{
    lemma_packed_decodes(a);
    lemma_packed_decodes(b);
}

} // verus!
