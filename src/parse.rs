use vstd::prelude::*;
use vstd::std_specs::convert::FromSpec;
use vstd::std_specs::iter::IteratorSpec;
use crate::address::{canonical, decimal, digit_char, IPv4};

verus! {

/// The pieces of `s` between occurrences of `d`, as `str::split` yields them:
/// one more piece than there are delimiters, empty pieces kept.
pub open spec fn split_on(s: Seq<char>, d: char) -> Seq<Seq<char>>
    decreases s.len(),
{
    if s.len() == 0 {
        seq![Seq::empty()]
    } else {
        let r = split_on(s.drop_last(), d);
        if s.last() == d {
            r.push(Seq::empty())
        } else {
            r.update(r.len() - 1, r.last().push(s.last()))
        }
    }
}

pub proof fn lemma_split_on_nonempty(s: Seq<char>, d: char)
    ensures
        split_on(s, d).len() >= 1,
    decreases s.len(),
{
    if s.len() > 0 {
        lemma_split_on_nonempty(s.drop_last(), d);
    }
}

/// Splits `s` at every `d`.
pub fn split_chars(s: &Vec<char>, d: char) -> (r: Vec<Vec<char>>)
    ensures
        r@.map_values(|p: Vec<char>| p@) == split_on(s@, d),
{
    let mut done: Vec<Vec<char>> = Vec::new();
    let mut cur: Vec<char> = Vec::new();
    let mut i: usize = 0;
    while i < s.len()
        invariant
            i <= s@.len(),
            done@.map_values(|p: Vec<char>| p@).push(cur@) == split_on(s@.take(i as int), d),
        decreases s@.len() - i,
    {
        let c = s[i];
        proof {
            lemma_split_on_nonempty(s@.take(i as int), d);
            assert(s@.take(i + 1).drop_last() =~= s@.take(i as int));
        }
        if c == d {
            let piece = cur;
            cur = Vec::new();
            done.push(piece);
            assert(done@.map_values(|p: Vec<char>| p@).push(cur@) =~= split_on(s@.take(i + 1), d));
        } else {
            cur.push(c);
            assert(done@.map_values(|p: Vec<char>| p@).push(cur@) =~= split_on(s@.take(i + 1), d));
        }
        i = i + 1;
    }
    done.push(cur);
    assert(s@.take(s@.len() as int) =~= s@);
    done
}

pub open spec fn is_digit(c: char) -> bool {
    '0' <= c && c <= '9'
}

pub open spec fn all_digits(s: Seq<char>) -> bool {
    forall|i: int| 0 <= i < s.len() ==> is_digit(#[trigger] s[i])
}

/// The value of a string of decimal digits, most significant first.
pub open spec fn digits_value(s: Seq<char>) -> nat
    decreases s.len(),
{
    if s.len() == 0 {
        0
    } else {
        digits_value(s.drop_last()) * 10 + (s.last() as u32 - 48) as nat
    }
}

/// The byte that `s` denotes in base 10: one or more decimal digits (leading
/// zeros allowed, no sign) with a value of at most 255.
pub open spec fn octet_of(s: Seq<char>) -> Option<u8> {
    if s.len() > 0 && all_digits(s) && digits_value(s) <= 255 {
        Some(digits_value(s) as u8)
    } else {
        None
    }
}

/// A prefix of a digit string never has a larger value than the whole.
proof fn lemma_digits_value_prefix(s: Seq<char>, k: int)
    requires
        0 <= k <= s.len(),
        all_digits(s),
    ensures
        digits_value(s.take(k)) <= digits_value(s),
    decreases s.len(),
{
    if k < s.len() {
        assert(s.drop_last().take(k) =~= s.take(k));
        lemma_digits_value_prefix(s.drop_last(), k);
    } else {
        assert(s.take(k) =~= s);
    }
}

/// Parses one dot-separated group as a byte.
pub fn parse_octet(s: &Vec<char>) -> (r: Option<u8>)
    ensures
        r == octet_of(s@),
{
    let ghost b = s@;
    if s.len() == 0 {
        return None;
    }
    let mut v: u32 = 0;
    let mut i: usize = 0;
    while i < s.len()
        invariant
            i <= s@.len(),
            b == s@,
            b.len() > 0,
            v <= 255,
            v == digits_value(b.take(i as int)),
            all_digits(b.take(i as int)),
        decreases s@.len() - i,
    {
        let c = s[i];
        let ghost k: int = i as int;
        assert(b[k] == c);
        if c < '0' || c > '9' {
            assert(!is_digit(b[k]));
            return None;
        }
        assert(b.take(k + 1).drop_last() =~= b.take(k));
        assert(b.take(k + 1).last() == c);
        assert(digits_value(b.take(k + 1)) == v * 10 + (c as u32 - 48));
        v = v * 10 + (c as u32 - 48);
        i = i + 1;
        assert(all_digits(b.take(k + 1))) by {
            assert forall|j: int| 0 <= j < k + 1 implies is_digit(#[trigger] b.take(k + 1)[j]) by {
                if j < k {
                    assert(b.take(k + 1)[j] == b.take(k)[j]);
                }
            }
        }
        if v > 255 {
            proof {
                if all_digits(b) {
                    lemma_digits_value_prefix(b, k + 1);
                }
            }
            return None;
        }
    }
    assert(b.take(i as int) =~= b);
    Some(v as u8)
}

/// The bytes of the groups that parse, in order; the others are left out.
pub open spec fn octets_of(groups: Seq<Seq<char>>) -> Seq<u8>
    decreases groups.len(),
{
    if groups.len() == 0 {
        seq![]
    } else {
        let r = octets_of(groups.drop_last());
        match octet_of(groups.last()) {
            Some(v) => r.push(v),
            None => r,
        }
    }
}

/// The address that a candidate token denotes: its dot-separated groups that
/// parse as bytes, of which the first four are taken. The token is an address
/// when at least four groups parse, wherever the others stand.
pub open spec fn address_of(tok: Seq<char>) -> Option<IPv4> {
    let o = octets_of(split_on(tok, '.'));
    if o.len() >= 4 {
        Some(IPv4(o[0], o[1], o[2], o[3]))
    } else {
        None
    }
}

/// Parses one candidate token.
pub fn parse_address_chars(tok: &Vec<char>) -> (r: Option<IPv4>)
    ensures
        r == address_of(tok@),
{
    let groups = split_chars(tok, '.');
    let ghost gs = groups@.map_values(|p: Vec<char>| p@);
    let mut octets: Vec<u8> = Vec::new();
    let mut j: usize = 0;
    while j < groups.len()
        invariant
            j <= groups@.len(),
            gs == groups@.map_values(|p: Vec<char>| p@),
            octets@ == octets_of(gs.take(j as int)),
        decreases groups@.len() - j,
    {
        let o = parse_octet(&groups[j]);
        assert(gs.take(j + 1).drop_last() =~= gs.take(j as int));
        assert(gs.take(j + 1).last() == groups@[j as int]@);
        match o {
            Some(v) => octets.push(v),
            None => {},
        }
        j = j + 1;
    }
    assert(gs.take(j as int) =~= gs);
    if octets.len() >= 4 {
        Some(IPv4(octets[0], octets[1], octets[2], octets[3]))
    } else {
        None
    }
}

/// The characters of `s`, in order.
pub fn chars_of(s: &str) -> (r: Vec<char>)
    ensures
        r@ == s@,
{
    broadcast use vstd::string::group_string_axioms;

    let mut out: Vec<char> = Vec::new();
    for c in it: s.chars()
        invariant
            out@ == it.seq().take(it.index() as int),
    {
        out.push(c);
    }
    assert(out@ =~= s@);
    out
}

/// Parses a single dotted-quad token.
pub fn parse_address(s: &str) -> (r: Option<IPv4>)
    ensures
        r == address_of(s@),
{
    let cs = chars_of(s);
    parse_address_chars(&cs)
}

impl std::str::FromStr for IPv4 {
    type Err = ();

    fn from_str(s: &str) -> (r: Result<IPv4, ()>)
        ensures
            r == (match address_of(s@) {
                Some(a) => Ok::<IPv4, ()>(a),
                None => Err::<IPv4, ()>(()),
            }),
    {
        match parse_address(s) {
            Some(a) => Ok(a),
            None => Err(()),
        }
    }
}

/// The addresses among the candidates, in order; candidates that are no
/// address are left out.
pub open spec fn addresses_in(cands: Seq<Seq<char>>) -> Seq<IPv4>
    decreases cands.len(),
{
    if cands.len() == 0 {
        seq![]
    } else {
        let r = addresses_in(cands.drop_last());
        match address_of(cands.last()) {
            Some(a) => r.push(a),
            None => r,
        }
    }
}

/// The addresses that the space-separated tokens of `s` denote, in order.
pub open spec fn addresses_of(s: Seq<char>) -> Seq<IPv4> {
    addresses_in(split_on(s, ' '))
}

/// Parses every space-separated token of `ips`, dropping the malformed ones.
pub fn parse_addresses(ips: &str) -> (r: Vec<IPv4>)
    ensures
        r@ == addresses_of(ips@),
{
    let cs = chars_of(ips);
    let cands = split_chars(&cs, ' ');
    let ghost ts = cands@.map_values(|p: Vec<char>| p@);
    let mut out: Vec<IPv4> = Vec::new();
    let mut j: usize = 0;
    while j < cands.len()
        invariant
            j <= cands@.len(),
            ts == cands@.map_values(|p: Vec<char>| p@),
            ts == split_on(ips@, ' '),
            out@ == addresses_in(ts.take(j as int)),
        decreases cands@.len() - j,
    {
        let a = parse_address_chars(&cands[j]);
        assert(ts.take(j + 1).drop_last() =~= ts.take(j as int));
        assert(ts.take(j + 1).last() == cands@[j as int]@);
        match a {
            Some(a) => out.push(a),
            None => {},
        }
        j = j + 1;
    }
    assert(ts.take(j as int) =~= ts);
    out
}

/// Parses every space-separated token of `ips` and converts each address into
/// `T`, in order; malformed tokens are dropped.
pub fn parse_ips<T: From<IPv4>>(ips: &str) -> (r: Vec<T>)
    ensures
        r@.len() == addresses_of(ips@).len(),
        T::obeys_from_spec() ==> r@ == addresses_of(ips@).map_values(|a: IPv4| T::from_spec(a)),
        forall|i: int|
            0 <= i < r@.len() ==> call_ensures(T::from, (addresses_of(ips@)[i],), #[trigger] r@[i]),
{
    let addrs = parse_addresses(ips);
    let mut out: Vec<T> = Vec::new();
    let mut j: usize = 0;
    while j < addrs.len()
        invariant
            j <= addrs@.len(),
            addrs@ == addresses_of(ips@),
            out@.len() == j,
            T::obeys_from_spec() ==> out@ == addrs@.take(j as int).map_values(
                |a: IPv4| T::from_spec(a),
            ),
            forall|i: int| 0 <= i < j ==> call_ensures(T::from, (addrs@[i],), #[trigger] out@[i]),
        decreases addrs@.len() - j,
    {
        let t = T::from(addrs[j]);
        out.push(t);
        assert(T::obeys_from_spec() ==> out@ =~= addrs@.take(j + 1).map_values(
            |a: IPv4| T::from_spec(a),
        ));
        j = j + 1;
    }
    assert(addrs@.take(j as int) =~= addrs@);
    out
}

proof fn lemma_octets_of_push(gs: Seq<Seq<char>>, g: Seq<char>)
    ensures
        octets_of(gs.push(g)) == match octet_of(g) {
            Some(v) => octets_of(gs).push(v),
            None => octets_of(gs),
        },
{
    assert(gs.push(g).drop_last() =~= gs);
}

proof fn lemma_addresses_in_push(cs: Seq<Seq<char>>, c: Seq<char>)
    ensures
        addresses_in(cs.push(c)) == match address_of(c) {
            Some(a) => addresses_in(cs).push(a),
            None => addresses_in(cs),
        },
{
    assert(cs.push(c).drop_last() =~= cs);
}

/// Splitting at a delimiter that stands between two texts splits each text.
pub proof fn lemma_split_on_concat(s: Seq<char>, t: Seq<char>, d: char)
    ensures
        split_on(s + seq![d] + t, d) == split_on(s, d) + split_on(t, d),
    decreases t.len(),
{
    let st = s + seq![d] + t;
    if t.len() == 0 {
        assert(st.drop_last() =~= s);
        assert(split_on(s, d).push(Seq::empty()) =~= split_on(s, d) + split_on(t, d));
    } else {
        lemma_split_on_concat(s, t.drop_last(), d);
        lemma_split_on_nonempty(t.drop_last(), d);
        assert(st.drop_last() =~= s + seq![d] + t.drop_last());
        let l = split_on(s, d);
        let r = split_on(t.drop_last(), d);
        if t.last() == d {
            assert((l + r).push(Seq::empty()) =~= l + r.push(Seq::empty()));
        } else {
            assert((l + r).update(l.len() + r.len() - 1, (l + r).last().push(t.last())) =~= l
                + r.update(r.len() - 1, r.last().push(t.last())));
        }
    }
}

/// A text without the delimiter is a single piece.
pub proof fn lemma_split_on_single(s: Seq<char>, d: char)
    requires
        forall|i: int| 0 <= i < s.len() ==> s[i] != d,
    ensures
        split_on(s, d) == seq![s],
    decreases s.len(),
{
    if s.len() > 0 {
        lemma_split_on_single(s.drop_last(), d);
        assert(s.drop_last().push(s.last()) =~= s);
        assert(s.last() != d);
        assert(split_on(s, d) == split_on(s.drop_last(), d).update(0, s.drop_last().push(s.last())));
        assert(seq![s.drop_last()].update(0, s.drop_last().push(s.last())) =~= seq![s]);
    } else {
        assert(s =~= Seq::<char>::empty());
    }
}

/// Decimal text is made of digits and denotes its number.
pub proof fn lemma_decimal_digits(n: nat)
    ensures
        decimal(n).len() > 0,
        all_digits(decimal(n)),
        digits_value(decimal(n)) == n,
    decreases n,
{
    if n >= 10 {
        lemma_decimal_digits(n / 10);
        let p = decimal(n / 10);
        assert(decimal(n).drop_last() =~= p);
        assert(decimal(n).last() == digit_char(n % 10));
        assert(digit_char(n % 10) as u32 - 48 == n % 10);
        assert(digits_value(decimal(n)) == (n / 10) * 10 + n % 10);
        assert((n / 10) * 10 + n % 10 == n) by (nonlinear_arith);
        assert(all_digits(decimal(n))) by {
            assert forall|i: int| 0 <= i < decimal(n).len() implies is_digit(
                #[trigger] decimal(n)[i],
            ) by {
                if i < p.len() {
                    assert(decimal(n)[i] == p[i]);
                }
            }
        }
    } else {
        assert(decimal(n).drop_last() =~= Seq::<char>::empty());
        assert(digit_char(n) as u32 - 48 == n);
        assert(digits_value(Seq::<char>::empty()) == 0);
    }
}

/// The decimal text of a byte parses back to it.
pub proof fn lemma_octet_of_decimal(v: u8)
    ensures
        octet_of(decimal(v as nat)) == Some(v),
        forall|i: int| 0 <= i < decimal(v as nat).len() ==> decimal(v as nat)[i] != '.',
{
    let t = decimal(v as nat);
    lemma_decimal_digits(v as nat);
    assert forall|i: int| 0 <= i < t.len() implies t[i] != '.' by {
        assert(is_digit(t[i]));
    }
}

/// Rendering an address as canonical text and parsing that text again gives
/// back the same address, both as a token and as a whole input.
pub proof fn lemma_canonical_round_trip(a: IPv4)
    ensures
        address_of(canonical(a)) == Some(a),
        addresses_of(canonical(a)) == seq![a],
{
    let (t0, t1, t2, t3) = (decimal(a.0 as nat), decimal(a.1 as nat), decimal(a.2 as nat),
        decimal(a.3 as nat));
    lemma_octet_of_decimal(a.0);
    lemma_octet_of_decimal(a.1);
    lemma_octet_of_decimal(a.2);
    lemma_octet_of_decimal(a.3);
    lemma_split_on_single(t0, '.');
    lemma_split_on_single(t1, '.');
    lemma_split_on_single(t2, '.');
    lemma_split_on_single(t3, '.');
    lemma_split_on_concat(t0, t1, '.');
    lemma_split_on_concat(t0 + seq!['.'] + t1, t2, '.');
    lemma_split_on_concat(t0 + seq!['.'] + t1 + seq!['.'] + t2, t3, '.');
    let gs = split_on(canonical(a), '.');
    assert(gs =~= seq![t0, t1, t2, t3]);
    assert(gs.drop_last().drop_last().drop_last().drop_last() =~= Seq::<Seq<char>>::empty());
    assert(gs.drop_last().drop_last().drop_last() =~= seq![t0]);
    assert(gs.drop_last().drop_last() =~= seq![t0, t1]);
    assert(gs.drop_last() =~= seq![t0, t1, t2]);
    lemma_octets_of_push(seq![], t0);
    lemma_octets_of_push(seq![t0], t1);
    lemma_octets_of_push(seq![t0, t1], t2);
    lemma_octets_of_push(seq![t0, t1, t2], t3);
    assert(seq![t0, t1, t2].push(t3) =~= gs);
    assert(seq![t0, t1].push(t2) =~= seq![t0, t1, t2]);
    assert(seq![t0].push(t1) =~= seq![t0, t1]);
    assert(Seq::<Seq<char>>::empty().push(t0) =~= seq![t0]);
    assert(octets_of(gs) =~= seq![a.0, a.1, a.2, a.3]);
    assert forall|i: int| 0 <= i < canonical(a).len() implies canonical(a)[i] != ' ' by {
        let c = canonical(a);
        if c[i] == ' ' {
            assert(false) by {
                // every character is a digit or a dot
                assert(c =~= t0 + seq!['.'] + t1 + seq!['.'] + t2 + seq!['.'] + t3);
                lemma_decimal_digits(a.0 as nat);
                lemma_decimal_digits(a.1 as nat);
                lemma_decimal_digits(a.2 as nat);
                lemma_decimal_digits(a.3 as nat);
                if i < t0.len() {
                    assert(is_digit(t0[i]));
                } else if i < t0.len() + 1 {
                } else if i < t0.len() + 1 + t1.len() {
                    assert(is_digit(t1[i - t0.len() - 1]));
                } else if i < t0.len() + 2 + t1.len() {
                } else if i < t0.len() + 2 + t1.len() + t2.len() {
                    assert(is_digit(t2[i - t0.len() - 2 - t1.len()]));
                } else if i < t0.len() + 3 + t1.len() + t2.len() {
                } else {
                    assert(is_digit(t3[i - t0.len() - 3 - t1.len() - t2.len()]));
                }
            }
        }
    }
    lemma_split_on_single(canonical(a), ' ');
    lemma_addresses_in_push(seq![], canonical(a));
    assert(Seq::<Seq<char>>::empty().push(canonical(a)) =~= seq![canonical(a)]);
    assert(addresses_in(seq![canonical(a)]) =~= seq![a]);
}

/// A well-formed dotted-quad token: four dot-separated groups, each of one
/// or more decimal digits with a value of at most 255.
pub open spec fn is_dotted_quad(tok: Seq<char>) -> bool {
    let gs = split_on(tok, '.');
    &&& gs.len() == 4
    &&& forall|k: int|
        0 <= k < 4 ==> {
            &&& (#[trigger] gs[k]).len() > 0
            &&& all_digits(gs[k])
            &&& digits_value(gs[k]) <= 255
        }
}

/// The address that a well-formed dotted-quad token spells out.
pub open spec fn quad_address(tok: Seq<char>) -> IPv4 {
    let gs = split_on(tok, '.');
    IPv4(
        digits_value(gs[0]) as u8,
        digits_value(gs[1]) as u8,
        digits_value(gs[2]) as u8,
        digits_value(gs[3]) as u8,
    )
}

/// A well-formed dotted-quad token is accepted as the address it spells out.
pub proof fn lemma_dotted_quad_accepted(tok: Seq<char>)
    requires
        is_dotted_quad(tok),
    ensures
        address_of(tok) == Some(quad_address(tok)),
{
    let gs = split_on(tok, '.');
    assert(forall|k: int| 0 <= k < 4 ==> octet_of(#[trigger] gs[k]) == Some(
        digits_value(gs[k]) as u8,
    ));
    lemma_octets_of_push(seq![], gs[0]);
    lemma_octets_of_push(seq![gs[0]], gs[1]);
    lemma_octets_of_push(seq![gs[0], gs[1]], gs[2]);
    lemma_octets_of_push(seq![gs[0], gs[1], gs[2]], gs[3]);
    assert(seq![gs[0], gs[1], gs[2]].push(gs[3]) =~= gs);
    assert(seq![gs[0], gs[1]].push(gs[2]) =~= seq![gs[0], gs[1], gs[2]]);
    assert(seq![gs[0]].push(gs[1]) =~= seq![gs[0], gs[1]]);
    assert(Seq::<Seq<char>>::empty().push(gs[0]) =~= seq![gs[0]]);
}

/// When every candidate is an address, none is dropped and the order is kept.
proof fn lemma_addresses_in_all_valid(cs: Seq<Seq<char>>)
    requires
        forall|i: int| 0 <= i < cs.len() ==> (#[trigger] address_of(cs[i])) is Some,
    ensures
        addresses_in(cs).len() == cs.len(),
        forall|i: int| 0 <= i < cs.len() ==> #[trigger] addresses_in(cs)[i] == address_of(cs[i])->0,
    decreases cs.len(),
{
    if cs.len() > 0 {
        let init = cs.drop_last();
        assert forall|i: int| 0 <= i < init.len() implies (#[trigger] address_of(init[i])) is Some by {
            assert(init[i] == cs[i]);
        }
        lemma_addresses_in_all_valid(init);
        assert(address_of(cs[cs.len() - 1]) is Some);
        assert forall|i: int| 0 <= i < cs.len() implies #[trigger] addresses_in(cs)[i] == address_of(
            cs[i],
        )->0 by {
            if i < init.len() {
                assert(init[i] == cs[i]);
            }
        }
    }
}

/// An input made only of well-formed dotted-quad tokens yields one address per
/// space-separated token, in the order of the tokens.
pub proof fn lemma_well_formed_input(s: Seq<char>)
    requires
        forall|i: int|
            0 <= i < split_on(s, ' ').len() ==> is_dotted_quad(#[trigger] split_on(s, ' ')[i]),
    ensures
        addresses_of(s).len() == split_on(s, ' ').len(),
        forall|i: int|
            0 <= i < split_on(s, ' ').len() ==> #[trigger] addresses_of(s)[i] == quad_address(
                split_on(s, ' ')[i],
            ),
{
    let cs = split_on(s, ' ');
    assert forall|i: int| 0 <= i < cs.len() implies (#[trigger] address_of(cs[i])) is Some by {
        lemma_dotted_quad_accepted(cs[i]);
    }
    lemma_addresses_in_all_valid(cs);
    assert forall|i: int| 0 <= i < cs.len() implies #[trigger] addresses_of(s)[i] == quad_address(
        cs[i],
    ) by {
        lemma_dotted_quad_accepted(cs[i]);
    }
}

proof fn lemma_addresses_in_concat(a: Seq<Seq<char>>, b: Seq<Seq<char>>)
    ensures
        addresses_in(a + b) == addresses_in(a) + addresses_in(b),
    decreases b.len(),
{
    if b.len() == 0 {
        assert(a + b =~= a);
        assert(addresses_in(a) + addresses_in(b) =~= addresses_in(a));
    } else {
        lemma_addresses_in_concat(a, b.drop_last());
        assert((a + b).drop_last() =~= a + b.drop_last());
        assert(addresses_in(a) + addresses_in(b.drop_last()).push(address_of(b.last())->0)
            =~= (addresses_in(a) + addresses_in(b.drop_last())).push(address_of(b.last())->0));
    }
}

/// Counting the groups that parse: never more than there are groups, and
/// fewer when one of them does not parse.
proof fn lemma_octets_of_len(gs: Seq<Seq<char>>)
    ensures
        octets_of(gs).len() <= gs.len(),
        (exists|k: int| 0 <= k < gs.len() && (#[trigger] octet_of(gs[k])) is None) ==> octets_of(
            gs,
        ).len() < gs.len(),
    decreases gs.len(),
{
    if gs.len() > 0 {
        let init = gs.drop_last();
        lemma_octets_of_len(init);
        if exists|k: int| 0 <= k < gs.len() && (#[trigger] octet_of(gs[k])) is None {
            let k = choose|k: int| 0 <= k < gs.len() && (#[trigger] octet_of(gs[k])) is None;
            if k < init.len() {
                assert(init[k] == gs[k]);
            }
        }
    }
}

/// A token with fewer than four dot-separated groups, or with four of which
/// one is not a decimal byte (not digits, or over 255), is not an address.
pub proof fn lemma_malformed_token(tok: Seq<char>)
    requires
        split_on(tok, '.').len() < 4 || (split_on(tok, '.').len() == 4 && exists|k: int|
            0 <= k < 4 && (#[trigger] octet_of(split_on(tok, '.')[k])) is None),
    ensures
        address_of(tok) is None,
{
    lemma_octets_of_len(split_on(tok, '.'));
}

/// A token that is no address adds nothing to the output and leaves the
/// parsing of the tokens before and after it unchanged.
pub proof fn lemma_malformed_dropped(before: Seq<char>, tok: Seq<char>, after: Seq<char>)
    requires
        address_of(tok) is None,
        forall|i: int| 0 <= i < tok.len() ==> tok[i] != ' ',
    ensures
        addresses_of(before + seq![' '] + tok + seq![' '] + after) == addresses_of(before)
            + addresses_of(after),
{
    let whole = before + seq![' '] + tok + seq![' '] + after;
    let rest = tok + seq![' '] + after;
    assert(whole =~= before + seq![' '] + rest);
    lemma_split_on_concat(before, rest, ' ');
    lemma_split_on_concat(tok, after, ' ');
    lemma_split_on_single(tok, ' ');
    let (b, a) = (split_on(before, ' '), split_on(after, ' '));
    assert(split_on(whole, ' ') =~= b + (seq![tok] + a));
    lemma_addresses_in_concat(b, seq![tok] + a);
    lemma_addresses_in_concat(seq![tok], a);
    lemma_addresses_in_push(seq![], tok);
    assert(Seq::<Seq<char>>::empty().push(tok) =~= seq![tok]);
    assert(addresses_in(seq![tok]) =~= Seq::<IPv4>::empty());
    assert(addresses_in(seq![tok]) + addresses_in(a) =~= addresses_in(a));
}

} // verus!
