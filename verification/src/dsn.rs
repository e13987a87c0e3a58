//! The connection descriptor parser: a compact connection string of the
//! shape `[user[:pass]@]tcp(address)/dbname[?params]` is turned into
//! structured connection parameters.  The address is either a bracketed
//! IPv6 literal `[addr]`, optionally followed by `:port`, or a bare
//! IPv4-literal-or-hostname, split on its last colon for an optional port.

use vstd::prelude::*;

use crate::text::{
    eq_bytes, find2_at, find_at, hex_digit_val, is_digit, is_digits, is_hex_digit, lemma_find2_at,
    lemma_find_at, lemma_rfind, lemma_val_prefix, rfind_byte, spec_find2_at, spec_find_at,
    spec_hval, spec_rfind, spec_split, spec_val, split_bytes, subvec,
};

verus! {

/// The port used when the address names none.
pub const DEFAULT_PORT: u16 = 3306;

/// A valid dotted-decimal octet: one to three digits, no leading zero
/// (except `0` itself), value at most 255.
pub open spec fn spec_octet_ok(p: Seq<u8>) -> bool {
    1 <= p.len() <= 3 && is_digits(p) && spec_val(p) <= 255 && (p.len() > 1 ==> p[0] != 48)
}

/// A valid dotted-decimal IPv4 literal: four valid octets.
pub open spec fn spec_ipv4_ok(s: Seq<u8>) -> bool {
    let ps = spec_split(s, 46);
    ps.len() == 4 && forall|k: int| 0 <= k < ps.len() ==> spec_octet_ok(#[trigger] ps[k])
}

/// The four octet values of an IPv4 literal.
pub open spec fn spec_ipv4_val(s: Seq<u8>) -> Seq<u8> {
    spec_split(s, 46).map_values(|p: Seq<u8>| spec_val(p) as u8)
}

/// Parse one dotted-decimal octet.
fn parse_octet(p: &Vec<u8>) -> (r: Option<u8>)
    ensures
        match r {
            Some(v) => spec_octet_ok(p@) && v == spec_val(p@),
            None => !spec_octet_ok(p@),
        },
{
    if p.len() < 1 || p.len() > 3 {
        return None;
    }
    if p.len() > 1 && p[0] == 48 {
        return None;
    }
    let mut acc: u32 = 0;
    let mut i: usize = 0;
    assert(p@.subrange(0, 0) =~= Seq::<u8>::empty());
    while i < p.len()
        invariant
            i <= p@.len() <= 3,
            acc == spec_val(p@.subrange(0, i as int)),
            i == 0 ==> acc == 0,
            i == 1 ==> acc <= 9,
            i == 2 ==> acc <= 99,
            i == 3 ==> acc <= 999,
            forall|j: int| 0 <= j < i ==> is_digit(#[trigger] p@[j]),
        decreases p@.len() - i,
    {
        let b = p[i];
        if b < 48 || b > 57 {
            assert(!is_digit(p@[i as int]));
            return None;
        }
        proof {
            let q = p@.subrange(0, i + 1);
            assert(q.drop_last() =~= p@.subrange(0, i as int));
            assert(q.last() == p@[i as int]);
        }
        acc = acc * 10 + (b - 48) as u32;
        i = i + 1;
    }
    assert(p@.subrange(0, p@.len() as int) =~= p@);
    if acc > 255 {
        return None;
    }
    Some(acc as u8)
}

/// Parse a full IPv4 literal.
pub fn parse_ipv4(s: &Vec<u8>) -> (r: Option<(u8, u8, u8, u8)>)
    ensures
        match r {
            Some(o) => spec_ipv4_ok(s@) && seq![o.0, o.1, o.2, o.3] == spec_ipv4_val(s@),
            None => !spec_ipv4_ok(s@),
        },
{
    let parts = split_bytes(s, 46);
    let ghost pv = parts.deep_view();
    if parts.len() != 4 {
        return None;
    }
    assert(pv[0] == parts@[0]@ && pv[1] == parts@[1]@ && pv[2] == parts@[2]@ && pv[3]
        == parts@[3]@);
    let a = match parse_octet(&parts[0]) {
        Some(v) => v,
        None => {
            return None;
        },
    };
    let b = match parse_octet(&parts[1]) {
        Some(v) => v,
        None => {
            return None;
        },
    };
    let c = match parse_octet(&parts[2]) {
        Some(v) => v,
        None => {
            return None;
        },
    };
    let d = match parse_octet(&parts[3]) {
        Some(v) => v,
        None => {
            return None;
        },
    };
    assert(seq![a, b, c, d] =~= spec_ipv4_val(s@));
    Some((a, b, c, d))
}

/// A valid IPv6 group: one to four hexadecimal digits.
pub open spec fn spec_group_ok(p: Seq<u8>) -> bool {
    1 <= p.len() <= 4 && forall|i: int| 0 <= i < p.len() ==> is_hex_digit(#[trigger] p[i])
}

/// All groups valid.
pub open spec fn spec_groups_ok(ps: Seq<Seq<u8>>) -> bool {
    forall|k: int| 0 <= k < ps.len() ==> spec_group_ok(#[trigger] ps[k])
}

/// The group values.
pub open spec fn spec_groups_val(ps: Seq<Seq<u8>>) -> Seq<u16> {
    ps.map_values(|p: Seq<u8>| spec_hval(p) as u16)
}

/// `k` zero groups.
pub open spec fn spec_zeros(k: int) -> Seq<u16> {
    Seq::new(k as nat, |i: int| 0u16)
}

/// A valid IPv6 literal: eight colon-separated hex groups, or fewer with
/// one `::` eliding at least one zero group.
pub open spec fn spec_ipv6_ok(s: Seq<u8>) -> bool {
    let d = spec_find2_at(s, 58, 58, 0);
    if d >= s.len() {
        let ps = spec_split(s, 58);
        ps.len() == 8 && spec_groups_ok(ps)
    } else {
        let left = s.subrange(0, d);
        let right = s.subrange(d + 2, s.len() as int);
        let lp = if left.len() == 0 {
            Seq::<Seq<u8>>::empty()
        } else {
            spec_split(left, 58)
        };
        let rp = if right.len() == 0 {
            Seq::<Seq<u8>>::empty()
        } else {
            spec_split(right, 58)
        };
        spec_groups_ok(lp) && spec_groups_ok(rp) && lp.len() + rp.len() <= 7
    }
}

/// The eight group values of an IPv6 literal.
pub open spec fn spec_ipv6_val(s: Seq<u8>) -> Seq<u16> {
    let d = spec_find2_at(s, 58, 58, 0);
    if d >= s.len() {
        spec_groups_val(spec_split(s, 58))
    } else {
        let left = s.subrange(0, d);
        let right = s.subrange(d + 2, s.len() as int);
        let lp = if left.len() == 0 {
            Seq::<Seq<u8>>::empty()
        } else {
            spec_split(left, 58)
        };
        let rp = if right.len() == 0 {
            Seq::<Seq<u8>>::empty()
        } else {
            spec_split(right, 58)
        };
        spec_groups_val(lp) + spec_zeros(8 - lp.len() - rp.len()) + spec_groups_val(rp)
    }
}

/// Parse one hexadecimal group.
fn parse_hex_group(p: &Vec<u8>) -> (r: Option<u16>)
    ensures
        match r {
            Some(v) => spec_group_ok(p@) && v == spec_hval(p@),
            None => !spec_group_ok(p@),
        },
{
    if p.len() < 1 || p.len() > 4 {
        return None;
    }
    let mut acc: u32 = 0;
    let mut i: usize = 0;
    assert(p@.subrange(0, 0) =~= Seq::<u8>::empty());
    while i < p.len()
        invariant
            i <= p@.len() <= 4,
            acc == spec_hval(p@.subrange(0, i as int)),
            i == 0 ==> acc == 0,
            i == 1 ==> acc <= 15,
            i == 2 ==> acc <= 255,
            i == 3 ==> acc <= 4095,
            i == 4 ==> acc <= 65535,
            forall|j: int| 0 <= j < i ==> is_hex_digit(#[trigger] p@[j]),
        decreases p@.len() - i,
    {
        let b = p[i];
        let d: u32 = if 48 <= b && b <= 57 {
            (b - 48) as u32
        } else if 97 <= b && b <= 102 {
            (b - 87) as u32
        } else if 65 <= b && b <= 70 {
            (b - 55) as u32
        } else {
            assert(!is_hex_digit(p@[i as int]));
            return None;
        };
        proof {
            let q = p@.subrange(0, i + 1);
            assert(q.drop_last() =~= p@.subrange(0, i as int));
            assert(q.last() == p@[i as int]);
            assert(d == hex_digit_val(p@[i as int]));
        }
        acc = acc * 16 + d;
        i = i + 1;
    }
    assert(p@.subrange(0, p@.len() as int) =~= p@);
    Some(acc as u16)
}

/// Parse a list of hexadecimal groups.
fn parse_groups(parts: &Vec<Vec<u8>>) -> (r: Option<Vec<u16>>)
    ensures
        match r {
            Some(g) => spec_groups_ok(parts.deep_view()) && g@ == spec_groups_val(
                parts.deep_view(),
            ),
            None => !spec_groups_ok(parts.deep_view()),
        },
{
    let ghost pv = parts.deep_view();
    let mut g: Vec<u16> = Vec::new();
    let mut i: usize = 0;
    assert(g@ =~= spec_groups_val(pv.subrange(0, 0)));
    while i < parts.len()
        invariant
            i <= parts@.len() == pv.len(),
            pv == parts.deep_view(),
            g@ == spec_groups_val(pv.subrange(0, i as int)),
            forall|k: int| 0 <= k < i ==> spec_group_ok(#[trigger] pv[k]),
        decreases parts@.len() - i,
    {
        assert(pv[i as int] == parts@[i as int]@);
        match parse_hex_group(&parts[i]) {
            Some(v) => {
                g.push(v);
                assert(g@ =~= spec_groups_val(pv.subrange(0, i + 1)));
            },
            None => {
                return None;
            },
        }
        i = i + 1;
    }
    assert(pv.subrange(0, pv.len() as int) =~= pv);
    assert(g@ =~= spec_groups_val(pv));
    Some(g)
}

/// Parse a full IPv6 literal into its eight groups.
pub fn parse_ipv6(s: &Vec<u8>) -> (r: Option<Vec<u16>>)
    ensures
        match r {
            Some(g) => spec_ipv6_ok(s@) && g@ == spec_ipv6_val(s@) && g@.len() == 8,
            None => !spec_ipv6_ok(s@),
        },
{
    proof {
        lemma_find2_at(s@, 58, 58, 0);
    }
    let d = find2_at(s, 58, 58, 0);
    if d == s.len() {
        let parts = split_bytes(s, 58);
        if parts.len() != 8 {
            return None;
        }
        match parse_groups(&parts) {
            Some(g) => {
                assert(g@.len() == 8);
                Some(g)
            },
            None => None,
        }
    } else {
        let left = subvec(s, 0, d);
        let right = subvec(s, d + 2, s.len());
        let ghost lps = (if left@.len() == 0 {
            Seq::<Seq<u8>>::empty()
        } else {
            spec_split(left@, 58)
        });
        let ghost rps = (if right@.len() == 0 {
            Seq::<Seq<u8>>::empty()
        } else {
            spec_split(right@, 58)
        });
        let mut lv: Vec<u16> = Vec::new();
        if left.len() > 0 {
            let lparts = split_bytes(&left, 58);
            match parse_groups(&lparts) {
                Some(g) => {
                    lv = g;
                },
                None => {
                    return None;
                },
            }
        }
        assert(lv@ == spec_groups_val(lps));
        let mut rv: Vec<u16> = Vec::new();
        if right.len() > 0 {
            let rparts = split_bytes(&right, 58);
            match parse_groups(&rparts) {
                Some(g) => {
                    rv = g;
                },
                None => {
                    return None;
                },
            }
        }
        assert(rv@ == spec_groups_val(rps));
        if lv.len() > 7 {
            return None;
        }
        if rv.len() > 7 - lv.len() {
            return None;
        }
        let fill = 8 - lv.len() - rv.len();
        let mut g = lv;
        let mut z: usize = 0;
        let ghost lvs = g@;
        while z < fill
            invariant
                z <= fill,
                g@ == lvs + spec_zeros(z as int),
            decreases fill - z,
        {
            g.push(0);
            assert(g@ =~= lvs + spec_zeros(z + 1));
            z = z + 1;
        }
        let mut w: usize = 0;
        let ghost withz = g@;
        while w < rv.len()
            invariant
                w <= rv@.len(),
                g@ == withz + rv@.subrange(0, w as int),
            decreases rv@.len() - w,
        {
            g.push(rv[w]);
            assert(g@ =~= withz + rv@.subrange(0, w + 1));
            w = w + 1;
        }
        assert(rv@.subrange(0, rv@.len() as int) =~= rv@);
        assert(g@ =~= spec_groups_val(lps) + spec_zeros(8 - lps.len() - rps.len())
            + spec_groups_val(rps));
        Some(g)
    }
}

/// A host: an IPv4 literal, an IPv6 literal, or a plain hostname.
#[derive(Debug, PartialEq, Eq)]
pub enum HostName {
    V4(u8, u8, u8, u8),
    V6(Vec<u16>),
    Name(Vec<u8>),
}

/// Mathematical image of a host.
#[verifier::ext_equal]
pub enum HostView {
    V4(u8, u8, u8, u8),
    V6(Seq<u16>),
    Name(Seq<u8>),
}

impl View for HostName {
    type V = HostView;

    open spec fn view(&self) -> HostView {
        match self {
            HostName::V4(a, b, c, d) => HostView::V4(*a, *b, *c, *d),
            HostName::V6(g) => HostView::V6(g@),
            HostName::Name(n) => HostView::Name(n@),
        }
    }
}

/// What host a bare address text names: an IPv4 literal if it parses as
/// one, else an IPv6 literal if it parses as one, else the name itself.
pub open spec fn spec_parse_host(s: Seq<u8>) -> HostView {
    if spec_ipv4_ok(s) {
        HostView::V4(
            spec_ipv4_val(s)[0],
            spec_ipv4_val(s)[1],
            spec_ipv4_val(s)[2],
            spec_ipv4_val(s)[3],
        )
    } else if spec_ipv6_ok(s) {
        HostView::V6(spec_ipv6_val(s))
    } else {
        HostView::Name(s)
    }
}

/// A well-formed host: an IPv6 literal has eight groups, and a name is
/// text that neither IP form parses as.
pub open spec fn spec_host_wf(h: HostView) -> bool {
    match h {
        HostView::V4(_a, _b, _c, _d) => true,
        HostView::V6(g) => g.len() == 8,
        HostView::Name(s) => !spec_ipv4_ok(s) && !spec_ipv6_ok(s),
    }
}

/// Parse a bare address text into a host; this never fails.
pub fn parse_host(s: &Vec<u8>) -> (r: HostName)
    ensures
        r@ == spec_parse_host(s@),
        spec_host_wf(r@),
{
    match parse_ipv4(s) {
        Some((a, b, c, d)) => {
            assert(seq![a, b, c, d][0] == a && seq![a, b, c, d][1] == b && seq![a, b, c, d][2] == c
                && seq![a, b, c, d][3] == d);
            return HostName::V4(a, b, c, d);
        },
        None => {},
    }
    match parse_ipv6(s) {
        Some(g) => {
            return HostName::V6(g);
        },
        None => {},
    }
    HostName::Name(crate::text::copy_bytes(s))
}

/// A port text: one or more digits whose value fits sixteen bits.
pub open spec fn spec_port(p: Seq<u8>) -> Option<u16> {
    if p.len() >= 1 && is_digits(p) && spec_val(p) <= 65535 {
        Some(spec_val(p) as u16)
    } else {
        None
    }
}

/// Parse the port text `s[from..to]`.
fn parse_port(s: &Vec<u8>, from: usize, to: usize) -> (r: Option<u16>)
    requires
        from <= to <= s@.len(),
    ensures
        r == spec_port(s@.subrange(from as int, to as int)),
{
    let ghost p = s@.subrange(from as int, to as int);
    if to == from {
        return None;
    }
    let mut acc: u32 = 0;
    let mut i: usize = from;
    assert(p.subrange(0, 0) =~= Seq::<u8>::empty());
    while i < to
        invariant
            from <= i <= to <= s@.len(),
            p == s@.subrange(from as int, to as int),
            acc == spec_val(p.subrange(0, i - from)),
            acc <= 65535,
            forall|j: int| 0 <= j < i - from ==> is_digit(#[trigger] p[j]),
        decreases to - i,
    {
        let b = s[i];
        if b < 48 || b > 57 {
            assert(p[i - from] == s@[i as int]);
            assert(!is_digit(p[i - from]));
            return None;
        }
        proof {
            let k = i - from;
            let q = p.subrange(0, k + 1);
            assert(q.drop_last() =~= p.subrange(0, k));
            assert(q.last() == p[k]);
            assert(p[k] == s@[i as int]);
        }
        let acc2 = acc * 10 + (b - 48) as u32;
        if acc2 > 65535 {
            proof {
                let k = i - from;
                if is_digits(p) {
                    lemma_val_prefix(p, k + 1);
                    assert(spec_val(p) >= acc2);
                }
            }
            return None;
        }
        acc = acc2;
        i = i + 1;
    }
    assert(p.subrange(0, p.len() as int) =~= p);
    Some(acc as u16)
}

/// An address: a host and a port.
#[derive(Debug, PartialEq, Eq)]
pub struct Address {
    pub name: HostName,
    pub port: u16,
}

/// Mathematical image of an address.
#[verifier::ext_equal]
pub struct AddressView {
    pub name: HostView,
    pub port: u16,
}

impl View for Address {
    type V = AddressView;

    open spec fn view(&self) -> AddressView {
        AddressView { name: self.name@, port: self.port }
    }
}

/// What an address text means: a bracketed IPv6 literal with an optional
/// `:port`, or a bare host split on its last colon for an optional port.
/// Without a port, 3306 applies.
pub open spec fn spec_parse_address(s: Seq<u8>) -> Option<AddressView> {
    if s.len() > 0 && s[0] == 91 {
        let e = spec_find_at(s, 93, 1);
        if e >= s.len() {
            None
        } else {
            let inner = s.subrange(1, e);
            if !spec_ipv6_ok(inner) {
                None
            } else if e + 1 == s.len() {
                Some(AddressView { name: HostView::V6(spec_ipv6_val(inner)), port: 3306 })
            } else if s[e + 1] == 58 {
                match spec_port(s.subrange(e + 2, s.len() as int)) {
                    Some(p) => Some(
                        AddressView { name: HostView::V6(spec_ipv6_val(inner)), port: p },
                    ),
                    None => None,
                }
            } else {
                None
            }
        }
    } else {
        let c = spec_rfind(s, 58);
        if c >= 0 {
            match spec_port(s.subrange(c + 1, s.len() as int)) {
                Some(p) => Some(
                    AddressView { name: spec_parse_host(s.subrange(0, c)), port: p },
                ),
                None => None,
            }
        } else {
            Some(AddressView { name: spec_parse_host(s), port: 3306 })
        }
    }
}

/// Parse an address text.
pub fn parse_address(s: &Vec<u8>) -> (r: Option<Address>)
    ensures
        match r {
            Some(a) => spec_parse_address(s@) == Some(a@) && spec_host_wf(a@.name),
            None => spec_parse_address(s@) is None,
        },
{
    if s.len() > 0 && s[0] == 91 {
        proof {
            lemma_find_at(s@, 93, 1);
        }
        let e = find_at(s, 93, 1);
        if e == s.len() {
            return None;
        }
        let inner = subvec(s, 1, e);
        let groups = match parse_ipv6(&inner) {
            Some(g) => g,
            None => {
                return None;
            },
        };
        if e + 1 == s.len() {
            return Some(Address { name: HostName::V6(groups), port: DEFAULT_PORT });
        }
        if s[e + 1] == 58 {
            match parse_port(s, e + 2, s.len()) {
                Some(p) => Some(Address { name: HostName::V6(groups), port: p }),
                None => None,
            }
        } else {
            None
        }
    } else {
        proof {
            lemma_rfind(s@, 58);
        }
        let c = rfind_byte(s, 58);
        match c {
            Some(ci) => {
                match parse_port(s, ci + 1, s.len()) {
                    Some(p) => {
                        let head = subvec(s, 0, ci);
                        let host = parse_host(&head);
                        Some(Address { name: host, port: p })
                    },
                    None => None,
                }
            },
            None => {
                let host = parse_host(s);
                Some(Address { name: host, port: DEFAULT_PORT })
            },
        }
    }
}

/// The parsed connection descriptor.
#[derive(Debug, PartialEq, Eq)]
pub struct Dsn {
    pub username: Option<Vec<u8>>,
    pub password: Option<Vec<u8>>,
    pub address: Address,
    pub database: Vec<u8>,
}

/// Mathematical image of a connection descriptor.
#[verifier::ext_equal]
pub struct DsnView {
    pub username: Option<Seq<u8>>,
    pub password: Option<Seq<u8>>,
    pub address: AddressView,
    pub database: Seq<u8>,
}

impl View for Dsn {
    type V = DsnView;

    open spec fn view(&self) -> DsnView {
        DsnView {
            username: match &self.username {
                Some(u) => Some(u@),
                None => None,
            },
            password: match &self.password {
                Some(p) => Some(p@),
                None => None,
            },
            address: self.address@,
            database: self.database@,
        }
    }
}

/// A malformed connection string, carrying the offending input.
#[derive(Debug, PartialEq, Eq)]
pub struct ParseError {
    pub offending: Vec<u8>,
}

/// What a connection string means, by the grammar
/// `[user[:pass]@]tcp(address)/dbname[?params]`: the user part ends at the
/// first `@` before the parenthesis and splits at its first colon; the
/// protocol must be exactly `tcp`; the address sits in the parentheses;
/// the database name runs to the first `?`, after which parameters are
/// accepted but ignored.
pub open spec fn spec_parse_dsn(s: Seq<u8>) -> Option<DsnView> {
    let lp = spec_find_at(s, 40, 0);
    if lp >= s.len() {
        None
    } else {
        let at = spec_find_at(s, 64, 0);
        let has_user = at < lp;
        let proto_start = if has_user {
            at + 1
        } else {
            0
        };
        let proto = s.subrange(proto_start, lp);
        if proto != seq![116u8, 99, 112] {
            None
        } else {
            let rp = spec_find_at(s, 41, lp + 1);
            if rp >= s.len() || rp == lp + 1 {
                None
            } else if rp + 1 >= s.len() || s[rp + 1] != 47 {
                None
            } else {
                let q = spec_find_at(s, 63, rp + 2);
                if q == rp + 2 {
                    None
                } else {
                    match spec_parse_address(s.subrange(lp + 1, rp)) {
                        Some(a) => {
                            let head = s.subrange(0, at);
                            let colon = spec_find_at(head, 58, 0);
                            Some(
                                DsnView {
                                    username: if has_user {
                                        Some(head.subrange(0, colon))
                                    } else {
                                        None
                                    },
                                    password: if has_user && colon < head.len() {
                                        Some(head.subrange(colon + 1, head.len() as int))
                                    } else {
                                        None
                                    },
                                    address: a,
                                    database: s.subrange(rp + 2, q),
                                },
                            )
                        },
                        None => None,
                    }
                }
            }
        }
    }
}

/// Parse a connection string.  Malformed structure, a bad IPv6 literal, a
/// bad port and an unsupported protocol all fail the same way, carrying
/// the input.
pub fn parse_dsn(s: &Vec<u8>) -> (r: Result<Dsn, ParseError>)
    ensures
        match spec_parse_dsn(s@) {
            Some(d) => r matches Ok(v) && v@ == d,
            None => r matches Err(e) && e.offending@ == s@,
        },
        r matches Ok(v) ==> spec_host_wf(v@.address.name),
{
    proof {
        lemma_find_at(s@, 40, 0);
        lemma_find_at(s@, 64, 0);
    }
    let lp = find_at(s, 40, 0);
    if lp == s.len() {
        return Err(ParseError { offending: crate::text::copy_bytes(s) });
    }
    let at = find_at(s, 64, 0);
    let has_user = at < lp;
    let proto_start = if has_user {
        at + 1
    } else {
        0
    };
    let proto = subvec(s, proto_start, lp);
    let mut tcp: Vec<u8> = Vec::new();
    tcp.push(116);
    tcp.push(99);
    tcp.push(112);
    assert(tcp@ =~= seq![116u8, 99, 112]);
    if !eq_bytes(&proto, &tcp) {
        return Err(ParseError { offending: crate::text::copy_bytes(s) });
    }
    proof {
        lemma_find_at(s@, 41, lp + 1);
    }
    let rp = find_at(s, 41, lp + 1);
    if rp == s.len() || rp == lp + 1 {
        return Err(ParseError { offending: crate::text::copy_bytes(s) });
    }
    if rp + 1 == s.len() || s[rp + 1] != 47 {
        return Err(ParseError { offending: crate::text::copy_bytes(s) });
    }
    proof {
        lemma_find_at(s@, 63, rp + 2);
    }
    let q = find_at(s, 63, rp + 2);
    if q == rp + 2 {
        return Err(ParseError { offending: crate::text::copy_bytes(s) });
    }
    let addr_text = subvec(s, lp + 1, rp);
    let address = match parse_address(&addr_text) {
        Some(a) => a,
        None => {
            return Err(ParseError { offending: crate::text::copy_bytes(s) });
        },
    };
    let head = subvec(s, 0, if has_user {
        at
    } else {
        0
    });
    proof {
        lemma_find_at(head@, 58, 0);
    }
    let colon = find_at(&head, 58, 0);
    let username = if has_user {
        Some(subvec(&head, 0, colon))
    } else {
        None
    };
    let password = if has_user && colon < head.len() {
        Some(subvec(&head, colon + 1, head.len()))
    } else {
        None
    };
    let database = subvec(s, rp + 2, q);
    let d = Dsn { username, password, address, database };
    proof {
        if has_user {
            assert(head@ =~= s@.subrange(0, at as int));
        }
        assert(d@.database == s@.subrange(rp + 2, q as int));
    }
    Ok(d)
}

/// Canonical text of an IPv4 host: dotted decimal.
pub open spec fn spec_canon_v4(a: u8, b: u8, c: u8, d: u8) -> Seq<u8> {
    crate::text::spec_join(
        seq![
            crate::text::spec_dec(a as nat),
            crate::text::spec_dec(b as nat),
            crate::text::spec_dec(c as nat),
            crate::text::spec_dec(d as nat),
        ],
        46,
    )
}

/// First index of two consecutive zero groups, or the length.
pub open spec fn spec_find_zero2(g: Seq<u16>, from: int) -> int
    decreases g.len() - from,
{
    if from < 0 || from + 2 > g.len() {
        g.len() as int
    } else if g[from] == 0 && g[from + 1] == 0 {
        from
    } else {
        spec_find_zero2(g, from + 1)
    }
}

/// What `spec_find_zero2` returns.
pub proof fn lemma_find_zero2(g: Seq<u16>, from: int)
    requires
        0 <= from <= g.len(),
    ensures
        from <= spec_find_zero2(g, from) <= g.len(),
        spec_find_zero2(g, from) < g.len() ==> spec_find_zero2(g, from) + 2 <= g.len()
            && g[spec_find_zero2(g, from)] == 0 && g[spec_find_zero2(g, from) + 1] == 0,
        forall|j: int|
            from <= j < spec_find_zero2(g, from) && j + 2 <= g.len() ==> !(#[trigger] g[j] == 0
                && g[j + 1] == 0),
    decreases g.len() - from,
{
    if from + 2 <= g.len() && !(g[from] == 0 && g[from + 1] == 0) {
        lemma_find_zero2(g, from + 1);
    }
}

/// Length of the zero run starting at `i`.
pub open spec fn spec_zero_run(g: Seq<u16>, i: int) -> int
    decreases g.len() - i,
{
    if i < 0 || i >= g.len() || g[i] != 0 {
        0
    } else {
        1 + spec_zero_run(g, i + 1)
    }
}

/// What `spec_zero_run` returns: a maximal run of zeros.
pub proof fn lemma_zero_run(g: Seq<u16>, i: int)
    requires
        0 <= i <= g.len(),
    ensures
        0 <= spec_zero_run(g, i),
        i + spec_zero_run(g, i) <= g.len(),
        forall|j: int| i <= j < i + spec_zero_run(g, i) ==> #[trigger] g[j] == 0,
        i + spec_zero_run(g, i) < g.len() ==> g[i + spec_zero_run(g, i)] != 0,
    decreases g.len() - i,
{
    if i < g.len() && g[i] == 0 {
        lemma_zero_run(g, i + 1);
    }
}

/// The hexadecimal texts of the groups.
pub open spec fn spec_hex_groups(g: Seq<u16>) -> Seq<Seq<u8>> {
    g.map_values(|x: u16| crate::text::spec_hex(x as nat))
}

/// Canonical text of an IPv6 host: lowercase hexadecimal groups joined by
/// colons, the leftmost run of two or more zero groups compressed to `::`.
pub open spec fn spec_canon_v6(g: Seq<u16>) -> Seq<u8> {
    let bs = spec_find_zero2(g, 0);
    if bs < g.len() {
        let bl = spec_zero_run(g, bs);
        crate::text::spec_join(spec_hex_groups(g.subrange(0, bs)), 58) + seq![58u8, 58]
            + crate::text::spec_join(spec_hex_groups(g.subrange(bs + bl, g.len() as int)), 58)
    } else {
        crate::text::spec_join(spec_hex_groups(g), 58)
    }
}

/// The canonical text of a host: dotted decimal for IPv4, compressed
/// lowercase hexadecimal for IPv6, the name itself for a hostname.
pub open spec fn spec_canon_host(h: HostView) -> Seq<u8> {
    match h {
        HostView::V4(a, b, c, d) => spec_canon_v4(a, b, c, d),
        HostView::V6(g) => spec_canon_v6(g),
        HostView::Name(n) => n,
    }
}

/// Render the groups `g[from..to]` as hexadecimal texts.
fn hex_pieces(g: &Vec<u16>, from: usize, to: usize) -> (r: Vec<Vec<u8>>)
    requires
        from <= to <= g@.len(),
    ensures
        r.deep_view() == spec_hex_groups(g@.subrange(from as int, to as int)),
{
    let ghost target = g@.subrange(from as int, to as int);
    let mut r: Vec<Vec<u8>> = Vec::new();
    let mut i: usize = from;
    assert(r.deep_view() =~~= spec_hex_groups(target.subrange(0, 0)));
    while i < to
        invariant
            from <= i <= to <= g@.len(),
            target == g@.subrange(from as int, to as int),
            r.deep_view() == spec_hex_groups(target.subrange(0, i - from)),
        decreases to - i,
    {
        let ghost prev = r.deep_view();
        let piece = crate::text::u64_to_hex(g[i] as u64);
        proof {
            assert(target[i - from] == g@[i as int]);
        }
        r.push(piece);
        proof {
            assert(r.deep_view() =~~= prev + seq![piece@]);
            assert(r.deep_view() =~~= spec_hex_groups(target.subrange(0, i - from + 1)));
        }
        i = i + 1;
    }
    assert(target.subrange(0, target.len() as int) =~~= target);
    r
}

/// Render a host in its canonical text form.
pub fn canonical_host(h: &HostName) -> (r: Vec<u8>)
    ensures
        r@ == spec_canon_host(h@),
{
    match h {
        HostName::V4(a, b, c, d) => {
            let mut parts: Vec<Vec<u8>> = Vec::new();
            parts.push(crate::text::u64_to_dec(*a as u64));
            parts.push(crate::text::u64_to_dec(*b as u64));
            parts.push(crate::text::u64_to_dec(*c as u64));
            parts.push(crate::text::u64_to_dec(*d as u64));
            assert(parts.deep_view() =~~= seq![
                crate::text::spec_dec(*a as nat),
                crate::text::spec_dec(*b as nat),
                crate::text::spec_dec(*c as nat),
                crate::text::spec_dec(*d as nat),
            ]);
            crate::text::join_bytes(&parts, 46)
        },
        HostName::V6(g) => {
            proof {
                lemma_find_zero2(g@, 0);
                lemma_zero_run(g@, spec_find_zero2(g@, 0));
            }
            let bs = find_zero2(g);
            if bs < g.len() {
                let bl = zero_run(g, bs);
                let pre = hex_pieces(g, 0, bs);
                let suf = hex_pieces(g, bs + bl, g.len());
                let mut r = crate::text::join_bytes(&pre, 58);
                r.push(58);
                r.push(58);
                let jr = crate::text::join_bytes(&suf, 58);
                crate::text::extend_bytes(&mut r, &jr);
                proof {
                    assert(g@.subrange(0, 0 + bs as int) =~= g@.subrange(0, bs as int));
                    assert(r@ =~= spec_canon_v6(g@));
                }
                r
            } else {
                let all = hex_pieces(g, 0, g.len());
                let r = crate::text::join_bytes(&all, 58);
                proof {
                    assert(g@.subrange(0, g@.len() as int) =~= g@);
                }
                r
            }
        },
        HostName::Name(n) => crate::text::copy_bytes(n),
    }
}

/// First index of two consecutive zero groups in `g`, or its length.
fn find_zero2(g: &Vec<u16>) -> (r: usize)
    ensures
        r == spec_find_zero2(g@, 0),
{
    if g.len() < 2 {
        return g.len();
    }
    let mut i: usize = 0;
    while i < g.len() - 1
        invariant
            g@.len() >= 2,
            i <= g@.len() - 1,
            spec_find_zero2(g@, 0) == spec_find_zero2(g@, i as int),
        decreases g@.len() - i,
    {
        if g[i] == 0 && g[i + 1] == 0 {
            return i;
        }
        i = i + 1;
    }
    g.len()
}

/// Length of the zero run starting at `start`.
fn zero_run(g: &Vec<u16>, start: usize) -> (r: usize)
    requires
        start <= g@.len(),
    ensures
        r == spec_zero_run(g@, start as int),
        start + r <= g@.len(),
{
    proof {
        lemma_zero_run(g@, start as int);
    }
    let mut i: usize = start;
    while i < g.len() && g[i] == 0
        invariant
            start <= i <= g@.len(),
            spec_zero_run(g@, start as int) == (i - start) + spec_zero_run(g@, i as int),
        decreases g@.len() - i,
    {
        i = i + 1;
    }
    i - start
}

/// A text with a colon in it is no IPv4 literal.
proof fn lemma_colon_not_ipv4(c: Seq<u8>, p: int)
    requires
        0 <= p < c.len(),
        c[p] == 58,
    ensures
        !spec_ipv4_ok(c),
{
    if spec_ipv4_ok(c) {
        let parts = spec_split(c, 46);
        crate::text::lemma_join_split(c, 46, 0);
        crate::text::lemma_join_chars(parts, 46);
        let jn = crate::text::spec_join(parts, 46);
        assert(c.subrange(0, c.len() as int) =~= c);
        assert(jn == c);
        assert(jn[p] == 58);
        if jn[p] != 46 {
            let (k, j): (int, int) = choose|k: int, j: int|
                0 <= k < parts.len() && 0 <= j < parts[k].len() && #[trigger] parts[k][j] == jn[p];
            assert(spec_octet_ok(parts[k]));
            assert(is_digit(parts[k][j]));
        }
    }
}

/// Parsing the canonical dotted-decimal text gives the four octets back.
proof fn lemma_round_trip_v4(a: u8, b: u8, c: u8, d: u8)
    ensures
        spec_parse_host(spec_canon_v4(a, b, c, d)) == HostView::V4(a, b, c, d),
{
    let parts = seq![
        crate::text::spec_dec(a as nat),
        crate::text::spec_dec(b as nat),
        crate::text::spec_dec(c as nat),
        crate::text::spec_dec(d as nat),
    ];
    crate::text::lemma_val_dec(a as nat);
    crate::text::lemma_val_dec(b as nat);
    crate::text::lemma_val_dec(c as nat);
    crate::text::lemma_val_dec(d as nat);
    crate::text::lemma_dec_len_small(a as nat);
    crate::text::lemma_dec_len_small(b as nat);
    crate::text::lemma_dec_len_small(c as nat);
    crate::text::lemma_dec_len_small(d as nat);
    assert forall|k: int, j: int|
        0 <= k < parts.len() && 0 <= j < parts[k].len() implies #[trigger] parts[k][j] != 46 by {
        assert(is_digits(parts[k]));
        assert(is_digit(parts[k][j]));
    }
    crate::text::lemma_split_join(parts, 46);
    let c0 = spec_canon_v4(a, b, c, d);
    assert(spec_split(c0, 46) == parts);
    assert forall|k: int| 0 <= k < parts.len() implies spec_octet_ok(#[trigger] parts[k]) by {
        let x: nat = if k == 0 {
            a as nat
        } else if k == 1 {
            b as nat
        } else if k == 2 {
            c as nat
        } else {
            d as nat
        };
        assert(parts[k] == crate::text::spec_dec(x));
        assert(parts[k].len() > 1 ==> parts[k][0] != 48);
    }
    assert(spec_ipv4_ok(c0));
    assert(spec_ipv4_val(c0) =~= seq![a, b, c, d]);
}

/// The hexadecimal group texts of well-formed groups: nonempty, at most
/// four bytes, hexadecimal digits only, and no colon or dot among them.
proof fn lemma_hex_groups_props(g: Seq<u16>)
    ensures
        spec_hex_groups(g).len() == g.len(),
        forall|k: int|
            0 <= k < g.len() ==> spec_group_ok(#[trigger] spec_hex_groups(g)[k]),
        forall|k: int, j: int|
            0 <= k < g.len() && 0 <= j < spec_hex_groups(g)[k].len()
                ==> #[trigger] spec_hex_groups(g)[k][j] != 58 && spec_hex_groups(g)[k][j] != 46,
        forall|k: int|
            0 <= k < g.len() ==> crate::text::spec_hval(#[trigger] spec_hex_groups(g)[k])
                == g[k],
{
    let hx = spec_hex_groups(g);
    assert forall|k: int| 0 <= k < g.len() implies spec_group_ok(#[trigger] hx[k])
        && crate::text::spec_hval(hx[k]) == g[k] by {
        crate::text::lemma_hval_hex(g[k] as nat);
        assert(hx[k] == crate::text::spec_hex(g[k] as nat));
    }
    assert forall|k: int, j: int|
        0 <= k < g.len() && 0 <= j < hx[k].len() implies #[trigger] hx[k][j] != 58 && hx[k][j]
        != 46 by {
        assert(spec_group_ok(hx[k]));
        assert(crate::text::is_hex_digit(hx[k][j]));
    }
}

/// Parsing the canonical compressed hexadecimal text gives the eight
/// groups back.
proof fn lemma_round_trip_v6(g: Seq<u16>)
    requires
        g.len() == 8,
    ensures
        spec_parse_host(spec_canon_v6(g)) == HostView::V6(g),
{
    lemma_find_zero2(g, 0);
    let bs = spec_find_zero2(g, 0);
    let c = spec_canon_v6(g);
    if bs >= 8 {
        let hx = spec_hex_groups(g);
        lemma_hex_groups_props(g);
        crate::text::lemma_join_sep_shape(hx, 58);
        assert(c == crate::text::spec_join(hx, 58));
        let p = hx[0].len() as int;
        crate::text::lemma_join_shift(hx, 58, 1, 1);
        assert(c == hx[0] + seq![58u8] + crate::text::spec_join(
            hx.subrange(1, hx.len() as int),
            58,
        ));
        assert(c[p] == 58);
        lemma_colon_not_ipv4(c, p);
        crate::text::lemma_find2_at(c, 58, 58, 0);
        let d2 = spec_find2_at(c, 58, 58, 0);
        assert(d2 >= c.len()) by {
            if d2 < c.len() {
                assert(c[d2] == 58 && c[d2 + 1] == 58);
            }
        }
        crate::text::lemma_split_join(hx, 58);
        assert(spec_split(c, 58) == hx);
        assert(spec_ipv6_ok(c));
        assert(spec_ipv6_val(c) =~= g);
    } else {
        lemma_zero_run(g, bs);
        let bl = spec_zero_run(g, bs);
        assert(bl >= 2) by {
            if bl == 0 {
                assert(g[bs] != 0);
            } else if bl == 1 {
                assert(g[bs + 1] != 0);
            }
        }
        let pre = g.subrange(0, bs);
        let suf = g.subrange(bs + bl, g.len() as int);
        let lparts = spec_hex_groups(pre);
        let rparts = spec_hex_groups(suf);
        lemma_hex_groups_props(pre);
        lemma_hex_groups_props(suf);
        let jl = crate::text::spec_join(lparts, 58);
        let jr = crate::text::spec_join(rparts, 58);
        assert(c == jl + seq![58u8, 58] + jr);
        if bs > 0 {
            crate::text::lemma_join_sep_shape(lparts, 58);
        } else {
            assert(jl =~= Seq::<u8>::empty());
        }
        if suf.len() > 0 {
            crate::text::lemma_join_sep_shape(rparts, 58);
        } else {
            assert(jr =~= Seq::<u8>::empty());
        }
        let p = jl.len() as int;
        assert(c[p] == 58 && c[p + 1] == 58);
        lemma_colon_not_ipv4(c, p);
        crate::text::lemma_find2_at(c, 58, 58, 0);
        let d2 = spec_find2_at(c, 58, 58, 0);
        assert(d2 <= p) by {
            if d2 > p {
                assert(!(c[p] == 58 && c[p + 1] == 58));
            }
        }
        assert(d2 >= p) by {
            if d2 < p {
                assert(c[d2] == jl[d2] && jl[d2] == 58);
                if d2 + 1 < p {
                    assert(c[d2 + 1] == jl[d2 + 1]);
                    assert(!(jl[d2] == 58 && jl[d2 + 1] == 58));
                } else {
                    assert(d2 + 1 == p);
                    assert(jl.last() == 58);
                }
            }
        }
        assert(d2 == p);
        let left = c.subrange(0, d2);
        let right = c.subrange(d2 + 2, c.len() as int);
        assert(left =~= jl);
        assert(right =~= jr);
        let lp = if left.len() == 0 {
            Seq::<Seq<u8>>::empty()
        } else {
            spec_split(left, 58)
        };
        let rp = if right.len() == 0 {
            Seq::<Seq<u8>>::empty()
        } else {
            spec_split(right, 58)
        };
        assert(lp == lparts) by {
            if bs > 0 {
                crate::text::lemma_split_join(lparts, 58);
                assert(left.len() > 0);
            } else {
                assert(left.len() == 0);
                assert(lparts =~~= Seq::<Seq<u8>>::empty());
            }
        }
        assert(rp == rparts) by {
            if suf.len() > 0 {
                crate::text::lemma_split_join(rparts, 58);
                assert(right.len() > 0);
            } else {
                assert(right.len() == 0);
                assert(rparts =~~= Seq::<Seq<u8>>::empty());
            }
        }
        assert(lp.len() + rp.len() == 8 - bl);
        assert(spec_ipv6_ok(c));
        assert(spec_ipv6_val(c) == spec_groups_val(lparts) + spec_zeros(bl) + spec_groups_val(
            rparts,
        ));
        assert(spec_groups_val(lparts) =~= pre);
        assert(spec_groups_val(rparts) =~= suf);
        assert(spec_zeros(bl) =~= g.subrange(bs, bs + bl));
        assert(spec_ipv6_val(c) =~= g);
    }
}

/// Round trip: parsing the canonical text of a well-formed host yields
/// the very same host, for IPv4, IPv6 and hostname forms alike.
pub proof fn lemma_host_round_trip(h: HostView)
    requires
        spec_host_wf(h),
    ensures
        spec_parse_host(spec_canon_host(h)) == h,
{
    match h {
        HostView::V4(a, b, c, d) => {
            lemma_round_trip_v4(a, b, c, d);
        },
        HostView::V6(g) => {
            lemma_round_trip_v6(g);
        },
        HostView::Name(_n) => {
        },
    }
}

} // verus!
