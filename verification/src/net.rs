//! Network socket addresses as written in `ListenStream=` and `ListenDatagram=` lines:
//! `a.b.c.d:port` for IPv4 and `[segments%scope]:port` for IPv6.
use vstd::prelude::*;

use crate::text::{first_index_of, split_on, split_to_vecs, lemma_split_nonempty};

verus! {

/// A parsed network socket address.
#[derive(Clone, Debug)]
pub enum SocketAddress {
    /// Four octets and a port.
    V4 { octets: Vec<u8>, port: u16 },
    /// Eight 16-bit segments, a scope id (0 where none is written) and a port.
    V6 { segments: Vec<u16>, scope_id: u32, port: u16 },
}

pub open spec fn is_digit(c: char) -> bool {
    '0' <= c && c <= '9'
}

pub open spec fn is_hex_digit(c: char) -> bool {
    ||| ('0' <= c && c <= '9')
    ||| ('a' <= c && c <= 'f')
    ||| ('A' <= c && c <= 'F')
}

pub open spec fn hex_digit_value(c: char) -> int {
    if '0' <= c && c <= '9' {
        c as int - '0' as int
    } else if 'a' <= c && c <= 'f' {
        c as int - 'a' as int + 10
    } else {
        c as int - 'A' as int + 10
    }
}

pub open spec fn all_digits(s: Seq<char>) -> bool {
    forall|i: int| 0 <= i < s.len() ==> is_digit(#[trigger] s[i])
}

pub open spec fn all_hex_digits(s: Seq<char>) -> bool {
    forall|i: int| 0 <= i < s.len() ==> is_hex_digit(#[trigger] s[i])
}

/// The number that the decimal digits `s` stand for.
pub open spec fn decimal_value(s: Seq<char>) -> int
    decreases s.len(),
{
    if s.len() == 0 {
        0
    } else {
        decimal_value(s.drop_last()) * 10 + (s.last() as int - '0' as int)
    }
}

/// The number that the hexadecimal digits `s` stand for.
pub open spec fn hex_value(s: Seq<char>) -> int
    decreases s.len(),
{
    if s.len() == 0 {
        0
    } else {
        hex_value(s.drop_last()) * 16 + hex_digit_value(s.last())
    }
}

/// A nonempty run of decimal digits whose value is at most `max` (leading zeros allowed).
pub open spec fn valid_decimal(s: Seq<char>, max: int) -> bool {
    s.len() > 0 && all_digits(s) && decimal_value(s) <= max
}

/// An IPv4 octet: one to three digits, no leading zero, at most 255.
pub open spec fn valid_octet(s: Seq<char>) -> bool {
    &&& 1 <= s.len() <= 3
    &&& all_digits(s)
    &&& (s.len() == 1 || s[0] != '0')
    &&& decimal_value(s) <= 255
}

/// An IPv6 group: one to four hexadecimal digits.
pub open spec fn valid_h16(s: Seq<char>) -> bool {
    1 <= s.len() <= 4 && all_hex_digits(s)
}

/// The four octets of the IPv4 address written `a.b.c.d` in `s`, if it has that form.
pub open spec fn spec_ipv4_octets(s: Seq<char>) -> Option<Seq<u8>> {
    let o = split_on(s, '.');
    if o.len() == 4 && (forall|i: int| 0 <= i < 4 ==> valid_octet(#[trigger] o[i])) {
        Some(Seq::new(4, |i: int| decimal_value(o[i]) as u8))
    } else {
        None
    }
}

/// What `a.b.c.d:port` stands for, if `s` has that form.
pub open spec fn spec_socket_addr_v4(s: Seq<char>) -> Option<(Seq<u8>, u16)> {
    let parts = split_on(s, ':');
    if parts.len() == 2 && valid_decimal(parts[1], 65535) {
        match spec_ipv4_octets(parts[0]) {
            Some(o) => Some((o, decimal_value(parts[1]) as u16)),
            None => None,
        }
    } else {
        None
    }
}

/// The two groups that an IPv4 address `a.b.c.d` at the end of an IPv6 address stands
/// for: `a * 256 + b` and `c * 256 + d`.
pub open spec fn ipv4_groups(s: Seq<char>) -> Option<Seq<u16>> {
    match spec_ipv4_octets(s) {
        Some(o) => Some(seq![(o[0] * 256 + o[1]) as u16, (o[2] * 256 + o[3]) as u16]),
        None => None,
    }
}

/// The values of the groups `pieces`, if each is a valid group.
pub open spec fn h16_values(pieces: Seq<Seq<char>>) -> Option<Seq<u16>> {
    if forall|i: int| 0 <= i < pieces.len() ==> valid_h16(#[trigger] pieces[i]) {
        Some(Seq::new(pieces.len(), |i: int| hex_value(pieces[i]) as u16))
    } else {
        None
    }
}

/// The values of the groups `pieces`, where the last may instead be an IPv4 address
/// (it holds a `.`), which stands for two groups.
pub open spec fn groups_with_ipv4(pieces: Seq<Seq<char>>) -> Option<Seq<u16>> {
    if pieces.len() > 0 && pieces.last().contains('.') {
        match (h16_values(pieces.drop_last()), ipv4_groups(pieces.last())) {
            (Some(h), Some(g)) => Some(h + g),
            _ => None,
        }
    } else {
        h16_values(pieces)
    }
}

/// The groups before a `::`: none where that side is empty.
pub open spec fn side_groups(s: Seq<char>) -> Option<Seq<u16>> {
    if s.len() == 0 {
        Some(Seq::empty())
    } else {
        h16_values(split_on(s, ':'))
    }
}

/// The groups after a `::`, which may end in an IPv4 address: none where that side is
/// empty.
pub open spec fn tail_groups(s: Seq<char>) -> Option<Seq<u16>> {
    if s.len() == 0 {
        Some(Seq::empty())
    } else {
        groups_with_ipv4(split_on(s, ':'))
    }
}

/// Whether `::` starts at position `i` of `s`.
pub open spec fn double_colon_at(s: Seq<char>, i: int) -> bool {
    0 <= i && i + 1 < s.len() && s[i] == ':' && s[i + 1] == ':'
}

/// The position of the first `::` in `s`, if any.
pub open spec fn first_double_colon(s: Seq<char>) -> Option<int> {
    if exists|i: int| #[trigger] double_colon_at(s, i) {
        Some(choose|i: int| #[trigger] double_colon_at(s, i)
            && forall|j: int| 0 <= j < i ==> !double_colon_at(s, j))
    } else {
        None
    }
}

/// The eight segments of the IPv6 address written `s`: eight groups separated by
/// `:`, or at most seven around one `::` that stands for the missing zero groups; the
/// last two groups may be written as an IPv4 address.
pub open spec fn spec_ipv6_segments(s: Seq<char>) -> Option<Seq<u16>> {
    match first_double_colon(s) {
        Some(p) => {
            let l = side_groups(s.subrange(0, p));
            let r = tail_groups(s.subrange(p + 2, s.len() as int));
            if l is Some && r is Some && l->0.len() + r->0.len() <= 7 {
                Some(l->0 + Seq::new((8 - l->0.len() - r->0.len()) as nat, |i: int| 0u16) + r->0)
            } else {
                None
            }
        },
        None => {
            let g = groups_with_ipv4(split_on(s, ':'));
            if g is Some && g->0.len() == 8 {
                g
            } else {
                None
            }
        },
    }
}

/// The address and scope id written between the brackets of an IPv6 socket address.
pub open spec fn spec_ipv6_with_scope(s: Seq<char>) -> Option<(Seq<u16>, u32)> {
    match first_index_of(s, '%') {
        Some(q) => {
            let a = spec_ipv6_segments(s.subrange(0, q));
            let z = s.subrange(q + 1, s.len() as int);
            if a is Some && valid_decimal(z, 0xffff_ffff) {
                Some((a->0, decimal_value(z) as u32))
            } else {
                None
            }
        },
        None => {
            let a = spec_ipv6_segments(s);
            if a is Some {
                Some((a->0, 0u32))
            } else {
                None
            }
        },
    }
}

/// What `[address%scope]:port` stands for, if `s` has that form.
pub open spec fn spec_socket_addr_v6(s: Seq<char>) -> Option<(Seq<u16>, u32, u16)> {
    if s.len() > 0 && s[0] == '[' {
        match first_index_of(s, ']') {
            Some(k) => {
                let inner = spec_ipv6_with_scope(s.subrange(1, k));
                let rest = s.subrange(k + 1, s.len() as int);
                if inner is Some && rest.len() > 0 && rest[0] == ':' && valid_decimal(
                    rest.drop_first(),
                    65535,
                ) {
                    let iv = inner->0;
                    Some((iv.0, iv.1, decimal_value(rest.drop_first()) as u16))
                } else {
                    None
                }
            },
            None => None,
        }
    } else {
        None
    }
}

impl SocketAddress {
    /// The address as plain values: `Ok` of an IPv4 address, `Err` of an IPv6 one.
    pub open spec fn model(&self) -> Result<(Seq<u8>, u16), (Seq<u16>, u32, u16)> {
        match self {
            SocketAddress::V4 { octets, port } => Ok((octets@, *port)),
            SocketAddress::V6 { segments, scope_id, port } => Err((segments@, *scope_id, *port)),
        }
    }
}

proof fn lemma_decimal_prefix_le(s: Seq<char>, i: int)
    requires
        0 <= i <= s.len(),
        all_digits(s),
    ensures
        decimal_value(s.take(i)) <= decimal_value(s),
        decimal_value(s.take(i)) >= 0,
    decreases s.len(),
{
    if s.len() > 0 {
        let t = s.drop_last();
        assert(all_digits(t)) by {
            assert forall|j: int| 0 <= j < t.len() implies is_digit(#[trigger] t[j]) by {
                assert(t[j] == s[j]);
            }
        }
        assert(is_digit(s[s.len() - 1]));
        if i < s.len() {
            assert(s.take(i) =~= t.take(i));
            lemma_decimal_prefix_le(t, i);
        } else {
            assert(s.take(i) =~= s);
            lemma_decimal_prefix_le(t, t.len() as int);
            assert(t.take(t.len() as int) =~= t);
        }
    }
}

/// The value of the decimal digits `v[lo..hi]`, if they are a valid decimal at most `max`.
pub fn parse_decimal(v: &Vec<char>, lo: usize, hi: usize, max: u32) -> (res: Option<u32>)
    requires
        lo <= hi <= v.len(),
    ensures
        match res {
            Some(n) => valid_decimal(v@.subrange(lo as int, hi as int), max as int)
                && n == decimal_value(v@.subrange(lo as int, hi as int)),
            None => !valid_decimal(v@.subrange(lo as int, hi as int), max as int),
        },
{
    let ghost s = v@.subrange(lo as int, hi as int);
    if lo == hi {
        return None;
    }
    let mut acc: u64 = 0;
    let mut i = lo;
    while i < hi
        invariant
            lo <= i <= hi <= v.len(),
            s == v@.subrange(lo as int, hi as int),
            all_digits(s.take(i - lo)),
            acc == decimal_value(s.take(i - lo)),
            acc <= max,
        decreases hi - i,
    {
        let c = v[i];
        proof {
            assert(s[i - lo] == c);
        }
        if !('0' <= c && c <= '9') {
            return None;
        }
        let d = (c as u32 - '0' as u32) as u64;
        acc = acc * 10 + d;
        proof {
            let t = s.take(i - lo + 1);
            assert(t.drop_last() =~= s.take(i - lo));
            assert(t.last() == c);
            assert forall|j: int| 0 <= j < t.len() implies is_digit(#[trigger] t[j]) by {
                if j < t.len() - 1 {
                    assert(t[j] == s.take(i - lo)[j]);
                }
            }
        }
        if acc > max as u64 {
            proof {
                let t = s.take(i - lo + 1);
                if all_digits(s) {
                    lemma_decimal_prefix_le(s, i - lo + 1);
                }
            }
            return None;
        }
        i = i + 1;
    }
    proof {
        assert(s.take(s.len() as int) =~= s);
    }
    Some(acc as u32)
}

/// The value of the group `v[lo..hi]`, if it is one to four hexadecimal digits.
pub fn parse_h16(v: &Vec<char>, lo: usize, hi: usize) -> (res: Option<u16>)
    requires
        lo <= hi <= v.len(),
    ensures
        match res {
            Some(n) => valid_h16(v@.subrange(lo as int, hi as int))
                && n == hex_value(v@.subrange(lo as int, hi as int)),
            None => !valid_h16(v@.subrange(lo as int, hi as int)),
        },
{
    let ghost s = v@.subrange(lo as int, hi as int);
    if lo == hi || hi - lo > 4 {
        return None;
    }
    let mut acc: u32 = 0;
    let mut i = lo;
    while i < hi
        invariant
            lo <= i <= hi <= v.len(),
            hi - lo <= 4,
            s == v@.subrange(lo as int, hi as int),
            all_hex_digits(s.take(i - lo)),
            acc == hex_value(s.take(i - lo)),
            0 <= acc < pow16(i - lo),
        decreases hi - i,
    {
        let c = v[i];
        proof {
            assert(s[i - lo] == c);
        }
        let d: u32 = if '0' <= c && c <= '9' {
            c as u32 - '0' as u32
        } else if 'a' <= c && c <= 'f' {
            c as u32 - 'a' as u32 + 10
        } else if 'A' <= c && c <= 'F' {
            c as u32 - 'A' as u32 + 10
        } else {
            return None;
        };
        proof {
            assert(pow16(i - lo + 1) == pow16(i - lo) * 16);
            assert(pow16(i - lo) <= 0x1000) by {
                assert(i - lo <= 3);
                reveal_with_fuel(pow16, 4);
            }
        }
        acc = acc * 16 + d;
        proof {
            let t = s.take(i - lo + 1);
            assert(t.drop_last() =~= s.take(i - lo));
            assert(t.last() == c);
            assert forall|j: int| 0 <= j < t.len() implies is_hex_digit(#[trigger] t[j]) by {
                if j < t.len() - 1 {
                    assert(t[j] == s.take(i - lo)[j]);
                }
            }
        }
        i = i + 1;
    }
    proof {
        assert(s.take(s.len() as int) =~= s);
        assert(pow16(hi - lo) <= 0x10000) by {
            reveal_with_fuel(pow16, 5);
        }
    }
    Some(acc as u16)
}

pub open spec fn pow16(n: int) -> int
    decreases n,
{
    if n <= 0 {
        1
    } else {
        pow16(n - 1) * 16
    }
}

/// The characters `v[lo..hi]` as a vector of their own.
pub fn chars_range(v: &Vec<char>, lo: usize, hi: usize) -> (res: Vec<char>)
    requires
        lo <= hi <= v.len(),
    ensures
        res@ == v@.subrange(lo as int, hi as int),
{
    let mut res: Vec<char> = Vec::new();
    let mut i = lo;
    while i < hi
        invariant
            lo <= i <= hi <= v.len(),
            res@ == v@.subrange(lo as int, i as int),
        decreases hi - i,
    {
        res.push(v[i]);
        proof {
            assert(v@.subrange(lo as int, i + 1) == v@.subrange(lo as int, i as int).push(v@[i as int]));
        }
        i = i + 1;
    }
    res
}

/// The four octets of `a.b.c.d` in `host`, if it has that form.
pub fn parse_ipv4_octets(host: &Vec<char>) -> (res: Option<Vec<u8>>)
    ensures
        match res {
            Some(o) => spec_ipv4_octets(host@) == Some(o@),
            None => spec_ipv4_octets(host@) is None,
        },
{
    let o = split_to_vecs(host, '.');
    if o.len() != 4 {
        return None;
    }
    let mut octets: Vec<u8> = Vec::new();
    let mut i: usize = 0;
    while i < 4
        invariant
            i <= 4,
            o@.len() == 4,
            forall|k: int| 0 <= k < 4 ==> #[trigger] o@[k]@ == split_on(host@, '.')[k],
            octets@.len() == i,
            forall|k: int| 0 <= k < i ==> valid_octet(#[trigger] o@[k]@) && octets@[k]
                == decimal_value(o@[k]@),
        decreases 4 - i,
    {
        let piece = &o[i];
        let ok = piece.len() >= 1 && piece.len() <= 3 && (piece.len() == 1 || piece[0] != '0');
        if !ok {
            proof {
                assert(!valid_octet(o@[i as int]@));
                assert(split_on(host@, '.')[i as int] == o@[i as int]@);
            }
            return None;
        }
        match parse_decimal(piece, 0, piece.len(), 255) {
            Some(n) => {
                proof {
                    assert(piece@.subrange(0, piece@.len() as int) =~= piece@);
                }
                octets.push(n as u8);
            },
            None => {
                proof {
                    assert(piece@.subrange(0, piece@.len() as int) =~= piece@);
                    assert(split_on(host@, '.')[i as int] == o@[i as int]@);
                }
                return None;
            },
        }
        i = i + 1;
    }
    proof {
        let ov = split_on(host@, '.');
        assert(forall|k: int| 0 <= k < 4 ==> #[trigger] ov[k] == o@[k]@);
        assert(octets@ =~= Seq::new(4, |k: int| decimal_value(ov[k]) as u8));
    }
    Some(octets)
}

/// The octets and port of `a.b.c.d:port`, if `v` has that form.
pub fn parse_socket_addr_v4(v: &Vec<char>) -> (res: Option<(Vec<u8>, u16)>)
    ensures
        match res {
            Some((o, p)) => spec_socket_addr_v4(v@) == Some((o@, p)),
            None => spec_socket_addr_v4(v@) is None,
        },
{
    let parts = split_to_vecs(v, ':');
    if parts.len() != 2 {
        return None;
    }
    let port = match parse_decimal(&parts[1], 0, parts[1].len(), 65535) {
        Some(p) => p,
        None => {
            proof {
                assert(parts@[1]@.subrange(0, parts@[1]@.len() as int) =~= parts@[1]@);
            }
            return None;
        },
    };
    proof {
        assert(parts@[1]@.subrange(0, parts@[1]@.len() as int) =~= parts@[1]@);
        assert(parts@[1]@ == split_on(v@, ':')[1]);
        assert(parts@[0]@ == split_on(v@, ':')[0]);
    }
    match parse_ipv4_octets(&parts[0]) {
        Some(octets) => Some((octets, port as u16)),
        None => None,
    }
}

/// The position of the first `::` in `v`, if any.
pub fn find_double_colon(v: &Vec<char>) -> (res: Option<usize>)
    ensures
        match res {
            Some(i) => first_double_colon(v@) == Some(i as int) && double_colon_at(v@, i as int),
            None => first_double_colon(v@) is None,
        },
{
    let mut i: usize = 0;
    while v.len() > 1 && i < v.len() - 1
        invariant
            i <= v.len(),
            forall|j: int| 0 <= j < i ==> !double_colon_at(v@, j),
        decreases v.len() - i,
    {
        if v[i] == ':' && v[i + 1] == ':' {
            proof {
                assert(double_colon_at(v@, i as int));
                let k = choose|k: int| #[trigger] double_colon_at(v@, k)
                    && forall|j: int| 0 <= j < k ==> !double_colon_at(v@, j);
                assert(k == i as int) by {
                    if k > i {
                        assert(!double_colon_at(v@, i as int));
                    }
                }
            }
            return Some(i);
        }
        i = i + 1;
    }
    proof {
        assert forall|j: int| !#[trigger] double_colon_at(v@, j) by {
            if 0 <= j < i {
            }
        }
    }
    None
}

/// The values of the `:`-separated groups of `v`, if each is a valid group.
pub fn parse_h16_list(v: &Vec<char>) -> (res: Option<Vec<u16>>)
    ensures
        match res {
            Some(g) => h16_values(split_on(v@, ':')) == Some(g@),
            None => h16_values(split_on(v@, ':')) is None,
        },
{
    let pieces = split_to_vecs(v, ':');
    let ghost sp = split_on(v@, ':');
    let mut out: Vec<u16> = Vec::new();
    let mut i: usize = 0;
    while i < pieces.len()
        invariant
            i <= pieces@.len(),
            pieces@.len() == sp.len(),
            sp == split_on(v@, ':'),
            forall|k: int| 0 <= k < pieces@.len() ==> #[trigger] pieces@[k]@ == sp[k],
            out@.len() == i,
            forall|k: int| 0 <= k < i ==> valid_h16(#[trigger] sp[k]) && out@[k] == hex_value(sp[k]) as u16,
        decreases pieces.len() - i,
    {
        let piece = &pieces[i];
        match parse_h16(piece, 0, piece.len()) {
            Some(n) => {
                proof {
                    assert(piece@.subrange(0, piece@.len() as int) =~= piece@);
                    assert(sp[i as int] == piece@);
                }
                out.push(n);
            },
            None => {
                proof {
                    assert(piece@.subrange(0, piece@.len() as int) =~= piece@);
                    assert(sp[i as int] == piece@);
                    assert(!valid_h16(sp[i as int]));
                }
                return None;
            },
        }
        i = i + 1;
    }
    proof {
        assert(out@ =~= Seq::new(sp.len(), |k: int| hex_value(sp[k]) as u16));
    }
    Some(out)
}

/// The values of the first `n` of the groups `pieces`, if each is a valid group.
fn h16_prefix(pieces: &Vec<Vec<char>>, n: usize) -> (res: Option<Vec<u16>>)
    requires
        n <= pieces@.len(),
    ensures
        match res {
            Some(g) => h16_values(pieces@.map_values(|p: Vec<char>| p@).take(n as int)) == Some(g@),
            None => h16_values(pieces@.map_values(|p: Vec<char>| p@).take(n as int)) is None,
        },
{
    let ghost sp = pieces@.map_values(|p: Vec<char>| p@).take(n as int);
    let mut out: Vec<u16> = Vec::new();
    let mut i: usize = 0;
    while i < n
        invariant
            i <= n <= pieces@.len(),
            sp == pieces@.map_values(|p: Vec<char>| p@).take(n as int),
            out@.len() == i,
            forall|k: int| 0 <= k < i ==> valid_h16(#[trigger] sp[k]) && out@[k] == hex_value(sp[k]) as u16,
        decreases n - i,
    {
        let piece = &pieces[i];
        proof {
            assert(sp[i as int] == piece@);
            assert(piece@.subrange(0, piece@.len() as int) =~= piece@);
        }
        match parse_h16(piece, 0, piece.len()) {
            Some(x) => {
                out.push(x);
            },
            None => {
                return None;
            },
        }
        i = i + 1;
    }
    proof {
        assert(out@ =~= Seq::new(sp.len(), |k: int| hex_value(sp[k]) as u16));
    }
    Some(out)
}

/// The values of the `:`-separated groups of `v`, where the last may be an IPv4 address
/// (see `groups_with_ipv4`).
fn parse_groups_with_ipv4(v: &Vec<char>) -> (res: Option<Vec<u16>>)
    ensures
        match res {
            Some(g) => groups_with_ipv4(split_on(v@, ':')) == Some(g@),
            None => groups_with_ipv4(split_on(v@, ':')) is None,
        },
{
    let pieces = split_to_vecs(v, ':');
    let ghost sp = split_on(v@, ':');
    proof {
        lemma_split_nonempty(v@, ':');
        assert(pieces@.map_values(|p: Vec<char>| p@) =~= sp);
    }
    let n = pieces.len();
    let last = &pieces[n - 1];
    proof {
        assert(sp.last() == last@);
    }
    match crate::text::find_char(last, '.') {
        Some(_) => {
            proof {
                assert(sp.drop_last() =~= pieces@.map_values(|p: Vec<char>| p@).take(n - 1));
            }
            let h = h16_prefix(&pieces, n - 1);
            let o = parse_ipv4_octets(last);
            match (h, o) {
                (Some(mut h), Some(o)) => {
                    let hi: u16 = (o[0] as u16) * 256 + (o[1] as u16);
                    let lo: u16 = (o[2] as u16) * 256 + (o[3] as u16);
                    let ghost h0 = h@;
                    h.push(hi);
                    h.push(lo);
                    proof {
                        assert(h@ =~= h0 + seq![hi, lo]);
                    }
                    Some(h)
                },
                _ => None,
            }
        },
        None => {
            proof {
                assert(!sp.last().contains('.'));
            }
            parse_h16_list(v)
        },
    }
}

/// The groups of `v` as the side after a `::` (see `tail_groups`).
fn parse_tail(v: &Vec<char>) -> (res: Option<Vec<u16>>)
    ensures
        match res {
            Some(g) => tail_groups(v@) == Some(g@),
            None => tail_groups(v@) is None,
        },
{
    if v.len() == 0 {
        proof {
            assert(tail_groups(v@) == Some(Seq::<u16>::empty()));
        }
        return Some(Vec::new());
    }
    parse_groups_with_ipv4(v)
}

/// The groups of `v` as one side of a `::`: none where `v` is empty.
fn parse_side(v: &Vec<char>) -> (res: Option<Vec<u16>>)
    ensures
        match res {
            Some(g) => side_groups(v@) == Some(g@),
            None => side_groups(v@) is None,
        },
{
    if v.len() == 0 {
        proof {
            assert(side_groups(v@) == Some(Seq::<u16>::empty()));
        }
        return Some(Vec::new());
    }
    parse_h16_list(v)
}

/// `l`, then zero segments up to eight in all, then `r`.
fn expand_segments(l: &Vec<u16>, r: &Vec<u16>) -> (out: Vec<u16>)
    requires
        l@.len() + r@.len() <= 7,
    ensures
        out@ == l@ + Seq::new((8 - l@.len() - r@.len()) as nat, |i: int| 0u16) + r@,
{
    let zeros = 8 - l.len() - r.len();
    let mut out: Vec<u16> = Vec::new();
    let mut i: usize = 0;
    while i < l.len()
        invariant
            i <= l@.len(),
            out@ == l@.take(i as int),
        decreases l.len() - i,
    {
        out.push(l[i]);
        proof {
            assert(l@.take(i + 1) =~= l@.take(i as int).push(l@[i as int]));
        }
        i = i + 1;
    }
    proof {
        assert(l@.take(l@.len() as int) =~= l@);
    }
    let mut k: usize = 0;
    while k < zeros
        invariant
            k <= zeros,
            out@ == l@ + Seq::new(k as nat, |j: int| 0u16),
        decreases zeros - k,
    {
        out.push(0);
        proof {
            assert(l@ + Seq::new((k + 1) as nat, |j: int| 0u16) =~= (l@ + Seq::new(
                k as nat,
                |j: int| 0u16,
            )).push(0u16));
        }
        k = k + 1;
    }
    let ghost mid = out@;
    let mut j: usize = 0;
    while j < r.len()
        invariant
            j <= r@.len(),
            out@ == mid + r@.take(j as int),
        decreases r.len() - j,
    {
        out.push(r[j]);
        proof {
            assert(r@.take(j + 1) =~= r@.take(j as int).push(r@[j as int]));
            assert(mid + r@.take(j + 1) =~= (mid + r@.take(j as int)).push(r@[j as int]));
        }
        j = j + 1;
    }
    proof {
        assert(r@.take(r@.len() as int) =~= r@);
    }
    out
}

/// The eight segments of the IPv6 address written `v`, if it is one.
#[verifier::rlimit(40)]
pub fn parse_ipv6_segments(v: &Vec<char>) -> (res: Option<Vec<u16>>)
    ensures
        match res {
            Some(g) => spec_ipv6_segments(v@) == Some(g@),
            None => spec_ipv6_segments(v@) is None,
        },
{
    match find_double_colon(v) {
        Some(p) => {
            let left = chars_range(v, 0, p);
            assert(double_colon_at(v@, p as int));
            assert(p + 2 <= v.len());
            let right = chars_range(v, p + 2, v.len());
            let l = parse_side(&left);
            let r = parse_tail(&right);
            match (l, r) {
                (Some(l), Some(r)) => {
                    if l.len() > 7 || r.len() > 7 - l.len() {
                        return None;
                    }
                    Some(expand_segments(&l, &r))
                },
                _ => None,
            }
        },
        None => {
            match parse_groups_with_ipv4(v) {
                Some(g) => {
                    if g.len() == 8 {
                        Some(g)
                    } else {
                        None
                    }
                },
                None => None,
            }
        },
    }
}

/// The segments and scope id written between the brackets of an IPv6 socket address.
fn parse_ipv6_with_scope(v: &Vec<char>) -> (res: Option<(Vec<u16>, u32)>)
    ensures
        match res {
            Some((g, z)) => spec_ipv6_with_scope(v@) == Some((g@, z)),
            None => spec_ipv6_with_scope(v@) is None,
        },
{
    match crate::text::find_char(v, '%') {
        Some(q) => {
            let n = v.len();
            assert(q < n);
            let after = q + 1;
            let a = chars_range(v, 0, q);
            match parse_ipv6_segments(&a) {
                Some(g) => match parse_decimal(v, after, v.len(), 0xffff_ffff) {
                    Some(z) => Some((g, z)),
                    None => None,
                },
                None => None,
            }
        },
        None => match parse_ipv6_segments(v) {
            Some(g) => Some((g, 0)),
            None => None,
        },
    }
}

/// The segments, scope id and port of `[address%scope]:port`, if `v` has that form.
pub fn parse_socket_addr_v6(v: &Vec<char>) -> (res: Option<(Vec<u16>, u32, u16)>)
    ensures
        match res {
            Some((g, z, p)) => spec_socket_addr_v6(v@) == Some((g@, z, p)),
            None => spec_socket_addr_v6(v@) is None,
        },
{
    if v.len() == 0 || v[0] != '[' {
        return None;
    }
    match crate::text::find_char(v, ']') {
        Some(k) => {
            proof {
                assert(v@[0] != ']');
            }
            let inner = chars_range(v, 1, k);
            let parsed = parse_ipv6_with_scope(&inner);
            let ghost rest = v@.subrange(k + 1, v@.len() as int);
            if k + 1 >= v.len() || v[k + 1] != ':' {
                proof {
                    if rest.len() > 0 {
                        assert(rest[0] == v@[k + 1]);
                    }
                }
                return None;
            }
            proof {
                assert(rest[0] == v@[k + 1]);
                assert(rest.drop_first() =~= v@.subrange(k + 2, v@.len() as int));
            }
            match parsed {
                Some((g, z)) => match parse_decimal(v, k + 2, v.len(), 65535) {
                    Some(p) => Some((g, z, p as u16)),
                    None => None,
                },
                None => None,
            }
        },
        None => None,
    }
}

/// The socket address written `v`: an IPv4 one where it has that form, else an IPv6 one.
pub fn parse_socket_address(v: &Vec<char>) -> (res: Option<SocketAddress>)
    ensures
        match res {
            Some(a) => match spec_socket_addr_v4(v@) {
                Some(x) => a.model() == Ok::<(Seq<u8>, u16), (Seq<u16>, u32, u16)>(x),
                None => spec_socket_addr_v6(v@) is Some && a.model()
                    == Err::<(Seq<u8>, u16), (Seq<u16>, u32, u16)>(spec_socket_addr_v6(v@)->0),
            },
            None => spec_socket_addr_v4(v@) is None && spec_socket_addr_v6(v@) is None,
        },
{
    match parse_socket_addr_v4(v) {
        Some((octets, port)) => Some(SocketAddress::V4 { octets, port }),
        None => match parse_socket_addr_v6(v) {
            Some((segments, scope_id, port)) => Some(SocketAddress::V6 { segments, scope_id, port }),
            None => None,
        },
    }
}

} // verus!
