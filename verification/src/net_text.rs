//! Socket addresses written out as text, the way `std::net::SocketAddr` displays them:
//! `a.b.c.d:port`, and `[segments%scope]:port` with the longest run of zero segments
//! written as `::`.
use vstd::prelude::*;

use crate::net::SocketAddress;
use crate::text::{concat_strs, decimal_text, join_with, push_char, u64_to_decimal};

verus! {

/// The lower-case hexadecimal digit for `d` (below 16).
pub open spec fn hex_char(d: nat) -> char {
    if d < 10 { (48 + d) as char } else { (87 + d) as char }
}

/// The lower-case hexadecimal notation of `n`, without leading zeros.
pub open spec fn hex_text(n: nat) -> Seq<char>
    decreases n,
{
    if n < 16 {
        seq![hex_char(n)]
    } else {
        hex_text(n / 16).push(hex_char(n % 16))
    }
}

/// Each segment of `segs` in hexadecimal.
pub open spec fn hex_texts(segs: Seq<u16>) -> Seq<Seq<char>> {
    segs.map_values(|x: u16| hex_text(x as nat))
}

/// Each octet of `o` in decimal.
pub open spec fn decimal_texts(o: Seq<u8>) -> Seq<Seq<char>> {
    o.map_values(|x: u8| decimal_text(x as nat))
}

/// The texts of `v`.
pub open spec fn texts(v: Seq<String>) -> Seq<Seq<char>> {
    v.map_values(|p: String| p@)
}

/// The segments `segs` in hexadecimal, separated by `:`.
pub open spec fn hex_groups_text(segs: Seq<u16>) -> Seq<char> {
    join_with(hex_texts(segs), seq![':'])
}

/// The octets `o` in decimal, separated by `.`.
pub open spec fn octets_text(o: Seq<u8>) -> Seq<char> {
    join_with(decimal_texts(o), seq!['.'])
}

/// Scanning `segs` from the left for runs of zero segments: the start and length of the
/// run that reaches the end (length 0 where the last segment is no zero), and the start
/// and length of the first of the longest runs.
pub open spec fn zero_scan(segs: Seq<u16>) -> (int, int, int, int)
    decreases segs.len(),
{
    if segs.len() == 0 {
        (0, 0, 0, 0)
    } else {
        let (cs, cl, bs, bl) = zero_scan(segs.drop_last());
        if segs.last() == 0 {
            let ns = if cl == 0 { segs.len() - 1 } else { cs };
            if cl + 1 > bl { (ns, cl + 1, ns, cl + 1) } else { (ns, cl + 1, bs, bl) }
        } else {
            (0, 0, bs, bl)
        }
    }
}

/// The segments are those of an IPv4 address mapped into IPv6 (`::ffff:a.b.c.d`).
pub open spec fn is_ipv4_mapped(segs: Seq<u16>) -> bool {
    &&& segs.len() == 8
    &&& segs[0] == 0 && segs[1] == 0 && segs[2] == 0 && segs[3] == 0 && segs[4] == 0
    &&& segs[5] == 0xffff
}

/// The IPv4 address in the last two segments.
pub open spec fn mapped_octets(segs: Seq<u16>) -> Seq<u8> {
    seq![(segs[6] / 256) as u8, (segs[6] % 256) as u8, (segs[7] / 256) as u8, (segs[7] % 256) as u8]
}

/// An IPv6 address as text: `::ffff:` and the IPv4 address for a mapped one; else the
/// segments in hexadecimal, the first of the longest runs of at least two zero segments
/// written as `::`.
pub open spec fn ipv6_text(segs: Seq<u16>) -> Seq<char> {
    if is_ipv4_mapped(segs) {
        "::ffff:"@ + octets_text(mapped_octets(segs))
    } else {
        let (_, _, bs, bl) = zero_scan(segs);
        if bl > 1 {
            hex_groups_text(segs.subrange(0, bs)) + "::"@ + hex_groups_text(segs.subrange(bs + bl, segs.len() as int))
        } else {
            hex_groups_text(segs)
        }
    }
}

/// A socket address as text: `a.b.c.d:port`, or `[address]:port` with `%scope` after
/// the address where the scope id is not 0.
pub open spec fn socket_address_text(a: SocketAddress) -> Seq<char> {
    match a {
        SocketAddress::V4 { octets, port } => octets_text(octets@) + ":"@ + decimal_text(port as nat),
        SocketAddress::V6 { segments, scope_id, port } => "["@ + ipv6_text(segments@) + (if scope_id != 0 {
            "%"@ + decimal_text(scope_id as nat)
        } else {
            Seq::empty()
        }) + "]:"@ + decimal_text(port as nat),
    }
}

/// The hexadecimal notation of `n` (see `hex_text`).
fn hex_of(n: u16) -> (res: String)
    ensures
        res@ == hex_text(n as nat),
    decreases n,
{
    let d = n % 16;
    let c = if d < 10 { ((48 + d) as u8) as char } else { ((87 + d) as u8) as char };
    if n < 16 {
        let mut s = String::new();
        push_char(&mut s, c);
        proof {
            assert(s@ =~= seq![hex_char(n as nat)]);
        }
        s
    } else {
        let mut s = hex_of(n / 16);
        push_char(&mut s, c);
        s
    }
}

/// The texts `parts` separated by `sep` (see `join_with`).
fn join_texts(parts: &Vec<String>, sep: char) -> (res: String)
    ensures
        res@ == join_with(texts(parts@), seq![sep]),
{
    let ghost ps = texts(parts@);
    let mut res = String::new();
    let mut i: usize = 0;
    while i < parts.len()
        invariant
            i <= parts@.len(),
            ps == texts(parts@),
            res@ == join_with(ps.take(i as int), seq![sep]),
        decreases parts.len() - i,
    {
        let ghost before = res@;
        if i > 0 {
            push_char(&mut res, sep);
        }
        let next = concat_strs(res.as_str(), parts[i].as_str());
        res = next;
        proof {
            let t = ps.take(i + 1);
            assert(t.drop_last() =~= ps.take(i as int));
            assert(t.last() == parts@[i as int]@);
            if i == 0 {
                assert(t.len() == 1);
                assert(res@ =~= t[0]);
            } else {
                assert(res@ =~= join_with(t.drop_last(), seq![sep]) + seq![sep] + t.last());
            }
        }
        i = i + 1;
    }
    proof {
        assert(ps.take(parts@.len() as int) =~= ps);
    }
    res
}

/// The segments `segs[lo..hi]` in hexadecimal, separated by `:`.
fn hex_groups(segs: &Vec<u16>, lo: usize, hi: usize) -> (res: String)
    requires
        lo <= hi <= segs@.len(),
    ensures
        res@ == hex_groups_text(segs@.subrange(lo as int, hi as int)),
{
    let ghost sub = segs@.subrange(lo as int, hi as int);
    let mut parts: Vec<String> = Vec::new();
    let mut i: usize = lo;
    while i < hi
        invariant
            lo <= i <= hi,
            hi <= segs@.len(),
            sub == segs@.subrange(lo as int, hi as int),
            texts(parts@) == hex_texts(sub.take(i - lo)),
        decreases hi - i,
    {
        let h = hex_of(segs[i]);
        let ghost before = parts@;
        parts.push(h);
        proof {
            let a = texts(parts@);
            let b = hex_texts(sub.take(i + 1 - lo));
            let a0 = texts(before);
            let b0 = hex_texts(sub.take(i - lo));
            assert(a0.len() == before.len());
            assert(b0.len() == i - lo);
            assert(parts@.len() == before.len() + 1);
            assert(a.len() == parts@.len());
            assert(b.len() == i + 1 - lo);
            assert(a.len() == b.len());
            assert forall|k: int| 0 <= k < a.len() implies a[k] == b[k] by {
                if k < a0.len() {
                    assert(parts@[k] == before[k]);
                    assert(a0[k] == b0[k]);
                    assert(sub.take(i - lo)[k] == sub[k]);
                } else {
                    assert(sub[k] == segs@[i as int]);
                }
            }
            assert(a =~= b);
        }
        i = i + 1;
    }
    proof {
        assert(sub.take(hi - lo) =~= sub);
    }
    join_texts(&parts, ':')
}

/// The octets `o` in decimal, separated by `.`.
fn octets_of(o: &Vec<u8>) -> (res: String)
    ensures
        res@ == octets_text(o@),
{
    let mut parts: Vec<String> = Vec::new();
    let mut i: usize = 0;
    while i < o.len()
        invariant
            i <= o@.len(),
            texts(parts@) == decimal_texts(o@.take(i as int)),
        decreases o.len() - i,
    {
        let d = u64_to_decimal(o[i] as u64);
        let ghost before = parts@;
        parts.push(d);
        proof {
            let a = texts(parts@);
            let b = decimal_texts(o@.take(i + 1));
            let a0 = texts(before);
            let b0 = decimal_texts(o@.take(i as int));
            assert(a0.len() == before.len());
            assert(b0.len() == i);
            assert(parts@.len() == before.len() + 1);
            assert(a.len() == parts@.len());
            assert(b.len() == i + 1);
            assert(a.len() == b.len());
            assert forall|k: int| 0 <= k < a.len() implies a[k] == b[k] by {
                if k < a0.len() {
                    assert(parts@[k] == before[k]);
                    assert(a0[k] == b0[k]);
                }
            }
            assert(a =~= b);
        }
        i = i + 1;
    }
    proof {
        assert(o@.take(o@.len() as int) =~= o@);
    }
    join_texts(&parts, '.')
}

/// The IPv6 address `segs` as text (see `ipv6_text`).
fn ipv6_of(segs: &Vec<u16>) -> (res: String)
    ensures
        res@ == ipv6_text(segs@),
{
    let n = segs.len();
    if n == 8 && segs[0] == 0 && segs[1] == 0 && segs[2] == 0 && segs[3] == 0 && segs[4] == 0 && segs[5] == 0xffff {
        let o = vec![(segs[6] / 256) as u8, (segs[6] % 256) as u8, (segs[7] / 256) as u8, (segs[7] % 256) as u8];
        proof {
            assert(o@ =~= mapped_octets(segs@));
            reveal_strlit("::ffff:");
        }
        let t = octets_of(&o);
        return concat_strs("::ffff:", t.as_str());
    }
    let mut cs: usize = 0;
    let mut cl: usize = 0;
    let mut bs: usize = 0;
    let mut bl: usize = 0;
    let mut i: usize = 0;
    while i < n
        invariant
            i <= n,
            n == segs@.len(),
            (cs as int, cl as int, bs as int, bl as int) == zero_scan(segs@.take(i as int)),
            cs + cl <= i,
            bs + bl <= i,
        decreases n - i,
    {
        proof {
            assert(segs@.take(i + 1).drop_last() =~= segs@.take(i as int));
            assert(segs@.take(i + 1).last() == segs@[i as int]);
        }
        if segs[i] == 0 {
            if cl == 0 {
                cs = i;
            }
            cl = cl + 1;
            if cl > bl {
                bs = cs;
                bl = cl;
            }
        } else {
            cs = 0;
            cl = 0;
        }
        i = i + 1;
    }
    proof {
        assert(segs@.take(n as int) =~= segs@);
    }
    if bl > 1 {
        let left = hex_groups(segs, 0, bs);
        let right = hex_groups(segs, bs + bl, n);
        let l2 = concat_strs(left.as_str(), "::");
        proof {
            reveal_strlit("::");
        }
        concat_strs(l2.as_str(), right.as_str())
    } else {
        let all = hex_groups(segs, 0, n);
        proof {
            assert(segs@.subrange(0, n as int) =~= segs@);
        }
        all
    }
}

/// The socket address `a` as text (see `socket_address_text`).
pub fn socket_address_to_text(a: &SocketAddress) -> (res: String)
    ensures
        res@ == socket_address_text(*a),
{
    proof {
        reveal_strlit(":");
        reveal_strlit("[");
        reveal_strlit("%");
        reveal_strlit("]:");
    }
    match a {
        SocketAddress::V4 { octets, port } => {
            let t = octets_of(octets);
            let t2 = concat_strs(t.as_str(), ":");
            let p = u64_to_decimal(*port as u64);
            concat_strs(t2.as_str(), p.as_str())
        },
        SocketAddress::V6 { segments, scope_id, port } => {
            let ip = ipv6_of(segments);
            let mut t = concat_strs("[", ip.as_str());
            if *scope_id != 0 {
                let sc = u64_to_decimal(*scope_id as u64);
                let t1 = concat_strs(t.as_str(), "%");
                t = concat_strs(t1.as_str(), sc.as_str());
            } else {
                proof {
                    assert(t@ =~= t@ + Seq::<char>::empty());
                }
            }
            let t2 = concat_strs(t.as_str(), "]:");
            let p = u64_to_decimal(*port as u64);
            concat_strs(t2.as_str(), p.as_str())
        },
    }
}

} // verus!
