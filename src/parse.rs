use vstd::prelude::*;

use crate::address::{IpAddress, combine, lemma_combine_bounded, power};

verus! {

/// Whether `b` is a digit in base ten, or in base sixteen (either case).
pub open spec fn is_digit(b: u8, radix: nat) -> bool {
    (48 <= b <= 57) || (radix == 16 && ((97 <= b <= 102) || (65 <= b <= 70)))
}

/// The value of a digit character.
pub open spec fn digit_value(b: u8) -> nat {
    if b <= 57 {
        (b - 48) as nat
    } else if b >= 97 {
        (b - 87) as nat
    } else {
        (b - 55) as nat
    }
}

/// How many digits follow one another from position `p`.
pub open spec fn digit_run(s: Seq<u8>, p: int, radix: nat) -> nat
    decreases s.len() - p,
{
    if p < 0 || p >= s.len() || !is_digit(s[p], radix) {
        0
    } else {
        1 + digit_run(s, p + 1, radix)
    }
}

/// The value of the `n` digits from position `p`.
pub open spec fn digits_value(s: Seq<u8>, p: int, n: nat, radix: nat) -> nat
    decreases n,
{
    if n == 0 {
        0
    } else {
        digits_value(s, p, (n - 1) as nat, radix) * radix + digit_value(s[p + n - 1])
    }
}

/// Reads all digits from `p`: none, more than `max`, or (unless allowed) a
/// leading zero before other digits is a failure; otherwise the value and the
/// position after the digits.
pub open spec fn read_number(s: Seq<u8>, p: int, radix: nat, max: nat, allow_zero_prefix: bool) -> Option<
    (nat, int),
> {
    let n = digit_run(s, p, radix);
    if n == 0 || n > max || (!allow_zero_prefix && s[p] == 48 && n > 1) {
        None
    } else {
        Some((digits_value(s, p, n, radix), p + n))
    }
}

/// A decimal octet: one to three digits, no leading zero, at most 255.
pub open spec fn read_octet(s: Seq<u8>, p: int) -> Option<(nat, int)> {
    match read_number(s, p, 10, 3, false) {
        Some((v, e)) => if v < 256 {
            Some((v, e))
        } else {
            None
        },
        None => None,
    }
}

/// Octets `i..4` of a dotted-decimal address from `p`, each after a dot but the first.
pub open spec fn read_dotted(s: Seq<u8>, p: int, i: nat) -> Option<(Seq<nat>, int)>
    decreases 4 - i,
{
    if i >= 4 {
        Some((Seq::empty(), p))
    } else {
        let q = if i == 0 {
            p
        } else if 0 <= p < s.len() && s[p] == 46 {
            p + 1
        } else {
            -1
        };
        if q < 0 {
            None
        } else {
            match read_octet(s, q) {
                None => None,
                Some((v, e)) => match read_dotted(s, e, i + 1) {
                    None => None,
                    Some((rest, e2)) => Some((seq![v] + rest, e2)),
                },
            }
        }
    }
}

/// A dotted-decimal IPv4 address from `p`: its octets and the position after it.
pub open spec fn read_v4(s: Seq<u8>, p: int) -> Option<(Seq<nat>, int)> {
    read_dotted(s, p, 0)
}

/// Groups `i..limit` of an IPv6 address from `p`, each after a colon but the
/// first. An IPv4 address counts as two groups, ends the list, and is tried
/// first where two groups are left. Gives the groups read, the position after
/// them, and whether the last was an IPv4 address.
pub open spec fn read_groups(s: Seq<u8>, p: int, i: nat, limit: nat) -> (Seq<nat>, int, bool)
    decreases limit - i,
{
    if i >= limit {
        (Seq::empty(), p, false)
    } else {
        let q = if i == 0 {
            p
        } else if 0 <= p < s.len() && s[p] == 58 {
            p + 1
        } else {
            -1
        };
        if q < 0 {
            (Seq::empty(), p, false)
        } else if i + 1 < limit && read_v4(s, q) is Some {
            let (o, e) = read_v4(s, q).unwrap();
            (seq![o[0] * 256 + o[1], o[2] * 256 + o[3]], e, true)
        } else {
            match read_number(s, q, 16, 4, true) {
                None => (Seq::empty(), p, false),
                Some((g, e)) => {
                    let (rest, e2, v4) = read_groups(s, e, i + 1, limit);
                    (seq![g] + rest, e2, v4)
                },
            }
        }
    }
}

/// An IPv6 address that fills the whole of `s`: eight groups, or groups
/// before and after a `::` that stands for at least one zero group.
pub open spec fn parse_v6(s: Seq<u8>) -> Option<Seq<nat>> {
    let (head, hp, hv4) = read_groups(s, 0, 0, 8);
    if head.len() == 8 {
        if hp == s.len() {
            Some(head)
        } else {
            None
        }
    } else if hv4 {
        None
    } else if 0 <= hp && hp + 1 < s.len() && s[hp] == 58 && s[hp + 1] == 58 {
        let limit = (8 - (head.len() + 1)) as nat;
        let (tail, tp, _) = read_groups(s, hp + 2, 0, limit);
        if tp == s.len() {
            Some(head + Seq::new((8 - head.len() - tail.len()) as nat, |k: int| 0nat) + tail)
        } else {
            None
        }
    } else {
        None
    }
}

/// The address that the text `s` spells: IPv4 is tried first, then IPv6;
/// the whole text must be used.
pub open spec fn parse_address(s: Seq<u8>) -> Option<IpAddress> {
    match read_v4(s, 0) {
        Some((o, e)) => if e == s.len() {
            Some(IpAddress::V4(combine(o, 256) as u32))
        } else {
            None
        },
        None => match parse_v6(s) {
            Some(g) => Some(IpAddress::V6(combine(g, 65536) as u128)),
            None => None,
        },
    }
}

/// A bound on a number of `i` digits in base sixteen or less.
pub open spec fn digits_bound(i: nat) -> nat {
    if i == 0 {
        1
    } else if i == 1 {
        16
    } else if i == 2 {
        256
    } else if i == 3 {
        4096
    } else {
        65536
    }
}

fn digit_exec(b: u8, radix: u32) -> (r: Option<u32>)
    requires
        radix == 10 || radix == 16,
    ensures
        r is Some == is_digit(b, radix as nat),
        r is Some ==> r->0 as nat == digit_value(b) && r->0 < radix,
{
    if 48 <= b && b <= 57 {
        Some((b - 48) as u32)
    } else if radix == 16 && 97 <= b && b <= 102 {
        Some((b - 87) as u32)
    } else if radix == 16 && 65 <= b && b <= 70 {
        Some((b - 55) as u32)
    } else {
        None
    }
}

fn read_number_exec(s: &[u8], p: usize, radix: u32, max: usize, allow_zero_prefix: bool) -> (r:
    Option<(u32, usize)>)
    requires
        p <= s@.len(),
        radix == 10 || radix == 16,
        1 <= max <= 4,
    ensures
        read_number(s@, p as int, radix as nat, max as nat, allow_zero_prefix) == match r {
            Some((v, e)) => Some((v as nat, e as int)),
            None => None,
        },
        match r {
            Some((v, e)) => e <= s@.len() && v < 65536,
            None => true,
        },
{
    let mut i: usize = 0;
    let mut v: u32 = 0;
    while i < s.len() - p && digit_exec(s[p + i], radix).is_some()
        invariant
            p + i <= s@.len(),
            i <= max <= 4,
            radix == 10 || radix == 16,
            digit_run(s@, p as int, radix as nat) == i + digit_run(s@, p + i, radix as nat),
            v as nat == digits_value(s@, p as int, i as nat, radix as nat),
            v < digits_bound(i as nat),
        decreases s@.len() - p - i,
    {
        let d = digit_exec(s[p + i], radix).unwrap();
        if i == max {
            return None;
        }
        assert(v * radix + d < digits_bound(i as nat) * 16) by (nonlinear_arith)
            requires
                v < digits_bound(i as nat),
                d < radix,
                radix <= 16,
        ;
        v = v * radix + d;
        i = i + 1;
    }
    if i == 0 || (!allow_zero_prefix && s[p] == 48 && i > 1) {
        None
    } else {
        Some((v, p + i))
    }
}

fn read_octet_exec(s: &[u8], p: usize) -> (r: Option<(u32, usize)>)
    requires
        p <= s@.len(),
    ensures
        read_octet(s@, p as int) == match r {
            Some((v, e)) => Some((v as nat, e as int)),
            None => None,
        },
        match r {
            Some((v, e)) => e <= s@.len() && v < 256,
            None => true,
        },
{
    match read_number_exec(s, p, 10, 3, false) {
        Some((v, e)) => if v < 256 {
            Some((v, e))
        } else {
            None
        },
        None => None,
    }
}

fn read_dotted_exec(s: &[u8], p: usize, i: usize) -> (r: Option<(Vec<u32>, usize)>)
    requires
        p <= s@.len(),
        i <= 4,
    ensures
        read_dotted(s@, p as int, i as nat) == match r {
            Some((o, e)) => Some((o@.map_values(|x: u32| x as nat), e as int)),
            None => None,
        },
        match r {
            Some((o, e)) => e <= s@.len() && o@.len() == 4 - i && forall|k: int|
                0 <= k < o@.len() ==> #[trigger] o@[k] < 256,
            None => true,
        },
    decreases 4 - i,
{
    if i >= 4 {
        let o: Vec<u32> = Vec::new();
        assert(o@.map_values(|x: u32| x as nat) =~= Seq::<nat>::empty());
        return Some((o, p));
    }
    let q = if i == 0 {
        p
    } else if p < s.len() && s[p] == 46 {
        p + 1
    } else {
        return None;
    };
    match read_octet_exec(s, q) {
        None => None,
        Some((v, e)) => match read_dotted_exec(s, e, i + 1) {
            None => None,
            Some((rest, e2)) => {
                let mut o: Vec<u32> = Vec::new();
                o.push(v);
                let mut rest = rest;
                let ghost r0 = rest@;
                o.append(&mut rest);
                assert(o@ =~= seq![v] + r0);
                assert(o@.map_values(|x: u32| x as nat) =~= seq![v as nat] + r0.map_values(
                    |x: u32| x as nat,
                ));
                assert forall|k: int| 0 <= k < o@.len() implies #[trigger] o@[k] < 256 by {
                    if k > 0 {
                        assert(o@[k] == r0[k - 1]);
                    }
                }
                Some((o, e2))
            },
        },
    }
}

fn read_groups_exec(s: &[u8], p: usize, i: usize, limit: usize) -> (r: (Vec<u32>, usize, bool))
    requires
        p <= s@.len(),
        i <= limit <= 8,
    ensures
        read_groups(s@, p as int, i as nat, limit as nat) == (
            r.0@.map_values(|x: u32| x as nat),
            r.1 as int,
            r.2,
        ),
        r.1 <= s@.len(),
        r.0@.len() <= limit - i,
        forall|k: int| 0 <= k < r.0@.len() ==> #[trigger] r.0@[k] < 65536,
    decreases limit - i,
{
    let empty: Vec<u32> = Vec::new();
    assert(empty@.map_values(|x: u32| x as nat) =~= Seq::<nat>::empty());
    if i >= limit {
        return (empty, p, false);
    }
    let q = if i == 0 {
        p
    } else if p < s.len() && s[p] == 58 {
        p + 1
    } else {
        return (empty, p, false);
    };
    if i + 1 < limit {
        if let Some((o, e)) = read_dotted_exec(s, q, 0) {
            let mut g: Vec<u32> = Vec::new();
            g.push(o[0] * 256 + o[1]);
            g.push(o[2] * 256 + o[3]);
            assert(g@.map_values(|x: u32| x as nat) =~= seq![
                o@[0] as nat * 256 + o@[1] as nat,
                o@[2] as nat * 256 + o@[3] as nat,
            ]);
            return (g, e, true);
        }
    }
    match read_number_exec(s, q, 16, 4, true) {
        None => (empty, p, false),
        Some((g, e)) => {
            let (rest, e2, v4) = read_groups_exec(s, e, i + 1, limit);
            let mut out: Vec<u32> = Vec::new();
            out.push(g);
            let mut rest = rest;
            let ghost r0 = rest@;
            out.append(&mut rest);
            assert(out@ =~= seq![g] + r0);
            assert(out@.map_values(|x: u32| x as nat) =~= seq![g as nat] + r0.map_values(
                |x: u32| x as nat,
            ));
            assert forall|k: int| 0 <= k < out@.len() implies #[trigger] out@[k] < 65536 by {
                if k > 0 {
                    assert(out@[k] == r0[k - 1]);
                }
            }
            (out, e2, v4)
        },
    }
}

fn parse_v6_exec(s: &[u8]) -> (r: Option<Vec<u32>>)
    ensures
        parse_v6(s@) == match r {
            Some(g) => Some(g@.map_values(|x: u32| x as nat)),
            None => None,
        },
        match r {
            Some(g) => g@.len() == 8 && forall|k: int| 0 <= k < 8 ==> #[trigger] g@[k] < 65536,
            None => true,
        },
{
    let (head, hp, hv4) = read_groups_exec(s, 0, 0, 8);
    let ghost hm = head@.map_values(|x: u32| x as nat);
    if head.len() == 8 {
        if hp == s.len() {
            Some(head)
        } else {
            None
        }
    } else if hv4 {
        None
    } else if s.len() >= 1 && hp < s.len() - 1 && s[hp] == 58 && s[hp + 1] == 58 {
        let limit = 8 - (head.len() + 1);
        let (tail, tp, _tv4) = read_groups_exec(s, hp + 2, 0, limit);
        if tp == s.len() {
            let ghost tm = tail@.map_values(|x: u32| x as nat);
            let zeros = 8 - head.len() - tail.len();
            let mut out = head;
            let mut k: usize = 0;
            while k < zeros
                invariant
                    k <= zeros,
                    out@ == head@ + Seq::new(k as nat, |j: int| 0u32),
                decreases zeros - k,
            {
                out.push(0);
                assert(out@ =~= head@ + Seq::new((k + 1) as nat, |j: int| 0u32));
                k = k + 1;
            }
            let mut tail = tail;
            let ghost t0 = tail@;
            out.append(&mut tail);
            assert(out@.map_values(|x: u32| x as nat) =~= hm + Seq::new(
                zeros as nat,
                |j: int| 0nat,
            ) + tm);
            assert forall|j: int| 0 <= j < 8 implies #[trigger] out@[j] < 65536 by {
                if j < head@.len() {
                    assert(out@[j] == head@[j]);
                } else if j >= head@.len() + zeros {
                    assert(out@[j] == t0[j - head@.len() - zeros]);
                }
            }
            Some(out)
        } else {
            None
        }
    } else {
        None
    }
}

proof fn lemma_power_monotone(base: nat, i: nat, n: nat)
    requires
        base >= 1,
        i <= n,
    ensures
        power(base, i) <= power(base, n),
    decreases n,
{
    if i < n {
        lemma_power_monotone(base, i, (n - 1) as nat);
        assert(power(base, (n - 1) as nat) <= base * power(base, (n - 1) as nat)) by (nonlinear_arith)
            requires
                base >= 1,
        ;
    }
}

/// The number whose digits in base `base` are `s`.
pub(crate) fn combine_exec(s: &[u32], base: u128) -> (r: u128)
    requires
        2 <= base,
        power(base as nat, s@.len() as nat) <= 0x1_0000_0000_0000_0000_0000_0000_0000_0000,
        forall|k: int| 0 <= k < s@.len() ==> (#[trigger] s@[k] as nat) < base,
    ensures
        r as nat == combine(s@.map_values(|x: u32| x as nat), base as nat),
{
    let ghost m = s@.map_values(|x: u32| x as nat);
    let mut acc: u128 = 0;
    let mut i: usize = 0;
    while i < s.len()
        invariant
            i <= s@.len(),
            2 <= base,
            m == s@.map_values(|x: u32| x as nat),
            power(base as nat, s@.len() as nat) <= 0x1_0000_0000_0000_0000_0000_0000_0000_0000,
            forall|k: int| 0 <= k < s@.len() ==> (#[trigger] s@[k] as nat) < base,
            acc as nat == combine(m.take(i as int), base as nat),
        decreases s@.len() - i,
    {
        let ghost t = m.take(i + 1);
        proof {
            assert(t.drop_last() =~= m.take(i as int));
            assert forall|k: int| 0 <= k < t.len() implies #[trigger] t[k] < base by {
                assert(t[k] == s@[k] as nat);
            }
            lemma_combine_bounded(t, base as nat);
            lemma_power_monotone(base as nat, (i + 1) as nat, s@.len() as nat);
            assert(t.last() == s@[i as int] as nat);
            assert(combine(t, base as nat) == acc * base + s@[i as int] as nat);
            assert(t.len() == i + 1);
            assert(acc * base + s@[i as int] < 0x1_0000_0000_0000_0000_0000_0000_0000_0000);
        }
        acc = acc * base + s[i] as u128;
        i = i + 1;
    }
    assert(m.take(i as int) =~= m);
    acc
}

/// The address that the text `s` spells, if any.
pub fn parse_address_exec(s: &[u8]) -> (r: Option<IpAddress>)
    ensures
        r == parse_address(s@),
{
    match read_dotted_exec(s, 0, 0) {
        Some((o, e)) => {
            if e == s.len() {
                proof {
                    reveal_with_fuel(power, 5);
                }
                let v = combine_exec(o.as_slice(), 256);
                Some(IpAddress::V4(v as u32))
            } else {
                None
            }
        },
        None => match parse_v6_exec(s) {
            Some(g) => {
                proof {
                    reveal_with_fuel(power, 9);
                }
                let v = combine_exec(g.as_slice(), 65536);
                Some(IpAddress::V6(v))
            },
            None => None,
        },
    }
}

} // verus!
