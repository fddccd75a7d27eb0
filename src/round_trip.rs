use vstd::prelude::*;
use vstd::string::StringSliceAdditionalSpecFns;

use crate::address::{
    IpAddress, lemma_combine_limbs, lemma_limbs_bounded, lemma_limbs_len, octets_of, power,
    segments_of,
};
use crate::format::{
    address_text, ascii_chars, decimal, digit_byte, hex_list, hexadecimal, is_v4_mapped, longest_zero_run, numeral,
    v4_text, v6_text, zeros_ending_at,
};
use crate::parse::{
    digit_run, digit_value, digits_value, is_digit, parse_address, read_dotted, read_groups,
    parse_v6, read_number, read_octet, read_v4,
};

verus! {

proof fn lemma_digit_byte(d: nat, base: nat)
    requires
        base == 10 || base == 16,
        d < base,
    ensures
        is_digit(digit_byte(d), base),
        digit_value(digit_byte(d)) == d,
        digit_byte(d) != 46 && digit_byte(d) != 58,
        digit_byte(d) == 48 <==> d == 0,
{
}

/// What a numeral is made of: at least one digit, no leading zero, and no
/// more digits than a bound on the number allows.
proof fn lemma_numeral_shape(n: nat, base: nat, k: nat)
    requires
        base == 10 || base == 16,
        1 <= k,
        n < power(base, k),
    ensures
        1 <= numeral(n, base).len() <= k,
        n < base <==> numeral(n, base).len() == 1,
        forall|i: int|
            0 <= i < numeral(n, base).len() ==> is_digit(#[trigger] numeral(n, base)[i], base)
                && numeral(n, base)[i] != 46 && numeral(n, base)[i] != 58,
        numeral(n, base).len() > 1 ==> numeral(n, base)[0] != 48,
    decreases n,
{
    if n < base {
        lemma_digit_byte(n, base);
    } else {
        let m = n / base;
        let pk = power(base, (k - 1) as nat);
        if k == 1 {
            assert(power(base, 1) == base * power(base, 0));
        }
        assert(k >= 2);
        assert(power(base, k) == base * pk);
        vstd::arithmetic::div_mod::lemma_multiply_divide_lt(n as int, base as int, pk as int);
        lemma_numeral_shape(m, base, (k - 1) as nat);
        lemma_digit_byte(n % base, base);
        let p = numeral(m, base);
        assert(numeral(n, base) == p.push(digit_byte(n % base)));
        assert forall|i: int| 0 <= i < numeral(n, base).len() implies is_digit(
            #[trigger] numeral(n, base)[i],
            base,
        ) && numeral(n, base)[i] != 46 && numeral(n, base)[i] != 58 by {
            if i < p.len() {
                assert(numeral(n, base)[i] == p[i]);
            }
        }
        if p.len() == 1 {
            assert(m != 0);
            lemma_digit_byte(m, base);
        }
        assert(numeral(n, base)[0] == p[0]);
    }
}

/// Numeral digits in the text read back as the number.
proof fn lemma_numeral_value(t: Seq<u8>, p: int, n: nat, base: nat)
    requires
        base == 10 || base == 16,
        0 <= p,
        p + numeral(n, base).len() <= t.len(),
        forall|i: int| 0 <= i < numeral(n, base).len() ==> t[p + i] == #[trigger] numeral(n, base)[i],
    ensures
        digits_value(t, p, numeral(n, base).len(), base) == n,
    decreases n,
{
    if n < base {
        lemma_digit_byte(n, base);
        assert(t[p + 0] == numeral(n, base)[0]);
        assert(numeral(n, base).len() == 1);
        assert(digits_value(t, p, 0, base) == 0);
        assert(digits_value(t, p, 1, base) == 0 * base + digit_value(t[p + 0]));
    } else {
        let m = n / base;
        let q = numeral(m, base);
        assert(numeral(n, base) == q.push(digit_byte(n % base)));
        assert forall|i: int| 0 <= i < q.len() implies t[p + i] == #[trigger] q[i] by {
            assert(numeral(n, base)[i] == q[i]);
        }
        lemma_numeral_value(t, p, m, base);
        lemma_digit_byte(n % base, base);
        assert(t[p + q.len()] == numeral(n, base)[q.len() as int]);
        vstd::arithmetic::div_mod::lemma_fundamental_div_mod(n as int, base as int);
        assert(m * base == base * m) by (nonlinear_arith);
        assert(numeral(n, base).len() == q.len() + 1);
        assert(digits_value(t, p, (q.len() + 1) as nat, base) == digits_value(t, p, q.len(), base)
            * base + digit_value(t[p + q.len()]));
    }
}

/// A run of exactly `k` digits from `p`.
proof fn lemma_digit_run(t: Seq<u8>, p: int, k: nat, radix: nat)
    requires
        0 <= p,
        p + k <= t.len(),
        forall|i: int| 0 <= i < k ==> is_digit(#[trigger] t[p + i], radix),
        p + k == t.len() || !is_digit(t[p + k], radix),
    ensures
        digit_run(t, p, radix) == k,
    decreases k,
{
    if k > 0 {
        assert forall|i: int| 0 <= i < k - 1 implies is_digit(#[trigger] t[(p + 1) + i], radix) by {
            assert(t[p + (i + 1)] == t[(p + 1) + i]);
        }
        lemma_digit_run(t, p + 1, (k - 1) as nat, radix);
        assert(is_digit(t[p + 0], radix));
    }
}

/// The numeral of `n` at `p`, followed by the end or by a non-digit, reads as `n`.
proof fn lemma_read_numeral(t: Seq<u8>, p: int, n: nat, base: nat, max: nat, allow_zero_prefix: bool)
    requires
        base == 10 || base == 16,
        0 <= p,
        1 <= max,
        n < power(base, max),
        p + numeral(n, base).len() <= t.len(),
        forall|i: int| 0 <= i < numeral(n, base).len() ==> t[p + i] == #[trigger] numeral(n, base)[i],
        p + numeral(n, base).len() == t.len() || !is_digit(t[p + numeral(n, base).len()], base),
    ensures
        read_number(t, p, base, max, allow_zero_prefix) == Some((n, p + numeral(n, base).len())),
{
    let l = numeral(n, base).len();
    lemma_numeral_shape(n, base, max);
    assert forall|i: int| 0 <= i < l implies is_digit(#[trigger] t[p + i], base) by {
        assert(t[p + i] == numeral(n, base)[i]);
    }
    lemma_digit_run(t, p, l, base);
    lemma_numeral_value(t, p, n, base);
    assert(t[p + 0] == numeral(n, base)[0]);
}

/// Octets `i..4` as dotted-decimal text, each after a dot but the first.
spec fn dotted_from(o: Seq<nat>, i: nat) -> Seq<u8>
    decreases 4 - i,
{
    if i >= 4 {
        Seq::empty()
    } else {
        (if i == 0 {
            Seq::empty()
        } else {
            seq![46u8]
        }) + decimal(o[i as int]) + dotted_from(o, i + 1)
    }
}

proof fn lemma_v4_text_dotted(o: Seq<nat>)
    ensures
        v4_text(o) == dotted_from(o, 0),
{
    reveal_with_fuel(dotted_from, 5);
    assert(v4_text(o) =~= dotted_from(o, 0));
}

/// Dotted-decimal text of octets `i..4` at `p`, up to the end, reads back as them.
proof fn lemma_read_dotted(t: Seq<u8>, p: int, i: nat, o: Seq<nat>)
    requires
        o.len() == 4,
        forall|k: int| 0 <= k < 4 ==> #[trigger] o[k] < 256,
        0 <= p <= t.len(),
        i <= 4,
        t.subrange(p, t.len() as int) == dotted_from(o, i),
    ensures
        read_dotted(t, p, i) == Some((o.subrange(i as int, 4), t.len() as int)),
    decreases 4 - i,
{
    if i >= 4 {
        assert(o.subrange(4, 4) =~= Seq::<nat>::empty());
    } else {
        let d = decimal(o[i as int]);
        let rest = dotted_from(o, i + 1);
        let q = if i == 0 {
            p
        } else {
            p + 1
        };
        let whole = t.subrange(p, t.len() as int);
        if i > 0 {
            assert(dotted_from(o, i) == seq![46u8] + d + rest);
            assert(t[p] == whole[0]);
            assert(whole.subrange(1, whole.len() as int) =~= d + rest);
            assert(t.subrange(q, t.len() as int) =~= whole.subrange(1, whole.len() as int));
        } else {
            assert(dotted_from(o, i) =~= d + rest);
            assert(t.subrange(q, t.len() as int) =~= whole);
        }
        let e = q + d.len();
        assert forall|k: int| 0 <= k < numeral(o[i as int], 10).len() implies t[q + k]
            == #[trigger] numeral(o[i as int], 10)[k] by {
            assert(t[q + k] == t.subrange(q, t.len() as int)[k]);
        }
        if e < t.len() {
            assert(t[e] == t.subrange(q, t.len() as int)[d.len() as int]);
            reveal_with_fuel(dotted_from, 2);
            assert(rest[0] == 46);
        }
        reveal_with_fuel(power, 4);
        lemma_read_numeral(t, q, o[i as int], 10, 3, false);
        assert(read_octet(t, q) == Some((o[i as int], e)));
        assert(t.subrange(e, t.len() as int) =~= rest) by {
            assert(t.subrange(e, t.len() as int) =~= t.subrange(q, t.len() as int).subrange(
                d.len() as int,
                t.len() - q,
            ));
        }
        lemma_read_dotted(t, e, i + 1, o);
        assert(seq![o[i as int]] + o.subrange(i + 1 as int, 4) =~= o.subrange(i as int, 4));
    }
}

/// Where no dot follows `q`, no IPv4 address is read there.
proof fn lemma_no_v4(t: Seq<u8>, q: int)
    requires
        0 <= q,
        forall|k: int| q <= k < t.len() ==> #[trigger] t[k] != 46,
    ensures
        read_v4(t, q) is None,
{
    reveal_with_fuel(read_dotted, 2);
    match read_octet(t, q) {
        None => {},
        Some((v, e)) => {
            assert(e >= q);
        },
    }
}

proof fn lemma_v4_round_trip(v: u32)
    ensures
        parse_address(address_text(IpAddress::V4(v))) == Some(IpAddress::V4(v)),
{
    let o = octets_of(v);
    let t = v4_text(o);
    lemma_limbs_len(v as nat, 256, 4);
    lemma_limbs_bounded(v as nat, 256, 4);
    lemma_v4_text_dotted(o);
    assert(t.subrange(0, t.len() as int) =~= t);
    lemma_read_dotted(t, 0, 0, o);
    assert(o.subrange(0, 4) =~= o);
    reveal_with_fuel(power, 5);
    lemma_combine_limbs(v as nat, 256, 4);
}

/// Hexadecimal groups, each after a colon but the first unless `lead`.
spec fn groups_text(g: Seq<nat>, lead: bool) -> Seq<u8>
    decreases g.len(),
{
    if g.len() == 0 {
        Seq::empty()
    } else {
        (if lead {
            seq![58u8]
        } else {
            Seq::empty()
        }) + hexadecimal(g[0]) + groups_text(g.drop_first(), true)
    }
}

proof fn lemma_groups_text_push(g: Seq<nat>, x: nat, lead: bool)
    ensures
        groups_text(g.push(x), lead) == groups_text(g, lead) + (if g.len() == 0 && !lead {
            Seq::<u8>::empty()
        } else {
            seq![58u8]
        }) + hexadecimal(x),
    decreases g.len(),
{
    if g.len() == 0 {
        assert(g.push(x).drop_first() =~= Seq::<nat>::empty());
        assert(groups_text(g.push(x).drop_first(), true) =~= Seq::<u8>::empty());
        assert(g.push(x)[0] == x);
        assert(groups_text(g, lead) =~= Seq::<u8>::empty());
        assert(groups_text(g.push(x), lead) =~= groups_text(g, lead) + (if g.len() == 0 && !lead {
            Seq::<u8>::empty()
        } else {
            seq![58u8]
        }) + hexadecimal(x));
    } else {
        assert(g.push(x).drop_first() =~= g.drop_first().push(x));
        lemma_groups_text_push(g.drop_first(), x, true);
        assert(groups_text(g.push(x), lead) =~= groups_text(g, lead) + seq![58u8] + hexadecimal(
            x,
        ));
    }
}

proof fn lemma_hex_list_groups(g: Seq<nat>)
    ensures
        hex_list(g) == groups_text(g, false),
    decreases g.len(),
{
    if g.len() == 1 {
        assert(g.drop_first() =~= Seq::<nat>::empty());
        assert(groups_text(g.drop_first(), true) =~= Seq::<u8>::empty());
        assert(groups_text(g, false) =~= hexadecimal(g[0]));
    } else if g.len() > 1 {
        let h = g.drop_last();
        lemma_hex_list_groups(h);
        lemma_groups_text_push(h, g.last(), false);
        assert(h.push(g.last()) =~= g);
    }
}

/// The characters of the group text are hex digits and colons, never a dot.
proof fn lemma_groups_text_no_dot(g: Seq<nat>, lead: bool)
    requires
        forall|k: int| 0 <= k < g.len() ==> #[trigger] g[k] < 65536,
    ensures
        forall|k: int|
            0 <= k < groups_text(g, lead).len() ==> #[trigger] groups_text(g, lead)[k] != 46
                && 46 <= groups_text(g, lead)[k] <= 102,
        g.len() > 0 ==> groups_text(g, lead).len() > 0,
    decreases g.len(),
{
    if g.len() > 0 {
        let g1 = g.drop_first();
        assert forall|k: int| 0 <= k < g1.len() implies #[trigger] g1[k] < 65536 by {
            assert(g1[k] == g[k + 1]);
        }
        lemma_groups_text_no_dot(g1, true);
        reveal_with_fuel(power, 5);
        lemma_numeral_shape(g[0], 16, 4);
        let a = if lead {
            seq![58u8]
        } else {
            Seq::<u8>::empty()
        };
        let h = hexadecimal(g[0]);
        let r = groups_text(g1, true);
        assert(groups_text(g, lead) == a + h + r);
        assert forall|k: int| 0 <= k < groups_text(g, lead).len() implies #[trigger] groups_text(
            g,
            lead,
        )[k] != 46 && 46 <= groups_text(g, lead)[k] <= 102 by {
            if k < a.len() {
            } else if k < a.len() + h.len() {
                assert(groups_text(g, lead)[k] == h[k - a.len()]);
            } else {
                assert(groups_text(g, lead)[k] == r[k - a.len() - h.len()]);
            }
        }
    }
}

/// Groups `i..` of an IPv6 address written out at `p`, then the end of the
/// text or a `::`, read back as the groups.
proof fn lemma_read_hex_groups(t: Seq<u8>, p: int, i: nat, limit: nat, g: Seq<nat>, lead: bool)
    requires
        lead == (i > 0),
        0 <= p <= t.len(),
        i + g.len() <= limit <= 8,
        forall|k: int| 0 <= k < g.len() ==> #[trigger] g[k] < 65536,
        forall|k: int| 0 <= k < t.len() ==> #[trigger] t[k] != 46,
        p + groups_text(g, lead).len() <= t.len(),
        forall|k: int|
            0 <= k < groups_text(g, lead).len() ==> t[p + k] == #[trigger] groups_text(g, lead)[k],
        ({
            let e = p + groups_text(g, lead).len();
            e == t.len() || (e + 1 < t.len() && t[e] == 58 && t[e + 1] == 58)
        }),
    ensures
        read_groups(t, p, i, limit) == (g, p + groups_text(g, lead).len(), false),
    decreases g.len(),
{
    let e = p + groups_text(g, lead).len();
    if g.len() == 0 {
        assert(g =~= Seq::<nat>::empty());
        if i < limit {
            let q = if i == 0 {
                p
            } else if 0 <= p < t.len() && t[p] == 58 {
                p + 1
            } else {
                -1
            };
            if q >= 0 {
                lemma_no_v4(t, q);
                assert(digit_run(t, q, 16) == 0);
            }
        }
    } else {
        let a = if lead {
            seq![58u8]
        } else {
            Seq::<u8>::empty()
        };
        let h = hexadecimal(g[0]);
        let g1 = g.drop_first();
        let r = groups_text(g1, true);
        assert(groups_text(g, lead) == a + h + r);
        let q = p + a.len();
        if lead {
            assert(t[p + 0] == groups_text(g, lead)[0]);
        }
        reveal_with_fuel(power, 5);
        lemma_numeral_shape(g[0], 16, 4);
        assert forall|k: int| 0 <= k < numeral(g[0], 16).len() implies t[q + k]
            == #[trigger] numeral(g[0], 16)[k] by {
            assert(t[p + (a.len() + k)] == groups_text(g, lead)[(a.len() + k) as int]);
        }
        let p1 = q + h.len();
        if p1 < t.len() {
            if g1.len() > 0 {
                assert(r[0] == 58);
                assert(t[p + (a.len() + h.len())] == groups_text(g, lead)[(a.len() + h.len()) as int]);
            }
        }
        lemma_read_numeral(t, q, g[0], 16, 4, true);
        lemma_no_v4(t, q);
        assert forall|k: int| 0 <= k < g1.len() implies #[trigger] g1[k] < 65536 by {
            assert(g1[k] == g[k + 1]);
        }
        assert forall|k: int| 0 <= k < groups_text(g1, true).len() implies t[p1 + k]
            == #[trigger] groups_text(g1, true)[k] by {
            assert(t[p + (a.len() + h.len() + k)] == groups_text(g, lead)[(a.len() + h.len() + k) as int]);
        }
        lemma_read_hex_groups(t, p1, i + 1, limit, g1, true);
        assert(seq![g[0]] + g1 =~= g);
    }
}

proof fn lemma_zeros_ending_at(s: Seq<nat>, i: int)
    requires
        -1 <= i < s.len(),
    ensures
        zeros_ending_at(s, i) <= i + 1,
        forall|k: int| i - zeros_ending_at(s, i) < k <= i ==> #[trigger] s[k] == 0,
    decreases i + 1,
{
    if i >= 0 && s[i] == 0 {
        lemma_zeros_ending_at(s, i - 1);
    }
}

/// The longest run found is a run of zeros within the first `n` segments.
proof fn lemma_longest_zero_run(s: Seq<nat>, n: nat)
    requires
        n <= s.len(),
    ensures
        longest_zero_run(s, n).0 + longest_zero_run(s, n).1 <= n,
        forall|k: int|
            longest_zero_run(s, n).0 <= k < longest_zero_run(s, n).0 + longest_zero_run(s, n).1
                ==> #[trigger] s[k] == 0,
    decreases n,
{
    if n > 0 {
        lemma_longest_zero_run(s, (n - 1) as nat);
        lemma_zeros_ending_at(s, n - 1);
    }
}

proof fn lemma_v6_mapped_round_trip(t: Seq<u8>, s: Seq<nat>)
    requires
        s.len() == 8,
        forall|k: int| 0 <= k < 8 ==> #[trigger] s[k] < 65536,
        is_v4_mapped(s),
        t == v6_text(s),
    ensures
        read_v4(t, 0) is None,
        parse_v6(t) == Some(s),
{
    let pre = seq![58u8, 58u8, 102u8, 102u8, 102u8, 102u8, 58u8];
    let o = seq![s[6] / 256, s[6] % 256, s[7] / 256, s[7] % 256];
    let w = v4_text(o);
    assert(t == pre + w);
    assert(t[0] == 58 && t[1] == 58 && t[2] == 102 && t[6] == 58);
    assert(digit_run(t, 0, 10) == 0);
    assert(digit_run(t, 0, 16) == 0);
    assert(digit_run(t, 2, 10) == 0);
    assert(read_v4(t, 0) is None);
    assert(read_v4(t, 2) is None);
    assert(read_groups(t, 0, 0, 8) == (Seq::<nat>::empty(), 0int, false));
    reveal_with_fuel(hexadecimal, 5);
    assert(hexadecimal(65535) =~= seq![102u8, 102u8, 102u8, 102u8]);
    assert forall|k: int| 0 <= k < numeral(65535, 16).len() implies t[2 + k]
        == #[trigger] numeral(65535, 16)[k] by {
        assert(t[2 + k] == pre[2 + k]);
    }
    reveal_with_fuel(power, 5);
    lemma_read_numeral(t, 2, 65535, 16, 4, true);
    assert forall|k: int| 0 <= k < 4 implies #[trigger] o[k] < 256 by {}
    lemma_v4_text_dotted(o);
    assert(t.subrange(7, t.len() as int) =~= w);
    lemma_read_dotted(t, 7, 0, o);
    assert(o.subrange(0, 4) =~= o);
    assert(read_v4(t, 7) == Some((o, t.len() as int)));
    let g = seq![o[0] * 256 + o[1], o[2] * 256 + o[3]];
    assert(read_groups(t, 6, 1, 7) == (g, t.len() as int, true));
    assert(read_groups(t, 2, 0, 7) == (seq![65535nat] + g, t.len() as int, true));
    assert(o[0] * 256 + o[1] == s[6]);
    assert(o[2] * 256 + o[3] == s[7]);
    let tail = seq![65535nat] + g;
    assert(Seq::<nat>::empty() + Seq::new(5, |k: int| 0nat) + tail =~= s);
}

proof fn lemma_v6_compressed_round_trip(t: Seq<u8>, s: Seq<nat>, st: nat, ln: nat)
    requires
        s.len() == 8,
        forall|k: int| 0 <= k < 8 ==> #[trigger] s[k] < 65536,
        st + ln <= 8,
        ln > 1,
        forall|k: int| st <= k < st + ln ==> #[trigger] s[k] == 0,
        t == hex_list(s.take(st as int)) + seq![58u8, 58u8] + hex_list(s.skip((st + ln) as int)),
    ensures
        read_v4(t, 0) is None,
        parse_v6(t) == Some(s),
{
    let a = s.take(st as int);
    let b = s.skip((st + ln) as int);
    assert forall|k: int| 0 <= k < a.len() implies #[trigger] a[k] < 65536 by {
        assert(a[k] == s[k]);
    }
    assert forall|k: int| 0 <= k < b.len() implies #[trigger] b[k] < 65536 by {
        assert(b[k] == s[k + st + ln]);
    }
    lemma_hex_list_groups(a);
    lemma_hex_list_groups(b);
    let ta = groups_text(a, false);
    let tb = groups_text(b, false);
    assert(t == ta + seq![58u8, 58u8] + tb);
    lemma_groups_text_no_dot(a, false);
    lemma_groups_text_no_dot(b, false);
    assert forall|k: int| 0 <= k < t.len() implies #[trigger] t[k] != 46 by {
        if k < ta.len() {
            assert(t[k] == ta[k]);
        } else if k >= ta.len() + 2 {
            assert(t[k] == tb[k - ta.len() - 2]);
        }
    }
    lemma_no_v4(t, 0);
    let hp = ta.len() as int;
    assert forall|k: int| 0 <= k < ta.len() implies t[0 + k] == #[trigger] ta[k] by {}
    assert(t[hp] == 58 && t[hp + 1] == 58);
    lemma_read_hex_groups(t, 0, 0, 8, a, false);
    let limit = (8 - (a.len() + 1)) as nat;
    assert forall|k: int| 0 <= k < tb.len() implies t[(hp + 2) + k] == #[trigger] tb[k] by {}
    lemma_read_hex_groups(t, hp + 2, 0, limit, b, false);
    assert(a + Seq::new((8 - a.len() - b.len()) as nat, |k: int| 0nat) + b =~= s);
}

proof fn lemma_v6_plain_round_trip(t: Seq<u8>, s: Seq<nat>)
    requires
        s.len() == 8,
        forall|k: int| 0 <= k < 8 ==> #[trigger] s[k] < 65536,
        t == hex_list(s),
    ensures
        read_v4(t, 0) is None,
        parse_v6(t) == Some(s),
{
    lemma_hex_list_groups(s);
    lemma_groups_text_no_dot(s, false);
    lemma_no_v4(t, 0);
    assert forall|k: int| 0 <= k < t.len() implies t[0 + k] == #[trigger] groups_text(s, false)[k] by {}
    lemma_read_hex_groups(t, 0, 0, 8, s, false);
}

proof fn lemma_v6_round_trip(v: u128)
    ensures
        parse_address(address_text(IpAddress::V6(v))) == Some(IpAddress::V6(v)),
{
    let s = segments_of(v);
    let t = v6_text(s);
    lemma_limbs_len(v as nat, 65536, 8);
    lemma_limbs_bounded(v as nat, 65536, 8);
    if is_v4_mapped(s) {
        lemma_v6_mapped_round_trip(t, s);
    } else {
        let (st, ln) = longest_zero_run(s, 8);
        lemma_longest_zero_run(s, 8);
        if ln > 1 {
            lemma_v6_compressed_round_trip(t, s, st, ln);
        } else {
            lemma_v6_plain_round_trip(t, s);
        }
    }
    reveal_with_fuel(power, 9);
    lemma_combine_limbs(v as nat, 65536, 8);
}

/// Formatting an address and parsing the text gives the same address back,
/// for IPv4 and IPv6 alike.
pub proof fn lemma_parse_of_format(a: IpAddress)
    ensures
        parse_address(address_text(a)) == Some(a),
{
    match a {
        IpAddress::V4(v) => lemma_v4_round_trip(v),
        IpAddress::V6(v) => lemma_v6_round_trip(v),
    }
}

/// Every byte of a numeral below `power(base, k)` is a visible ASCII character.
proof fn lemma_numeral_ascii(n: nat, base: nat, k: nat)
    requires
        base == 10 || base == 16,
        1 <= k,
        n < power(base, k),
    ensures
        forall|i: int| 0 <= i < numeral(n, base).len() ==> 46 <= #[trigger] numeral(n, base)[i] <= 102,
{
    lemma_numeral_shape(n, base, k);
}

proof fn lemma_v4_text_ascii(o: Seq<nat>)
    requires
        o.len() == 4,
        forall|k: int| 0 <= k < 4 ==> #[trigger] o[k] < 256,
    ensures
        forall|i: int| 0 <= i < v4_text(o).len() ==> 46 <= #[trigger] v4_text(o)[i] <= 102,
        v4_text(o).len() > 0,
{
    reveal_with_fuel(power, 4);
    let d = seq![46u8];
    let n0 = numeral(o[0], 10);
    let n1 = numeral(o[1], 10);
    let n2 = numeral(o[2], 10);
    let n3 = numeral(o[3], 10);
    assert(o[0] < 256 && o[1] < 256 && o[2] < 256 && o[3] < 256);
    lemma_numeral_ascii(o[0], 10, 3);
    lemma_numeral_ascii(o[1], 10, 3);
    lemma_numeral_ascii(o[2], 10, 3);
    lemma_numeral_ascii(o[3], 10, 3);
    let t = v4_text(o);
    assert(t == n0 + d + n1 + d + n2 + d + n3);
    assert forall|i: int| 0 <= i < t.len() implies 46 <= #[trigger] t[i] <= 102 by {
        let l0 = n0.len() as int;
        let l1 = l0 + 1 + n1.len();
        let l2 = l1 + 1 + n2.len();
        if i < l0 {
            assert(t[i] == n0[i]);
        } else if i == l0 {
        } else if i < l1 {
            assert(t[i] == n1[i - l0 - 1]);
        } else if i == l1 {
        } else if i < l2 {
            assert(t[i] == n2[i - l1 - 1]);
        } else if i == l2 {
        } else {
            assert(t[i] == n3[i - l2 - 1]);
        }
    }
}

/// The canonical text of an address is non-empty, and made of digits, letters,
/// dots and colons.
pub(crate) proof fn lemma_address_text_ascii(a: IpAddress)
    ensures
        address_text(a).len() > 0,
        forall|i: int| 0 <= i < address_text(a).len() ==> 46 <= #[trigger] address_text(a)[i] <= 102,
{
    match a {
        IpAddress::V4(v) => {
            lemma_limbs_len(v as nat, 256, 4);
            lemma_limbs_bounded(v as nat, 256, 4);
            lemma_v4_text_ascii(octets_of(v));
        },
        IpAddress::V6(v) => {
            let s = segments_of(v);
            lemma_limbs_len(v as nat, 65536, 8);
            lemma_limbs_bounded(v as nat, 65536, 8);
            let t = v6_text(s);
            if is_v4_mapped(s) {
                let pre = seq![58u8, 58u8, 102u8, 102u8, 102u8, 102u8, 58u8];
                let o = seq![s[6] / 256, s[6] % 256, s[7] / 256, s[7] % 256];
                lemma_v4_text_ascii(o);
                assert(t == pre + v4_text(o));
                assert forall|i: int| 0 <= i < t.len() implies 46 <= #[trigger] t[i] <= 102 by {
                    if i >= 7 {
                        assert(t[i] == v4_text(o)[i - 7]);
                    }
                }
            } else {
                let (st, ln) = longest_zero_run(s, 8);
                lemma_longest_zero_run(s, 8);
                if ln > 1 {
                    let a1 = s.take(st as int);
                    let b1 = s.skip((st + ln) as int);
                    assert forall|k: int| 0 <= k < a1.len() implies #[trigger] a1[k] < 65536 by {
                        assert(a1[k] == s[k]);
                    }
                    assert forall|k: int| 0 <= k < b1.len() implies #[trigger] b1[k] < 65536 by {
                        assert(b1[k] == s[k + st + ln]);
                    }
                    lemma_hex_list_groups(a1);
                    lemma_hex_list_groups(b1);
                    lemma_groups_text_no_dot(a1, false);
                    lemma_groups_text_no_dot(b1, false);
                    let ta = groups_text(a1, false);
                    let tb = groups_text(b1, false);
                    assert(t == ta + seq![58u8, 58u8] + tb);
                    assert forall|i: int| 0 <= i < t.len() implies 46 <= #[trigger] t[i] <= 102 by {
                        if i < ta.len() {
                            assert(t[i] == ta[i]);
                        } else if i >= ta.len() + 2 {
                            assert(t[i] == tb[i - ta.len() - 2]);
                        }
                    }
                } else {
                    lemma_hex_list_groups(s);
                    lemma_groups_text_no_dot(s, false);
                }
            }
        },
    }
}

/// A string that holds the canonical text of an address, such as what
/// `to_string` returns, parses back to that address.
pub proof fn lemma_parse_of_formatted_str(a: IpAddress, s: &str)
    requires
        s@ == ascii_chars(address_text(a)),
    ensures
        parse_address(s.spec_bytes()) == Some(a),
{
    let t = address_text(a);
    lemma_address_text_ascii(a);
    assert(vstd::string::is_ascii(s)) by {
        assert forall|i: int| 0 <= i < s@.len() implies '\0' <= #[trigger] s@[i] <= '\u{7f}' by {
            assert(s@[i] == t[i] as char);
        }
    }
    vstd::string::is_ascii_spec_bytes(s);
    assert(s.spec_bytes() =~= t) by {
        assert forall|i: int| 0 <= i < t.len() implies s.spec_bytes()[i] == t[i] by {
            assert(s@[i] == t[i] as char);
        }
    }
    lemma_parse_of_format(a);
}

} // verus!
