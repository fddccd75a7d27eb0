use vstd::prelude::*;

use crate::address::{IpAddress, lemma_limbs_len, limbs, octets_of, segments_of};
use crate::text::push_char;

verus! {

/// The ASCII code of a digit value below sixteen; letters are lowercase.
pub open spec fn digit_byte(d: nat) -> u8 {
    if d < 10 {
        (48 + d) as u8
    } else {
        (87 + d) as u8
    }
}

/// Decimal digits of `n`, most significant first, without leading zeros.
pub open spec fn decimal(n: nat) -> Seq<u8>
    decreases n,
{
    if n < 10 {
        seq![digit_byte(n)]
    } else {
        decimal(n / 10).push(digit_byte(n % 10))
    }
}

/// Lowercase hexadecimal digits of `n`, most significant first, without leading zeros.
pub open spec fn hexadecimal(n: nat) -> Seq<u8>
    decreases n,
{
    if n < 16 {
        seq![digit_byte(n)]
    } else {
        hexadecimal(n / 16).push(digit_byte(n % 16))
    }
}

/// The digits of `n` in base ten or sixteen.
pub open spec fn numeral(n: nat, base: nat) -> Seq<u8> {
    if base == 16 {
        hexadecimal(n)
    } else {
        decimal(n)
    }
}

/// Dotted-decimal text of four octets.
pub open spec fn v4_text(o: Seq<nat>) -> Seq<u8> {
    numeral(o[0], 10) + seq![46u8] + numeral(o[1], 10) + seq![46u8] + numeral(o[2], 10) + seq![
        46u8,
    ] + numeral(o[3], 10)
}

/// Segments in lowercase hexadecimal, separated by colons.
pub open spec fn hex_list(s: Seq<nat>) -> Seq<u8>
    decreases s.len(),
{
    if s.len() == 0 {
        Seq::empty()
    } else if s.len() == 1 {
        numeral(s[0], 16)
    } else {
        hex_list(s.drop_last()) + seq![58u8] + numeral(s.last(), 16)
    }
}

/// How many zero segments end at index `i` (inclusive), counting backwards.
pub open spec fn zeros_ending_at(s: Seq<nat>, i: int) -> nat
    decreases i + 1,
{
    if i < 0 || i >= s.len() || s[i] != 0 {
        0
    } else {
        1 + zeros_ending_at(s, i - 1)
    }
}

/// Start and length of the first longest run of zero segments among the first `n`.
pub open spec fn longest_zero_run(s: Seq<nat>, n: nat) -> (nat, nat)
    decreases n,
{
    if n == 0 {
        (0, 0)
    } else {
        let best = longest_zero_run(s, (n - 1) as nat);
        let run = zeros_ending_at(s, n - 1);
        if run > best.1 {
            ((n - run) as nat, run)
        } else {
            best
        }
    }
}

/// An IPv6 address whose first 80 bits are zero and the next 16 are ones.
pub open spec fn is_v4_mapped(s: Seq<nat>) -> bool {
    s[0] == 0 && s[1] == 0 && s[2] == 0 && s[3] == 0 && s[4] == 0 && s[5] == 0xffff
}

/// Canonical text of eight segments: an IPv4-mapped address as `::ffff:` and
/// dotted decimal; otherwise hexadecimal groups, with the first longest run of
/// two or more zero segments written as `::`.
pub open spec fn v6_text(s: Seq<nat>) -> Seq<u8> {
    if is_v4_mapped(s) {
        seq![58u8, 58u8, 102u8, 102u8, 102u8, 102u8, 58u8] + v4_text(
            seq![s[6] / 256, s[6] % 256, s[7] / 256, s[7] % 256],
        )
    } else {
        let (start, len) = longest_zero_run(s, 8);
        if len > 1 {
            hex_list(s.take(start as int)) + seq![58u8, 58u8] + hex_list(
                s.skip((start + len) as int),
            )
        } else {
            hex_list(s)
        }
    }
}

/// The canonical text of an address, as ASCII bytes.
pub open spec fn address_text(a: IpAddress) -> Seq<u8> {
    match a {
        IpAddress::V4(v) => v4_text(octets_of(v)),
        IpAddress::V6(v) => v6_text(segments_of(v)),
    }
}

/// ASCII bytes read as characters.
pub open spec fn ascii_chars(b: Seq<u8>) -> Seq<char> {
    b.map_values(|x: u8| x as char)
}

fn push_numeral(out: &mut String, n: u32, base: u32)
    requires
        base == 10 || base == 16,
    ensures
        final(out)@ == old(out)@ + ascii_chars(numeral(n as nat, base as nat)),
    decreases n,
{
    if n < base {
        let d = if n < 10 { (48 + n) as u8 } else { (87 + n) as u8 };
        push_char(out, d as char);
        assert(ascii_chars(numeral(n as nat, base as nat)) =~= seq![d as char]);
    } else {
        assert(n / base < n) by (nonlinear_arith)
            requires
                n >= base,
                base >= 10,
        ;
        push_numeral(out, n / base, base);
        let m = n % base;
        let d = if m < 10 { (48 + m) as u8 } else { (87 + m) as u8 };
        push_char(out, d as char);
        assert(ascii_chars(numeral(n as nat, base as nat)) =~= ascii_chars(
            numeral((n / base) as nat, base as nat),
        ).push(d as char));
    }
}

proof fn lemma_ascii_chars_add(a: Seq<u8>, b: Seq<u8>)
    ensures
        ascii_chars(a + b) == ascii_chars(a) + ascii_chars(b),
{
    assert(ascii_chars(a + b) =~= ascii_chars(a) + ascii_chars(b));
}

/// The last `n` base-`base` digits of `v`, most significant first.
fn split_value(v: u128, base: u128, n: usize) -> (r: Vec<u32>)
    requires
        2 <= base <= 65536,
    ensures
        r@.map_values(|x: u32| x as nat) == limbs(v as nat, base as nat, n as nat),
    decreases n,
{
    if n == 0 {
        let r: Vec<u32> = Vec::new();
        assert(r@.map_values(|x: u32| x as nat) =~= limbs(v as nat, base as nat, n as nat));
        r
    } else {
        let mut r = split_value(v / base, base, n - 1);
        let ghost prev = r@;
        r.push((v % base) as u32);
        assert(r@.map_values(|x: u32| x as nat) =~= prev.map_values(|x: u32| x as nat).push(
            (v % base) as nat,
        ));
        r
    }
}

fn push_str_ascii(out: &mut String, b: &[u8])
    requires
        forall|i: int| 0 <= i < b@.len() ==> b@[i] < 128,
    ensures
        final(out)@ == old(out)@ + ascii_chars(b@),
{
    let mut i: usize = 0;
    while i < b.len()
        invariant
            i <= b@.len(),
            out@ == old(out)@ + ascii_chars(b@.take(i as int)),
        decreases b@.len() - i,
    {
        push_char(out, b[i] as char);
        assert(ascii_chars(b@.take(i + 1)) =~= ascii_chars(b@.take(i as int)).push(b@[i as int] as char));
        i = i + 1;
    }
    assert(b@.take(i as int) =~= b@);
}

fn push_v4(out: &mut String, o: &[u32])
    requires
        o@.len() == 4,
        forall|i: int| 0 <= i < 4 ==> o@[i] < 256,
    ensures
        final(out)@ == old(out)@ + ascii_chars(v4_text(o@.map_values(|x: u32| x as nat))),
{
    let ghost s = o@.map_values(|x: u32| x as nat);
    let ghost start = out@;
    push_numeral(out, o[0], 10);
    push_char(out, '.');
    push_numeral(out, o[1], 10);
    push_char(out, '.');
    push_numeral(out, o[2], 10);
    push_char(out, '.');
    push_numeral(out, o[3], 10);
    proof {
        let d = seq![46u8];
        lemma_ascii_chars_add(numeral(s[0], 10), d);
        lemma_ascii_chars_add(numeral(s[0], 10) + d, numeral(s[1], 10));
        lemma_ascii_chars_add(numeral(s[0], 10) + d + numeral(s[1], 10), d);
        lemma_ascii_chars_add(numeral(s[0], 10) + d + numeral(s[1], 10) + d, numeral(s[2], 10));
        lemma_ascii_chars_add(numeral(s[0], 10) + d + numeral(s[1], 10) + d + numeral(s[2], 10), d);
        lemma_ascii_chars_add(
            numeral(s[0], 10) + d + numeral(s[1], 10) + d + numeral(s[2], 10) + d,
            numeral(s[3], 10),
        );
        assert(ascii_chars(d) =~= seq!['.']);
        assert(out@ =~= start + ascii_chars(v4_text(s)));
    }
}

/// Writes `s[lo..hi]` as hexadecimal groups separated by colons.
fn push_hex_list(out: &mut String, s: &[u32], lo: usize, hi: usize)
    requires
        lo <= hi <= s@.len(),
        forall|i: int| 0 <= i < s@.len() ==> s@[i] < 65536,
    ensures
        final(out)@ == old(out)@ + ascii_chars(
            hex_list(s@.map_values(|x: u32| x as nat).subrange(lo as int, hi as int)),
        ),
{
    let ghost m = s@.map_values(|x: u32| x as nat);
    let mut i: usize = lo;
    while i < hi
        invariant
            lo <= i <= hi <= s@.len(),
            m == s@.map_values(|x: u32| x as nat),
            forall|k: int| 0 <= k < s@.len() ==> s@[k] < 65536,
            out@ == old(out)@ + ascii_chars(hex_list(m.subrange(lo as int, i as int))),
        decreases hi - i,
    {
        let ghost prev = m.subrange(lo as int, i as int);
        let ghost next = m.subrange(lo as int, i + 1);
        assert(next.drop_last() =~= prev);
        assert(next.last() == s@[i as int] as nat);
        if i > lo {
            push_char(out, ':');
            push_numeral(out, s[i], 16);
            proof {
                lemma_ascii_chars_add(hex_list(prev), seq![58u8]);
                lemma_ascii_chars_add(hex_list(prev) + seq![58u8], numeral(next.last(), 16));
                assert(ascii_chars(seq![58u8]) =~= seq![':']);
                assert(out@ =~= old(out)@ + ascii_chars(hex_list(next)));
            }
        } else {
            push_numeral(out, s[i], 16);
            assert(next.len() == 1);
        }
        i = i + 1;
    }
}

/// Start and length of the first longest run of zero segments.
fn find_longest_zero_run(s: &[u32]) -> (r: (usize, usize))
    ensures
        r.0 as nat == longest_zero_run(s@.map_values(|x: u32| x as nat), s@.len() as nat).0,
        r.1 as nat == longest_zero_run(s@.map_values(|x: u32| x as nat), s@.len() as nat).1,
        r.0 + r.1 <= s@.len(),
{
    let ghost m = s@.map_values(|x: u32| x as nat);
    let mut best_start: usize = 0;
    let mut best_len: usize = 0;
    let mut cur_len: usize = 0;
    let mut i: usize = 0;
    while i < s.len()
        invariant
            i <= s@.len(),
            m == s@.map_values(|x: u32| x as nat),
            best_start as nat == longest_zero_run(m, i as nat).0,
            best_len as nat == longest_zero_run(m, i as nat).1,
            best_start + best_len <= i,
            cur_len as nat == zeros_ending_at(m, i - 1),
            cur_len <= i,
        decreases s@.len() - i,
    {
        if s[i] == 0 {
            cur_len = cur_len + 1;
            if cur_len > best_len {
                best_len = cur_len;
                best_start = i + 1 - cur_len;
            }
        } else {
            cur_len = 0;
        }
        i = i + 1;
    }
    (best_start, best_len)
}

fn push_v6(out: &mut String, s: &[u32])
    requires
        s@.len() == 8,
        forall|i: int| 0 <= i < 8 ==> s@[i] < 65536,
    ensures
        final(out)@ == old(out)@ + ascii_chars(v6_text(s@.map_values(|x: u32| x as nat))),
{
    let ghost m = s@.map_values(|x: u32| x as nat);
    let ghost start = out@;
    if s[0] == 0 && s[1] == 0 && s[2] == 0 && s[3] == 0 && s[4] == 0 && s[5] == 0xffff {
        let prefix: [u8; 7] = [58, 58, 102, 102, 102, 102, 58];
        push_str_ascii(out, &prefix);
        let o: [u32; 4] = [s[6] / 256, s[6] % 256, s[7] / 256, s[7] % 256];
        push_v4(out, &o);
        proof {
            assert(prefix@ =~= seq![58u8, 58u8, 102u8, 102u8, 102u8, 102u8, 58u8]);
            assert(o@.map_values(|x: u32| x as nat) =~= seq![m[6] / 256, m[6] % 256, m[7] / 256, m[7] % 256]);
            lemma_ascii_chars_add(prefix@, v4_text(o@.map_values(|x: u32| x as nat)));
        }
    } else {
        let (zs, zl) = find_longest_zero_run(s);
        if zl > 1 {
            push_hex_list(out, s, 0, zs);
            push_char(out, ':');
            push_char(out, ':');
            push_hex_list(out, s, zs + zl, 8);
            proof {
                let a = hex_list(m.take(zs as int));
                let b = hex_list(m.skip((zs + zl) as int));
                assert(m.subrange(0, zs as int) =~= m.take(zs as int));
                assert(m.subrange((zs + zl) as int, 8) =~= m.skip((zs + zl) as int));
                lemma_ascii_chars_add(a, seq![58u8, 58u8]);
                lemma_ascii_chars_add(a + seq![58u8, 58u8], b);
                assert(ascii_chars(seq![58u8, 58u8]) =~= seq![':', ':']);
                assert(out@ =~= start + ascii_chars(v6_text(m)));
            }
        } else {
            push_hex_list(out, s, 0, 8);
            assert(m.subrange(0, 8) =~= m);
        }
    }
}

/// The canonical text of an address.
pub fn address_to_string(a: IpAddress) -> (r: String)
    ensures
        r@ == ascii_chars(address_text(a)),
{
    let mut out = String::new();
    match a {
        IpAddress::V4(v) => {
            let o = split_value(v as u128, 256, 4);
            proof {
                lemma_limbs_len(v as nat, 256, 4);
                crate::address::lemma_limbs_bounded(v as nat, 256, 4);
                assert forall|i: int| 0 <= i < 4 implies o@[i] < 256 by {
                    assert(o@.map_values(|x: u32| x as nat)[i] == o@[i] as nat);
                }
            }
            push_v4(&mut out, o.as_slice());
        },
        IpAddress::V6(v) => {
            let s = split_value(v, 65536, 8);
            proof {
                lemma_limbs_len(v as nat, 65536, 8);
                crate::address::lemma_limbs_bounded(v as nat, 65536, 8);
                assert forall|i: int| 0 <= i < 8 implies s@[i] < 65536 by {
                    assert(s@.map_values(|x: u32| x as nat)[i] == s@[i] as nat);
                }
            }
            push_v6(&mut out, s.as_slice());
        },
    }
    assert(out@ =~= ascii_chars(address_text(a)));
    out
}

} // verus!
