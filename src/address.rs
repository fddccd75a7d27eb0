use vstd::prelude::*;

use crate::parse::combine_exec;

verus! {

/// An IP address with its family: a 32-bit IPv4 value or a 128-bit IPv6 value.
#[derive(Clone, Copy, Debug, PartialEq, Eq, Structural)]
pub enum IpAddress {
    V4(u32),
    V6(u128),
}

/// The last `n` base-`base` digits of `v`, most significant first.
pub open spec fn limbs(v: nat, base: nat, n: nat) -> Seq<nat>
    decreases n,
{
    if n == 0 || base == 0 {
        Seq::empty()
    } else {
        limbs(v / base, base, (n - 1) as nat).push(v % base)
    }
}

/// The number whose base-`base` digits are `s`, most significant first.
pub open spec fn combine(s: Seq<nat>, base: nat) -> nat
    decreases s.len(),
{
    if s.len() == 0 {
        0
    } else {
        combine(s.drop_last(), base) * base + s.last()
    }
}

/// `base` raised to `n`.
pub open spec fn power(base: nat, n: nat) -> nat
    decreases n,
{
    if n == 0 {
        1
    } else {
        base * power(base, (n - 1) as nat)
    }
}

/// The four octets of an IPv4 value, most significant first.
pub open spec fn octets_of(v: u32) -> Seq<nat> {
    limbs(v as nat, 256, 4)
}

/// The eight 16-bit segments of an IPv6 value, most significant first.
pub open spec fn segments_of(v: u128) -> Seq<nat> {
    limbs(v as nat, 65536, 8)
}

pub proof fn lemma_limbs_len(v: nat, base: nat, n: nat)
    requires
        base > 0,
    ensures
        limbs(v, base, n).len() == n,
    decreases n,
{
    if n > 0 {
        lemma_limbs_len(v / base, base, (n - 1) as nat);
    }
}

pub proof fn lemma_limbs_bounded(v: nat, base: nat, n: nat)
    requires
        base > 0,
    ensures
        forall|i: int| 0 <= i < limbs(v, base, n).len() ==> #[trigger] limbs(v, base, n)[i] < base,
    decreases n,
{
    if n > 0 {
        lemma_limbs_bounded(v / base, base, (n - 1) as nat);
        let l = limbs(v / base, base, (n - 1) as nat);
        assert forall|i: int| 0 <= i < limbs(v, base, n).len() implies #[trigger] limbs(
            v,
            base,
            n,
        )[i] < base by {
            if i < l.len() {
                assert(limbs(v, base, n)[i] == l[i]);
            }
        }
    }
}

/// Splitting a value into `n` digits and putting them back gives the value,
/// when it has at most `n` digits.
pub proof fn lemma_combine_limbs(v: nat, base: nat, n: nat)
    requires
        base > 1,
        v < power(base, n),
    ensures
        combine(limbs(v, base, n), base) == v,
    decreases n,
{
    if n == 0 {
    } else {
        let p = power(base, (n - 1) as nat);
        assert(v / base < p) by {
            vstd::arithmetic::div_mod::lemma_multiply_divide_lt(v as int, base as int, p as int);
        }
        lemma_combine_limbs(v / base, base, (n - 1) as nat);
        let l = limbs(v / base, base, (n - 1) as nat);
        assert(limbs(v, base, n).drop_last() == l);
        assert(limbs(v, base, n).last() == v % base);
        vstd::arithmetic::div_mod::lemma_fundamental_div_mod(v as int, base as int);
        assert((v / base) * base == base * (v / base)) by (nonlinear_arith);
    }
}

/// Digits below `base` make a number with at most as many digits.
pub proof fn lemma_combine_bounded(s: Seq<nat>, base: nat)
    requires
        base > 0,
        forall|i: int| 0 <= i < s.len() ==> #[trigger] s[i] < base,
    ensures
        combine(s, base) < power(base, s.len()),
    decreases s.len(),
{
    if s.len() > 0 {
        let t = s.drop_last();
        assert forall|i: int| 0 <= i < t.len() implies #[trigger] t[i] < base by {
            assert(t[i] == s[i]);
        }
        lemma_combine_bounded(t, base);
        let c = combine(t, base);
        let p = power(base, t.len());
        assert(c * base + s.last() < base * p) by (nonlinear_arith)
            requires
                c < p,
                s.last() < base,
        ;
        assert(power(base, s.len()) == base * p);
    }
}

/// Combining digits and splitting the result again gives the digits back.
pub proof fn lemma_limbs_combine(s: Seq<nat>, base: nat)
    requires
        base > 0,
        forall|i: int| 0 <= i < s.len() ==> #[trigger] s[i] < base,
    ensures
        limbs(combine(s, base), base, s.len()) == s,
    decreases s.len(),
{
    if s.len() > 0 {
        let t = s.drop_last();
        assert forall|i: int| 0 <= i < t.len() implies #[trigger] t[i] < base by {
            assert(t[i] == s[i]);
        }
        lemma_limbs_combine(t, base);
        let c = combine(t, base);
        let v = c * base + s.last();
        vstd::arithmetic::div_mod::lemma_fundamental_div_mod_converse(
            v as int,
            base as int,
            c as int,
            s.last() as int,
        );
        assert(s == t.push(s.last()));
    }
}

impl IpAddress {
    /// The IPv4 address with these four octets, most significant first.
    pub fn from_octets(o: [u8; 4]) -> (r: IpAddress)
        ensures
            r is V4,
            octets_of(r->V4_0) == o@.map_values(|x: u8| x as nat),
    {
        let mut v: Vec<u32> = Vec::new();
        let mut i: usize = 0;
        while i < 4
            invariant
                i <= 4,
                v@.len() == i,
                forall|k: int| 0 <= k < i ==> v@[k] as nat == o@[k] as nat,
            decreases 4 - i,
        {
            v.push(o[i] as u32);
            i = i + 1;
        }
        let ghost m = v@.map_values(|x: u32| x as nat);
        proof {
            assert(m =~= o@.map_values(|x: u8| x as nat));
            reveal_with_fuel(power, 5);
            lemma_limbs_combine(m, 256);
            lemma_combine_bounded(m, 256);
        }
        let c = combine_exec(v.as_slice(), 256);
        IpAddress::V4(c as u32)
    }

    /// The IPv6 address with these eight segments, most significant first.
    pub fn from_segments(s: [u16; 8]) -> (r: IpAddress)
        ensures
            r is V6,
            segments_of(r->V6_0) == s@.map_values(|x: u16| x as nat),
    {
        let mut v: Vec<u32> = Vec::new();
        let mut i: usize = 0;
        while i < 8
            invariant
                i <= 8,
                v@.len() == i,
                forall|k: int| 0 <= k < i ==> v@[k] as nat == s@[k] as nat,
            decreases 8 - i,
        {
            v.push(s[i] as u32);
            i = i + 1;
        }
        let ghost m = v@.map_values(|x: u32| x as nat);
        proof {
            assert(m =~= s@.map_values(|x: u16| x as nat));
            reveal_with_fuel(power, 9);
            lemma_limbs_combine(m, 65536);
            lemma_combine_bounded(m, 65536);
        }
        let c = combine_exec(v.as_slice(), 65536);
        IpAddress::V6(c)
    }
}

} // verus!
