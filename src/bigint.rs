//! Arbitrary-precision integers in two's complement: 32-bit limbs, least
//! significant first, the top bit of the last limb giving the sign.

use vstd::prelude::*;

verus! {

/// The limb base, 2^32.
pub open spec fn base() -> nat {
    0x1_0000_0000
}

/// `base()` raised to `k`.
pub open spec fn base_pow(k: nat) -> nat
    decreases k,
{
    if k == 0 {
        1
    } else {
        base() * base_pow((k - 1) as nat)
    }
}

/// The limbs read as an unsigned number.
pub open spec fn unsigned_value(s: Seq<u32>) -> nat
    decreases s.len(),
{
    if s.len() == 0 {
        0
    } else {
        unsigned_value(s.drop_last()) + s.last() as nat * base_pow((s.len() - 1) as nat)
    }
}

/// The top bit of the last limb is set.
pub open spec fn is_negative(s: Seq<u32>) -> bool {
    s.len() > 0 && s.last() >= 0x8000_0000
}

/// The limbs read as a two's-complement number.
pub open spec fn value(s: Seq<u32>) -> int {
    unsigned_value(s) - if is_negative(s) { base_pow(s.len()) as int } else { 0 }
}

/// The limb that extends `s` without changing its value.
pub open spec fn sign_fill(s: Seq<u32>) -> u32 {
    if is_negative(s) { u32::MAX } else { 0 }
}

/// The last limb only repeats the sign of the one before it.
pub open spec fn redundant_top(s: Seq<u32>) -> bool {
    s.len() > 1 && s.last() == sign_fill(s.drop_last())
}

/// Powers of the base are positive.
proof fn lemma_base_pow_positive(k: nat)
    ensures
        base_pow(k) >= 1,
    decreases k,
{
    if k > 0 {
        lemma_base_pow_positive((k - 1) as nat);
    }
}

/// Powers of the base grow with the exponent.
proof fn lemma_base_pow_mono(j: nat, k: nat)
    requires
        j <= k,
    ensures
        base_pow(j) <= base_pow(k),
    decreases k,
{
    if j < k {
        lemma_base_pow_mono(j, (k - 1) as nat);
        lemma_base_pow_positive((k - 1) as nat);
    }
}

/// The unsigned reading of `n` limbs is below `base_pow(n)`.
proof fn lemma_unsigned_bound(s: Seq<u32>)
    ensures
        unsigned_value(s) < base_pow(s.len()),
    decreases s.len(),
{
    if s.len() > 0 {
        let p = base_pow((s.len() - 1) as nat);
        lemma_unsigned_bound(s.drop_last());
        let l = s.last() as nat;
        assert(l * p + p <= base() * p) by (nonlinear_arith)
            requires l < base();
    }
}

/// A nonempty two's-complement reading lies in `[-base_pow(n) / 2, base_pow(n) / 2)`.
proof fn lemma_value_range(s: Seq<u32>)
    requires
        s.len() > 0,
    ensures
        -(base_pow(s.len()) as int) <= 2 * value(s) < base_pow(s.len()),
{
    let p = base_pow((s.len() - 1) as nat);
    let l = s.last() as nat;
    let u = unsigned_value(s.drop_last());
    lemma_unsigned_bound(s.drop_last());
    assert(base_pow(s.len()) == base() * p);
    if is_negative(s) {
        assert(0x8000_0000 * p <= l * p) by (nonlinear_arith)
            requires 0x8000_0000 <= l;
        assert(l * p + p <= base() * p) by (nonlinear_arith)
            requires l < base();
    } else {
        assert(l * p + p <= 0x8000_0000 * p) by (nonlinear_arith)
            requires l < 0x8000_0000;
    }
}

/// Appending the sign limb keeps the value and the sign.
proof fn lemma_extend(s: Seq<u32>)
    requires
        s.len() > 0,
    ensures
        value(s.push(sign_fill(s))) == value(s),
        is_negative(s.push(sign_fill(s))) == is_negative(s),
{
    let t = s.push(sign_fill(s));
    assert(t.drop_last() =~= s);
    let p = base_pow(s.len());
    assert(base_pow(t.len()) == base() * p);
    assert(unsigned_value(t) == unsigned_value(s) + sign_fill(s) as nat * p);
    if is_negative(s) {
        assert(u32::MAX as nat * p + p == base() * p) by (nonlinear_arith);
        assert(value(t) == unsigned_value(t) - base() * p);
    } else {
        assert(sign_fill(s) as nat * p == 0);
    }
}

/// Reading one more limb of a prefix.
proof fn lemma_prefix_step(s: Seq<u32>, i: int)
    requires
        0 <= i < s.len(),
    ensures
        unsigned_value(s.subrange(0, i + 1)) == unsigned_value(s.subrange(0, i)) + s[i] as nat * base_pow(i as nat),
{
    assert(s.subrange(0, i + 1).drop_last() =~= s.subrange(0, i));
}

/// One limb step of a carry chain: `limb + carry_out * base() == total`.
proof fn lemma_carry_step(prefix: nat, limb: nat, carry_out: nat, total: nat, p: nat)
    requires
        limb + carry_out * base() == total,
    ensures
        prefix + limb * p + carry_out * (base() * p) == prefix + total * p,
{
    assert(limb * p + carry_out * (base() * p) == total * p) by (nonlinear_arith)
        requires limb + carry_out * base() == total;
}

/// Two readings that agree modulo `base_pow(n)` and both lie in the signed
/// range are equal.
proof fn lemma_unique_in_range(x: int, y: int, k: int, p: int)
    requires
        p >= 1,
        -p <= 2 * x < p,
        -p <= 2 * y < p,
        x - y == k * p,
    ensures
        x == y,
{
    if k >= 1 {
        assert(k * p >= p) by (nonlinear_arith)
            requires k >= 1, p >= 1;
    } else if k <= -1 {
        assert(k * p <= -p) by (nonlinear_arith)
            requires k <= -1, p >= 1;
    }
}

/// Whether the last limb of `v` only repeats the sign of the one below it.
fn has_redundant_top(v: &Vec<u32>) -> (r: bool)
    ensures
        r == redundant_top(v@),
{
    let n = v.len();
    if n < 2 {
        return false;
    }
    proof {
        assert(v@.drop_last().last() == v@[n - 2]);
    }
    (v[n - 1] == 0 && v[n - 2] < 0x8000_0000) || (v[n - 1] == u32::MAX && v[n - 2] >= 0x8000_0000)
}

/// The lowercase hexadecimal digits, by value.
pub open spec fn hex_digits() -> Seq<char> {
    seq!['0', '1', '2', '3', '4', '5', '6', '7', '8', '9', 'a', 'b', 'c', 'd', 'e', 'f']
}

/// 16 raised to `j`.
pub open spec fn pow16(j: nat) -> nat
    decreases j,
{
    if j == 0 {
        1
    } else {
        16 * pow16((j - 1) as nat)
    }
}

/// Powers of 16 are positive.
proof fn lemma_pow16_positive(j: nat)
    ensures
        pow16(j) >= 1,
    decreases j,
{
    if j > 0 {
        lemma_pow16_positive((j - 1) as nat);
    }
}

/// The eight hexadecimal digits of a limb, most significant first.
pub open spec fn limb_hex(x: u32) -> Seq<char> {
    Seq::new(8, |k: int| hex_digits()[((x as nat / pow16((7 - k) as nat)) % 16) as int])
}

/// The hexadecimal rendering of the limbs: eight digits per limb, most
/// significant limb first.
pub open spec fn hex_of(s: Seq<u32>) -> Seq<char>
    decreases s.len(),
{
    if s.len() == 0 {
        Seq::empty()
    } else {
        hex_of(s.drop_first()) + limb_hex(s[0])
    }
}

/// The hexadecimal digit of `d`.
fn hex_char(d: u32) -> (c: char)
    requires
        d < 16,
    ensures
        c == hex_digits()[d as int],
{
    match d {
        0 => '0',
        1 => '1',
        2 => '2',
        3 => '3',
        4 => '4',
        5 => '5',
        6 => '6',
        7 => '7',
        8 => '8',
        9 => '9',
        10 => 'a',
        11 => 'b',
        12 => 'c',
        13 => 'd',
        14 => 'e',
        _ => 'f',
    }
}

/// Appends the eight hexadecimal digits of `x` to `out`.
fn push_limb_hex(out: &mut Vec<char>, x: u32)
    ensures
        final(out)@ == old(out)@ + limb_hex(x),
{
    let ghost start = out@;
    let mut d: u32 = 0x1000_0000;
    let mut k: usize = 0;
    proof {
        reveal_with_fuel(pow16, 8);
    }
    while k < 8
        invariant
            k <= 8,
            k < 8 ==> d as nat == pow16((7 - k) as nat),
            k < 8 ==> d >= 1,
            out@ == start + limb_hex(x).take(k as int),
        decreases 8 - k,
    {
        let digit = (x / d) % 16;
        let c = hex_char(digit);
        out.push(c);
        proof {
            assert(limb_hex(x).take(k + 1) =~= limb_hex(x).take(k as int).push(c));
            if k < 7 {
                assert(pow16((7 - k) as nat) == 16 * pow16((7 - (k + 1)) as nat));
                lemma_pow16_positive((7 - (k + 1)) as nat);
            }
        }
        d = d / 16;
        k = k + 1;
    }
    proof {
        assert(limb_hex(x).take(8) =~= limb_hex(x));
    }
}

/// An integer in two's complement.
#[derive(Debug, Clone)]
pub struct BigInt {
    /// The limbs, least significant first.
    pub carrier: Vec<u32>,
}

impl BigInt {
    /// The number given by the single limb `n`, read in two's complement.
    pub fn new(n: u32) -> (r: Self)
        ensures
            r.carrier@ == seq![n],
    {
        BigInt { carrier: vec![n] }
    }

    /// The number given by `carrier`, with redundant sign limbs dropped.
    pub fn new_large(carrier: Vec<u32>) -> (r: Self)
        requires
            carrier@.len() > 0,
        ensures
            r.carrier@.len() > 0,
            value(r.carrier@) == value(carrier@),
            !redundant_top(r.carrier@),
    {
        let bigint = BigInt { carrier };
        bigint.truncate()
    }

    /// The same number on at least `len` limbs.
    pub fn sign_extension(&self, len: usize) -> (r: Self)
        requires
            self.carrier@.len() > 0,
        ensures
            r.carrier@.len() == if len > self.carrier@.len() { len as int } else { self.carrier@.len() as int },
            r.carrier@.subrange(0, self.carrier@.len() as int) == self.carrier@,
            value(r.carrier@) == value(self.carrier@),
            is_negative(r.carrier@) == is_negative(self.carrier@),
    {
        let mut extended = self.carrier.clone();
        let sign_bit = self.carrier[self.carrier.len() - 1] >= 0x8000_0000;
        let fill: u32 = if sign_bit { u32::MAX } else { 0 };
        while extended.len() < len
            invariant
                extended@.len() >= self.carrier@.len(),
                extended@.len() <= len || extended@.len() == self.carrier@.len(),
                extended@.subrange(0, self.carrier@.len() as int) == self.carrier@,
                value(extended@) == value(self.carrier@),
                is_negative(extended@) == is_negative(self.carrier@),
                fill == sign_fill(self.carrier@),
                self.carrier@.len() > 0,
            decreases len - extended@.len(),
        {
            proof {
                lemma_extend(extended@);
            }
            extended.push(fill);
            proof {
                assert(extended@.subrange(0, self.carrier@.len() as int)
                    =~= extended@.drop_last().subrange(0, self.carrier@.len() as int));
            }
        }
        BigInt { carrier: extended }
    }

    /// Drops sign limbs that repeat the sign of the limb below them.
    pub fn truncate(&self) -> (r: Self)
        ensures
            r.carrier@.len() > 0 <==> self.carrier@.len() > 0,
            value(r.carrier@) == value(self.carrier@),
            !redundant_top(r.carrier@),
            r.carrier@ == self.carrier@.subrange(0, r.carrier@.len() as int),
    {
        let mut truncated = self.carrier.clone();
        while has_redundant_top(&truncated)
            invariant
                truncated@.len() > 0 <==> self.carrier@.len() > 0,
                truncated@.len() <= self.carrier@.len(),
                value(truncated@) == value(self.carrier@),
                truncated@ == self.carrier@.subrange(0, truncated@.len() as int),
            decreases truncated@.len(),
        {
            let ghost before = truncated@;
            truncated.pop();
            proof {
                lemma_extend(truncated@);
                assert(truncated@.push(sign_fill(truncated@)) =~= before);
            }
        }
        BigInt { carrier: truncated }
    }

    /// The two's complement of the limbs: the negated number on as many
    /// limbs. The one number whose negation does not fit, the least one,
    /// is its own complement. No limbs give no limbs.
    pub fn two_complement(&self) -> (r: Self)
        ensures
            r.carrier@.len() == self.carrier@.len(),
            2 * value(self.carrier@) != -(base_pow(self.carrier@.len()) as int) ==> value(r.carrier@) == -value(self.carrier@),
            2 * value(self.carrier@) == -(base_pow(self.carrier@.len()) as int) ==> value(r.carrier@) == value(self.carrier@),
    {
        let s = &self.carrier;
        let mut result: Vec<u32> = Vec::new();
        let mut carry: u64 = 1;
        let mut i: usize = 0;
        while i < s.len()
            invariant
                i <= s@.len(),
                result@.len() == i,
                carry <= 1,
                unsigned_value(result@) + carry * base_pow(i as nat) == base_pow(i as nat) - unsigned_value(s@.subrange(0, i as int)),
            decreases s@.len() - i,
        {
            let x = s[i];
            let flipped = !x;
            assert(flipped == 0xFFFF_FFFFu32 - x) by (bit_vector)
                requires flipped == !x;
            let total: u64 = flipped as u64 + carry;
            let limb = (total % 0x1_0000_0000) as u32;
            let carry_out = total / 0x1_0000_0000;
            let ghost before = result@;
            result.push(limb);
            proof {
                let p = base_pow(i as nat);
                assert(result@.drop_last() =~= before);
                lemma_prefix_step(s@, i as int);
                lemma_carry_step(unsigned_value(before), limb as nat, carry_out as nat, total as nat, p);
                assert(base_pow((i + 1) as nat) == base() * p);
                assert(total * p == (0xFFFF_FFFF - x as nat) * p + carry * p) by (nonlinear_arith)
                    requires total == (0xFFFF_FFFF - x as nat) + carry;
                assert(x as nat * p + (0xFFFF_FFFF - x as nat) * p + p == base() * p) by (nonlinear_arith);
                assert(unsigned_value(result@) == unsigned_value(before) + limb as nat * p);
            }
            carry = carry_out;
            i = i + 1;
        }
        proof {
            let n = s@.len();
            let p = base_pow(n);
            assert(s@.subrange(0, n as int) =~= s@);
            if n == 0 {
                assert(result@ =~= Seq::<u32>::empty());
                assert(value(s@) == 0 && value(result@) == 0);
            } else {
                lemma_unsigned_bound(s@);
                lemma_unsigned_bound(result@);
                lemma_value_range(s@);
                lemma_value_range(result@);
                let nr: int = if is_negative(result@) { 1 } else { 0 };
                let ns: int = if is_negative(s@) { 1 } else { 0 };
                assert((1 - carry - nr - ns) * p == p - carry * p - nr * p - ns * p) by (nonlinear_arith);
                assert((ns - nr - carry) * p == ns * p - nr * p - carry * p) by (nonlinear_arith);
                if 2 * value(s@) != -(p as int) {
                    lemma_unique_in_range(value(result@), -value(s@), 1 - carry - nr - ns, p as int);
                } else {
                    lemma_unique_in_range(value(result@), value(s@), ns - nr - carry, p as int);
                }
            }
        }
        BigInt { carrier: result }
    }

    /// The sum.
    pub fn add(self, rhs: Self) -> (r: Self)
        requires
            self.carrier@.len() > 0,
            rhs.carrier@.len() > 0,
            self.carrier@.len() < usize::MAX,
            rhs.carrier@.len() < usize::MAX,
        ensures
            r.carrier@.len() > 0,
            value(r.carrier@) == value(self.carrier@) + value(rhs.carrier@),
            !redundant_top(r.carrier@),
    {
        let longest = if self.carrier.len() >= rhs.carrier.len() { self.carrier.len() } else { rhs.carrier.len() };
        let max_len = longest + 1;
        let lhs_ext = self.sign_extension(max_len).carrier;
        let rhs_ext = rhs.sign_extension(max_len).carrier;
        let mut result: Vec<u32> = Vec::new();
        let mut carry: u64 = 0;
        let mut i: usize = 0;
        while i < max_len
            invariant
                lhs_ext@.len() == max_len,
                rhs_ext@.len() == max_len,
                i <= max_len,
                result@.len() == i,
                carry <= 1,
                unsigned_value(result@) + carry * base_pow(i as nat)
                    == unsigned_value(lhs_ext@.subrange(0, i as int)) + unsigned_value(rhs_ext@.subrange(0, i as int)),
            decreases max_len - i,
        {
            let total: u64 = lhs_ext[i] as u64 + rhs_ext[i] as u64 + carry;
            let limb = (total % 0x1_0000_0000) as u32;
            let carry_out = total / 0x1_0000_0000;
            let ghost before = result@;
            result.push(limb);
            proof {
                let p = base_pow(i as nat);
                assert(result@.drop_last() =~= before);
                lemma_prefix_step(lhs_ext@, i as int);
                lemma_prefix_step(rhs_ext@, i as int);
                lemma_carry_step(unsigned_value(before), limb as nat, carry_out as nat, total as nat, p);
                assert((lhs_ext@[i as int] as nat + rhs_ext@[i as int] as nat + carry as nat) * p
                    == lhs_ext@[i as int] as nat * p + rhs_ext@[i as int] as nat * p + carry as nat * p) by (nonlinear_arith);
            }
            carry = carry_out;
            i = i + 1;
        }
        proof {
            let n = max_len as nat;
            let p = base_pow(n);
            assert(lhs_ext@.subrange(0, n as int) =~= lhs_ext@);
            assert(rhs_ext@.subrange(0, n as int) =~= rhs_ext@);
            lemma_value_range(self.carrier@);
            lemma_value_range(rhs.carrier@);
            lemma_value_range(result@);
            lemma_base_pow_mono(self.carrier@.len(), longest as nat);
            lemma_base_pow_mono(rhs.carrier@.len(), longest as nat);
            assert(p == base() * base_pow(longest as nat));
            let na: int = if is_negative(lhs_ext@) { 1 } else { 0 };
            let nb: int = if is_negative(rhs_ext@) { 1 } else { 0 };
            let nr: int = if is_negative(result@) { 1 } else { 0 };
            lemma_unique_in_range(value(result@), value(self.carrier@) + value(rhs.carrier@), na + nb - nr - carry, p as int);
        }
        let sum = BigInt { carrier: result };
        sum.truncate()
    }

    /// The difference.
    pub fn sub(self, rhs: Self) -> (r: Self)
        requires
            self.carrier@.len() > 0,
            rhs.carrier@.len() > 0,
            self.carrier@.len() < usize::MAX - 1,
            rhs.carrier@.len() < usize::MAX - 1,
        ensures
            r.carrier@.len() > 0,
            value(r.carrier@) == value(self.carrier@) - value(rhs.carrier@),
            !redundant_top(r.carrier@),
    {
        let n = rhs.carrier.len();
        let wide = rhs.sign_extension(n + 1);
        proof {
            lemma_value_range(rhs.carrier@);
            lemma_base_pow_positive(n as nat);
            assert(base_pow((n + 1) as nat) == base() * base_pow(n as nat));
        }
        let negated = wide.two_complement();
        self.add(negated)
    }

    /// The limbs in hexadecimal: eight lowercase digits per limb, most
    /// significant limb first.
    pub fn to_hex_chars(&self) -> (r: Vec<char>)
        ensures
            r@ == hex_of(self.carrier@),
    {
        let s = &self.carrier;
        let mut out: Vec<char> = Vec::new();
        let mut i: usize = s.len();
        proof {
            assert(s@.subrange(i as int, s@.len() as int) =~= Seq::<u32>::empty());
        }
        while i > 0
            invariant
                i <= s@.len(),
                out@ == hex_of(s@.subrange(i as int, s@.len() as int)),
            decreases i,
        {
            i = i - 1;
            let ghost rest = s@.subrange(i + 1, s@.len() as int);
            push_limb_hex(&mut out, s[i]);
            proof {
                let t = s@.subrange(i as int, s@.len() as int);
                assert(t.drop_first() =~= rest);
                assert(t[0] == s@[i as int]);
            }
        }
        proof {
            assert(s@.subrange(0, s@.len() as int) =~= s@);
        }
        out
    }
}

} // verus!
