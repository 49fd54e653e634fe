use bit_vec::BitVec;
use rand::Rng;
use vstd::prelude::*;
use crate::expr::string_of;

verus! {

/// Fewest symbols in a random chromosome.
pub const CHROMOSOME_MIN: usize = 3;

/// One past the most symbols in a random chromosome.
pub const CHROMOSOME_MAX: usize = 101;

#[verifier::external_type_specification]
#[verifier::external_body]
#[verifier::reject_recursive_types(B)]
pub struct ExBitVec<B>(bit_vec::BitVec<B>);

/// The bits that a bit vector holds, first bit first.
pub uninterp spec fn bits_of(b: BitVec) -> Seq<bool>;

/// Relies on `BitVec::new`: an empty bit vector.
#[verifier::external_body]
fn bv_new() -> (r: BitVec)
    ensures
        bits_of(r) == Seq::<bool>::empty(),
{
    BitVec::new()
}

/// Relies on `BitVec::push`: appends one bit (it panics only when the length
/// would overflow).
#[verifier::external_body]
fn bv_push(b: &mut BitVec, x: bool)
    requires
        bits_of(*old(b)).len() < usize::MAX,
    ensures
        bits_of(*final(b)) == bits_of(*old(b)).push(x),
{
    b.push(x)
}

/// Relies on `BitVec::len`: the number of bits.
#[verifier::external_body]
fn bv_len(b: &BitVec) -> (r: usize)
    ensures
        r == bits_of(*b).len(),
{
    b.len()
}

/// Relies on indexing a `BitVec`: the bit at `i`.
#[verifier::external_body]
fn bv_get(b: &BitVec, i: usize) -> (r: bool)
    requires
        i < bits_of(*b).len(),
    ensures
        r == bits_of(*b)[i as int],
{
    b[i]
}

pub open spec fn bit_at(bits: Seq<bool>, i: int) -> nat {
    if 0 <= i < bits.len() && bits[i] {
        1
    } else {
        0
    }
}

/// The value of the `k`-th group of four bits, the first bit the most
/// significant; bits past the end count as zero.
pub open spec fn nibble(bits: Seq<bool>, k: int) -> nat {
    8 * bit_at(bits, 4 * k) + 4 * bit_at(bits, 4 * k + 1) + 2 * bit_at(bits, 4 * k + 2) + bit_at(
        bits,
        4 * k + 3,
    )
}

/// The number of bytes that `n` bits fill.
pub open spec fn byte_count(n: nat) -> nat {
    (n + 7) / 8
}

/// The bits packed into bytes, eight to a byte, the first bit the most
/// significant, the last byte padded with zero bits.
pub open spec fn bytes_of(bits: Seq<bool>) -> Seq<u8> {
    Seq::new(byte_count(bits.len()), |j: int| (16 * nibble(bits, 2 * j) + nibble(bits, 2 * j + 1)) as u8)
}

/// Relies on `BitVec::to_bytes`: packs the bits eight to a byte, the first
/// bit the most significant, the last byte padded with zero bits.
#[verifier::external_body]
fn bv_to_bytes(b: &BitVec) -> (r: Vec<u8>)
    ensures
        r@ == bytes_of(bits_of(*b)),
{
    b.to_bytes()
}

/// The bits of bytes, eight to a byte, the most significant first.
pub open spec fn bits_from_bytes(bs: Seq<u8>) -> Seq<bool> {
    Seq::new(
        8 * bs.len(),
        |i: int| (bs[i / 8] as nat / vstd::arithmetic::power2::pow2((7 - i % 8) as nat)) % 2 == 1,
    )
}

/// Relies on `BitVec::from_bytes`: eight bits for each byte, the most
/// significant first (it panics only when the bit count overflows).
#[verifier::external_body]
fn bv_from_bytes(bytes: &[u8]) -> (r: BitVec)
    requires
        8 * bytes@.len() <= usize::MAX,
    ensures
        bits_of(r) == bits_from_bytes(bytes@),
{
    BitVec::from_bytes(bytes)
}

/// Relies on `rand::thread_rng` and `Rng::gen_range`: a value in `lo..hi`.
#[verifier::external_body]
fn rand_range(lo: usize, hi: usize) -> (r: usize)
    requires
        lo < hi,
    ensures
        lo <= r < hi,
{
    rand::thread_rng().gen_range(lo..hi)
}

/// Relies on `rand::thread_rng` and `Rng::gen_ratio`: `true` with
/// probability `num / den` (it panics when `den` is 0 or `num > den`).
#[verifier::external_body]
fn rand_ratio(num: u32, den: u32) -> (r: bool)
    requires
        0 < den,
        num <= den,
{
    rand::thread_rng().gen_ratio(num, den)
}

/// A uniformly random bit. Relies on `rand::random::<bool>`.
#[verifier::external_body]
pub fn randbit() -> (r: bool) {
    rand::random::<bool>()
}

/// The text that a four-bit value stands for: a digit for 0 to 9, then
/// `+ - * / **` for 10 to 14, nothing otherwise.
pub open spec fn symbol(n: nat) -> Seq<char> {
    if n <= 9 {
        seq![(48 + n) as char]
    } else if n == 10 {
        seq!['+']
    } else if n == 11 {
        seq!['-']
    } else if n == 12 {
        seq!['*']
    } else if n == 13 {
        seq!['/']
    } else if n == 14 {
        seq!['*', '*']
    } else {
        seq![]
    }
}

fn symbol_chars(n: u8) -> (r: Vec<char>)
    ensures
        r@ == symbol(n as nat),
{
    let mut r: Vec<char> = Vec::new();
    if n <= 9 {
        r.push((48 + n) as char);
    } else if n == 10 {
        r.push('+');
    } else if n == 11 {
        r.push('-');
    } else if n == 12 {
        r.push('*');
    } else if n == 13 {
        r.push('/');
    } else if n == 14 {
        r.push('*');
        r.push('*');
    }
    proof {
        assert(r@ =~= symbol(n as nat));
    }
    r
}

/// The symbol that a four-bit value stands for.
pub fn get_symbol(n: u8) -> (r: String)
    ensures
        r@ == symbol(n as nat),
{
    let cs = symbol_chars(n);
    string_of(cs.as_slice())
}

/// The bytes of `x`, least significant first, without trailing zero bytes.
pub open spec fn le_bytes(x: nat) -> Seq<u8>
    decreases x,
{
    if x == 0 {
        seq![]
    } else {
        seq![(x % 256) as u8] + le_bytes(x / 256)
    }
}

/// The number that bytes spell, the first byte the most significant.
pub open spec fn be_value(bs: Seq<u8>) -> nat
    decreases bs.len(),
{
    if bs.len() == 0 {
        0
    } else {
        be_value(bs.drop_last()) * 256 + bs.last() as nat
    }
}

proof fn lemma_le_bytes_len(x: nat)
    requires
        x <= usize::MAX,
    ensures
        le_bytes(x).len() <= 8,
{
    assert(vstd::arithmetic::power::pow(256, 8) == 0x1_0000_0000_0000_0000) by {
        reveal_with_fuel(vstd::arithmetic::power::pow, 9);
    }
    lemma_le_bytes_bound(x, 8);
}

proof fn lemma_le_bytes_bound(x: nat, k: nat)
    requires
        x < vstd::arithmetic::power::pow(256, k),
    ensures
        le_bytes(x).len() <= k,
    decreases x,
{
    vstd::arithmetic::power::lemma_pow_positive(256, k);
    if x > 0 {
        assert(k > 0) by {
            if k == 0 {
                vstd::arithmetic::power::lemma_pow0(256);
            }
        }
        vstd::arithmetic::power::lemma_pow_adds(256, 1, (k - 1) as nat);
        vstd::arithmetic::power::lemma_pow1(256);
        assert(x / 256 < vstd::arithmetic::power::pow(256, (k - 1) as nat)) by (nonlinear_arith)
            requires
                x < 256 * vstd::arithmetic::power::pow(256, (k - 1) as nat),
        ;
        lemma_le_bytes_bound(x / 256, (k - 1) as nat);
    }
}

proof fn lemma_be_value_bound(bs: Seq<u8>)
    ensures
        be_value(bs) < vstd::arithmetic::power::pow(256, bs.len()),
    decreases bs.len(),
{
    vstd::arithmetic::power::lemma_pow0(256);
    if bs.len() > 0 {
        lemma_be_value_bound(bs.drop_last());
        let p = vstd::arithmetic::power::pow(256, (bs.len() - 1) as nat);
        vstd::arithmetic::power::lemma_pow_adds(256, 1, (bs.len() - 1) as nat);
        vstd::arithmetic::power::lemma_pow1(256);
        let v = be_value(bs.drop_last());
        let l = bs.last() as nat;
        assert(v * 256 + l < 256 * p) by (nonlinear_arith)
            requires
                v < p,
                l < 256,
        ;
    }
}

/// The number that `b` spells, the first bit the most significant, the
/// last byte padded with zero bits. Its bytes must fit in a `usize`.
pub fn from_binary(b: &BitVec) -> (r: usize)
    requires
        vstd::arithmetic::power::pow(256, byte_count(bits_of(*b).len())) <= usize::MAX + 1,
    ensures
        r == be_value(bytes_of(bits_of(*b))),
{
    let bytes = bv_to_bytes(b);
    let n = bytes.len();
    let mut acc: usize = 0;
    let mut i: usize = 0;
    proof {
        assert(bytes@.take(0) =~= seq![]);
    }
    while i < n
        invariant
            n == bytes@.len(),
            vstd::arithmetic::power::pow(256, n as nat) <= usize::MAX + 1,
            i <= n,
            acc == be_value(bytes@.take(i as int)),
        decreases n - i,
    {
        proof {
            assert(bytes@.take(i + 1).drop_last() =~= bytes@.take(i as int));
            assert(bytes@.take(i + 1).last() == bytes@[i as int]);
            lemma_be_value_bound(bytes@.take(i + 1));
            vstd::arithmetic::power::lemma_pow_increases(256, (i + 1) as nat, n as nat);
            assert(acc * 256 + bytes@[i as int] == be_value(bytes@.take(i + 1)));
            assert(bytes@.take(i + 1).len() == (i + 1) as nat);
            assert(vstd::arithmetic::power::pow(256, (i + 1) as nat) <= vstd::arithmetic::power::pow(256, n as nat));
            assert(acc * 256 + bytes@[i as int] <= usize::MAX);
        }
        acc = acc * 256 + bytes[i] as usize;
        i = i + 1;
    }
    proof {
        assert(bytes@.take(n as int) =~= bytes@);
    }
    acc
}

/// The bits of `x`'s bytes, least significant byte first and each byte's
/// most significant bit first, without trailing zero bytes.
pub fn to_binary(x: usize) -> (r: BitVec)
    ensures
        bits_of(r) == bits_from_bytes(le_bytes(x as nat)),
{
    let mut n = x;
    let mut bytes: Vec<u8> = Vec::new();
    proof {
        assert(seq![] + le_bytes(x as nat) =~= le_bytes(x as nat));
        lemma_le_bytes_len(x as nat);
    }
    while n > 0
        invariant
            bytes@ + le_bytes(n as nat) == le_bytes(x as nat),
            le_bytes(x as nat).len() <= 8,
        decreases n,
    {
        proof {
            assert(bytes@.push((n % 256) as u8) + le_bytes((n / 256) as nat) =~= bytes@ + le_bytes(
                n as nat,
            ));
        }
        bytes.push((n % 256) as u8);
        n = n / 256;
    }
    proof {
        assert(bytes@ =~= le_bytes(x as nat));
    }
    bv_from_bytes(bytes.as_slice())
}

/// The bits of `b` as `0` and `1` characters.
pub fn bitstring(b: &BitVec) -> (r: String)
    ensures
        r@ == Seq::new(bits_of(*b).len(), |i: int| if bits_of(*b)[i] { '1' } else { '0' }),
{
    let n = bv_len(b);
    let mut cs: Vec<char> = Vec::new();
    let mut i: usize = 0;
    while i < n
        invariant
            n == bits_of(*b).len(),
            i <= n,
            cs@ =~= Seq::new(i as nat, |k: int| if bits_of(*b)[k] { '1' } else { '0' }),
        decreases n - i,
    {
        cs.push(if bv_get(b, i) { '1' } else { '0' });
        i = i + 1;
    }
    string_of(cs.as_slice())
}

/// The symbols of the first `m` groups of four bits, in order.
pub open spec fn symbols(bits: Seq<bool>, m: nat) -> Seq<char>
    decreases m,
{
    if m == 0 {
        seq![]
    } else {
        symbols(bits, (m - 1) as nat) + symbol(nibble(bits, m - 1))
    }
}

/// The text that a bit sequence encodes: the symbol of each group of four
/// bits, over whole bytes (the last one padded with zero bits).
pub open spec fn decode_spec(bits: Seq<bool>) -> Seq<char> {
    symbols(bits, 2 * byte_count(bits.len()))
}

proof fn lemma_split_byte(h: nat, l: nat)
    requires
        h < 16,
        l < 16,
    ensures
        (16 * h + l) as u8 / 16 == h,
        (16 * h + l) as u8 % 16 == l,
{
    assert((16 * h + l) / 16 == h && (16 * h + l) % 16 == l) by (nonlinear_arith)
        requires
            h < 16,
            l < 16,
    ;
}

/// The expression text that `b` encodes. Never fails: a malformed
/// expression is still text.
pub fn decode(b: &BitVec) -> (r: String)
    ensures
        r@ == decode_spec(bits_of(*b)),
{
    let ghost bits = bits_of(*b);
    let bytes = bv_to_bytes(b);
    let mut e: Vec<char> = Vec::new();
    let mut j: usize = 0;
    while j < bytes.len()
        invariant
            bytes@ == bytes_of(bits),
            j <= bytes@.len(),
            e@ == symbols(bits, 2 * j as nat),
        decreases bytes@.len() - j,
    {
        let byte = bytes[j];
        proof {
            lemma_split_byte(nibble(bits, 2 * j), nibble(bits, 2 * j + 1));
        }
        let hi = symbol_chars(byte / 16);
        let lo = symbol_chars(byte % 16);
        let ghost e0 = e@;
        let mut i: usize = 0;
        while i < hi.len()
            invariant
                i <= hi@.len(),
                e@ == e0 + hi@.subrange(0, i as int),
            decreases hi@.len() - i,
        {
            proof {
                assert(hi@.subrange(0, i + 1) =~= hi@.subrange(0, i as int).push(hi@[i as int]));
            }
            e.push(hi[i]);
            i = i + 1;
        }
        let ghost e1 = e@;
        let mut i: usize = 0;
        while i < lo.len()
            invariant
                i <= lo@.len(),
                e@ == e1 + lo@.subrange(0, i as int),
            decreases lo@.len() - i,
        {
            proof {
                assert(lo@.subrange(0, i + 1) =~= lo@.subrange(0, i as int).push(lo@[i as int]));
            }
            e.push(lo[i]);
            i = i + 1;
        }
        proof {
            assert(hi@.subrange(0, hi@.len() as int) =~= hi@);
            assert(lo@.subrange(0, lo@.len() as int) =~= lo@);
            assert(symbols(bits, (2 * j + 1) as nat) == symbols(bits, 2 * j as nat) + symbol(nibble(bits, 2 * j)));
            assert(symbols(bits, (2 * j + 2) as nat) == symbols(bits, (2 * j + 1) as nat) + symbol(nibble(bits, 2 * j + 1)));
            assert(e@ =~= symbols(bits, (2 * j + 2) as nat));
        }
        j = j + 1;
    }
    string_of(e.as_slice())
}

/// Bits that `x` keeps before the cut at `lim`, then the bits of `y` after it.
pub open spec fn splice(x: Seq<bool>, y: Seq<bool>, lim: nat) -> Seq<bool> {
    x.take(vstd::math::min(lim as int, x.len() as int)) + y.skip(
        vstd::math::min(lim as int, y.len() as int),
    )
}

/// Appends `x[from..to]` to `out`.
fn append_range(out: &mut BitVec, x: &BitVec, from: usize, to: usize)
    requires
        from <= to <= bits_of(*x).len(),
        bits_of(*old(out)).len() + (to - from) <= usize::MAX,
    ensures
        bits_of(*final(out)) == bits_of(*old(out)) + bits_of(*x).subrange(from as int, to as int),
{
    let ghost o = bits_of(*out);
    let mut i = from;
    while i < to
        invariant
            from <= i <= to,
            to <= bits_of(*x).len(),
            o.len() + (to - from) <= usize::MAX,
            bits_of(*out) == o + bits_of(*x).subrange(from as int, i as int),
        decreases to - i,
    {
        proof {
            assert(bits_of(*x).subrange(from as int, i + 1) =~= bits_of(*x).subrange(
                from as int,
                i as int,
            ).push(bits_of(*x)[i as int]));
        }
        let bit = bv_get(x, i);
        bv_push(out, bit);
        i = i + 1;
    }
}

/// A copy of `x`.
fn copy_bits(x: &BitVec) -> (r: BitVec)
    ensures
        bits_of(r) == bits_of(*x),
{
    let mut r = bv_new();
    let n = bv_len(x);
    append_range(&mut r, x, 0, n);
    proof {
        assert(bits_of(*x).subrange(0, n as int) =~= bits_of(*x));
        assert(Seq::<bool>::empty() + bits_of(*x) =~= bits_of(*x));
    }
    r
}

/// One-point crossover at `lim`: the first child is the start of `a` up to
/// the cut and the rest of `b` after it; the second the other way round.
pub fn cross_bits(a: &BitVec, b: &BitVec, lim: usize) -> (r: (BitVec, BitVec))
    ensures
        bits_of(r.0) == splice(bits_of(*a), bits_of(*b), lim as nat),
        bits_of(r.1) == splice(bits_of(*b), bits_of(*a), lim as nat),
{
    let m = bv_len(a);
    let n = bv_len(b);
    let ca = if lim < m {
        lim
    } else {
        m
    };
    let cb = if lim < n {
        lim
    } else {
        n
    };
    let mut b1 = bv_new();
    append_range(&mut b1, a, 0, ca);
    append_range(&mut b1, b, cb, n);
    let mut b2 = bv_new();
    append_range(&mut b2, b, 0, cb);
    append_range(&mut b2, a, ca, m);
    proof {
        let (x, y) = (bits_of(*a), bits_of(*b));
        assert(bits_of(b1) =~= splice(x, y, lim as nat));
        assert(bits_of(b2) =~= splice(y, x, lim as nat));
    }
    (b1, b2)
}

/// Neither child of a crossover is longer than the longer parent, and
/// cutting the children where the parents were cut and joining the pieces
/// the other way gives the parents back.
pub proof fn lemma_crossover_undone(a: Seq<bool>, b: Seq<bool>, lim: nat)
    ensures
        splice(a, b, lim).len() <= vstd::math::max(a.len() as int, b.len() as int),
        splice(b, a, lim).len() <= vstd::math::max(a.len() as int, b.len() as int),
        a == splice(a, b, lim).take(vstd::math::min(lim as int, a.len() as int)) + splice(
            b,
            a,
            lim,
        ).skip(vstd::math::min(lim as int, b.len() as int)),
        b == splice(b, a, lim).take(vstd::math::min(lim as int, b.len() as int)) + splice(
            a,
            b,
            lim,
        ).skip(vstd::math::min(lim as int, a.len() as int)),
{
    let ca = vstd::math::min(lim as int, a.len() as int);
    let cb = vstd::math::min(lim as int, b.len() as int);
    assert(a =~= splice(a, b, lim).take(ca) + splice(b, a, lim).skip(cb));
    assert(b =~= splice(b, a, lim).take(cb) + splice(a, b, lim).skip(ca));
}

/// Chance, out of ten, that two parents are crossed rather than copied.
pub const CROSSOVER_TENTHS: u32 = 7;

/// Crosses two bit strings at cut `lim` when `cross` holds, else returns
/// copies of both.
pub fn crossover_with(a: &BitVec, b: &BitVec, cross: bool, lim: usize) -> (r: (BitVec, BitVec))
    requires
        cross ==> lim < vstd::math::max(bits_of(*a).len() as int, bits_of(*b).len() as int),
    ensures
        cross ==> bits_of(r.0) == splice(bits_of(*a), bits_of(*b), lim as nat) && bits_of(r.1)
            == splice(bits_of(*b), bits_of(*a), lim as nat),
        !cross ==> bits_of(r.0) == bits_of(*a) && bits_of(r.1) == bits_of(*b),
{
    if cross {
        cross_bits(a, b, lim)
    } else {
        (copy_bits(a), copy_bits(b))
    }
}

/// Crosses two bit strings: with probability seven in ten at a cut drawn
/// uniformly below the longer length, else (and always when both are empty)
/// returns copies of both.
pub fn crossover_bits(a: &BitVec, b: &BitVec) -> (r: (BitVec, BitVec))
    ensures
        (bits_of(r.0) == bits_of(*a) && bits_of(r.1) == bits_of(*b)) || exists|lim: nat|
            lim < vstd::math::max(bits_of(*a).len() as int, bits_of(*b).len() as int)
                && bits_of(r.0) == splice(bits_of(*a), bits_of(*b), lim)
                && bits_of(r.1) == splice(bits_of(*b), bits_of(*a), lim),
{
    let m = bv_len(a);
    let n = bv_len(b);
    let k = if m < n {
        n
    } else {
        m
    };
    let coin = rand_ratio(CROSSOVER_TENTHS, 10);
    let cross = coin && k > 0;
    let lim = if cross {
        rand_range(0, k)
    } else {
        0
    };
    let r = crossover_with(a, b, cross, lim);
    proof {
        if cross {
            assert((lim as nat) < vstd::math::max(m as int, n as int));
        }
    }
    r
}

/// `x` with each bit flipped where `flips` is set.
pub open spec fn flipped(x: Seq<bool>, flips: Seq<bool>) -> Seq<bool> {
    Seq::new(x.len(), |i: int| x[i] != flips[i])
}

/// Flips the bits of `x` that `flips` marks.
pub fn flip_bits(x: &BitVec, flips: &Vec<bool>) -> (r: BitVec)
    requires
        flips@.len() == bits_of(*x).len(),
    ensures
        bits_of(r) == flipped(bits_of(*x), flips@),
{
    let n = bv_len(x);
    let mut r = bv_new();
    let mut i: usize = 0;
    while i < n
        invariant
            n == bits_of(*x).len(),
            flips@.len() == n,
            i <= n,
            bits_of(r) =~= flipped(bits_of(*x), flips@).take(i as int),
        decreases n - i,
    {
        let bit = bv_get(x, i);
        bv_push(&mut r, bit != flips[i]);
        i = i + 1;
    }
    r
}

/// Chance, out of a hundred, that mutation flips a bit.
pub const MUTATION_PERCENT: u32 = 1;

/// Flips each bit independently with probability one in a hundred.
pub fn mutate_bits(x: &BitVec) -> (r: BitVec)
    ensures
        bits_of(r).len() == bits_of(*x).len(),
{
    let n = bv_len(x);
    let mut flips: Vec<bool> = Vec::new();
    let mut i: usize = 0;
    while i < n
        invariant
            i <= n,
            flips@.len() == i,
        decreases n - i,
    {
        flips.push(rand_ratio(MUTATION_PERCENT, 100));
        i = i + 1;
    }
    flip_bits(x, &flips)
}

/// Random bits for a new chromosome: a whole number of groups of four, from
/// `CHROMOSOME_MIN` groups to fewer than `CHROMOSOME_MAX`, each bit uniform.
pub fn random_bits() -> (r: BitVec)
    ensures
        bits_of(r).len() % 4 == 0,
        4 * CHROMOSOME_MIN <= bits_of(r).len() < 4 * CHROMOSOME_MAX,
{
    let size = rand_range(CHROMOSOME_MIN, CHROMOSOME_MAX) * 4;
    let mut r = bv_new();
    let mut i: usize = 0;
    while i < size
        invariant
            i <= size,
            bits_of(r).len() == i,
        decreases size - i,
    {
        bv_push(&mut r, randbit());
        i = i + 1;
    }
    r
}

} // verus!
