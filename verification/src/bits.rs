//! Byte strings as strings of bits, most significant first, in groups of five.
use vstd::prelude::*;

verus! {

/// `2^n`, for `0 <= n < 8`.
pub open spec fn p2(n: int) -> int {
    if n <= 0 {
        1
    } else if n == 1 {
        2
    } else if n == 2 {
        4
    } else if n == 3 {
        8
    } else if n == 4 {
        16
    } else if n == 5 {
        32
    } else if n == 6 {
        64
    } else {
        128
    }
}

/// Bit `j` of `x`, where bit 0 is the most significant of `width`.
pub open spec fn bit_of(x: int, j: int, width: int) -> int {
    (x / p2(width - 1 - j)) % 2
}

/// Bit `k` of `s`; there are only zeros behind its end.
pub open spec fn bit(s: Seq<u8>, k: int) -> int {
    if 0 <= k < 8 * s.len() {
        bit_of(s[k / 8] as int, k % 8, 8)
    } else {
        0
    }
}

/// The `g`-th group of five bits of `s`, as a number.
pub open spec fn quintet(s: Seq<u8>, g: int) -> int {
    16 * bit(s, 5 * g) + 8 * bit(s, 5 * g + 1) + 4 * bit(s, 5 * g + 2) + 2 * bit(s, 5 * g + 3)
        + bit(s, 5 * g + 4)
}

/// The byte with the given bits.
pub open spec fn pack(
    b0: int,
    b1: int,
    b2: int,
    b3: int,
    b4: int,
    b5: int,
    b6: int,
    b7: int,
) -> int {
    128 * b0 + 64 * b1 + 32 * b2 + 16 * b3 + 8 * b4 + 4 * b5 + 2 * b6 + b7
}

fn p2_exec(n: u8) -> (r: u8)
    requires
        n < 8,
    ensures
        r == p2(n as int),
{
    if n == 0 {
        1
    } else if n == 1 {
        2
    } else if n == 2 {
        4
    } else if n == 3 {
        8
    } else if n == 4 {
        16
    } else if n == 5 {
        32
    } else if n == 6 {
        64
    } else {
        128
    }
}

pub proof fn lemma_bit_range(s: Seq<u8>, k: int)
    ensures
        0 <= bit(s, k) <= 1,
{
}

pub proof fn lemma_quintet_range(s: Seq<u8>, g: int)
    ensures
        0 <= quintet(s, g) < 32,
{
    lemma_bit_range(s, 5 * g);
    lemma_bit_range(s, 5 * g + 1);
    lemma_bit_range(s, 5 * g + 2);
    lemma_bit_range(s, 5 * g + 3);
    lemma_bit_range(s, 5 * g + 4);
}

/// A group of five bits is made of the bits that it is a group of.
pub proof fn lemma_quintet_bits(s: Seq<u8>, g: int, j: int)
    requires
        0 <= j < 5,
    ensures
        bit_of(quintet(s, g), j, 5) == bit(s, 5 * g + j),
{
    lemma_bit_range(s, 5 * g);
    lemma_bit_range(s, 5 * g + 1);
    lemma_bit_range(s, 5 * g + 2);
    lemma_bit_range(s, 5 * g + 3);
    lemma_bit_range(s, 5 * g + 4);
    lemma_five_bits(
        bit(s, 5 * g),
        bit(s, 5 * g + 1),
        bit(s, 5 * g + 2),
        bit(s, 5 * g + 3),
        bit(s, 5 * g + 4),
    );
}

proof fn lemma_five_bits(b0: int, b1: int, b2: int, b3: int, b4: int)
    requires
        0 <= b0 <= 1,
        0 <= b1 <= 1,
        0 <= b2 <= 1,
        0 <= b3 <= 1,
        0 <= b4 <= 1,
    ensures
        ({
            let v = 16 * b0 + 8 * b1 + 4 * b2 + 2 * b3 + b4;
            &&& v / 16 % 2 == b0
            &&& v / 8 % 2 == b1
            &&& v / 4 % 2 == b2
            &&& v / 2 % 2 == b3
            &&& v / 1 % 2 == b4
        }),
{
}

proof fn lemma_eight_bits(b0: int, b1: int, b2: int, b3: int, b4: int, b5: int, b6: int, b7: int)
    requires
        0 <= b0 <= 1,
        0 <= b1 <= 1,
        0 <= b2 <= 1,
        0 <= b3 <= 1,
        0 <= b4 <= 1,
        0 <= b5 <= 1,
        0 <= b6 <= 1,
        0 <= b7 <= 1,
    ensures
        ({
            let v = pack(b0, b1, b2, b3, b4, b5, b6, b7);
            &&& 0 <= v < 256
            &&& v / 128 % 2 == b0
            &&& v / 64 % 2 == b1
            &&& v / 32 % 2 == b2
            &&& v / 16 % 2 == b3
            &&& v / 8 % 2 == b4
            &&& v / 4 % 2 == b5
            &&& v / 2 % 2 == b6
            &&& v / 1 % 2 == b7
        }),
{
    let v = pack(b0, b1, b2, b3, b4, b5, b6, b7);
    let v1 = 64 * b0 + 32 * b1 + 16 * b2 + 8 * b3 + 4 * b4 + 2 * b5 + b6;
    let v2 = 32 * b0 + 16 * b1 + 8 * b2 + 4 * b3 + 2 * b4 + b5;
    let v3 = 16 * b0 + 8 * b1 + 4 * b2 + 2 * b3 + b4;
    let v4 = 8 * b0 + 4 * b1 + 2 * b2 + b3;
    let v5 = 4 * b0 + 2 * b1 + b2;
    let v6 = 2 * b0 + b1;
    assert(v == 2 * v1 + b7 && v1 == 2 * v2 + b6 && v2 == 2 * v3 + b5 && v3 == 2 * v4 + b4 && v4
        == 2 * v5 + b3 && v5 == 2 * v6 + b2);
    lemma_halves(v, v1, b7);
    lemma_halves(v1, v2, b6);
    lemma_halves(v2, v3, b5);
    lemma_halves(v3, v4, b4);
    lemma_halves(v4, v5, b3);
    lemma_halves(v5, v6, b2);
    lemma_halves(v6, b0, b1);
    assert(v / 4 == v2 && v / 8 == v3 && v / 16 == v4 && v / 32 == v5 && v / 64 == v6 && v / 128
        == b0) by {
        assert(v / 4 == v / 2 / 2);
        assert(v / 8 == v / 4 / 2);
        assert(v / 16 == v / 8 / 2);
        assert(v / 32 == v / 16 / 2);
        assert(v / 64 == v / 32 / 2);
        assert(v / 128 == v / 64 / 2);
    }
}

proof fn lemma_halves(v: int, h: int, b: int)
    requires
        v == 2 * h + b,
        0 <= b <= 1,
    ensures
        v / 2 == h,
        v % 2 == b,
{
}

/// Whether the bits of `x` are `b(0)` to `b(7)`.
pub open spec fn has_bits_of(x: u8, b: spec_fn(int) -> int) -> bool {
    forall|j: int| 0 <= j < 8 ==> #[trigger] bit_of(x as int, j, 8) == b(j)
}

/// The byte with the bits `b(0)` to `b(7)`.
pub open spec fn byte_with(b: spec_fn(int) -> int) -> u8 {
    choose|x: u8| has_bits_of(x, b)
}

/// There is a byte with any given bits.
pub proof fn lemma_byte_with_bits(b: spec_fn(int) -> int)
    requires
        forall|j: int| 0 <= j < 8 ==> 0 <= #[trigger] b(j) <= 1,
    ensures
        has_bits_of(byte_with(b), b),
{
    let x = pack(b(0), b(1), b(2), b(3), b(4), b(5), b(6), b(7));
    lemma_eight_bits(b(0), b(1), b(2), b(3), b(4), b(5), b(6), b(7));
    let y = x as u8;
    assert(has_bits_of(y, b));
}

/// The bits of a byte string determine it.
pub proof fn lemma_bits_determine(a: Seq<u8>, b: Seq<u8>)
    requires
        a.len() == b.len(),
        forall|k: int| 0 <= k < 8 * a.len() ==> #[trigger] bit(a, k) == bit(b, k),
    ensures
        a == b,
{
    assert forall|i: int| 0 <= i < a.len() implies a[i] == b[i] by {
        let x = a[i] as int;
        let y = b[i] as int;
        assert forall|j: int| 0 <= j < 8 implies bit_of(x, j, 8) == #[trigger] bit_of(y, j, 8) by {
            assert(bit(a, 8 * i + j) == bit(b, 8 * i + j));
            assert((8 * i + j) / 8 == i);
            assert((8 * i + j) % 8 == j);
        }
        lemma_byte_is_its_bits(x);
        lemma_byte_is_its_bits(y);
        assert(bit_of(x, 0, 8) == bit_of(y, 0, 8));
        assert(bit_of(x, 1, 8) == bit_of(y, 1, 8));
        assert(bit_of(x, 2, 8) == bit_of(y, 2, 8));
        assert(bit_of(x, 3, 8) == bit_of(y, 3, 8));
        assert(bit_of(x, 4, 8) == bit_of(y, 4, 8));
        assert(bit_of(x, 5, 8) == bit_of(y, 5, 8));
        assert(bit_of(x, 6, 8) == bit_of(y, 6, 8));
        assert(bit_of(x, 7, 8) == bit_of(y, 7, 8));
    }
    assert(a =~= b);
}

proof fn lemma_byte_is_its_bits(x: int)
    requires
        0 <= x < 256,
    ensures
        x == pack(
            bit_of(x, 0, 8),
            bit_of(x, 1, 8),
            bit_of(x, 2, 8),
            bit_of(x, 3, 8),
            bit_of(x, 4, 8),
            bit_of(x, 5, 8),
            bit_of(x, 6, 8),
            bit_of(x, 7, 8),
        ),
{
    let x1 = x / 2;
    let x2 = x1 / 2;
    let x3 = x2 / 2;
    let x4 = x3 / 2;
    let x5 = x4 / 2;
    let x6 = x5 / 2;
    let x7 = x6 / 2;
    assert(x / 4 == x2 && x / 8 == x3 && x / 16 == x4 && x / 32 == x5 && x / 64 == x6 && x / 128
        == x7);
    assert(x7 % 2 == x7);
}

/// Bit `k` of `s`.
pub fn get_bit(s: &[u8], k: usize) -> (r: u8)
    requires
        s@.len() <= 0x1000_0000,
    ensures
        r == bit(s@, k as int),
        r <= 1,
{
    if k < 8 * s.len() {
        let byte: u8 = s[k / 8];
        let j: u8 = (k % 8) as u8;
        let d: u8 = p2_exec(7 - j);
        let q: u8 = byte / d;
        q % 2
    } else {
        0
    }
}

/// The `g`-th group of five bits of `s`.
pub fn get_quintet(s: &[u8], g: usize) -> (r: u8)
    requires
        s@.len() <= 0x1000_0000,
        g <= 0x1000_0000,
    ensures
        r == quintet(s@, g as int),
        r < 32,
{
    let b0: u8 = get_bit(s, 5 * g);
    let b1: u8 = get_bit(s, 5 * g + 1);
    let b2: u8 = get_bit(s, 5 * g + 2);
    let b3: u8 = get_bit(s, 5 * g + 3);
    let b4: u8 = get_bit(s, 5 * g + 4);
    16 * b0 + 8 * b1 + 4 * b2 + 2 * b3 + b4
}

/// The first `keep` bits of `s`, and zeros behind them.
pub fn keep_bits(s: &[u8], keep: usize) -> (r: Vec<u8>)
    requires
        s@.len() <= 0x1000_0000,
    ensures
        r@.len() == s@.len(),
        forall|k: int|
            0 <= k < 8 * s@.len() ==> #[trigger] bit(r@, k) == if k < keep {
                bit(s@, k)
            } else {
                0
            },
{
    let mut out: Vec<u8> = Vec::new();
    let mut i: usize = 0;
    while i < s.len()
        invariant
            i <= s@.len(),
            s@.len() <= 0x1000_0000,
            out@.len() == i,
            forall|k: int|
                0 <= k < 8 * i ==> #[trigger] bit(out@, k) == if k < keep {
                    bit(s@, k)
                } else {
                    0
                },
        decreases s@.len() - i,
    {
        let b0: u8 = kept_bit(s, 8 * i, keep);
        let b1: u8 = kept_bit(s, 8 * i + 1, keep);
        let b2: u8 = kept_bit(s, 8 * i + 2, keep);
        let b3: u8 = kept_bit(s, 8 * i + 3, keep);
        let b4: u8 = kept_bit(s, 8 * i + 4, keep);
        let b5: u8 = kept_bit(s, 8 * i + 5, keep);
        let b6: u8 = kept_bit(s, 8 * i + 6, keep);
        let b7: u8 = kept_bit(s, 8 * i + 7, keep);
        let byte: u8 = 128 * b0 + 64 * b1 + 32 * b2 + 16 * b3 + 8 * b4 + 4 * b5 + 2 * b6 + b7;
        let ghost before = out@;
        out.push(byte);
        proof {
            lemma_eight_bits(
                b0 as int,
                b1 as int,
                b2 as int,
                b3 as int,
                b4 as int,
                b5 as int,
                b6 as int,
                b7 as int,
            );
            assert forall|k: int| 0 <= k < 8 * (i + 1) implies #[trigger] bit(out@, k) == if k
                < keep {
                bit(s@, k)
            } else {
                0
            } by {
                if k < 8 * i {
                    assert(bit(before, k) == bit(out@, k)) by {
                        assert(out@[k / 8] == before[k / 8]);
                    }
                } else {
                    assert(k / 8 == i);
                    let j = k % 8;
                    assert(out@[k / 8] == byte);
                    assert(k == 8 * i + j);
                }
            }
        }
        i = i + 1;
    }
    out
}

fn kept_bit(s: &[u8], k: usize, keep: usize) -> (r: u8)
    requires
        s@.len() <= 0x1000_0000,
    ensures
        r == (if k < keep {
            bit(s@, k as int)
        } else {
            0
        }),
        r <= 1,
{
    if k < keep {
        get_bit(s, k)
    } else {
        0
    }
}

/// The first `n` bytes of the bit string whose groups of five are `groups`.
pub open spec fn unpacked(groups: Seq<u8>, k: int) -> int {
    if 0 <= k < 5 * groups.len() {
        bit_of(groups[k / 5] as int, k % 5, 5)
    } else {
        0
    }
}

fn unpacked_bit(groups: &[u8], k: usize) -> (r: u8)
    requires
        groups@.len() <= 0x1000_0000,
    ensures
        r == unpacked(groups@, k as int),
        r <= 1,
{
    if k < 5 * groups.len() {
        let v: u8 = groups[k / 5];
        let j: u8 = (k % 5) as u8;
        let d: u8 = p2_exec(4 - j);
        let q: u8 = v / d;
        q % 2
    } else {
        0
    }
}

/// The first `n` bytes of the bit string whose groups of five are `groups`.
pub fn unpack(groups: &[u8], n: usize) -> (r: Vec<u8>)
    requires
        groups@.len() <= 0x1000_0000,
        n <= 0x1000_0000,
    ensures
        r@.len() == n,
        forall|k: int| 0 <= k < 8 * n ==> #[trigger] bit(r@, k) == unpacked(groups@, k),
{
    let mut out: Vec<u8> = Vec::new();
    let mut i: usize = 0;
    while i < n
        invariant
            i <= n,
            n <= 0x1000_0000,
            groups@.len() <= 0x1000_0000,
            out@.len() == i,
            forall|k: int| 0 <= k < 8 * i ==> #[trigger] bit(out@, k) == unpacked(groups@, k),
        decreases n - i,
    {
        let b0: u8 = unpacked_bit(groups, 8 * i);
        let b1: u8 = unpacked_bit(groups, 8 * i + 1);
        let b2: u8 = unpacked_bit(groups, 8 * i + 2);
        let b3: u8 = unpacked_bit(groups, 8 * i + 3);
        let b4: u8 = unpacked_bit(groups, 8 * i + 4);
        let b5: u8 = unpacked_bit(groups, 8 * i + 5);
        let b6: u8 = unpacked_bit(groups, 8 * i + 6);
        let b7: u8 = unpacked_bit(groups, 8 * i + 7);
        let byte: u8 = 128 * b0 + 64 * b1 + 32 * b2 + 16 * b3 + 8 * b4 + 4 * b5 + 2 * b6 + b7;
        let ghost before = out@;
        out.push(byte);
        proof {
            lemma_eight_bits(
                b0 as int,
                b1 as int,
                b2 as int,
                b3 as int,
                b4 as int,
                b5 as int,
                b6 as int,
                b7 as int,
            );
            assert forall|k: int| 0 <= k < 8 * (i + 1) implies #[trigger] bit(out@, k) == unpacked(
                groups@,
                k,
            ) by {
                if k < 8 * i {
                    assert(bit(before, k) == bit(out@, k)) by {
                        assert(out@[k / 8] == before[k / 8]);
                    }
                } else {
                    assert(k / 8 == i);
                    let j = k % 8;
                    assert(out@[k / 8] == byte);
                    assert(k == 8 * i + j);
                }
            }
        }
        i = i + 1;
    }
    out
}

} // verus!
