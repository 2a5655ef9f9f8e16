//! Fixed-width big-endian integers and length-prefixed byte strings.
use vstd::prelude::*;

verus! {

/// `256^n`.
pub open spec fn pow256(n: nat) -> nat
    decreases n,
{
    if n == 0 {
        1
    } else {
        256 * pow256((n - 1) as nat)
    }
}

/// The `n` low-order base-256 digits of `x`, most significant first.
pub open spec fn be(x: nat, n: nat) -> Seq<u8>
    decreases n,
{
    if n == 0 {
        Seq::empty()
    } else {
        be(x / 256, (n - 1) as nat).push((x % 256) as u8)
    }
}

/// The number whose base-256 digits, most significant first, are `s`.
pub open spec fn from_be(s: Seq<u8>) -> nat
    decreases s.len(),
{
    if s.len() == 0 {
        0
    } else {
        from_be(s.drop_last()) * 256 + s.last() as nat
    }
}

/// The 8-byte big-endian form of `x`.
pub open spec fn be64(x: u64) -> Seq<u8> {
    be(x as nat, 8)
}

pub proof fn lemma_be_len(x: nat, n: nat)
    ensures
        be(x, n).len() == n,
    decreases n,
{
    if n > 0 {
        lemma_be_len(x / 256, (n - 1) as nat);
    }
}

pub proof fn lemma_pow256_8()
    ensures
        pow256(8) == 0x1_0000_0000_0000_0000,
{
    reveal_with_fuel(pow256, 9);
}

/// A number below `256^n` is read back from its `n` digits.
pub proof fn lemma_from_be_of_be(x: nat, n: nat)
    requires
        x < pow256(n),
    ensures
        from_be(be(x, n)) == x,
    decreases n,
{
    if n > 0 {
        let m = (n - 1) as nat;
        assert(x / 256 < pow256(m));
        lemma_from_be_of_be(x / 256, m);
        assert(be(x, n).drop_last() =~= be(x / 256, m));
        assert(be(x, n).last() as nat == x % 256);
    }
}

/// The digits of a number determine it, and are determined by it.
pub proof fn lemma_be_of_from_be(s: Seq<u8>)
    ensures
        be(from_be(s), s.len()) == s,
        from_be(s) < pow256(s.len()),
    decreases s.len(),
{
    if s.len() > 0 {
        let t = s.drop_last();
        lemma_be_of_from_be(t);
        let hi = from_be(t);
        let lo = s.last() as nat;
        assert((hi * 256 + lo) / 256 == hi);
        assert((hi * 256 + lo) % 256 == lo);
        assert(t.push(s.last()) =~= s);
    }
}

/// Two 64-bit numbers with the same big-endian form are equal.
pub proof fn lemma_be64_injective(x: u64, y: u64)
    requires
        be64(x) == be64(y),
    ensures
        x == y,
{
    lemma_pow256_8();
    lemma_from_be_of_be(x as nat, 8);
    lemma_from_be_of_be(y as nat, 8);
}

/// Appends the 8-byte big-endian form of `x`.
pub fn put_u64(buf: &mut Vec<u8>, x: u64)
    ensures
        final(buf)@ == old(buf)@ + be64(x),
{
    let b0: u8 = (x / 0x100_0000_0000_0000) as u8;
    let b1: u8 = (x / 0x1_0000_0000_0000 % 256) as u8;
    let b2: u8 = (x / 0x100_0000_0000 % 256) as u8;
    let b3: u8 = (x / 0x1_0000_0000 % 256) as u8;
    let b4: u8 = (x / 0x100_0000 % 256) as u8;
    let b5: u8 = (x / 0x1_0000 % 256) as u8;
    let b6: u8 = (x / 0x100 % 256) as u8;
    let b7: u8 = (x % 256) as u8;
    proof {
        reveal_with_fuel(be, 9);
        let n = x as nat;
        assert(n / 256 / 256 == n / 0x1_0000);
        assert(n / 256 / 256 / 256 == n / 0x100_0000);
        assert(n / 256 / 256 / 256 / 256 == n / 0x1_0000_0000);
        assert(n / 256 / 256 / 256 / 256 / 256 == n / 0x100_0000_0000);
        assert(n / 256 / 256 / 256 / 256 / 256 / 256 == n / 0x1_0000_0000_0000);
        assert(n / 256 / 256 / 256 / 256 / 256 / 256 / 256 == n / 0x100_0000_0000_0000);
        assert(be64(x) =~= seq![b0, b1, b2, b3, b4, b5, b6, b7]);
    }
    buf.push(b0);
    buf.push(b1);
    buf.push(b2);
    buf.push(b3);
    buf.push(b4);
    buf.push(b5);
    buf.push(b6);
    buf.push(b7);
    assert(buf@ =~= old(buf)@ + be64(x));
}

/// Reads the 8-byte big-endian number that starts at `at`.
pub fn get_u64(buf: &[u8], at: usize) -> (x: u64)
    requires
        at + 8 <= buf@.len(),
    ensures
        be64(x) == buf@.subrange(at as int, at + 8),
{
    let ghost s = buf@.subrange(at as int, at + 8);
    let x: u64 = buf[at] as u64 * 0x100_0000_0000_0000 + buf[at + 1] as u64 * 0x1_0000_0000_0000
        + buf[at + 2] as u64 * 0x100_0000_0000 + buf[at + 3] as u64 * 0x1_0000_0000 + buf[at
        + 4] as u64 * 0x100_0000 + buf[at + 5] as u64 * 0x1_0000 + buf[at + 6] as u64 * 0x100
        + buf[at + 7] as u64;
    proof {
        reveal_with_fuel(from_be, 9);
        let s7 = s.drop_last();
        let s6 = s7.drop_last();
        let s5 = s6.drop_last();
        let s4 = s5.drop_last();
        let s3 = s4.drop_last();
        let s2 = s3.drop_last();
        let s1 = s2.drop_last();
        assert(s1.drop_last().len() == 0);
        assert(from_be(s) == x);
        lemma_be_of_from_be(s);
    }
    x
}

/// `field` behind its 8-byte length.
pub open spec fn framed(field: Seq<u8>) -> Seq<u8> {
    be64(field.len() as u64) + field
}

/// All of `fields`, framed, in order.
pub open spec fn framed_all(fields: Seq<Seq<u8>>) -> Seq<u8>
    decreases fields.len(),
{
    if fields.len() == 0 {
        Seq::empty()
    } else {
        framed_all(fields.drop_last()) + framed(fields.last())
    }
}

/// Appends `bytes` behind its length.
pub fn put_bytes(buf: &mut Vec<u8>, bytes: &[u8])
    ensures
        final(buf)@ == old(buf)@ + framed(bytes@),
{
    put_u64(buf, bytes.len() as u64);
    append_slice(buf, bytes);
    assert(buf@ =~= old(buf)@ + framed(bytes@));
}

/// Appends `bytes`.
pub fn append_slice(buf: &mut Vec<u8>, bytes: &[u8])
    ensures
        final(buf)@ == old(buf)@ + bytes@,
{
    let mut i: usize = 0;
    while i < bytes.len()
        invariant
            i <= bytes@.len(),
            buf@ == old(buf)@ + bytes@.take(i as int),
        decreases bytes@.len() - i,
    {
        buf.push(bytes[i]);
        assert(bytes@.take(i + 1) =~= bytes@.take(i as int).push(bytes@[i as int]));
        i = i + 1;
    }
    assert(bytes@.take(i as int) =~= bytes@);
}

/// Whether two byte strings are equal.
pub fn same_bytes(a: &[u8], b: &[u8]) -> (r: bool)
    ensures
        r == (a@ == b@),
{
    if a.len() != b.len() {
        return false;
    }
    let mut i: usize = 0;
    while i < a.len()
        invariant
            a@.len() == b@.len(),
            i <= a@.len(),
            a@.take(i as int) == b@.take(i as int),
        decreases a@.len() - i,
    {
        if a[i] != b[i] {
            return false;
        }
        assert(a@.take(i + 1) =~= a@.take(i as int).push(a@[i as int]));
        assert(b@.take(i + 1) =~= b@.take(i as int).push(b@[i as int]));
        i = i + 1;
    }
    assert(a@.take(i as int) =~= a@);
    assert(b@.take(i as int) =~= b@);
    true
}

/// A copy of `bytes`.
pub fn copy_bytes(bytes: &[u8]) -> (r: Vec<u8>)
    ensures
        r@ == bytes@,
{
    let mut out: Vec<u8> = Vec::new();
    append_slice(&mut out, bytes);
    assert(out@ =~= bytes@);
    out
}

proof fn lemma_framed_prefix(a: Seq<u8>, b: Seq<u8>, x: Seq<u8>, y: Seq<u8>)
    requires
        a.len() <= u64::MAX,
        b.len() <= u64::MAX,
        framed(a) + x == framed(b) + y,
    ensures
        a == b,
        x == y,
{
    lemma_be_len(a.len(), 8);
    lemma_be_len(b.len(), 8);
    let l = framed(a) + x;
    let r = framed(b) + y;
    assert(l.subrange(0, 8) =~= be64(a.len() as u64));
    assert(r.subrange(0, 8) =~= be64(b.len() as u64));
    lemma_be64_injective(a.len() as u64, b.len() as u64);
    assert(l.subrange(8, 8 + a.len() as int) =~= a);
    assert(r.subrange(8, 8 + b.len() as int) =~= b);
    assert(l.subrange(8 + a.len() as int, l.len() as int) =~= x);
    assert(r.subrange(8 + b.len() as int, r.len() as int) =~= y);
}

proof fn lemma_framed_all_first(fields: Seq<Seq<u8>>)
    requires
        fields.len() > 0,
    ensures
        framed_all(fields) == framed(fields[0]) + framed_all(fields.drop_first()),
    decreases fields.len(),
{
    if fields.len() == 1 {
        assert(fields.drop_last() =~= Seq::<Seq<u8>>::empty());
        assert(fields.drop_first() =~= Seq::<Seq<u8>>::empty());
        assert(framed_all(fields) =~= framed(fields[0]) + framed_all(fields.drop_first()));
    } else {
        let init = fields.drop_last();
        lemma_framed_all_first(init);
        assert(init.drop_first() =~= fields.drop_first().drop_last());
        assert(framed_all(fields) =~= framed(fields[0]) + framed_all(fields.drop_first()));
    }
}

/// Framing separates fields: byte strings made of equally many framed
/// fields are equal only if every field is, whatever follows.
pub proof fn lemma_framed_all_injective(
    a: Seq<Seq<u8>>,
    b: Seq<Seq<u8>>,
    x: Seq<u8>,
    y: Seq<u8>,
)
    requires
        a.len() == b.len(),
        forall|i: int| 0 <= i < a.len() ==> (#[trigger] a[i]).len() <= u64::MAX,
        forall|i: int| 0 <= i < b.len() ==> (#[trigger] b[i]).len() <= u64::MAX,
        framed_all(a) + x == framed_all(b) + y,
    ensures
        a == b,
        x == y,
    decreases a.len(),
{
    if a.len() == 0 {
        assert(framed_all(a) + x =~= x);
        assert(framed_all(b) + y =~= y);
        assert(a =~= b);
    } else {
        lemma_framed_all_first(a);
        lemma_framed_all_first(b);
        let ta = a.drop_first();
        let tb = b.drop_first();
        assert(framed_all(a) + x =~= framed(a[0]) + (framed_all(ta) + x));
        assert(framed_all(b) + y =~= framed(b[0]) + (framed_all(tb) + y));
        assert(a[0].len() <= u64::MAX && b[0].len() <= u64::MAX);
        lemma_framed_prefix(a[0], b[0], framed_all(ta) + x, framed_all(tb) + y);
        lemma_framed_all_injective(ta, tb, x, y);
        assert(a =~= seq![a[0]] + ta);
        assert(b =~= seq![b[0]] + tb);
    }
}

/// The eight bytes of a number, the highest first.
pub proof fn law_bytes_of_a_number(x: u64)
    ensures
        be64(x).len() == 8,
        be64(x)[7] == x % 256,
        be64(x)[6] == x / 0x100 % 256,
        be64(x)[5] == x / 0x1_0000 % 256,
        be64(x)[4] == x / 0x100_0000 % 256,
        be64(x)[3] == x / 0x1_0000_0000 % 256,
        be64(x)[2] == x / 0x100_0000_0000 % 256,
        be64(x)[1] == x / 0x1_0000_0000_0000 % 256,
        be64(x)[0] == x / 0x100_0000_0000_0000 % 256,
{
    let n = x as nat;
    reveal_with_fuel(be, 9);
    assert(n / 256 / 256 == n / 0x1_0000);
    assert(n / 0x1_0000 / 256 == n / 0x100_0000);
    assert(n / 0x100_0000 / 256 == n / 0x1_0000_0000);
    assert(n / 0x1_0000_0000 / 256 == n / 0x100_0000_0000);
    assert(n / 0x100_0000_0000 / 256 == n / 0x1_0000_0000_0000);
    assert(n / 0x1_0000_0000_0000 / 256 == n / 0x100_0000_0000_0000);
}

/// A frame is the length of the field and the field; frames stand in order.
pub proof fn law_frames(fields: Seq<Seq<u8>>, field: Seq<u8>)
    ensures
        framed(field).take(8) == be64(field.len() as u64),
        framed(field).skip(8) == field,
        framed_all(fields.push(field)) == framed_all(fields) + framed(field),
        framed_all(Seq::empty()).len() == 0,
{
    lemma_be_len((field.len() as u64) as nat, 8);
    assert(framed(field).take(8) =~= be64(field.len() as u64));
    assert(framed(field).skip(8) =~= field);
    assert(fields.push(field).drop_last() =~= fields);
}

} // verus!
