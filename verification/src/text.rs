//! Decimal and hexadecimal text.
use vstd::prelude::*;
use vstd::utf8::*;

verus! {

/// The character of the digit `d`, for `0 <= d < 10`.
pub open spec fn digit_char(d: nat) -> char {
    (0x30 + d) as char
}

/// `n` in decimal, without leading zeros.
pub open spec fn decimal(n: nat) -> Seq<char>
    decreases n,
{
    if n < 10 {
        seq![digit_char(n)]
    } else {
        decimal(n / 10).push(digit_char(n % 10))
    }
}

/// The number that the decimal digits `s` spell.
pub open spec fn decimal_value(s: Seq<u8>) -> nat
    decreases s.len(),
{
    if s.len() == 0 {
        0
    } else {
        (decimal_value(s.drop_last()) * 10 + (s.last() - 0x30)) as nat
    }
}

/// Whether `b` is an ASCII digit.
pub open spec fn is_digit(b: u8) -> bool {
    0x30 <= b <= 0x39
}

/// Whether every byte of `s` is an ASCII digit.
pub open spec fn all_digits(s: Seq<u8>) -> bool {
    forall|i: int| 0 <= i < s.len() ==> #[trigger] is_digit(s[i])
}

/// The value of a hexadecimal digit of either case.
pub open spec fn hex_value(b: u8) -> int {
    if 0x30 <= b <= 0x39 {
        b - 0x30
    } else if 0x61 <= b <= 0x66 {
        b - 0x61 + 10
    } else if 0x41 <= b <= 0x46 {
        b - 0x41 + 10
    } else {
        -1
    }
}

pub open spec fn is_hex_digit(b: u8) -> bool {
    hex_value(b) >= 0
}

/// The lowercase hexadecimal digit of `v`, for `0 <= v < 16`.
pub open spec fn hex_char(v: int) -> char {
    if v < 10 {
        (0x30 + v) as char
    } else {
        (0x61 + v - 10) as char
    }
}

/// `bytes` in lowercase hexadecimal, two characters a byte.
pub open spec fn hex_text(bytes: Seq<u8>) -> Seq<char> {
    Seq::new(
        2 * bytes.len(),
        |i: int|
            if i % 2 == 0 {
                hex_char(bytes[i / 2] as int / 16)
            } else {
                hex_char(bytes[i / 2] as int % 16)
            },
    )
}

/// Whether `s` is hexadecimal text of whole bytes.
pub open spec fn is_hex(s: Seq<u8>) -> bool {
    s.len() % 2 == 0 && forall|i: int| 0 <= i < s.len() ==> is_hex_digit(#[trigger] s[i])
}

/// The bytes that the hexadecimal text `s` spells.
pub open spec fn hex_bytes(s: Seq<u8>) -> Seq<u8> {
    Seq::new(s.len() / 2, |i: int| (hex_value(s[2 * i]) * 16 + hex_value(s[2 * i + 1])) as u8)
}

/// Whether `b` is an ASCII letter or digit.
pub open spec fn is_alphanumeric(b: u8) -> bool {
    (0x30 <= b <= 0x39) || (0x41 <= b <= 0x5a) || (0x61 <= b <= 0x7a)
}

/// Whether `b` is a printable ASCII character other than the space.
pub open spec fn is_graphic(b: u8) -> bool {
    0x21 <= b <= 0x7e
}

/// An ASCII string of `text` seen as bytes.
pub open spec fn ascii(text: Seq<char>) -> Seq<u8> {
    Seq::new(text.len(), |i: int| text[i] as u8)
}

pub proof fn lemma_hex_char_ascii(v: int)
    requires
        0 <= v < 16,
    ensures
        hex_char(v) as u32 <= 0x7f,
        hex_value(hex_char(v) as u8) == v,
        is_hex_digit(hex_char(v) as u8),
        !(0x41 <= hex_char(v) as u8 <= 0x46),
{
}

/// Hexadecimal text is ASCII.
pub proof fn lemma_hex_text_ascii(bytes: Seq<u8>)
    ensures
        is_ascii_chars(hex_text(bytes)),
        encode_utf8(hex_text(bytes)) == ascii(hex_text(bytes)),
{
    let t = hex_text(bytes);
    assert forall|i: int| 0 <= i < t.len() implies #[trigger] t[i] as u32 <= 0x7f by {
        lemma_hex_char_ascii(bytes[i / 2] as int / 16);
        lemma_hex_char_ascii(bytes[i / 2] as int % 16);
    }
    assert(is_ascii_chars(t)) by {
        assert forall|i: int| 0 <= i < t.len() implies '\0' <= #[trigger] t[i] <= '\u{7f}' by {
            assert(t[i] as u32 <= 0x7f);
        }
    }
    is_ascii_chars_encode_utf8(t);
    assert(encode_utf8(t) =~= ascii(t));
}

/// Reading hexadecimal text back gives the bytes that were written.
pub proof fn lemma_hex_roundtrip(bytes: Seq<u8>)
    ensures
        is_hex(encode_utf8(hex_text(bytes))),
        hex_bytes(encode_utf8(hex_text(bytes))) == bytes,
        encode_utf8(hex_text(bytes)).len() == 2 * bytes.len(),
{
    lemma_hex_text_ascii(bytes);
    let s = encode_utf8(hex_text(bytes));
    assert forall|i: int| 0 <= i < s.len() implies is_hex_digit(#[trigger] s[i]) by {
        lemma_hex_char_ascii(bytes[i / 2] as int / 16);
        lemma_hex_char_ascii(bytes[i / 2] as int % 16);
    }
    assert(s.len() == 2 * bytes.len());
    assert forall|i: int| 0 <= i < bytes.len() implies #[trigger] hex_bytes(s)[i] == bytes[i] by {
        lemma_hex_char_ascii(bytes[i] as int / 16);
        lemma_hex_char_ascii(bytes[i] as int % 16);
        assert((2 * i) / 2 == i && (2 * i + 1) / 2 == i);
        assert(s[2 * i] == hex_char(bytes[i] as int / 16) as u8);
        assert(s[2 * i + 1] == hex_char(bytes[i] as int % 16) as u8);
    }
    assert(hex_bytes(s) =~= bytes);
}

proof fn lemma_decimal_nonempty(n: nat)
    ensures
        decimal(n).len() > 0,
    decreases n,
{
    if n >= 10 {
        lemma_decimal_nonempty(n / 10);
    }
}

/// `n` in decimal.
pub fn decimal_text(n: u64) -> (r: String)
    ensures
        r@ == decimal(n as nat),
    decreases n,
{
    let d: u8 = (n % 10) as u8;
    let c: &str = digit_text(d);
    if n < 10 {
        c.to_owned()
    } else {
        let mut head: String = decimal_text(n / 10);
        head.append(c);
        assert(head@ =~= decimal(n as nat));
        head
    }
}

fn digit_text(d: u8) -> (r: &'static str)
    requires
        d < 10,
    ensures
        r@ == seq![digit_char(d as nat)],
{
    proof {
        reveal_strlit("0");
        reveal_strlit("1");
        reveal_strlit("2");
        reveal_strlit("3");
        reveal_strlit("4");
        reveal_strlit("5");
        reveal_strlit("6");
        reveal_strlit("7");
        reveal_strlit("8");
        reveal_strlit("9");
    }
    let r: &'static str = if d == 0 {
        "0"
    } else if d == 1 {
        "1"
    } else if d == 2 {
        "2"
    } else if d == 3 {
        "3"
    } else if d == 4 {
        "4"
    } else if d == 5 {
        "5"
    } else if d == 6 {
        "6"
    } else if d == 7 {
        "7"
    } else if d == 8 {
        "8"
    } else {
        "9"
    };
    assert(r@ =~= seq![digit_char(d as nat)]);
    r
}

/// `a` followed by `b`.
pub fn join2(a: &str, b: &str) -> (r: String)
    ensures
        r@ == a@ + b@,
{
    let mut s: String = a.to_owned();
    s.append(b);
    s
}

/// Four texts in a row.
pub fn join4(a: &str, b: &str, c: &str, d: &str) -> (r: String)
    ensures
        r@ == a@ + b@ + c@ + d@,
{
    let mut s: String = a.to_owned();
    s.append(b);
    s.append(c);
    s.append(d);
    s
}

/// Five texts in a row.
pub fn join5(a: &str, b: &str, c: &str, d: &str, e: &str) -> (r: String)
    ensures
        r@ == a@ + b@ + c@ + d@ + e@,
{
    let mut s: String = a.to_owned();
    s.append(b);
    s.append(c);
    s.append(d);
    s.append(e);
    s
}

/// Three texts in a row.
pub fn join3(a: &str, b: &str, c: &str) -> (r: String)
    ensures
        r@ == a@ + b@ + c@,
{
    let mut s: String = a.to_owned();
    s.append(b);
    s.append(c);
    s
}

/// Whether two strings are equal.
pub fn same_text(a: &str, b: &str) -> (r: bool)
    ensures
        r == (a@ == b@),
{
    let x: &[u8] = a.as_bytes();
    let y: &[u8] = b.as_bytes();
    let r: bool = crate::bytes::same_bytes(x, y);
    proof {
        encode_utf8_decode_utf8(a@);
        encode_utf8_decode_utf8(b@);
    }
    r
}

/// The text whose bytes are the ASCII bytes `bytes`.
pub fn ascii_text(bytes: Vec<u8>) -> (r: String)
    requires
        forall|i: int| 0 <= i < bytes@.len() ==> #[trigger] bytes@[i] < 0x80,
    ensures
        r@ == Seq::new(bytes@.len(), |i: int| bytes@[i] as char),
        encode_utf8(r@) == bytes@,
{
    let ghost b = bytes@;
    let ghost t = Seq::new(b.len(), |i: int| b[i] as char);
    proof {
        assert(is_ascii_chars(t)) by {
            assert forall|i: int| 0 <= i < t.len() implies '\0' <= #[trigger] t[i] <= '\u{7f}' by {
                assert(b[i] < 0x80);
            }
        }
        is_ascii_chars_encode_utf8(t);
        assert(encode_utf8(t) =~= b);
        encode_utf8_valid_utf8(t);
        encode_utf8_decode_utf8(t);
    }
    match crate::foreign::utf8_text(bytes) {
        Some(s) => s,
        None => String::new(),
    }
}

/// What follows `prefix` in `s`, if `s` begins with it.
pub fn strip_prefix<'a>(s: &'a str, prefix: &str) -> (r: Option<&'a str>)
    ensures
        r matches Some(rest) ==> s@ == prefix@ + rest@,
        r is None ==> !prefix@.is_prefix_of(s@),
{
    let n: usize = prefix.unicode_len();
    let m: usize = s.unicode_len();
    if m < n {
        return None;
    }
    let mut i: usize = 0;
    while i < n
        invariant
            n == prefix@.len(),
            m == s@.len(),
            n <= m,
            i <= n,
            forall|j: int| 0 <= j < i ==> s@[j] == prefix@[j],
        decreases n - i,
    {
        if s.get_char(i) != prefix.get_char(i) {
            return None;
        }
        i = i + 1;
    }
    let rest: &str = s.substring_char(n, m);
    assert(s@ =~= prefix@ + rest@);
    Some(rest)
}

/// A string begins with a prefix in one way only.
pub proof fn lemma_prefix_unique(s: Seq<char>, p: Seq<char>, a: Seq<char>, b: Seq<char>)
    requires
        s == p + a,
        s == p + b,
    ensures
        a == b,
        p.is_prefix_of(s),
{
    assert(s.skip(p.len() as int) =~= a);
    assert(s.skip(p.len() as int) =~= b);
}

/// Numbers with the same decimal text are equal.
pub proof fn lemma_decimal_injective(a: nat, b: nat)
    ensures
        decimal(a) == decimal(b) ==> a == b,
    decreases a,
{
    if decimal(a) == decimal(b) {
        if a < 10 {
            if b >= 10 {
                lemma_decimal_nonempty(b / 10);
                assert(decimal(b).len() > 1);
            } else {
                assert(decimal(a)[0] == decimal(b)[0]);
            }
        } else {
            lemma_decimal_nonempty(a / 10);
            if b < 10 {
                assert(decimal(a).len() > 1);
            } else {
                assert(decimal(a).drop_last() =~= decimal(a / 10));
                assert(decimal(b).drop_last() =~= decimal(b / 10));
                lemma_decimal_injective(a / 10, b / 10);
                assert(decimal(a).last() == digit_char(a % 10));
                assert(decimal(b).last() == digit_char(b % 10));
            }
        }
    }
}

/// The bytes of the decimal text of a number.
pub open spec fn decimal_bytes(n: nat) -> Seq<u8> {
    Seq::new(decimal(n).len(), |i: int| decimal(n)[i] as u8)
}

proof fn lemma_decimal_bytes(n: nat)
    ensures
        decimal(n).len() > 0,
        forall|i: int|
            0 <= i < decimal(n).len() ==> '0' <= #[trigger] decimal(n)[i] && decimal(n)[i] <= '9',
        all_digits(decimal_bytes(n)),
        decimal_value(decimal_bytes(n)) == n,
        n > 0 ==> decimal_bytes(n)[0] != 0x30,
        n < 10 ==> decimal(n).len() == 1,
    decreases n,
{
    let b = decimal_bytes(n);
    if n < 10 {
        assert(b =~= seq![(0x30 + n) as u8]);
        assert(b.drop_last() =~= Seq::empty());
        assert(decimal_value(b.drop_last()) == 0);
    } else {
        lemma_decimal_bytes(n / 10);
        let h = decimal_bytes(n / 10);
        assert(b.drop_last() =~= h);
        assert(b.last() == 0x30 + n % 10);
        assert(b[0] == h[0]);
        assert forall|i: int| 0 <= i < b.len() implies is_digit(#[trigger] b[i]) by {
            if i < h.len() {
                assert(b[i] == h[i]);
                assert(is_digit(h[i]));
            }
        }
        assert forall|i: int| 0 <= i < decimal(n).len() implies '0' <= #[trigger] decimal(n)[i]
            && decimal(n)[i] <= '9' by {
            if i < decimal(n / 10).len() {
                assert(decimal(n)[i] == decimal(n / 10)[i]);
            }
        }
    }
}

/// The decimal text of a number spells that number, without leading zeros.
pub proof fn lemma_decimal_reads_back(n: nat)
    ensures
        encode_utf8(decimal(n)).len() > 0,
        all_digits(encode_utf8(decimal(n))),
        decimal_value(encode_utf8(decimal(n))) == n,
        encode_utf8(decimal(n)).len() > 1 ==> encode_utf8(decimal(n))[0] != 0x30,
{
    lemma_decimal_bytes(n);
    assert(is_ascii_chars(decimal(n)));
    is_ascii_chars_encode_utf8(decimal(n));
    assert(encode_utf8(decimal(n)) =~= decimal_bytes(n));
}

// ------------------------------------------------------- order and lists
/// Whether `a` stands before `b` in the order of bytes, or is equal to it.
pub open spec fn bytes_le(a: Seq<u8>, b: Seq<u8>) -> bool
    decreases a.len(),
{
    if a.len() == 0 {
        true
    } else if b.len() == 0 {
        false
    } else if a[0] != b[0] {
        a[0] < b[0]
    } else {
        bytes_le(a.drop_first(), b.drop_first())
    }
}

proof fn lemma_bytes_le_total(a: Seq<u8>, b: Seq<u8>)
    ensures
        bytes_le(a, b) || bytes_le(b, a),
    decreases a.len(),
{
    if a.len() > 0 && b.len() > 0 && a[0] == b[0] {
        lemma_bytes_le_total(a.drop_first(), b.drop_first());
    }
}

proof fn lemma_bytes_le_transitive(a: Seq<u8>, b: Seq<u8>, c: Seq<u8>)
    requires
        bytes_le(a, b),
        bytes_le(b, c),
    ensures
        bytes_le(a, c),
    decreases a.len(),
{
    if a.len() > 0 && b.len() > 0 && c.len() > 0 && a[0] == b[0] && b[0] == c[0] {
        lemma_bytes_le_transitive(a.drop_first(), b.drop_first(), c.drop_first());
    }
}

/// Whether the text `a` stands before `b`, or is equal to it.
pub open spec fn text_le(a: Seq<char>, b: Seq<char>) -> bool {
    bytes_le(encode_utf8(a), encode_utf8(b))
}

fn text_not_after(a: &str, b: &str) -> (r: bool)
    ensures
        r == text_le(a@, b@),
{
    let x: &[u8] = a.as_bytes();
    let y: &[u8] = b.as_bytes();
    let mut i: usize = 0;
    assert(x@.skip(0) =~= x@);
    assert(y@.skip(0) =~= y@);
    loop
        invariant
            i <= x@.len(),
            i <= y@.len(),
            x@ == encode_utf8(a@),
            y@ == encode_utf8(b@),
            bytes_le(x@, y@) == bytes_le(x@.skip(i as int), y@.skip(i as int)),
        decreases x@.len() - i,
    {
        if i >= x.len() {
            return true;
        }
        if i >= y.len() {
            return false;
        }
        if x[i] != y[i] {
            return x[i] < y[i];
        }
        assert(x@.skip(i as int).drop_first() =~= x@.skip(i + 1));
        assert(y@.skip(i as int).drop_first() =~= y@.skip(i + 1));
        i = i + 1;
    }
}

pub open spec fn text_views(s: Seq<String>) -> Seq<Seq<char>> {
    s.map_values(|t: String| t@)
}

/// Whether texts stand in order.
pub open spec fn in_order(s: Seq<Seq<char>>) -> bool {
    forall|i: int, j: int| 0 <= i < j < s.len() ==> text_le(#[trigger] s[i], #[trigger] s[j])
}

fn place_text(out: &mut Vec<String>, t: String)
    requires
        in_order(text_views(old(out)@)),
    ensures
        in_order(text_views(final(out)@)),
        text_views(final(out)@).to_multiset() == text_views(old(out)@).to_multiset().insert(t@),
{
    let ghost before = text_views(out@);
    let mut p: usize = out.len();
    while p > 0 && !text_not_after(&out[p - 1], &t)
        invariant
            p <= out@.len(),
            before == text_views(out@),
            forall|j: int| p <= j < before.len() ==> !text_le(#[trigger] before[j], t@),
        decreases p,
    {
        p = p - 1;
    }
    let ghost tv = t@;
    out.insert(p, t);
    let ghost after = text_views(out@);
    proof {
        assert(after =~= before.insert(p as int, tv));
        assert forall|i: int, j: int| 0 <= i < j < after.len() implies text_le(
            #[trigger] after[i],
            #[trigger] after[j],
        ) by {
            if i == p {
                assert(after[j] == before[j - 1]);
                lemma_bytes_le_total(encode_utf8(before[j - 1]), encode_utf8(tv));
            } else if j == p {
                assert(after[i] == before[i]);
                if i < p - 1 {
                    assert(text_le(before[i], before[p - 1]));
                    lemma_bytes_le_transitive(
                        encode_utf8(before[i]),
                        encode_utf8(before[p - 1]),
                        encode_utf8(tv),
                    );
                }
            } else {
                let a = if i < p {
                    i
                } else {
                    i - 1
                };
                let b = if j < p {
                    j
                } else {
                    j - 1
                };
                assert(after[i] == before[a] && after[j] == before[b]);
            }
        }
        broadcast use vstd::seq_lib::group_to_multiset_ensures;

        assert(after.remove(p as int) =~= before);
        assert(after[p as int] == tv);
        assert(after.contains(tv));
        assert(before.to_multiset() == after.to_multiset().remove(tv));
        assert(after.to_multiset() =~= before.to_multiset().insert(tv));
    }
}

/// The same texts, in order.
pub fn sort_texts(texts: &Vec<String>) -> (r: Vec<String>)
    ensures
        in_order(text_views(r@)),
        text_views(r@).to_multiset() == text_views(texts@).to_multiset(),
{
    let ghost all = text_views(texts@);
    let mut out: Vec<String> = Vec::new();
    let mut i: usize = 0;
    assert(text_views(out@) =~= all.take(0));
    while i < texts.len()
        invariant
            i <= texts@.len(),
            all == text_views(texts@),
            in_order(text_views(out@)),
            text_views(out@).to_multiset() == all.take(i as int).to_multiset(),
        decreases texts@.len() - i,
    {
        place_text(&mut out, texts[i].clone());
        proof {
            broadcast use vstd::seq_lib::group_to_multiset_ensures;

            assert(all.take(i + 1) =~= all.take(i as int).push(all[i as int]));
        }
        i = i + 1;
    }
    assert(all.take(i as int) =~= all);
    out
}

/// The texts in a row, with `sep` between them.
pub open spec fn joined(s: Seq<Seq<char>>, sep: Seq<char>) -> Seq<char>
    decreases s.len(),
{
    if s.len() == 0 {
        Seq::empty()
    } else if s.len() == 1 {
        s[0]
    } else {
        joined(s.drop_last(), sep) + sep + s.last()
    }
}

/// The texts in a row, with `sep` between them.
pub fn join_texts(texts: &Vec<String>, sep: &str) -> (r: String)
    ensures
        r@ == joined(text_views(texts@), sep@),
{
    let ghost all = text_views(texts@);
    let mut out: String = String::new();
    let mut i: usize = 0;
    assert(out@ =~= joined(all.take(0), sep@));
    while i < texts.len()
        invariant
            i <= texts@.len(),
            all == text_views(texts@),
            out@ == joined(all.take(i as int), sep@),
        decreases texts@.len() - i,
    {
        let ghost before = out@;
        if i > 0 {
            out.append(sep);
        }
        out.append(&texts[i]);
        proof {
            let next = all.take(i + 1);
            assert(next.drop_last() =~= all.take(i as int));
            assert(next.last() == texts@[i as int]@);
            if i == 0 {
                assert(next[0] == texts@[0]@);
                assert(out@ =~= texts@[0]@);
            } else {
                assert(out@ =~= before + sep@ + texts@[i as int]@);
            }
        }
        i = i + 1;
    }
    assert(all.take(i as int) =~= all);
    out
}

/// Whether `part` stands in `s` at `i`.
pub open spec fn part_at(s: Seq<char>, part: Seq<char>, i: int) -> bool {
    0 <= i && i + part.len() <= s.len() && s.subrange(i, i + part.len()) == part
}

/// Whether `part` stands somewhere in `s`.
pub open spec fn has_part(s: Seq<char>, part: Seq<char>) -> bool {
    exists|i: int| #[trigger] part_at(s, part, i)
}

/// Whether `part` stands somewhere in `s`.
pub fn contains_text(s: &str, part: &str) -> (r: bool)
    ensures
        r == has_part(s@, part@),
{
    let m: usize = s.unicode_len();
    let n: usize = part.unicode_len();
    if n > m {
        assert forall|k: int| !part_at(s@, part@, k) by {}
        return false;
    }
    let mut i: usize = 0;
    while i <= m - n
        invariant
            m == s@.len(),
            n == part@.len(),
            n <= m,
            i <= m - n + 1,
            forall|k: int| 0 <= k < i ==> !#[trigger] part_at(s@, part@, k),
        decreases m - n + 1 - i,
    {
        let here: &str = s.substring_char(i, i + n);
        assert(here@ =~= s@.subrange(i as int, i + n));
        if same_text(here, part) {
            assert(part_at(s@, part@, i as int));
            return true;
        }
        assert(!part_at(s@, part@, i as int));
        if i == m - n {
            assert forall|k: int| !part_at(s@, part@, k) by {}
            return false;
        }
        i = i + 1;
    }
    assert forall|k: int| !part_at(s@, part@, k) by {}
    false
}

/// Texts are ordered by the first byte in which they differ; a text stands
/// before those that go on from it.
pub proof fn law_first_difference_decides(a: Seq<u8>, b: Seq<u8>, k: int)
    requires
        0 <= k <= a.len(),
        k <= b.len(),
        forall|i: int| 0 <= i < k ==> #[trigger] a[i] == b[i],
    ensures
        k < a.len() && k < b.len() && a[k] < b[k] ==> bytes_le(a, b) && !bytes_le(b, a),
        k == a.len() ==> bytes_le(a, b),
        k == a.len() && k < b.len() ==> !bytes_le(b, a),
    decreases k,
{
    if k > 0 {
        assert(a[0] == b[0]);
        law_first_difference_decides(a.drop_first(), b.drop_first(), k - 1);
    }
}

/// Joined texts stand in order, with the separator between each two.
pub proof fn law_joined_texts(s: Seq<Seq<char>>, t: Seq<char>, sep: Seq<char>)
    ensures
        joined(Seq::empty(), sep).len() == 0,
        joined(seq![t], sep) == t,
        s.len() > 0 ==> joined(s.push(t), sep) == joined(s, sep) + sep + t,
{
    assert(s.push(t).drop_last() =~= s);
}

} // verus!
