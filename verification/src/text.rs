//! Text and byte-string primitives: the byte order that keys and IDs sort by,
//! prefixes, and decimal and hexadecimal rendering.
use vstd::prelude::*;
use vstd::string::*;
use vstd::utf8::*;

verus! {

/// `String::push` appends one character.
pub assume_specification[ String::push ](s: &mut String, c: char)
    ensures
        final(s)@ == old(s)@.push(c),
;

// ---------------------------------------------------------------------------
// Byte order
// ---------------------------------------------------------------------------
/// Strict lexicographic order on byte strings.
pub open spec fn lex_lt(a: Seq<u8>, b: Seq<u8>) -> bool
    decreases a.len(),
{
    if b.len() == 0 {
        false
    } else if a.len() == 0 {
        true
    } else if a[0] != b[0] {
        a[0] < b[0]
    } else {
        lex_lt(a.drop_first(), b.drop_first())
    }
}

/// The order of texts is the order of their UTF-8 encodings.
pub open spec fn text_lt(a: Seq<char>, b: Seq<char>) -> bool {
    lex_lt(encode_utf8(a), encode_utf8(b))
}

pub proof fn lemma_lex_irreflexive(a: Seq<u8>)
    ensures
        !lex_lt(a, a),
    decreases a.len(),
{
    if a.len() > 0 {
        lemma_lex_irreflexive(a.drop_first());
    }
}

pub proof fn lemma_lex_transitive(a: Seq<u8>, b: Seq<u8>, c: Seq<u8>)
    requires
        lex_lt(a, b),
        lex_lt(b, c),
    ensures
        lex_lt(a, c),
    decreases a.len(),
{
    if a.len() > 0 && a[0] == b[0] && b[0] == c[0] {
        lemma_lex_transitive(a.drop_first(), b.drop_first(), c.drop_first());
    }
}

pub proof fn lemma_lex_total(a: Seq<u8>, b: Seq<u8>)
    ensures
        lex_lt(a, b) || lex_lt(b, a) || a == b,
    decreases a.len(),
{
    if a.len() == 0 && b.len() == 0 {
        assert(a =~= b);
    } else if a.len() > 0 && b.len() > 0 && a[0] == b[0] {
        lemma_lex_total(a.drop_first(), b.drop_first());
        if a.drop_first() == b.drop_first() {
            assert(a =~= seq![a[0]] + a.drop_first());
            assert(b =~= seq![b[0]] + b.drop_first());
        }
    }
}

/// The order is decided at the first position where the two differ.
pub proof fn lemma_lex_at(a: Seq<u8>, b: Seq<u8>, n: int)
    requires
        0 <= n < a.len(),
        n < b.len(),
        a.take(n) == b.take(n),
        a[n] != b[n],
    ensures
        lex_lt(a, b) == (a[n] < b[n]),
    decreases n,
{
    if n > 0 {
        assert(a[0] == a.take(n)[0] && b[0] == b.take(n)[0]);
        assert(a.drop_first().take(n - 1) =~= a.take(n).drop_first());
        assert(b.drop_first().take(n - 1) =~= b.take(n).drop_first());
        lemma_lex_at(a.drop_first(), b.drop_first(), n - 1);
    }
}

/// A proper prefix sorts before every extension of it.
pub proof fn lemma_lex_prefix(a: Seq<u8>, b: Seq<u8>)
    requires
        a.is_prefix_of(b),
    ensures
        lex_lt(a, b) == (a.len() < b.len()),
        !lex_lt(b, a),
    decreases a.len(),
{
    if a.len() > 0 {
        assert(a[0] == b[0]);
        assert(a.drop_first() =~= b.drop_first().take(a.len() - 1));
        lemma_lex_prefix(a.drop_first(), b.drop_first());
    }
}

/// A common prefix does not affect the order.
pub proof fn lemma_lex_common_prefix(p: Seq<u8>, a: Seq<u8>, b: Seq<u8>)
    ensures
        lex_lt(p + a, p + b) == lex_lt(a, b),
    decreases p.len(),
{
    if p.len() == 0 {
        assert(p + a =~= a);
        assert(p + b =~= b);
    } else {
        assert((p + a).drop_first() =~= p.drop_first() + a);
        assert((p + b).drop_first() =~= p.drop_first() + b);
        lemma_lex_common_prefix(p.drop_first(), a, b);
    }
}

/// Distinct texts have distinct encodings.
pub proof fn lemma_encode_injective(a: Seq<char>, b: Seq<char>)
    ensures
        (encode_utf8(a) == encode_utf8(b)) == (a == b),
{
    encode_utf8_decode_utf8(a);
    encode_utf8_decode_utf8(b);
}

pub proof fn lemma_encode_concat(a: Seq<char>, b: Seq<char>)
    ensures
        encode_utf8(a + b) == encode_utf8(a) + encode_utf8(b),
    decreases a.len(),
{
    if a.len() == 0 {
        assert(a + b =~= b);
        assert(encode_utf8(a) =~= Seq::<u8>::empty());
        assert(encode_utf8(a) + encode_utf8(b) =~= encode_utf8(b));
    } else {
        assert((a + b).drop_first() =~= a.drop_first() + b);
        lemma_encode_concat(a.drop_first(), b);
        let head = encode_scalar(a[0] as u32);
        assert((a + b)[0] == a[0]);
        assert(encode_utf8(a + b) == head + encode_utf8((a + b).drop_first()));
        assert(encode_utf8(a) == head + encode_utf8(a.drop_first()));
        assert(head + (encode_utf8(a.drop_first()) + encode_utf8(b)) =~= (head + encode_utf8(
            a.drop_first(),
        )) + encode_utf8(b));
    }
}

pub proof fn lemma_text_irreflexive(a: Seq<char>)
    ensures
        !text_lt(a, a),
{
    lemma_lex_irreflexive(encode_utf8(a));
}

pub proof fn lemma_text_transitive(a: Seq<char>, b: Seq<char>, c: Seq<char>)
    requires
        text_lt(a, b),
        text_lt(b, c),
    ensures
        text_lt(a, c),
{
    lemma_lex_transitive(encode_utf8(a), encode_utf8(b), encode_utf8(c));
}

pub proof fn lemma_text_total(a: Seq<char>, b: Seq<char>)
    ensures
        text_lt(a, b) || text_lt(b, a) || a == b,
{
    lemma_lex_total(encode_utf8(a), encode_utf8(b));
    lemma_encode_injective(a, b);
}

pub proof fn lemma_text_asymmetric(a: Seq<char>, b: Seq<char>)
    requires
        text_lt(a, b),
    ensures
        !text_lt(b, a),
        a != b,
{
    if text_lt(b, a) {
        lemma_text_transitive(a, b, a);
    }
    lemma_text_irreflexive(a);
}

/// Whether `a` sorts strictly before `b`.
pub fn bytes_lt(a: &[u8], b: &[u8]) -> (less: bool)
    ensures
        less == lex_lt(a@, b@),
{
    let mut i: usize = 0;
    while i < a.len() && i < b.len() && a[i] == b[i]
        invariant
            i <= a@.len(),
            i <= b@.len(),
            a@.take(i as int) == b@.take(i as int),
        decreases a@.len() - i,
    {
        assert(a@.take(i + 1) =~= a@.take(i as int).push(a@[i as int]));
        assert(b@.take(i + 1) =~= b@.take(i as int).push(b@[i as int]));
        i += 1;
    }
    if i < a.len() && i < b.len() {
        proof {
            lemma_lex_at(a@, b@, i as int);
        }
        a[i] < b[i]
    } else {
        proof {
            if i == a@.len() {
                assert(a@ =~= b@.take(i as int));
                lemma_lex_prefix(a@, b@);
            } else {
                assert(b@ =~= a@.take(i as int));
                lemma_lex_prefix(b@, a@);
            }
        }
        a.len() < b.len()
    }
}

pub fn bytes_eq(a: &[u8], b: &[u8]) -> (equal: bool)
    ensures
        equal == (a@ == b@),
{
    if a.len() != b.len() {
        return false;
    }
    let mut i: usize = 0;
    while i < a.len()
        invariant
            i <= a@.len(),
            a@.len() == b@.len(),
            forall|j: int| 0 <= j < i ==> a@[j] == b@[j],
        decreases a@.len() - i,
    {
        if a[i] != b[i] {
            return false;
        }
        i += 1;
    }
    assert(a@ =~= b@);
    true
}

pub fn text_eq(a: &str, b: &str) -> (equal: bool)
    ensures
        equal == (a@ == b@),
{
    proof {
        lemma_encode_injective(a@, b@);
    }
    bytes_eq(a.as_bytes(), b.as_bytes())
}

pub fn text_less(a: &str, b: &str) -> (less: bool)
    ensures
        less == text_lt(a@, b@),
{
    bytes_lt(a.as_bytes(), b.as_bytes())
}

// ---------------------------------------------------------------------------
// Slices of byte strings
// ---------------------------------------------------------------------------
pub fn copy_range(bytes: &[u8], start: usize, end: usize) -> (copy: Vec<u8>)
    requires
        start <= end <= bytes@.len(),
    ensures
        copy@ == bytes@.subrange(start as int, end as int),
{
    let mut copy: Vec<u8> = Vec::new();
    let mut i: usize = start;
    while i < end
        invariant
            start <= i <= end <= bytes@.len(),
            copy@ == bytes@.subrange(start as int, i as int),
        decreases end - i,
    {
        copy.push(bytes[i]);
        assert(bytes@.subrange(start as int, i + 1) =~= bytes@.subrange(start as int, i as int).push(
            bytes@[i as int],
        ));
        i += 1;
    }
    copy
}

pub fn append_bytes(out: &mut Vec<u8>, bytes: &[u8])
    ensures
        final(out)@ == old(out)@ + bytes@,
{
    let ghost before = out@;
    let mut i: usize = 0;
    while i < bytes.len()
        invariant
            i <= bytes@.len(),
            out@ == before + bytes@.take(i as int),
        decreases bytes@.len() - i,
    {
        out.push(bytes[i]);
        assert(bytes@.take(i + 1) =~= bytes@.take(i as int).push(bytes@[i as int]));
        assert(before + bytes@.take(i + 1) =~= (before + bytes@.take(i as int)).push(
            bytes@[i as int],
        ));
        i += 1;
    }
    assert(bytes@.take(bytes@.len() as int) =~= bytes@);
    assert(before + bytes@.take(0) =~= before);
}

/// Whether `text` begins with `prefix`.
pub fn starts_with(text: &str, prefix: &str) -> (found: bool)
    ensures
        found == prefix@.is_prefix_of(text@),
{
    let whole = text.as_bytes();
    let head = prefix.as_bytes();
    if head.len() > whole.len() {
        proof {
            if prefix@.is_prefix_of(text@) {
                lemma_prefix_encoding(prefix@, text@);
            }
        }
        return false;
    }
    let part = copy_range(whole, 0, head.len());
    let found = bytes_eq(part.as_slice(), head);
    proof {
        lemma_prefix_encoding(prefix@, text@);
        assert(part@ =~= whole@.take(head@.len() as int));
    }
    found
}

/// A text is a prefix exactly when its encoding is.
pub proof fn lemma_prefix_encoding(p: Seq<char>, t: Seq<char>)
    ensures
        p.is_prefix_of(t) == encode_utf8(p).is_prefix_of(encode_utf8(t)),
    decreases p.len(),
{
    if p.is_prefix_of(t) {
        let rest = t.skip(p.len() as int);
        assert(t =~= p + rest);
        lemma_encode_concat(p, rest);
        assert(encode_utf8(p) =~= encode_utf8(t).take(encode_utf8(p).len() as int));
    }
    if encode_utf8(p).is_prefix_of(encode_utf8(t)) {
        if p.len() == 0 {
            assert(p =~= t.take(0));
        } else {
            encode_utf8_first_scalar(p);
            let head = encode_scalar(p[0] as u32);
            let p_rest = encode_utf8(p.drop_first());
            assert(encode_utf8(p) == head + p_rest);
            if t.len() == 0 {
                assert(encode_utf8(t).len() == 0);
                assert(head.len() > 0);
                assert(false);
            }
            encode_utf8_first_scalar(t);
            lemma_same_first_scalar(p, t);
            let t_rest = encode_utf8(t.drop_first());
            assert(encode_utf8(t) == head + t_rest);
            assert(p_rest =~= t_rest.take(p_rest.len() as int)) by {
                let whole = encode_utf8(t).take(encode_utf8(p).len() as int);
                assert(whole == encode_utf8(p));
                assert forall|i: int| 0 <= i < p_rest.len() implies p_rest[i] == t_rest[i] by {
                    assert(whole[head.len() + i] == encode_utf8(p)[head.len() + i]);
                }
            }
            lemma_prefix_encoding(p.drop_first(), t.drop_first());
            assert(p.drop_first() == t.drop_first().take(p.len() - 1));
            assert(p =~= t.take(p.len() as int)) by {
                assert forall|i: int| 0 <= i < p.len() implies p[i] == t[i] by {
                    if i > 0 {
                        assert(p.drop_first()[i - 1] == t.drop_first().take(p.len() - 1)[i - 1]);
                    }
                }
            }
        }
    }
}

/// When one encoding is a prefix of another, both start with the same
/// character.
proof fn lemma_same_first_scalar(p: Seq<char>, t: Seq<char>)
    requires
        p.len() > 0,
        t.len() > 0,
        encode_utf8(p).is_prefix_of(encode_utf8(t)),
    ensures
        p[0] == t[0],
{
    let a = encode_utf8(p);
    let b = encode_utf8(t);
    encode_utf8_first_scalar(p);
    encode_utf8_first_scalar(t);
    encode_utf8_valid_utf8(p);
    encode_utf8_valid_utf8(t);
    encode_utf8_decode_utf8(p);
    encode_utf8_decode_utf8(t);
    assert(a.len() > 0);
    assert forall|i: int| 0 <= i < a.len() implies a[i] == b[i] by {
        assert(a[i] == b.take(a.len() as int)[i]);
    }
    assert(decode_utf8(a)[0] == decode_utf8(b)[0]);
}

// ---------------------------------------------------------------------------
// Numbers as text
// ---------------------------------------------------------------------------
/// The character of one decimal or hexadecimal digit.
pub open spec fn digit_char(d: int) -> char {
    if d == 0 { '0' } else if d == 1 { '1' } else if d == 2 { '2' } else if d == 3 { '3' }
    else if d == 4 { '4' } else if d == 5 { '5' } else if d == 6 { '6' } else if d == 7 { '7' }
    else if d == 8 { '8' } else if d == 9 { '9' } else if d == 10 { 'a' } else if d == 11 { 'b' }
    else if d == 12 { 'c' } else if d == 13 { 'd' } else if d == 14 { 'e' } else { 'f' }
}

/// Decimal digits of `n`, most significant first, without leading zeros.
pub open spec fn decimal(n: nat) -> Seq<char>
    decreases n,
{
    if n < 10 {
        seq![digit_char(n as int)]
    } else {
        decimal(n / 10).push(digit_char((n % 10) as int))
    }
}

/// `n` in decimal, extended on the left with zeros to at least `width` digits.
pub open spec fn padded(n: nat, width: nat) -> Seq<char> {
    if decimal(n).len() >= width {
        decimal(n)
    } else {
        Seq::new((width - decimal(n).len()) as nat, |i: int| '0') + decimal(n)
    }
}

pub fn digit(d: u8) -> (c: char)
    requires
        d < 16,
    ensures
        c == digit_char(d as int),
{
    match d {
        0 => '0', 1 => '1', 2 => '2', 3 => '3', 4 => '4', 5 => '5', 6 => '6', 7 => '7',
        8 => '8', 9 => '9', 10 => 'a', 11 => 'b', 12 => 'c', 13 => 'd', 14 => 'e', _ => 'f',
    }
}

pub fn push_decimal(out: &mut String, n: u64)
    ensures
        final(out)@ == old(out)@ + decimal(n as nat),
    decreases n,
{
    if n < 10 {
        out.push(digit(n as u8));
        assert(out@ =~= old(out)@ + decimal(n as nat));
    } else {
        push_decimal(out, n / 10);
        out.push(digit((n % 10) as u8));
        assert(out@ =~= old(out)@ + decimal(n as nat));
    }
}

fn decimal_width(n: u64) -> (width: usize)
    ensures
        width == decimal(n as nat).len(),
        1 <= width <= 20,
{
    let mut width: usize = 1;
    let mut rest: u64 = n;
    let ghost mut bound: int = 18446744073709551616;
    while rest >= 10
        invariant
            width + decimal(rest as nat).len() == decimal(n as nat).len() + 1,
            1 <= width <= 20,
            rest < bound,
            width == 1 ==> bound == 18446744073709551616,
            width == 2 ==> bound == 1844674407370955162,
            width == 3 ==> bound == 184467440737095517,
            width == 4 ==> bound == 18446744073709552,
            width == 5 ==> bound == 1844674407370956,
            width == 6 ==> bound == 184467440737096,
            width == 7 ==> bound == 18446744073710,
            width == 8 ==> bound == 1844674407371,
            width == 9 ==> bound == 184467440738,
            width == 10 ==> bound == 18446744074,
            width == 11 ==> bound == 1844674408,
            width == 12 ==> bound == 184467441,
            width == 13 ==> bound == 18446745,
            width == 14 ==> bound == 1844675,
            width == 15 ==> bound == 184468,
            width == 16 ==> bound == 18447,
            width == 17 ==> bound == 1845,
            width == 18 ==> bound == 185,
            width == 19 ==> bound == 19,
            width == 20 ==> bound == 2,
        decreases rest,
    {
        proof {
            bound = (bound + 9) / 10;
        }
        rest = rest / 10;
        width = width + 1;
    }
    width
}

pub fn push_padded(out: &mut String, n: u64, width: usize)
    ensures
        final(out)@ == old(out)@ + padded(n as nat, width as nat),
{
    let digits = decimal_width(n);
    let ghost before = out@;
    let mut i: usize = digits;
    while i < width
        invariant
            digits == decimal(n as nat).len(),
            digits <= i,
            width > digits ==> i <= width,
            width <= digits ==> i == digits,
            out@ == before + Seq::new((i - digits) as nat, |k: int| '0'),
        decreases width - i,
    {
        out.push('0');
        assert(out@ =~= before + Seq::new((i + 1 - digits) as nat, |k: int| '0'));
        i += 1;
    }
    let ghost zeros = Seq::new((i - digits) as nat, |k: int| '0');
    push_decimal(out, n);
    assert(out@ =~= before + padded(n as nat, width as nat)) by {
        if width <= digits {
            assert(before + zeros =~= before);
        } else {
            assert((before + zeros) + decimal(n as nat) =~= before + (zeros + decimal(n as nat)));
        }
    }
}

/// Two lower-case hexadecimal digits for each byte.
pub open spec fn hex(bytes: Seq<u8>) -> Seq<char>
    decreases bytes.len(),
{
    if bytes.len() == 0 {
        Seq::empty()
    } else {
        hex(bytes.drop_last()).push(digit_char((bytes.last() / 16) as int)).push(
            digit_char((bytes.last() % 16) as int),
        )
    }
}

pub fn push_hex(out: &mut String, bytes: &[u8])
    ensures
        final(out)@ == old(out)@ + hex(bytes@),
{
    let ghost before = out@;
    let mut i: usize = 0;
    assert(before + hex(bytes@.take(0)) =~= before);
    while i < bytes.len()
        invariant
            i <= bytes@.len(),
            out@ == before + hex(bytes@.take(i as int)),
        decreases bytes@.len() - i,
    {
        let byte = bytes[i];
        out.push(digit(byte / 16));
        out.push(digit(byte % 16));
        assert(bytes@.take(i + 1).drop_last() =~= bytes@.take(i as int));
        assert(out@ =~= before + hex(bytes@.take(i + 1)));
        i += 1;
    }
    assert(bytes@.take(bytes@.len() as int) =~= bytes@);
}

pub proof fn lemma_hex_len(bytes: Seq<u8>)
    ensures
        hex(bytes).len() == 2 * bytes.len(),
    decreases bytes.len(),
{
    if bytes.len() > 0 {
        lemma_hex_len(bytes.drop_last());
    }
}

/// Hexadecimal text contains digits only.
pub proof fn lemma_hex_digits_only(bytes: Seq<u8>)
    ensures
        forall|i: int| 0 <= i < hex(bytes).len() ==> #[trigger] hex(bytes)[i] != '/',
    decreases bytes.len(),
{
    if bytes.len() > 0 {
        let front = hex(bytes.drop_last());
        lemma_hex_digits_only(bytes.drop_last());
        assert forall|i: int| 0 <= i < hex(bytes).len() implies #[trigger] hex(bytes)[i] != '/' by {
            if i < front.len() {
                assert(hex(bytes)[i] == front[i]);
            }
        }
    }
}

pub proof fn lemma_hex_injective(a: Seq<u8>, b: Seq<u8>)
    requires
        hex(a) == hex(b),
    ensures
        a == b,
    decreases a.len(),
{
    lemma_hex_len(a);
    lemma_hex_len(b);
    if a.len() > 0 {
        let x = hex(a.drop_last());
        let y = hex(b.drop_last());
        let n = hex(a).len() as int;
        lemma_hex_len(a.drop_last());
        lemma_hex_len(b.drop_last());
        assert(x =~= hex(a).take(n - 2));
        assert(y =~= hex(b).take(n - 2));
        lemma_hex_injective(a.drop_last(), b.drop_last());
        assert(hex(a)[n - 2] == digit_char((a.last() / 16) as int));
        assert(hex(a)[n - 1] == digit_char((a.last() % 16) as int));
        assert(hex(b)[n - 2] == digit_char((b.last() / 16) as int));
        assert(hex(b)[n - 1] == digit_char((b.last() % 16) as int));
        assert(a.last() / 16 < 16 && b.last() / 16 < 16);
        assert(a.last() == b.last());
        assert(a =~= a.drop_last().push(a.last()));
        assert(b =~= b.drop_last().push(b.last()));
    } else {
        assert(a =~= b);
    }
}

/// What stands before the first slash, and what after it, can be read off.
pub proof fn lemma_first_slash(a: Seq<char>, b: Seq<char>, c: Seq<char>, d: Seq<char>)
    requires
        a + seq!['/'] + b == c + seq!['/'] + d,
        forall|i: int| 0 <= i < a.len() ==> #[trigger] a[i] != '/',
        forall|i: int| 0 <= i < c.len() ==> #[trigger] c[i] != '/',
    ensures
        a == c,
        b == d,
{
    let x = a + seq!['/'] + b;
    let y = c + seq!['/'] + d;
    assert(x[a.len() as int] == '/');
    assert(y[c.len() as int] == '/');
    if a.len() < c.len() {
        assert(y[a.len() as int] == c[a.len() as int]);
    }
    if c.len() < a.len() {
        assert(x[c.len() as int] == a[c.len() as int]);
    }
    assert(a =~= x.take(a.len() as int));
    assert(c =~= y.take(a.len() as int));
    assert(b =~= x.skip(a.len() as int + 1));
    assert(d =~= y.skip(a.len() as int + 1));
}

/// What stands after the last slash, and what before it, can be read off.
pub proof fn lemma_last_slash(a: Seq<char>, b: Seq<char>, c: Seq<char>, d: Seq<char>)
    requires
        a + seq!['/'] + b == c + seq!['/'] + d,
        forall|i: int| 0 <= i < b.len() ==> #[trigger] b[i] != '/',
        forall|i: int| 0 <= i < d.len() ==> #[trigger] d[i] != '/',
    ensures
        a == c,
        b == d,
{
    let x = a + seq!['/'] + b;
    let y = c + seq!['/'] + d;
    assert(x[a.len() as int] == '/');
    assert(y[c.len() as int] == '/');
    assert(x == y && x.len() == a.len() + 1 + b.len() && x.len() == c.len() + 1 + d.len());
    if a.len() < c.len() {
        let k = c.len() - a.len() - 1;
        assert(0 <= k < b.len());
        assert(x[c.len() as int] == b[k]);
    }
    if c.len() < a.len() {
        let k = a.len() - c.len() - 1;
        assert(0 <= k < d.len());
        assert(y[a.len() as int] == d[k]);
    }
    assert(a =~= x.take(a.len() as int));
    assert(c =~= y.take(a.len() as int));
    assert(b =~= x.skip(a.len() as int + 1));
    assert(d =~= y.skip(a.len() as int + 1));
}

/// The number that a sequence of decimal digits spells.
spec fn spelled(digits: Seq<char>) -> int
    decreases digits.len(),
{
    if digits.len() == 0 {
        0
    } else {
        10 * spelled(digits.drop_last()) + (digits.last() as int - '0' as int)
    }
}

proof fn lemma_decimal_spells(n: nat)
    ensures
        spelled(decimal(n)) == n,
        forall|i: int| 0 <= i < decimal(n).len() ==> #[trigger] decimal(n)[i] != '/',
    decreases n,
{
    reveal_with_fuel(spelled, 2);
    if n >= 10 {
        lemma_decimal_spells(n / 10);
        assert(decimal(n).drop_last() =~= decimal(n / 10));
        assert forall|i: int| 0 <= i < decimal(n).len() implies #[trigger] decimal(n)[i] != '/' by {
            if i < decimal(n / 10).len() {
                assert(decimal(n)[i] == decimal(n / 10)[i]);
            }
        }
    } else {
        assert(decimal(n).drop_last() =~= Seq::<char>::empty());
    }
}

proof fn lemma_zeros_spell(zeros: nat, digits: Seq<char>)
    ensures
        spelled(Seq::new(zeros, |i: int| '0') + digits) == spelled(digits),
    decreases digits.len(), zeros,
{
    let front = Seq::new(zeros, |i: int| '0');
    let all = front + digits;
    if digits.len() > 0 {
        lemma_zeros_spell(zeros, digits.drop_last());
        assert(all.drop_last() =~= front + digits.drop_last());
    } else if zeros > 0 {
        let fewer = (zeros - 1) as nat;
        lemma_zeros_spell(fewer, digits);
        assert(all.drop_last() =~= Seq::new(fewer, |i: int| '0') + digits);
    } else {
        assert(all =~= digits);
    }
}

/// Padded numbers are digits only, and different numbers are padded differently.
pub proof fn lemma_padded(n: nat, width: nat)
    ensures
        forall|i: int| 0 <= i < padded(n, width).len() ==> #[trigger] padded(n, width)[i] != '/',
        forall|m: nat| #[trigger] padded(m, width) == padded(n, width) ==> m == n,
{
    lemma_decimal_spells(n);
    let zeros = (width - decimal(n).len()) as nat;
    lemma_zeros_spell(zeros, decimal(n));
    assert(spelled(padded(n, width)) == n);
    assert forall|m: nat| #[trigger] padded(m, width) == padded(n, width) implies m == n by {
        lemma_decimal_spells(m);
        lemma_zeros_spell((width - decimal(m).len()) as nat, decimal(m));
    }
    assert forall|i: int| 0 <= i < padded(n, width).len() implies #[trigger] padded(n, width)[i]
        != '/' by {
        if decimal(n).len() < width && i >= zeros {
            assert(padded(n, width)[i] == decimal(n)[i - zeros]);
        }
    }
}

// ---------------------------------------------------------------------------
// Splitting
// ---------------------------------------------------------------------------
/// The pieces between the separators; a text without separators is one piece.
pub open spec fn split(text: Seq<char>, separator: char) -> Seq<Seq<char>>
    decreases text.len(),
{
    if text.len() == 0 {
        seq![Seq::empty()]
    } else {
        let front = split(text.drop_last(), separator);
        if text.last() == separator {
            front.push(Seq::empty())
        } else {
            front.update(front.len() - 1, front.last().push(text.last()))
        }
    }
}

proof fn lemma_split_len(text: Seq<char>, separator: char)
    ensures
        split(text, separator).len() >= 1,
    decreases text.len(),
{
    if text.len() > 0 {
        lemma_split_len(text.drop_last(), separator);
    }
}

/// The pieces of two texts with a separator between them are those of the first,
/// then those of the second. A text without separators is its own only piece, so
/// this says what the pieces of every text are.
pub proof fn law_split_joins(a: Seq<char>, b: Seq<char>, separator: char)
    ensures
        split(a.push(separator) + b, separator) == split(a, separator) + split(b, separator),
        split(Seq::empty(), separator) == seq![Seq::<char>::empty()],
        (forall|i: int| 0 <= i < a.len() ==> #[trigger] a[i] != separator) ==> split(a, separator)
            == seq![a],
    decreases b.len(),
{
    let text = a.push(separator) + b;
    let head = split(a, separator);
    if forall|i: int| 0 <= i < a.len() ==> #[trigger] a[i] != separator {
        lemma_split_plain(a, separator);
    }
    lemma_split_len(b, separator);
    if b.len() == 0 {
        assert(text =~= a.push(separator));
        assert(text.drop_last() =~= a);
        assert(split(text, separator) =~= head + split(b, separator));
    } else {
        let front = b.drop_last();
        law_split_joins(a, front, separator);
        lemma_split_len(front, separator);
        assert(text.drop_last() =~= a.push(separator) + front);
        assert(text.last() == b.last());
        assert(split(text, separator) =~= head + split(b, separator));
    }
}

pub open spec fn views(strings: Seq<String>) -> Seq<Seq<char>> {
    strings.map_values(|s: String| s@)
}

/// A text without separators is its own only piece.
pub proof fn lemma_split_plain(text: Seq<char>, separator: char)
    requires
        forall|i: int| 0 <= i < text.len() ==> #[trigger] text[i] != separator,
    ensures
        split(text, separator) == seq![text],
    decreases text.len(),
{
    if text.len() > 0 {
        lemma_split_plain(text.drop_last(), separator);
        assert(text.drop_last().push(text.last()) =~= text);
        assert(split(text, separator) =~= seq![text]);
    } else {
        assert(text =~= Seq::<char>::empty());
        assert(split(text, separator) =~= seq![text]);
    }
}

pub proof fn lemma_split_two(a: Seq<char>, b: Seq<char>, separator: char)
    requires
        forall|i: int| 0 <= i < a.len() ==> #[trigger] a[i] != separator,
        forall|i: int| 0 <= i < b.len() ==> #[trigger] b[i] != separator,
    ensures
        split(a + seq![separator] + b, separator) == seq![a, b],
    decreases b.len(),
{
    let text = a + seq![separator] + b;
    if b.len() == 0 {
        lemma_split_plain(a, separator);
        assert(text.drop_last() =~= a);
        assert(b =~= Seq::<char>::empty());
        assert(split(text, separator) =~= seq![a, b]);
    } else {
        lemma_split_two(a, b.drop_last(), separator);
        assert(text.drop_last() =~= a + seq![separator] + b.drop_last());
        assert(b.drop_last().push(b.last()) =~= b);
        assert(split(text, separator) =~= seq![a, b]);
    }
}

/// Only the empty text has an empty encoding.
pub proof fn lemma_encode_empty(text: Seq<char>)
    ensures
        encode_utf8(text).len() == 0 <==> text.len() == 0,
{
    if text.len() == 0 {
        assert(text =~= Seq::<char>::empty());
        reveal_with_fuel(encode_utf8, 1);
    } else if encode_utf8(text).len() == 0 {
        assert(encode_utf8(Seq::<char>::empty()) =~= encode_utf8(text)) by {
            reveal_with_fuel(encode_utf8, 1);
        }
        lemma_encode_injective(text, Seq::empty());
    }
}

/// Splits `text` at every `separator`.
pub fn split_text(text: &str, separator: char) -> (parts: Vec<String>)
    ensures
        views(parts@) == split(text@, separator),
{
    let mut parts: Vec<String> = Vec::new();
    let mut piece = String::new();
    assert(views(parts@).push(piece@) =~= split(text@.take(0), separator));
    for c in it: text.chars()
        invariant
            it.seq() == text@,
            views(parts@).push(piece@) == split(text@.take(it.index()), separator),
    {
        let ghost i = it.index();
        let ghost before = views(parts@);
        let ghost old_piece = piece@;
        proof {
            assert(text@.take(i + 1).drop_last() =~= text@.take(i));
            assert(text@.take(i + 1).last() == c);
        }
        if c == separator {
            parts.push(piece);
            piece = String::new();
            assert(views(parts@) =~= before.push(old_piece));
            assert(views(parts@).push(piece@) =~= split(text@.take(i + 1), separator));
        } else {
            piece.push(c);
            assert(views(parts@).push(piece@) =~= split(text@.take(i + 1), separator));
        }
    }
    assert(text@.take(text@.len() as int) =~= text@);
    let ghost done = views(parts@);
    let ghost last = piece@;
    parts.push(piece);
    assert(views(parts@) =~= done.push(last));
    parts
}

// ---------------------------------------------------------------------------
// What orders and spellings mean
// ---------------------------------------------------------------------------
/// Byte strings are ordered by the first byte in which they differ; a proper
/// prefix comes before what extends it.
pub proof fn law_byte_order(a: Seq<u8>, b: Seq<u8>)
    ensures
        lex_lt(a, b) <==> (a.is_prefix_of(b) && a.len() < b.len()) || exists|n: int|
            0 <= n < a.len() && n < b.len() && a.take(n) == b.take(n) && #[trigger] a[n] < b[n],
    decreases a.len(),
{
    if exists|n: int|
        0 <= n < a.len() && n < b.len() && a.take(n) == b.take(n) && #[trigger] a[n] < b[n] {
        let n = choose|n: int|
            0 <= n < a.len() && n < b.len() && a.take(n) == b.take(n) && #[trigger] a[n] < b[n];
        lemma_lex_at(a, b, n);
    }
    if a.is_prefix_of(b) {
        lemma_lex_prefix(a, b);
    }
    if lex_lt(a, b) && !a.is_prefix_of(b) {
        if a.len() > 0 && a[0] != b[0] {
            assert(a.take(0) =~= b.take(0));
            assert(a[0] < b[0]);
        } else if a.len() > 0 {
            let x = a.drop_first();
            let y = b.drop_first();
            law_byte_order(x, y);
            if x.is_prefix_of(y) {
                assert(a =~= seq![a[0]] + x);
                assert(b.take(a.len() as int) =~= seq![b[0]] + y.take(x.len() as int));
                assert(a.is_prefix_of(b));
            }
            let n = choose|n: int|
                0 <= n < x.len() && n < y.len() && x.take(n) == y.take(n) && #[trigger] x[n] < y[n];
            assert(a.take(n + 1) =~= seq![a[0]] + x.take(n));
            assert(b.take(n + 1) =~= seq![b[0]] + y.take(n));
            assert(a[n + 1] < b[n + 1]);
        } else {
            assert(a.is_prefix_of(b)) by {
                assert(b.take(0) =~= a);
            }
        }
    }
}

/// The number that a digit stands for, in any base up to sixteen.
pub open spec fn digit_value(c: char) -> int {
    if '0' <= c <= '9' {
        c as int - '0' as int
    } else {
        c as int - 'a' as int + 10
    }
}

pub proof fn lemma_digit_value(d: int)
    requires
        0 <= d < 16,
    ensures
        digit_value(digit_char(d)) == d,
        '0' <= digit_char(d) <= '9' || 'a' <= digit_char(d) <= 'f',
        d < 10 ==> '0' <= digit_char(d) <= '9',
{
}

/// The number that digits stand for in a base.
pub open spec fn digits_value(digits: Seq<char>, base: int) -> int
    decreases digits.len(),
{
    if digits.len() == 0 {
        0
    } else {
        digits_value(digits.drop_last(), base) * base + digit_value(digits.last())
    }
}

/// A number is written in decimal digits without leading zeros.
pub proof fn law_decimal_digits(n: nat)
    ensures
        digits_value(decimal(n), 10) == n,
        decimal(n).len() >= 1,
        decimal(n).len() > 1 ==> decimal(n)[0] != '0',
        forall|i: int| 0 <= i < decimal(n).len() ==> '0' <= #[trigger] decimal(n)[i] <= '9',
    decreases n,
{
    let text = decimal(n);
    if n < 10 {
        lemma_digit_value(n as int);
        assert(text.drop_last() =~= Seq::<char>::empty());
        reveal_with_fuel(digits_value, 2);
    } else {
        law_decimal_digits(n / 10);
        lemma_digit_value((n % 10) as int);
        let front = decimal(n / 10);
        assert(text.drop_last() =~= front);
        assert(text[0] == front[0]);
        if n / 10 < 10 {
            lemma_digit_value((n / 10) as int);
            assert(front[0] == digit_char((n / 10) as int));
            assert(digit_value('0') == 0);
        } else {
            law_decimal_digits(n / 10 / 10);
            assert(front.len() > 1);
        }
        assert forall|i: int| 0 <= i < text.len() implies '0' <= #[trigger] text[i] <= '9' by {
            if i < front.len() {
                assert(text[i] == front[i]);
            }
        }
    }
}

/// Bytes are written as two lower-case hexadecimal digits each.
pub proof fn law_hex_digits(bytes: Seq<u8>, i: int)
    requires
        0 <= i < bytes.len(),
    ensures
        hex(bytes).len() == 2 * bytes.len(),
        digits_value(hex(bytes).subrange(2 * i, 2 * i + 2), 16) == bytes[i],
        forall|k: int|
            0 <= k < hex(bytes).len() ==> '0' <= #[trigger] hex(bytes)[k] <= '9' || 'a'
                <= hex(bytes)[k] <= 'f',
    decreases bytes.len(),
{
    let front = bytes.drop_last();
    let text = hex(bytes);
    let before = hex(front);
    let n = front.len();
    lemma_hex_len(front);
    lemma_hex_len(bytes);
    lemma_digit_value((bytes.last() / 16) as int);
    lemma_digit_value((bytes.last() % 16) as int);
    if i < n {
        law_hex_digits(front, i);
        assert(text.subrange(2 * i, 2 * i + 2) =~= before.subrange(2 * i, 2 * i + 2));
    } else {
        let pair = text.subrange(2 * i, 2 * i + 2);
        reveal_with_fuel(digits_value, 3);
        assert(pair.drop_last().drop_last() =~= Seq::<char>::empty());
        assert(pair.last() == digit_char((bytes.last() % 16) as int));
        assert(pair.drop_last().last() == digit_char((bytes.last() / 16) as int));
    }
    assert forall|k: int| 0 <= k < text.len() implies '0' <= #[trigger] text[k] <= '9' || 'a'
        <= text[k] <= 'f' by {
        if k < 2 * n {
            law_hex_digits(front, 0);
            assert(text[k] == before[k]);
        }
    }
}

proof fn lemma_zeros_value(zeros: nat, digits: Seq<char>)
    ensures
        digits_value(Seq::new(zeros, |i: int| '0') + digits, 10) == digits_value(digits, 10),
    decreases digits.len(), zeros,
{
    let front = Seq::new(zeros, |i: int| '0');
    let all = front + digits;
    if digits.len() > 0 {
        lemma_zeros_value(zeros, digits.drop_last());
        assert(all.drop_last() =~= front + digits.drop_last());
    } else if zeros > 0 {
        let fewer = (zeros - 1) as nat;
        lemma_zeros_value(fewer, digits);
        assert(all.drop_last() =~= Seq::new(fewer, |i: int| '0') + digits);
        assert(digit_value('0') == 0);
    } else {
        assert(all =~= digits);
    }
}

/// A padded number is the number in decimal digits, with zeros before them up to
/// the width.
pub proof fn law_padded_digits(n: nat, width: nat)
    ensures
        digits_value(padded(n, width), 10) == n,
        padded(n, width).len() >= width,
        decimal(n).len() <= width ==> padded(n, width).len() == width,
        decimal(n).len() > width ==> padded(n, width) == decimal(n),
        forall|i: int|
            0 <= i < padded(n, width).len() ==> '0' <= #[trigger] padded(n, width)[i] <= '9',
{
    law_decimal_digits(n);
    let text = padded(n, width);
    if decimal(n).len() < width {
        let zeros = (width - decimal(n).len()) as nat;
        lemma_zeros_value(zeros, decimal(n));
        assert forall|i: int| 0 <= i < text.len() implies '0' <= #[trigger] text[i] <= '9' by {
            if i >= zeros {
                assert(text[i] == decimal(n)[i - zeros]);
            }
        }
    }
}

/// A list of texts shows each of them.
pub proof fn law_lists_show_their_texts(strings: Seq<String>, i: int)
    requires
        0 <= i < strings.len(),
    ensures
        views(strings).len() == strings.len(),
        views(strings)[i] == strings[i]@,
{
}

} // verus!
