//! Byte- and character-level renderings of integers: decimal and octal ASCII,
//! hexadecimal digit pairs, and big-endian fixed-width encodings.

use vstd::prelude::*;

verus! {

/// Renders `n` in decimal as ASCII bytes, most significant digit first.
pub open spec fn dec_bytes(n: nat) -> Seq<u8>
    decreases n,
{
    if n < 10 {
        seq![(48 + n) as u8]
    } else {
        dec_bytes(n / 10) + seq![(48 + n % 10) as u8]
    }
}

/// Renders `n` in octal as ASCII bytes, most significant digit first.
pub open spec fn oct_bytes(n: nat) -> Seq<u8>
    decreases n,
{
    if n < 8 {
        seq![(48 + n) as u8]
    } else {
        oct_bytes(n / 8) + seq![(48 + n % 8) as u8]
    }
}

/// The lowercase hexadecimal digit for a value below sixteen.
pub open spec fn digit_char(d: nat) -> char {
    if d == 0 {
        '0'
    } else if d == 1 {
        '1'
    } else if d == 2 {
        '2'
    } else if d == 3 {
        '3'
    } else if d == 4 {
        '4'
    } else if d == 5 {
        '5'
    } else if d == 6 {
        '6'
    } else if d == 7 {
        '7'
    } else if d == 8 {
        '8'
    } else if d == 9 {
        '9'
    } else if d == 10 {
        'a'
    } else if d == 11 {
        'b'
    } else if d == 12 {
        'c'
    } else if d == 13 {
        'd'
    } else if d == 14 {
        'e'
    } else {
        'f'
    }
}

/// Renders `n` in octal as characters, most significant digit first.
pub open spec fn oct_chars(n: nat) -> Seq<char>
    decreases n,
{
    if n < 8 {
        seq![digit_char(n)]
    } else {
        oct_chars(n / 8) + seq![digit_char(n % 8)]
    }
}

/// The two lowercase hexadecimal digits of one byte.
pub open spec fn hex_pair(b: u8) -> Seq<char> {
    seq![digit_char((b / 16) as nat), digit_char((b % 16) as nat)]
}

/// The lowercase hexadecimal rendering of a byte string, two digits per byte.
pub open spec fn hex_chars(s: Seq<u8>) -> Seq<char>
    decreases s.len(),
{
    if s.len() == 0 {
        Seq::empty()
    } else {
        hex_chars(s.drop_last()) + hex_pair(s.last())
    }
}

/// A character that `hex_chars` can produce.
pub open spec fn is_hex_char(c: char) -> bool {
    exists|d: nat| d < 16 && digit_char(d) == c
}

/// The four big-endian bytes of a 32-bit value.
pub open spec fn be32(x: u32) -> Seq<u8> {
    seq![
        (x / 0x1000000) as u8,
        (x / 0x10000 % 0x100) as u8,
        (x / 0x100 % 0x100) as u8,
        (x % 0x100) as u8,
    ]
}

/// The two big-endian bytes of a 16-bit value.
pub open spec fn be16(x: u16) -> Seq<u8> {
    seq![(x / 0x100) as u8, (x % 0x100) as u8]
}

/// The value of four big-endian bytes.
pub open spec fn be32_val(s: Seq<u8>) -> nat
    recommends
        s.len() == 4,
{
    (s[0] * 0x1000000 + s[1] * 0x10000 + s[2] * 0x100 + s[3]) as nat
}

/// The value of two big-endian bytes.
pub open spec fn be16_val(s: Seq<u8>) -> nat
    recommends
        s.len() == 2,
{
    (s[0] * 0x100 + s[1]) as nat
}

pub fn render_dec(n: u64) -> (r: Vec<u8>)
    ensures
        r@ == dec_bytes(n as nat),
    decreases n,
{
    if n < 10 {
        let mut v: Vec<u8> = Vec::new();
        v.push(48 + n as u8);
        assert(v@ =~= dec_bytes(n as nat));
        v
    } else {
        let mut v = render_dec(n / 10);
        v.push(48 + (n % 10) as u8);
        assert(v@ =~= dec_bytes(n as nat));
        v
    }
}

pub fn render_oct(n: u64) -> (r: Vec<u8>)
    ensures
        r@ == oct_bytes(n as nat),
    decreases n,
{
    if n < 8 {
        let mut v: Vec<u8> = Vec::new();
        v.push(48 + n as u8);
        assert(v@ =~= oct_bytes(n as nat));
        v
    } else {
        let mut v = render_oct(n / 8);
        v.push(48 + (n % 8) as u8);
        assert(v@ =~= oct_bytes(n as nat));
        v
    }
}

/// A one-character string slice holding the digit for a value below sixteen.
pub fn digit_str(d: u8) -> (r: &'static str)
    requires
        d < 16,
    ensures
        r@ == seq![digit_char(d as nat)],
{
    if d == 0 {
        proof { reveal_strlit("0"); }
        let r = "0";
        assert(r@ =~= seq![digit_char(d as nat)]);
        r
    } else if d == 1 {
        proof { reveal_strlit("1"); }
        let r = "1";
        assert(r@ =~= seq![digit_char(d as nat)]);
        r
    } else if d == 2 {
        proof { reveal_strlit("2"); }
        let r = "2";
        assert(r@ =~= seq![digit_char(d as nat)]);
        r
    } else if d == 3 {
        proof { reveal_strlit("3"); }
        let r = "3";
        assert(r@ =~= seq![digit_char(d as nat)]);
        r
    } else if d == 4 {
        proof { reveal_strlit("4"); }
        let r = "4";
        assert(r@ =~= seq![digit_char(d as nat)]);
        r
    } else if d == 5 {
        proof { reveal_strlit("5"); }
        let r = "5";
        assert(r@ =~= seq![digit_char(d as nat)]);
        r
    } else if d == 6 {
        proof { reveal_strlit("6"); }
        let r = "6";
        assert(r@ =~= seq![digit_char(d as nat)]);
        r
    } else if d == 7 {
        proof { reveal_strlit("7"); }
        let r = "7";
        assert(r@ =~= seq![digit_char(d as nat)]);
        r
    } else if d == 8 {
        proof { reveal_strlit("8"); }
        let r = "8";
        assert(r@ =~= seq![digit_char(d as nat)]);
        r
    } else if d == 9 {
        proof { reveal_strlit("9"); }
        let r = "9";
        assert(r@ =~= seq![digit_char(d as nat)]);
        r
    } else if d == 10 {
        proof { reveal_strlit("a"); }
        let r = "a";
        assert(r@ =~= seq![digit_char(d as nat)]);
        r
    } else if d == 11 {
        proof { reveal_strlit("b"); }
        let r = "b";
        assert(r@ =~= seq![digit_char(d as nat)]);
        r
    } else if d == 12 {
        proof { reveal_strlit("c"); }
        let r = "c";
        assert(r@ =~= seq![digit_char(d as nat)]);
        r
    } else if d == 13 {
        proof { reveal_strlit("d"); }
        let r = "d";
        assert(r@ =~= seq![digit_char(d as nat)]);
        r
    } else if d == 14 {
        proof { reveal_strlit("e"); }
        let r = "e";
        assert(r@ =~= seq![digit_char(d as nat)]);
        r
    } else {
        proof { reveal_strlit("f"); }
        let r = "f";
        assert(r@ =~= seq![digit_char(d as nat)]);
        r
    }
}

pub fn render_oct_string(n: u32) -> (r: String)
    ensures
        r@ == oct_chars(n as nat),
    decreases n,
{
    if n < 8 {
        let r = digit_str(n as u8).to_owned();
        assert(r@ =~= oct_chars(n as nat));
        r
    } else {
        let mut r = render_oct_string(n / 8);
        r.append(digit_str((n % 8) as u8));
        assert(r@ =~= oct_chars(n as nat));
        r
    }
}

pub fn render_hex_string(bytes: &[u8]) -> (r: String)
    ensures
        r@ == hex_chars(bytes@),
{
    let mut r = String::new();
    let n = bytes.len();
    assert(bytes@.take(0) =~= Seq::<u8>::empty());
    for i in 0..n
        invariant
            n == bytes@.len(),
            r@ == hex_chars(bytes@.take(i as int)),
    {
        let b = bytes[i];
        r.append(digit_str(b / 16));
        r.append(digit_str(b % 16));
        proof {
            assert(bytes@.take(i + 1).drop_last() =~= bytes@.take(i as int));
            assert(bytes@.take(i + 1).last() == b);
        }
    }
    assert(bytes@.take(n as int) =~= bytes@);
    r
}

fn hex_char_value(c: char) -> (d: u8)
    requires
        is_hex_char(c),
    ensures
        d < 16 && digit_char(d as nat) == c,
{
    match c {
        '0' => 0,
        '1' => 1,
        '2' => 2,
        '3' => 3,
        '4' => 4,
        '5' => 5,
        '6' => 6,
        '7' => 7,
        '8' => 8,
        '9' => 9,
        'a' => 10,
        'b' => 11,
        'c' => 12,
        'd' => 13,
        'e' => 14,
        'f' => 15,
        _ => {
            proof {
                let d0 = choose|d: nat| d < 16 && digit_char(d) == c;
                assert(false);
            }
            0
        },
    }
}

/// Decodes a lowercase hexadecimal string back into the bytes it renders.
pub fn decode_hex(s: &str) -> (r: Vec<u8>)
    requires
        s@.len() % 2 == 0,
        forall|i: int| 0 <= i < s@.len() ==> is_hex_char(s@[i]),
    ensures
        hex_chars(r@) == s@,
        r@.len() * 2 == s@.len(),
{
    let mut r: Vec<u8> = Vec::new();
    let n = s.unicode_len();
    let mut i: usize = 0;
    while i < n
        invariant
            n == s@.len(),
            n % 2 == 0,
            i % 2 == 0,
            i <= n,
            forall|j: int| 0 <= j < s@.len() ==> is_hex_char(s@[j]),
            hex_chars(r@) == s@.take(i as int),
            r@.len() * 2 == i,
        decreases n - i,
    {
        let hi = hex_char_value(s.get_char(i));
        let lo = hex_char_value(s.get_char(i + 1));
        let b: u8 = 16 * hi + lo;
        let ghost prev = r@;
        r.push(b);
        proof {
            assert(b / 16 == hi && b % 16 == lo) by (nonlinear_arith)
                requires hi < 16 && lo < 16 && b == 16 * hi + lo;
            assert(r@.drop_last() =~= prev);
            assert(hex_chars(r@) =~= s@.take(i + 2));
        }
        i = i + 2;
    }
    assert(s@.take(n as int) =~= s@);
    r
}

/// Two byte strings with the same hexadecimal rendering are equal.
pub proof fn lemma_hex_chars_injective(a: Seq<u8>, b: Seq<u8>)
    requires
        hex_chars(a) == hex_chars(b),
    ensures
        a == b,
    decreases a.len(),
{
    lemma_hex_chars_len(a);
    lemma_hex_chars_len(b);
    if a.len() == 0 {
        assert(a =~= b);
    } else {
        let ha = hex_chars(a.drop_last());
        let hb = hex_chars(b.drop_last());
        lemma_hex_chars_len(a.drop_last());
        lemma_hex_chars_len(b.drop_last());
        assert(hex_chars(a)[hex_chars(a).len() - 2] == digit_char((a.last() / 16) as nat));
        assert(hex_chars(a)[hex_chars(a).len() - 1] == digit_char((a.last() % 16) as nat));
        assert(hex_chars(b)[hex_chars(b).len() - 2] == digit_char((b.last() / 16) as nat));
        assert(hex_chars(b)[hex_chars(b).len() - 1] == digit_char((b.last() % 16) as nat));
        assert(a.last() / 16 == b.last() / 16 && a.last() % 16 == b.last() % 16);
        assert(a.last() == b.last());
        assert(hex_chars(a) == ha + hex_pair(a.last()));
        assert(hex_chars(b) == hb + hex_pair(b.last()));
        assert forall|i: int| 0 <= i < ha.len() implies ha[i] == hb[i] by {
            assert((ha + hex_pair(a.last()))[i] == ha[i]);
            assert((hb + hex_pair(b.last()))[i] == hb[i]);
        }
        assert(ha =~= hb);
        lemma_hex_chars_injective(a.drop_last(), b.drop_last());
        assert forall|i: int| 0 <= i < a.len() implies a[i] == b[i] by {
            if i < a.len() - 1 {
                assert(a.drop_last()[i] == a[i]);
                assert(b.drop_last()[i] == b[i]);
            } else {
                assert(a[i] == a.last() && b[i] == b.last());
            }
        }
        assert(a =~= b);
    }
}

/// The hexadecimal rendering is twice as long as its input.
pub proof fn lemma_hex_chars_len(s: Seq<u8>)
    ensures
        hex_chars(s).len() == 2 * s.len(),
    decreases s.len(),
{
    if s.len() > 0 {
        lemma_hex_chars_len(s.drop_last());
    }
}

/// Every character of a hexadecimal rendering is a hexadecimal digit.
pub proof fn lemma_hex_chars_are_hex(s: Seq<u8>)
    ensures
        forall|i: int| 0 <= i < hex_chars(s).len() ==> is_hex_char(#[trigger] hex_chars(s)[i]),
    decreases s.len(),
{
    if s.len() > 0 {
        lemma_hex_chars_len(s.drop_last());
        lemma_hex_chars_are_hex(s.drop_last());
        assert(digit_char((s.last() / 16) as nat) == digit_char((s.last() / 16) as nat)
            && (s.last() / 16) < 16);
        assert(is_hex_char(digit_char((s.last() / 16) as nat)));
        assert(is_hex_char(digit_char((s.last() % 16) as nat)));
    }
}

pub fn be32_encode(x: u32) -> (r: Vec<u8>)
    ensures
        r@ == be32(x),
{
    let mut v: Vec<u8> = Vec::new();
    v.push((x / 0x1000000) as u8);
    v.push((x / 0x10000 % 0x100) as u8);
    v.push((x / 0x100 % 0x100) as u8);
    v.push((x % 0x100) as u8);
    assert(v@ =~= be32(x));
    v
}

pub fn be16_encode(x: u16) -> (r: Vec<u8>)
    ensures
        r@ == be16(x),
{
    let mut v: Vec<u8> = Vec::new();
    v.push((x / 0x100) as u8);
    v.push((x % 0x100) as u8);
    assert(v@ =~= be16(x));
    v
}

/// Reads the four big-endian bytes starting at `at` as a 32-bit value.
pub fn be32_decode(v: &[u8], at: usize) -> (r: u32)
    requires
        at + 4 <= v@.len(),
    ensures
        r as nat == be32_val(v@.subrange(at as int, at + 4)),
{
    let b0 = v[at] as u32;
    let b1 = v[at + 1] as u32;
    let b2 = v[at + 2] as u32;
    let b3 = v[at + 3] as u32;
    let r = b0 * 0x1000000 + b1 * 0x10000 + b2 * 0x100 + b3;
    proof {
        let s = v@.subrange(at as int, at + 4);
        assert(s[0] == v@[at as int] && s[1] == v@[at + 1] && s[2] == v@[at + 2] && s[3] == v@[at
            + 3]);
    }
    r
}

/// Reads the two big-endian bytes starting at `at` as a 16-bit value.
pub fn be16_decode(v: &[u8], at: usize) -> (r: u16)
    requires
        at + 2 <= v@.len(),
    ensures
        r as nat == be16_val(v@.subrange(at as int, at + 2)),
{
    let b0 = v[at] as u16;
    let b1 = v[at + 1] as u16;
    let r = b0 * 0x100 + b1;
    proof {
        let s = v@.subrange(at as int, at + 2);
        assert(s[0] == v@[at as int] && s[1] == v@[at + 1]);
    }
    r
}

/// Reading back the four big-endian bytes of a value gives the value.
pub proof fn lemma_be32_round_trip(x: u32)
    ensures
        be32_val(be32(x)) == x,
{
    assert(be32(x)[0] == (x / 0x1000000) as u8);
    assert(be32(x)[1] == (x / 0x10000 % 0x100) as u8);
    assert(be32(x)[2] == (x / 0x100 % 0x100) as u8);
    assert(be32(x)[3] == (x % 0x100) as u8);
    assert((x / 0x1000000) * 0x1000000 + (x / 0x10000 % 0x100) * 0x10000 + (x / 0x100 % 0x100)
        * 0x100 + x % 0x100 == x) by (bit_vector);
}

} // verus!
