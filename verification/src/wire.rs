//! Deterministic byte encodings: big-endian words, length-prefixed strings,
//! and the length-prefixed framing used on the wire between client and
//! relay.

use vstd::prelude::*;

verus! {

/// The eight big-endian bytes of a `u64`.
pub open spec fn u64_be(x: u64) -> Seq<u8> {
    seq![
        (x >> 56) as u8,
        (x >> 48) as u8,
        (x >> 40) as u8,
        (x >> 32) as u8,
        (x >> 24) as u8,
        (x >> 16) as u8,
        (x >> 8) as u8,
        x as u8,
    ]
}

/// Big-endian encoding is injective: equal byte strings come from equal
/// words.
pub proof fn lemma_u64_be_injective(x: u64, y: u64)
    requires
        u64_be(x) == u64_be(y),
    ensures
        x == y,
{
    assert(u64_be(x)[0] == u64_be(y)[0]);
    assert(u64_be(x)[1] == u64_be(y)[1]);
    assert(u64_be(x)[2] == u64_be(y)[2]);
    assert(u64_be(x)[3] == u64_be(y)[3]);
    assert(u64_be(x)[4] == u64_be(y)[4]);
    assert(u64_be(x)[5] == u64_be(y)[5]);
    assert(u64_be(x)[6] == u64_be(y)[6]);
    assert(u64_be(x)[7] == u64_be(y)[7]);
    assert((x >> 56) as u8 == (y >> 56) as u8 && (x >> 48) as u8 == (y >> 48) as u8
        && (x >> 40) as u8 == (y >> 40) as u8 && (x >> 32) as u8 == (y >> 32) as u8
        && (x >> 24) as u8 == (y >> 24) as u8 && (x >> 16) as u8 == (y >> 16) as u8
        && (x >> 8) as u8 == (y >> 8) as u8 && x as u8 == y as u8 ==> x == y) by (bit_vector);
}

/// Appends the eight big-endian bytes of `x` to `out`.
pub fn push_u64_be(out: &mut Vec<u8>, x: u64)
    ensures
        final(out)@ == old(out)@ + u64_be(x),
{
    out.push((x >> 56) as u8);
    out.push((x >> 48) as u8);
    out.push((x >> 40) as u8);
    out.push((x >> 32) as u8);
    out.push((x >> 24) as u8);
    out.push((x >> 16) as u8);
    out.push((x >> 8) as u8);
    out.push(x as u8);
    assert(out@ =~= old(out)@ + u64_be(x));
}

/// The `u64` whose big-endian bytes are the eight bytes of `b`.
pub fn u64_from_be(b: &Vec<u8>) -> (r: u64)
    requires
        b@.len() == 8,
    ensures
        u64_be(r) == b@,
{
    let b0 = b[0];
    let b1 = b[1];
    let b2 = b[2];
    let b3 = b[3];
    let b4 = b[4];
    let b5 = b[5];
    let b6 = b[6];
    let b7 = b[7];
    let r: u64 = ((b0 as u64) << 56) | ((b1 as u64) << 48) | ((b2 as u64) << 40) | ((b3 as u64)
        << 32) | ((b4 as u64) << 24) | ((b5 as u64) << 16) | ((b6 as u64) << 8) | (b7 as u64);
    proof {
        assert(r == ((b0 as u64) << 56) | ((b1 as u64) << 48) | ((b2 as u64) << 40) | ((b3 as u64)
            << 32) | ((b4 as u64) << 24) | ((b5 as u64) << 16) | ((b6 as u64) << 8) | (b7 as u64)
            ==> ((r >> 56) as u8 == b0 && (r >> 48) as u8 == b1 && (r >> 40) as u8 == b2 && (r
            >> 32) as u8 == b3 && (r >> 24) as u8 == b4 && (r >> 16) as u8 == b5 && (r >> 8) as u8
            == b6 && r as u8 == b7)) by (bit_vector);
        assert(u64_be(r) =~= b@);
    }
    r
}

/// The four big-endian bytes of a character's code point.
pub open spec fn char_be(c: char) -> Seq<u8> {
    seq![(c as u32 >> 24) as u8, (c as u32 >> 16) as u8, (c as u32 >> 8) as u8, c as u32 as u8]
}

pub proof fn lemma_char_be_injective(c: char, d: char)
    requires
        char_be(c) == char_be(d),
    ensures
        c == d,
{
    let x = c as u32;
    let y = d as u32;
    assert(char_be(c)[0] == char_be(d)[0]);
    assert(char_be(c)[1] == char_be(d)[1]);
    assert(char_be(c)[2] == char_be(d)[2]);
    assert(char_be(c)[3] == char_be(d)[3]);
    assert((x >> 24) as u8 == (y >> 24) as u8 && (x >> 16) as u8 == (y >> 16) as u8 && (x >> 8)
        as u8 == (y >> 8) as u8 && x as u8 == y as u8 ==> x == y) by (bit_vector);
}

/// The concatenated code-point encodings of the characters of `s`.
pub open spec fn chars_be(s: Seq<char>) -> Seq<u8>
    decreases s,
{
    if s.len() == 0 {
        Seq::empty()
    } else {
        char_be(s[0]) + chars_be(s.drop_first())
    }
}

/// A string as bytes: its length as eight big-endian bytes, then four bytes
/// for each character.  The length prefix makes the encoding
/// self-delimiting.
pub open spec fn str_encoded(s: Seq<char>) -> Seq<u8> {
    u64_be(s.len() as u64) + chars_be(s)
}

pub proof fn lemma_chars_be_len(s: Seq<char>)
    ensures
        chars_be(s).len() == 4 * s.len(),
    decreases s,
{
    if s.len() > 0 {
        lemma_chars_be_len(s.drop_first());
    }
}

/// `chars_be` distributes over appending one character.
pub proof fn lemma_chars_be_push(s: Seq<char>, c: char)
    ensures
        chars_be(s.push(c)) == chars_be(s) + char_be(c),
    decreases s,
{
    if s.len() == 0 {
        assert(s.push(c).drop_first() =~= s);
        assert(chars_be(s.push(c)) =~= chars_be(s) + char_be(c));
    } else {
        lemma_chars_be_push(s.drop_first(), c);
        assert(s.push(c).drop_first() =~= s.drop_first().push(c));
        assert(chars_be(s.push(c)) =~= chars_be(s) + char_be(c));
    }
}

/// Appends `str_encoded(s@)` to `out`.
pub fn push_str_encoded(out: &mut Vec<u8>, s: &String)
    ensures
        final(out)@ == old(out)@ + str_encoded(s@),
{
    let st = s.as_str();
    let n = st.unicode_len();
    push_u64_be(out, n as u64);
    let ghost mid = out@;
    let mut i: usize = 0;
    while i < n
        invariant
            st@ == s@,
            n == s@.len(),
            i <= n,
            out@ == mid + chars_be(s@.take(i as int)),
        decreases n - i,
    {
        let c = st.get_char(i);
        let cu: u32 = c as u32;
        out.push((cu >> 24) as u8);
        out.push((cu >> 16) as u8);
        out.push((cu >> 8) as u8);
        out.push(cu as u8);
        proof {
            assert(s@.take(i + 1) =~= s@.take(i as int).push(s@[i as int]));
            lemma_chars_be_push(s@.take(i as int), s@[i as int]);
            assert(out@ =~= mid + chars_be(s@.take(i + 1)));
        }
        i += 1;
    }
    proof {
        assert(s@.take(n as int) =~= s@);
        assert(out@ =~= old(out)@ + str_encoded(s@));
    }
}

/// Character encodings are fixed-width, so equal characters streams come
/// from equal strings.
pub proof fn lemma_chars_be_injective(a: Seq<char>, b: Seq<char>)
    requires
        a.len() == b.len(),
        chars_be(a) == chars_be(b),
    ensures
        a == b,
    decreases a.len(),
{
    if a.len() > 0 {
        lemma_chars_be_len(a.drop_first());
        lemma_chars_be_len(b.drop_first());
        assert(char_be(a[0]) =~= chars_be(a).subrange(0, 4));
        assert(char_be(b[0]) =~= chars_be(b).subrange(0, 4));
        lemma_char_be_injective(a[0], b[0]);
        assert(chars_be(a.drop_first()) =~= chars_be(a).subrange(4, chars_be(a).len() as int));
        assert(chars_be(b.drop_first()) =~= chars_be(b).subrange(4, chars_be(b).len() as int));
        lemma_chars_be_injective(a.drop_first(), b.drop_first());
        assert forall|i: int| 0 <= i < a.len() implies a[i] == b[i] by {
            if i > 0 {
                assert(a.drop_first()[i - 1] == a[i]);
                assert(b.drop_first()[i - 1] == b[i]);
            }
        }
        assert(a =~= b);
    } else {
        assert(a =~= b);
    }
}

/// The length prefix makes string encodings self-delimiting: when two
/// encoded strings start equal byte streams, the strings and the tails
/// agree.
pub proof fn lemma_str_encoded_prefix(a: Seq<char>, b: Seq<char>, x: Seq<u8>, y: Seq<u8>)
    requires
        a.len() <= u64::MAX,
        b.len() <= u64::MAX,
        str_encoded(a) + x == str_encoded(b) + y,
    ensures
        a == b,
        x == y,
{
    lemma_chars_be_len(a);
    lemma_chars_be_len(b);
    let sa = str_encoded(a) + x;
    let sb = str_encoded(b) + y;
    assert(u64_be(a.len() as u64) =~= sa.subrange(0, 8));
    assert(u64_be(b.len() as u64) =~= sb.subrange(0, 8));
    lemma_u64_be_injective(a.len() as u64, b.len() as u64);
    assert(a.len() == b.len());
    assert(chars_be(a) =~= sa.subrange(8, 8 + 4 * a.len() as int));
    assert(chars_be(b) =~= sb.subrange(8, 8 + 4 * b.len() as int));
    lemma_chars_be_injective(a, b);
    assert(x =~= sa.subrange(8 + 4 * a.len() as int, sa.len() as int));
    assert(y =~= sb.subrange(8 + 4 * b.len() as int, sb.len() as int));
    assert(x =~= y);
}

/// A length-prefixed frame: eight big-endian bytes of the payload length,
/// then the payload itself.
pub open spec fn framed(payload: Seq<u8>) -> Seq<u8> {
    u64_be(payload.len() as u64) + payload
}

/// Wraps a payload in a length-prefixed frame for the wire.
pub fn frame(payload: &Vec<u8>) -> (r: Vec<u8>)
    ensures
        r@ == framed(payload@),
{
    let mut out: Vec<u8> = Vec::new();
    push_u64_be(&mut out, payload.len() as u64);
    let mut i: usize = 0;
    while i < payload.len()
        invariant
            i <= payload@.len(),
            out@ == u64_be(payload@.len() as u64) + payload@.take(i as int),
        decreases payload@.len() - i,
    {
        out.push(payload[i]);
        proof {
            assert(payload@.take(i + 1) =~= payload@.take(i as int).push(payload@[i as int]));
            assert(out@ =~= u64_be(payload@.len() as u64) + payload@.take(i + 1));
        }
        i += 1;
    }
    proof {
        assert(payload@.take(payload@.len() as int) =~= payload@);
    }
    out
}

/// Reads the payload length out of a frame header.  Together with `frame`
/// this is the round trip: framing a payload and parsing the header gives
/// the payload's length back.
pub fn frame_header_len(header: &Vec<u8>) -> (r: u64)
    requires
        header@.len() == 8,
    ensures
        u64_be(r) == header@,
        forall|payload: Seq<u8>|
            payload.len() <= usize::MAX && framed(payload).take(8) == header@ ==> r
                == payload.len(),
{
    let r = u64_from_be(header);
    proof {
        assert forall|payload: Seq<u8>|
            payload.len() <= usize::MAX && framed(payload).take(8) == header@ implies r
            == payload.len() by {
            assert(framed(payload).take(8) =~= u64_be(payload.len() as u64));
            lemma_u64_be_injective(r, payload.len() as u64);
        }
    }
    r
}

} // verus!
