use vstd::prelude::*;
use base64::Engine;
use vstd::utf8::{decode_utf8, encode_utf8, valid_utf8};

verus! {

/// The character (as an ASCII byte) of the URL-safe base64 alphabet for a 6-bit digit.
pub open spec fn b64_digit(d: u8) -> u8 {
    if d < 26 {
        (65 + d) as u8
    } else if d < 52 {
        (97 + (d - 26)) as u8
    } else if d < 62 {
        (48 + (d - 52)) as u8
    } else if d == 62 {
        45u8
    } else {
        95u8
    }
}

/// URL-safe base64 without padding: each group of three bytes becomes four
/// characters; a final group of two bytes becomes three, of one byte two.
pub open spec fn b64url(b: Seq<u8>) -> Seq<u8>
    decreases b.len(),
{
    if b.len() >= 3 {
        seq![
            b64_digit(b[0] >> 2),
            b64_digit(((b[0] & 3) << 4) | (b[1] >> 4)),
            b64_digit(((b[1] & 15) << 2) | (b[2] >> 6)),
            b64_digit(b[2] & 63),
        ] + b64url(b.subrange(3, b.len() as int))
    } else if b.len() == 2 {
        seq![
            b64_digit(b[0] >> 2),
            b64_digit(((b[0] & 3) << 4) | (b[1] >> 4)),
            b64_digit((b[1] & 15) << 2),
        ]
    } else if b.len() == 1 {
        seq![b64_digit(b[0] >> 2), b64_digit((b[0] & 3) << 4)]
    } else {
        seq![]
    }
}

/// The bytes that a segment stands for, if it is the encoding of any.
pub open spec fn segment_bytes(s: Seq<u8>) -> Option<Seq<u8>> {
    if exists|v: Seq<u8>| b64url(v) == s {
        Some(choose|v: Seq<u8>| b64url(v) == s)
    } else {
        None
    }
}

proof fn lemma_digit_injective(x: u8, y: u8)
    requires
        x < 64,
        y < 64,
        b64_digit(x) == b64_digit(y),
    ensures
        x == y,
{
}

/// Encoded segments use only alphabet characters: ASCII, and never a `.`.
pub proof fn lemma_b64url_alphabet(b: Seq<u8>)
    ensures
        forall|i: int| 0 <= i < b64url(b).len() ==> #[trigger] b64url(b)[i] < 128 && b64url(b)[i] != 46,
        b64url(b).len() == 0 <==> b.len() == 0,
        b.len() >= 3 ==> b64url(b).len() >= 4,
        b.len() < 3 ==> b64url(b).len() < 4,
    decreases b.len(),
{
    if b.len() >= 3 {
        lemma_b64url_alphabet(b.subrange(3, b.len() as int));
        let head = seq![
            b64_digit(b[0] >> 2),
            b64_digit(((b[0] & 3) << 4) | (b[1] >> 4)),
            b64_digit(((b[1] & 15) << 2) | (b[2] >> 6)),
            b64_digit(b[2] & 63),
        ];
        let tail = b64url(b.subrange(3, b.len() as int));
        assert forall|i: int| 0 <= i < b64url(b).len() implies #[trigger] b64url(b)[i] < 128
            && b64url(b)[i] != 46 by {
            if i >= 4 {
                assert(b64url(b)[i] == tail[i - 4]);
            }
        }
    }
}

/// Distinct byte strings have distinct encodings.
pub proof fn lemma_b64url_injective(v: Seq<u8>, w: Seq<u8>)
    requires
        b64url(v) == b64url(w),
    ensures
        v == w,
    decreases v.len(),
{
    lemma_b64url_alphabet(v);
    lemma_b64url_alphabet(w);
    let e = b64url(v);
    if v.len() >= 3 {
        assert(w.len() >= 3);
        let (v0, v1, v2, w0, w1, w2) = (v[0], v[1], v[2], w[0], w[1], w[2]);
        assert(e[0] == b64_digit(v0 >> 2) && e[0] == b64_digit(w0 >> 2));
        assert(e[1] == b64_digit(((v0 & 3) << 4) | (v1 >> 4)));
        assert(e[1] == b64_digit(((w0 & 3) << 4) | (w1 >> 4)));
        assert(e[2] == b64_digit(((v1 & 15) << 2) | (v2 >> 6)));
        assert(e[2] == b64_digit(((w1 & 15) << 2) | (w2 >> 6)));
        assert(e[3] == b64_digit(v2 & 63) && e[3] == b64_digit(w2 & 63));
        assert(v0 >> 2 < 64 && w0 >> 2 < 64 && ((v0 & 3) << 4) | (v1 >> 4) < 64 && ((w0 & 3) << 4)
            | (w1 >> 4) < 64 && ((v1 & 15) << 2) | (v2 >> 6) < 64 && ((w1 & 15) << 2) | (w2 >> 6)
            < 64 && v2 & 63 < 64 && w2 & 63 < 64) by (bit_vector);
        lemma_digit_injective(v0 >> 2, w0 >> 2);
        lemma_digit_injective(((v0 & 3) << 4) | (v1 >> 4), ((w0 & 3) << 4) | (w1 >> 4));
        lemma_digit_injective(((v1 & 15) << 2) | (v2 >> 6), ((w1 & 15) << 2) | (w2 >> 6));
        lemma_digit_injective(v2 & 63, w2 & 63);
        assert(v0 == w0 && v1 == w1 && v2 == w2) by (bit_vector)
            requires
                v0 >> 2 == w0 >> 2,
                ((v0 & 3) << 4) | (v1 >> 4) == ((w0 & 3) << 4) | (w1 >> 4),
                ((v1 & 15) << 2) | (v2 >> 6) == ((w1 & 15) << 2) | (w2 >> 6),
                v2 & 63 == w2 & 63,
        ;
        let vt = v.subrange(3, v.len() as int);
        let wt = w.subrange(3, w.len() as int);
        assert(b64url(vt) == e.subrange(4, e.len() as int));
        assert(b64url(wt) == e.subrange(4, e.len() as int));
        lemma_b64url_injective(vt, wt);
        assert(v =~= v.subrange(0, 3) + vt);
        assert(w =~= w.subrange(0, 3) + wt);
        assert(v.subrange(0, 3) =~= w.subrange(0, 3));
    } else if v.len() == 2 {
        assert(w.len() == 2);
        let (v0, v1, w0, w1) = (v[0], v[1], w[0], w[1]);
        assert(e[0] == b64_digit(v0 >> 2) && e[0] == b64_digit(w0 >> 2));
        assert(e[1] == b64_digit(((v0 & 3) << 4) | (v1 >> 4)));
        assert(e[1] == b64_digit(((w0 & 3) << 4) | (w1 >> 4)));
        assert(e[2] == b64_digit((v1 & 15) << 2) && e[2] == b64_digit((w1 & 15) << 2));
        assert(v0 >> 2 < 64 && w0 >> 2 < 64 && ((v0 & 3) << 4) | (v1 >> 4) < 64 && ((w0 & 3) << 4)
            | (w1 >> 4) < 64 && (v1 & 15) << 2 < 64 && (w1 & 15) << 2 < 64) by (bit_vector);
        lemma_digit_injective(v0 >> 2, w0 >> 2);
        lemma_digit_injective(((v0 & 3) << 4) | (v1 >> 4), ((w0 & 3) << 4) | (w1 >> 4));
        lemma_digit_injective((v1 & 15) << 2, (w1 & 15) << 2);
        assert(v0 == w0 && v1 == w1) by (bit_vector)
            requires
                v0 >> 2 == w0 >> 2,
                ((v0 & 3) << 4) | (v1 >> 4) == ((w0 & 3) << 4) | (w1 >> 4),
                (v1 & 15) << 2 == (w1 & 15) << 2,
        ;
        assert(v =~= w);
    } else if v.len() == 1 {
        assert(w.len() == 1);
        let (v0, w0) = (v[0], w[0]);
        assert(e[0] == b64_digit(v0 >> 2) && e[0] == b64_digit(w0 >> 2));
        assert(e[1] == b64_digit((v0 & 3) << 4) && e[1] == b64_digit((w0 & 3) << 4));
        assert(v0 >> 2 < 64 && w0 >> 2 < 64 && (v0 & 3) << 4 < 64 && (w0 & 3) << 4 < 64)
            by (bit_vector);
        lemma_digit_injective(v0 >> 2, w0 >> 2);
        lemma_digit_injective((v0 & 3) << 4, (w0 & 3) << 4);
        assert(v0 == w0) by (bit_vector)
            requires
                v0 >> 2 == w0 >> 2,
                (v0 & 3) << 4 == (w0 & 3) << 4,
        ;
        assert(v =~= w);
    } else {
        assert(w.len() == 0);
        assert(v =~= w);
    }
}

/// Decoding an encoded segment gives back the bytes encoded.
pub proof fn lemma_segment_round_trip(v: Seq<u8>)
    ensures
        segment_bytes(b64url(v)) == Some(v),
{
    let w = choose|w: Seq<u8>| b64url(w) == b64url(v);
    lemma_b64url_injective(w, v);
}

/// Relies on base64's `URL_SAFE_NO_PAD` engine `encode`: the unpadded URL-safe
/// encoding of the bytes.
#[verifier::external_body]
pub fn encode_segment(b: &[u8]) -> (r: Vec<u8>)
    ensures
        r@ == b64url(b@),
{
    base64::engine::general_purpose::URL_SAFE_NO_PAD.encode(b).into_bytes()
}

/// Decodes one segment of a token: `None` where the text is no canonical
/// unpadded URL-safe base64.
pub fn decode_segment(s: &[u8]) -> (r: Option<Vec<u8>>)
    ensures
        r matches Some(v) ==> segment_bytes(s@) == Some(v@),
        r is None ==> segment_bytes(s@) is None,
{
    let r = decode_raw(s);
    proof {
        if r is Some {
            let v = r.unwrap();
            let w = choose|w: Seq<u8>| b64url(w) == s@;
            lemma_b64url_injective(w, v@);
        }
    }
    r
}

/// Relies on base64's `URL_SAFE_NO_PAD` engine `decode`: it accepts exactly the
/// canonical unpadded encodings (no padding, no stray trailing bits) and returns
/// the bytes encoded.
#[verifier::external_body]
fn decode_raw(s: &[u8]) -> (r: Option<Vec<u8>>)
    ensures
        r matches Some(v) ==> b64url(v@) == s@,
        r is None ==> forall|v: Seq<u8>| b64url(v) != s@,
{
    base64::engine::general_purpose::URL_SAFE_NO_PAD.decode(s).ok()
}

/// `t` has its only two dots at `i` and `j`, and the three segments they
/// delimit are non-empty.
pub open spec fn is_dot_pair(t: Seq<u8>, i: int, j: int) -> bool {
    &&& 0 < i
    &&& i + 1 < j
    &&& j + 1 < t.len()
    &&& t[i] == 46
    &&& t[j] == 46
    &&& forall|k: int| 0 <= k < t.len() && k != i && k != j ==> #[trigger] t[k] != 46
}

/// The three segments of a token, where it has exactly three non-empty ones.
pub open spec fn token_parts(t: Seq<u8>) -> Option<(Seq<u8>, Seq<u8>, Seq<u8>)> {
    if exists|i: int, j: int| is_dot_pair(t, i, j) {
        let (i, j) = choose|i: int, j: int| is_dot_pair(t, i, j);
        Some((t.subrange(0, i), t.subrange(i + 1, j), t.subrange(j + 1, t.len() as int)))
    } else {
        None
    }
}

pub proof fn lemma_dot_pair_unique(t: Seq<u8>, i: int, j: int, i2: int, j2: int)
    requires
        is_dot_pair(t, i, j),
        is_dot_pair(t, i2, j2),
    ensures
        i == i2,
        j == j2,
{
    assert(t[i2] == 46 && t[j2] == 46);
}

/// Where the two dots of a token stand: `None` unless it splits into exactly
/// three non-empty segments.
pub fn split_token(t: &[u8]) -> (r: Option<(usize, usize)>)
    ensures
        r matches Some((i, j)) ==> is_dot_pair(t@, i as int, j as int),
        r is None ==> forall|i: int, j: int| !is_dot_pair(t@, i, j),
{
    let mut first: usize = 0;
    let mut second: usize = 0;
    let mut count: usize = 0;
    let mut k: usize = 0;
    while k < t.len()
        invariant
            k <= t@.len(),
            count <= 2,
            count == 0 ==> forall|m: int| 0 <= m < k ==> #[trigger] t@[m] != 46,
            count >= 1 ==> first < k && t@[first as int] == 46,
            count == 1 ==> forall|m: int| 0 <= m < k && m != first ==> #[trigger] t@[m] != 46,
            count == 2 ==> first < second < k && t@[second as int] == 46,
            count == 2 ==> forall|m: int|
                0 <= m < k && m != first && m != second ==> #[trigger] t@[m] != 46,
        decreases t@.len() - k,
    {
        if t[k] == 46 {
            if count == 0 {
                first = k;
            } else if count == 1 {
                second = k;
            } else {
                assert forall|i: int, j: int| !is_dot_pair(t@, i, j) by {
                    if is_dot_pair(t@, i, j) {
                        assert(t@[first as int] == 46 && t@[second as int] == 46);
                    }
                }
                return None;
            }
            count = count + 1;
        }
        k = k + 1;
    }
    if count == 2 && 0 < first && first + 1 < second && second + 1 < t.len() {
        Some((first, second))
    } else {
        assert forall|i: int, j: int| !is_dot_pair(t@, i, j) by {
            if is_dot_pair(t@, i, j) {
                assert(t@[i] == 46 && t@[j] == 46);
            }
        }
        None
    }
}

/// Relies on `String::from_utf8`: it succeeds exactly on valid UTF-8, and the
/// string then holds the characters that those bytes encode.
#[verifier::external_body]
pub(crate) fn utf8_text(v: Vec<u8>) -> (r: Option<String>)
    ensures
        r is Some <==> valid_utf8(v@),
        r matches Some(s) ==> encode_utf8(s@) == v@,
{
    String::from_utf8(v).ok()
}

/// ASCII bytes are valid UTF-8.
pub proof fn lemma_ascii_valid_utf8(b: Seq<u8>)
    requires
        forall|i: int| 0 <= i < b.len() ==> #[trigger] b[i] < 128,
    ensures
        valid_utf8(b),
        encode_utf8(decode_utf8(b)) == b,
    decreases b.len(),
{
    if b.len() > 0 {
        let rest = b.subrange(1, b.len() as int);
        assert(b[0] < 128);
        let x = b[0];
        assert(x < 128 ==> (x & 0x7F) as u32 == x as u32) by (bit_vector);
        lemma_ascii_valid_utf8(rest);
        assert(vstd::utf8::pop_first_scalar(b) == rest);
    }
    vstd::utf8::decode_utf8_encode_utf8(b);
}

/// The bytes `b[from..to]`.
pub fn copy_range(b: &[u8], from: usize, to: usize) -> (r: Vec<u8>)
    requires
        from <= to <= b@.len(),
    ensures
        r@ == b@.subrange(from as int, to as int),
{
    let mut r: Vec<u8> = Vec::new();
    let mut k: usize = from;
    while k < to
        invariant
            from <= k <= to <= b@.len(),
            r@ == b@.subrange(from as int, k as int),
        decreases to - k,
    {
        r.push(b[k]);
        k = k + 1;
        assert(r@ =~= b@.subrange(from as int, k as int));
    }
    r
}

} // verus!
