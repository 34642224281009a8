use vstd::prelude::*;
use crate::codec::{copy_range, utf8_text};
use vstd::utf8::{decode_utf8, encode_utf8, valid_utf8};

verus! {

broadcast use vstd::utf8::encode_utf8_decode_utf8, vstd::utf8::encode_utf8_valid_utf8;

/// The fixed metadata segment of every token.
#[derive(Clone, Debug, PartialEq, Eq)]
pub struct Header {
    pub typ: String,
    pub alg: String,
}

/// What a token states: the identity it was issued to, and the instant
/// (nanoseconds since the epoch) from which it is no longer valid.
#[derive(Clone, Debug, PartialEq, Eq)]
pub struct Payload {
    pub address: String,
    pub exp: u64,
}

/// Canonical bytes of the header: `{"typ":"JWT","alg":"HS256"}`.
pub open spec fn header_json() -> Seq<u8> {
    header_json_of(seq![74u8, 87, 84], seq![72u8, 83, 50, 53, 54])
}

/// Canonical bytes of a header with the UTF-8 bytes of its two fields.
pub open spec fn header_json_of(typ: Seq<u8>, alg: Seq<u8>) -> Seq<u8> {
    seq![123u8, 34, 116, 121, 112, 34, 58, 34] + escape(typ) + seq![34u8, 44, 34, 97, 108, 103, 34, 58, 34]
        + escape(alg) + seq![34u8, 125]
}

/// `{"address":"`
pub open spec fn payload_open() -> Seq<u8> {
    seq![123u8, 34, 97, 100, 100, 114, 101, 115, 115, 34, 58, 34]
}

/// `","exp":"`
pub open spec fn payload_mid() -> Seq<u8> {
    seq![34u8, 44, 34, 101, 120, 112, 34, 58, 34]
}

/// `"}`
pub open spec fn payload_close() -> Seq<u8> {
    seq![34u8, 125]
}

/// Decimal digits of `n`, without leading zeros.
pub open spec fn decimal(n: nat) -> Seq<u8>
    decreases n,
{
    if n < 10 {
        seq![(48 + n) as u8]
    } else {
        decimal(n / 10).push((48 + n % 10) as u8)
    }
}

pub open spec fn all_digits(s: Seq<u8>) -> bool {
    forall|i: int| 0 <= i < s.len() ==> 48 <= #[trigger] s[i] <= 57
}

/// The number that a string of decimal digits denotes.
pub open spec fn digits_value(s: Seq<u8>) -> nat
    decreases s.len(),
{
    if s.len() == 0 {
        0
    } else {
        digits_value(s.drop_last()) * 10 + (s.last() - 48) as nat
    }
}

/// An upper-case hexadecimal digit.
pub open spec fn hex4(d: u8) -> u8 {
    if d <= 9 {
        (48 + d) as u8
    } else {
        (65 + (d - 10)) as u8
    }
}

/// How one byte stands inside a JSON string: quote, backslash and control
/// characters are escaped (short forms where JSON has them, else `\u00XX`);
/// every other byte stands as itself.
pub open spec fn esc_byte(c: u8) -> Seq<u8> {
    if c == 34 {
        seq![92u8, 34]
    } else if c == 92 {
        seq![92u8, 92]
    } else if c == 8 {
        seq![92u8, 98]
    } else if c == 9 {
        seq![92u8, 116]
    } else if c == 10 {
        seq![92u8, 110]
    } else if c == 12 {
        seq![92u8, 102]
    } else if c == 13 {
        seq![92u8, 114]
    } else if c < 32 {
        seq![92u8, 117, 48, 48, hex4(c / 16), hex4(c % 16)]
    } else {
        seq![c]
    }
}

/// The escaped form of a byte string, byte by byte.
pub open spec fn escape(s: Seq<u8>) -> Seq<u8>
    decreases s.len(),
{
    if s.len() == 0 {
        Seq::empty()
    } else {
        esc_byte(s[0]) + escape(s.drop_first())
    }
}

/// Canonical bytes of a payload, for the UTF-8 bytes of its address.
pub open spec fn payload_json(addr: Seq<u8>, exp: u64) -> Seq<u8> {
    payload_open() + escape(addr) + payload_mid() + decimal(exp as nat) + payload_close()
}

/// The payload (address, expiry) that canonical bytes denote, if any.
pub open spec fn payload_of(b: Seq<u8>) -> Option<(Seq<char>, u64)> {
    if exists|a: Seq<char>, e: u64| payload_json(encode_utf8(a), e) == b {
        Some(choose|a: Seq<char>, e: u64| payload_json(encode_utf8(a), e) == b)
    } else {
        None
    }
}

proof fn lemma_esc_byte_unique(c: u8, d: u8, s: Seq<u8>)
    requires
        esc_byte(c).len() <= s.len(),
        esc_byte(d).len() <= s.len(),
        s.subrange(0, esc_byte(c).len() as int) == esc_byte(c),
        s.subrange(0, esc_byte(d).len() as int) == esc_byte(d),
    ensures
        c == d,
{
    assert(s[0] == esc_byte(c)[0] && s[0] == esc_byte(d)[0]);
    if s[0] == 92 {
        assert(s[1] == esc_byte(c)[1] && s[1] == esc_byte(d)[1]);
        if s[1] == 117 {
            assert(s[4] == esc_byte(c)[4] && s[4] == esc_byte(d)[4]);
            assert(s[5] == esc_byte(c)[5] && s[5] == esc_byte(d)[5]);
        }
    }
}

/// The escaped form of a byte string is never empty where the string is not,
/// and never begins with a quote.
proof fn lemma_escape_start(x: Seq<u8>)
    ensures
        x.len() > 0 ==> escape(x).len() > 0 && escape(x)[0] != 34,
        x.len() == 0 ==> escape(x).len() == 0,
{
}

/// An escaped string followed by a quote is read back unambiguously.
proof fn lemma_escape_injective(x: Seq<u8>, y: Seq<u8>, s: Seq<u8>)
    requires
        escape(x).len() < s.len(),
        escape(y).len() < s.len(),
        s.subrange(0, escape(x).len() as int) == escape(x),
        s.subrange(0, escape(y).len() as int) == escape(y),
        s[escape(x).len() as int] == 34,
        s[escape(y).len() as int] == 34,
    ensures
        x == y,
    decreases x.len(),
{
    lemma_escape_start(x);
    lemma_escape_start(y);
    if x.len() == 0 || y.len() == 0 {
        if x.len() > 0 {
            assert(s[0] == escape(x)[0]);
        }
        if y.len() > 0 {
            assert(s[0] == escape(y)[0]);
        }
        assert(x =~= y);
    } else {
        let (ex, ey) = (esc_byte(x[0]), esc_byte(y[0]));
        assert(s.subrange(0, ex.len() as int) =~= ex) by {
            assert(escape(x).subrange(0, ex.len() as int) =~= ex);
        }
        assert(s.subrange(0, ey.len() as int) =~= ey) by {
            assert(escape(y).subrange(0, ey.len() as int) =~= ey);
        }
        lemma_esc_byte_unique(x[0], y[0], s);
        let t = s.subrange(ex.len() as int, s.len() as int);
        let (xr, yr) = (x.drop_first(), y.drop_first());
        assert(escape(x) =~= ex + escape(xr));
        assert(escape(y) =~= ey + escape(yr));
        assert forall|i: int| 0 <= i < escape(xr).len() implies #[trigger] t[i] == escape(xr)[i] by {
            assert(s.subrange(0, escape(x).len() as int)[ex.len() + i] == escape(x)[ex.len() + i]);
        }
        assert forall|i: int| 0 <= i < escape(yr).len() implies #[trigger] t[i] == escape(yr)[i] by {
            assert(s.subrange(0, escape(y).len() as int)[ey.len() + i] == escape(y)[ey.len() + i]);
        }
        assert(t.subrange(0, escape(xr).len() as int) =~= escape(xr));
        assert(t.subrange(0, escape(yr).len() as int) =~= escape(yr));
        assert(t[escape(xr).len() as int] == 34);
        assert(t[escape(yr).len() as int] == 34);
        lemma_escape_injective(xr, yr, t);
        assert(x =~= seq![x[0]] + xr);
        assert(y =~= seq![y[0]] + yr);
    }
}

proof fn lemma_decimal(n: nat)
    ensures
        all_digits(decimal(n)),
        decimal(n).len() >= 1,
        digits_value(decimal(n)) == n,
    decreases n,
{
    if n >= 10 {
        lemma_decimal(n / 10);
        assert(decimal(n).drop_last() =~= decimal(n / 10));
        assert(decimal(n).last() == (48 + n % 10) as u8);
    } else {
        assert(decimal(n).drop_last() =~= Seq::<u8>::empty());
        assert(digits_value(Seq::<u8>::empty()) == 0);
    }
}

proof fn lemma_digits_prefix(s: Seq<u8>, i: int)
    requires
        all_digits(s),
        0 <= i <= s.len(),
    ensures
        digits_value(s.subrange(0, i)) <= digits_value(s),
    decreases s.len(),
{
    if i < s.len() {
        lemma_digits_prefix(s.drop_last(), i);
        assert(s.drop_last().subrange(0, i) =~= s.subrange(0, i));
    } else {
        assert(s.subrange(0, i) =~= s);
    }
}

/// Distinct payloads have distinct canonical bytes.
pub proof fn lemma_payload_json_injective(a: Seq<char>, e: u64, a2: Seq<char>, e2: u64)
    requires
        payload_json(encode_utf8(a), e) == payload_json(encode_utf8(a2), e2),
    ensures
        a == a2,
        e == e2,
{
    let (x, x2) = (encode_utf8(a), encode_utf8(a2));
    lemma_canonical_shape(a, e);
    lemma_canonical_shape(a2, e2);
    let b = payload_json(x, e);
    let s = b.subrange(12, b.len() as int);
    assert(s.subrange(0, escape(x).len() as int) =~= b.subrange(12, 12 + escape(x).len() as int));
    assert(s.subrange(0, escape(x2).len() as int) =~= b.subrange(12, 12 + escape(x2).len() as int));
    assert(s[escape(x).len() as int] == b[12 + escape(x).len() as int]);
    assert(s[escape(x2).len() as int] == b[12 + escape(x2).len() as int]);
    lemma_escape_injective(x, x2, s);
    assert(decode_utf8(x) == a && decode_utf8(x2) == a2);
    lemma_decimal(e as nat);
    lemma_decimal(e2 as nat);
}

/// Canonical bytes decode back to the payload they were made from.
pub proof fn lemma_payload_round_trip(a: Seq<char>, e: u64)
    ensures
        payload_of(payload_json(encode_utf8(a), e)) == Some((a, e)),
{
    let b = payload_json(encode_utf8(a), e);
    let (a2, e2) = choose|a2: Seq<char>, e2: u64| payload_json(encode_utf8(a2), e2) == b;
    lemma_payload_json_injective(a, e, a2, e2);
}

proof fn lemma_canonical_shape(a: Seq<char>, e: u64)
    ensures
        ({
            let x = escape(encode_utf8(a));
            let b = payload_json(encode_utf8(a), e);
            &&& b.subrange(0, 12) == payload_open()
            &&& 12 + x.len() < b.len()
            &&& b[12 + x.len() as int] == 34
            &&& b.subrange(12 + x.len() as int, 21 + x.len() as int) == payload_mid()
            &&& 21 + x.len() <= b.len() - 2
            &&& b.subrange(b.len() - 2, b.len() as int) == payload_close()
            &&& b.subrange(21 + x.len() as int, b.len() - 2) == decimal(e as nat)
            &&& b.subrange(12, 12 + x.len() as int) == x
        }),
{
    let x = escape(encode_utf8(a));
    let b = payload_json(encode_utf8(a), e);
    lemma_decimal(e as nat);
    assert(b.subrange(0, 12) =~= payload_open());
    assert(b.subrange(12 + x.len() as int, 21 + x.len() as int) =~= payload_mid());
    assert(b.subrange(b.len() - 2, b.len() as int) =~= payload_close());
    assert(b.subrange(21 + x.len() as int, b.len() - 2) =~= decimal(e as nat));
    assert(b.subrange(12, 12 + x.len() as int) =~= x);
}

/// The first position at or after `from` that holds `x`.
fn find_byte(b: &[u8], from: usize, x: u8) -> (r: Option<usize>)
    ensures
        r matches Some(i) ==> from <= i < b@.len() && b@[i as int] == x && forall|k: int|
            from <= k < i ==> #[trigger] b@[k] != x,
        r is None ==> forall|k: int| from <= k < b@.len() ==> #[trigger] b@[k] != x,
{
    let mut k: usize = from;
    while k < b.len()
        invariant
            from <= k,
            forall|m: int| from <= m < k ==> #[trigger] b@[m] != x,
        decreases b@.len() - k,
    {
        if b[k] == x {
            return Some(k);
        }
        k = k + 1;
    }
    None
}

/// Reads canonical payload bytes back; `None` on anything else.
#[verifier::rlimit(100)]
pub fn deserialize_payload(b: &[u8]) -> (r: Option<Payload>)
    ensures
        r matches Some(p) ==> payload_of(b@) == Some((p.address@, p.exp)),
        r is None ==> payload_of(b@) is None,
{
    let ghost canon = payload_of(b@);
    let ghost a0: Seq<char> = if canon is Some { canon->Some_0.0 } else { Seq::empty() };
    let ghost e0: u64 = if canon is Some { canon->Some_0.1 } else { 0 };
    let ghost x = encode_utf8(a0);
    let ghost ex = escape(x);
    proof {
        if canon is Some {
            lemma_canonical_shape(a0, e0);
            lemma_decimal(e0 as nat);
            assert(b@ == payload_json(x, e0));
        }
    }
    let open: [u8; 12] = [123, 34, 97, 100, 100, 114, 101, 115, 115, 34, 58, 34];
    let mid: [u8; 9] = [34, 44, 34, 101, 120, 112, 34, 58, 34];
    let close: [u8; 2] = [34, 125];
    assert(open@ =~= payload_open() && mid@ =~= payload_mid() && close@ =~= payload_close());
    if !has_at(b, 0, &open) {
        return None;
    }
    let (addr, q) = match read_escaped(b, 12, Ghost(x)) {
        Some(found) => found,
        None => {
            return None;
        },
    };
    assert(canon is Some ==> q == 12 + ex.len() && addr@ == x);
    if !has_at(b, q, &mid) || b.len() < 2 || q + 9 > b.len() - 2 {
        return None;
    }
    if !has_at(b, b.len() - 2, &close) {
        return None;
    }
    let digits = copy_range(b, q + 9, b.len() - 2);
    let e = match parse_decimal(digits.as_slice()) {
        Some(e) => e,
        None => {
            assert(canon is Some ==> digits@ == decimal(e0 as nat));
            return None;
        },
    };
    assert(canon is Some ==> e == e0);
    let address = match utf8_text(addr) {
        Some(s) => s,
        None => {
            return None;
        },
    };
    proof {
        if canon is Some {
            assert(encode_utf8(address@) == x);
            assert(decode_utf8(encode_utf8(address@)) == address@);
            assert(decode_utf8(encode_utf8(a0)) == a0);
        }
    }
    let p = Payload { address, exp: e };
    let s = serialize_payload(&p);
    if s.len() == b.len() && has_at(b, 0, s.as_slice()) {
        proof {
            assert(b@.subrange(0, b@.len() as int) =~= b@);
            lemma_payload_round_trip(p.address@, p.exp);
        }
        Some(p)
    } else {
        assert(canon is Some ==> s@ == b@);
        assert(b@.subrange(0, b@.len() as int) =~= b@);
        None
    }
}

/// The value of an upper-case hexadecimal digit.
fn hex_value(h: u8) -> (r: Option<u8>)
    ensures
        r matches Some(d) ==> d < 16 && hex4(d) == h,
        (exists|d: u8| d < 16 && hex4(d) == h) ==> r is Some,
{
    if 48 <= h && h <= 57 {
        Some(h - 48)
    } else if 65 <= h && h <= 70 {
        Some(h - 55)
    } else {
        None
    }
}

/// Reads an escaped string from `start` up to its closing quote: the bytes it
/// stands for and the position of that quote. Where `x` escaped and followed
/// by a quote stands there, these are `x` and the position after its escape.
#[verifier::rlimit(60)]
fn read_escaped(b: &[u8], start: usize, Ghost(x): Ghost<Seq<u8>>) -> (r: Option<(Vec<u8>, usize)>)
    requires
        start <= b@.len(),
    ensures
        r matches Some((v, q)) ==> start <= q < b@.len(),
        start + escape(x).len() < b@.len() && b@.subrange(start as int, start + escape(x).len())
            == escape(x) && b@[start + escape(x).len()] == 34 ==> (r matches Some((v, q)) && v@ == x
            && q == start + escape(x).len()),
{
    let ghost canon = start + escape(x).len() < b@.len() && b@.subrange(
        start as int,
        start + escape(x).len(),
    ) == escape(x) && b@[start + escape(x).len()] == 34;
    let ghost end = start + escape(x).len();
    let mut out: Vec<u8> = Vec::new();
    let mut pos: usize = start;
    let ghost mut k: int = 0;
    proof {
        if canon {
            assert(x.skip(0) =~= x);
            assert(out@ =~= x.take(0));
        }
    }
    while pos < b.len()
        invariant
            start <= pos <= b@.len(),
            b@.len() == b.len(),
            end == start + escape(x).len(),
            canon == (start + escape(x).len() < b@.len() && b@.subrange(start as int, start + escape(x).len())
                == escape(x) && b@[start + escape(x).len()] == 34),
            canon ==> 0 <= k <= x.len() && out@ == x.take(k) && pos + escape(x.skip(k)).len() == end
                && b@.subrange(pos as int, end) == escape(x.skip(k)) && end < b@.len() && b@[end]
                == 34,
        decreases b@.len() - pos,
    {
        let ghost ec: Seq<u8> = if canon && k < x.len() { esc_byte(x[k]) } else { Seq::empty() };
        proof {
            if canon && k < x.len() {
                let sk = x.skip(k);
                assert(sk[0] == x[k]);
                assert(sk.drop_first() =~= x.skip(k + 1));
                assert(escape(sk) == ec + escape(x.skip(k + 1)));
                assert forall|i: int| 0 <= i < ec.len() implies #[trigger] b@[pos + i] == ec[i] by {
                    assert(b@[pos + i] == b@.subrange(pos as int, end)[i]);
                }
                let t = b@.subrange(pos as int, end);
                let rest = escape(x.skip(k + 1));
                assert(t =~= ec + rest);
                assert(pos + ec.len() <= end);
                assert(b@.subrange(pos + ec.len(), end) =~= t.subrange(ec.len() as int, t.len() as int));
                assert(t.subrange(ec.len() as int, t.len() as int) =~= rest);
                assert(b@[pos as int] == t[0]);
                assert(t[0] == ec[0]);
                assert(ec[0] != 34);
                assert(ec[0] == 92 ==> ec.len() >= 2);
            }
            if canon && k == x.len() {
                assert(x.skip(k).len() == 0);
                assert(escape(x.skip(k)).len() == 0);
                assert(pos == end);
                assert(b@[pos as int] == 34);
            }
        }
        let c = b[pos];
        if c == 34 {
            proof {
                if canon {
                    assert(k == x.len());
                    assert(x.take(k) =~= x);
                    assert(pos == end);
                }
            }
            return Some((out, pos));
        }
        let d: u8;
        let w: usize;
        if c == 92 {
            if pos + 1 >= b.len() {
                return None;
            }
            let n = b[pos + 1];
            if n == 34 || n == 92 {
                d = n;
                w = 2;
            } else if n == 98 {
                d = 8;
                w = 2;
            } else if n == 116 {
                d = 9;
                w = 2;
            } else if n == 110 {
                d = 10;
                w = 2;
            } else if n == 102 {
                d = 12;
                w = 2;
            } else if n == 114 {
                d = 13;
                w = 2;
            } else if n == 117 {
                if b.len() - pos <= 5 || b[pos + 2] != 48 || b[pos + 3] != 48 {
                    return None;
                }
                let h1 = b[pos + 4];
                if h1 != 48 && h1 != 49 {
                    return None;
                }
                let lo = match hex_value(b[pos + 5]) {
                    Some(v) => v,
                    None => {
                        proof {
                            if canon && k < x.len() {
                                assert(hex4(x[k] % 16) == b@[pos + 5]);
                            }
                        }
                        return None;
                    },
                };
                proof {
                    if canon && k < x.len() {
                        assert(x[k] < 32);
                        assert(hex4(x[k] % 16) == b@[pos + 5]);
                    }
                }
                d = (h1 - 48) * 16 + lo;
                w = 6;
            } else {
                return None;
            }
        } else {
            d = c;
            w = 1;
        }
        proof {
            if canon && k < x.len() {
                assert(d == x[k]);
                assert(w == ec.len());
            }
        }
        out.push(d);
        pos = pos + w;
        proof {
            if canon {
                assert(out@ =~= x.take(k + 1));
                k = k + 1;
            }
        }
    }
    None
}

/// Appends the escaped form of one byte to `out`.
fn push_escaped_byte(out: &mut Vec<u8>, c: u8)
    ensures
        final(out)@ == old(out)@ + esc_byte(c),
{
    if c == 34 || c == 92 {
        out.push(92);
        out.push(c);
    } else if c == 8 {
        out.push(92);
        out.push(98);
    } else if c == 9 {
        out.push(92);
        out.push(116);
    } else if c == 10 {
        out.push(92);
        out.push(110);
    } else if c == 12 {
        out.push(92);
        out.push(102);
    } else if c == 13 {
        out.push(92);
        out.push(114);
    } else if c < 32 {
        let hi: u8 = c / 16;
        let lo: u8 = c % 16;
        out.push(92);
        out.push(117);
        out.push(48);
        out.push(48);
        out.push(48 + hi);
        if lo <= 9 {
            out.push(48 + lo);
        } else {
            out.push(65 + (lo - 10));
        }
    } else {
        out.push(c);
    }
    assert(final(out)@ =~= old(out)@ + esc_byte(c));
}

proof fn lemma_escape_push(x: Seq<u8>, c: u8)
    ensures
        escape(x.push(c)) == escape(x) + esc_byte(c),
    decreases x.len(),
{
    if x.len() == 0 {
        assert(x.push(c).drop_first() =~= Seq::<u8>::empty());
        assert(x.push(c)[0] == c);
        assert(escape(Seq::<u8>::empty()) =~= Seq::<u8>::empty());
        assert(escape(x) =~= Seq::<u8>::empty());
        assert(escape(x.push(c)) =~= esc_byte(c));
    } else {
        lemma_escape_push(x.drop_first(), c);
        assert(x.push(c).drop_first() =~= x.drop_first().push(c));
        assert(escape(x.push(c)) =~= escape(x) + esc_byte(c));
    }
}

/// Escaping leaves alone bytes that need no escape.
proof fn lemma_escape_plain(x: Seq<u8>)
    requires
        forall|i: int| 0 <= i < x.len() ==> #[trigger] x[i] >= 32 && x[i] != 34 && x[i] != 92,
    ensures
        escape(x) == x,
    decreases x.len(),
{
    if x.len() > 0 {
        lemma_escape_plain(x.drop_first());
        assert(escape(x) =~= x);
    }
}

/// Appends the escaped form of `s` to `out`.
fn write_escaped(out: &mut Vec<u8>, s: &[u8])
    ensures
        final(out)@ == old(out)@ + escape(s@),
{
    let ghost start = out@;
    let mut k: usize = 0;
    assert(s@.take(0) =~= Seq::<u8>::empty());
    assert(out@ =~= start + escape(s@.take(0)));
    while k < s.len()
        invariant
            k <= s@.len(),
            out@ == start + escape(s@.take(k as int)),
        decreases s@.len() - k,
    {
        push_escaped_byte(out, s[k]);
        proof {
            assert(s@.take(k + 1) =~= s@.take(k as int).push(s@[k as int]));
            lemma_escape_push(s@.take(k as int), s@[k as int]);
        }
        k = k + 1;
    }
    assert(s@.take(k as int) =~= s@);
}

/// Appends the bytes of `lit` to `out`.
fn push_bytes(out: &mut Vec<u8>, lit: &[u8])
    ensures
        final(out)@ == old(out)@ + lit@,
{
    out.extend_from_slice(lit);
}

/// Whether `b` holds the bytes of `lit` from position `at` on.
fn has_at(b: &[u8], at: usize, lit: &[u8]) -> (r: bool)
    ensures
        r == (at + lit@.len() <= b@.len() && b@.subrange(at as int, at + lit@.len()) == lit@),
{
    if at > b.len() || lit.len() > b.len() - at {
        return false;
    }
    let mut k: usize = 0;
    while k < lit.len()
        invariant
            at + lit@.len() <= b@.len(),
            b@.len() == b.len(),
            k <= lit@.len(),
            forall|m: int| 0 <= m < k ==> b@[at + m] == lit@[m],
        decreases lit@.len() - k,
    {
        if b[at + k] != lit[k] {
            assert(b@.subrange(at as int, at + lit@.len())[k as int] != lit@[k as int]);
            return false;
        }
        k = k + 1;
    }
    assert(b@.subrange(at as int, at + lit@.len()) =~= lit@);
    true
}

/// Appends the decimal digits of `n` to `out`.
pub fn write_decimal(out: &mut Vec<u8>, n: u64)
    ensures
        final(out)@ == old(out)@ + decimal(n as nat),
{
    let mut q: u64 = n;
    let mut digits: Vec<u8> = Vec::new();
    while q >= 10
        invariant
            decimal(n as nat) == decimal(q as nat) + digits@,
        decreases q,
    {
        let d: u8 = (48 + q % 10) as u8;
        proof {
            assert(decimal(q as nat) == decimal((q / 10) as nat).push(d));
            assert(decimal(q as nat) + digits@ =~= decimal((q / 10) as nat) + seq![d].add(digits@));
        }
        digits.insert(0, d);
        q = q / 10;
    }
    let d: u8 = (48 + q) as u8;
    assert(decimal(q as nat) =~= seq![d]);
    digits.insert(0, d);
    assert(digits@ =~= decimal(n as nat));
    out.append(&mut digits);
}

/// The number that a non-empty string of decimal digits denotes, where it
/// fits in a `u64`.
pub fn parse_decimal(s: &[u8]) -> (r: Option<u64>)
    ensures
        r matches Some(n) ==> s@.len() > 0 && all_digits(s@) && digits_value(s@) == n,
        r is None ==> !(s@.len() > 0 && all_digits(s@) && digits_value(s@) <= u64::MAX),
{
    if s.len() == 0 {
        return None;
    }
    let mut acc: u64 = 0;
    let mut k: usize = 0;
    while k < s.len()
        invariant
            k <= s@.len(),
            all_digits(s@.subrange(0, k as int)),
            acc == digits_value(s@.subrange(0, k as int)),
        decreases s@.len() - k,
    {
        let c = s[k];
        if c < 48 || c > 57 {
            return None;
        }
        proof {
            assert(s@.subrange(0, k + 1).drop_last() =~= s@.subrange(0, k as int));
        }
        let d: u64 = (c - 48) as u64;
        if acc > (u64::MAX - d) / 10 {
            proof {
                if all_digits(s@) {
                    lemma_digits_prefix(s@, k + 1);
                }
            }
            return None;
        }
        acc = acc * 10 + d;
        k = k + 1;
    }
    assert(s@.subrange(0, k as int) =~= s@);
    Some(acc)
}

/// The canonical bytes of the fixed header.
pub fn header_bytes() -> (r: Vec<u8>)
    ensures
        r@ == header_json(),
{
    let mut r: Vec<u8> = Vec::new();
    let lit: [u8; 27] = [123, 34, 116, 121, 112, 34, 58, 34, 74, 87, 84, 34, 44, 34, 97, 108, 103, 34, 58, 34, 72, 83, 50, 53, 54, 34, 125];
    push_bytes(&mut r, &lit);
    proof {
        lemma_escape_plain(seq![74u8, 87, 84]);
        lemma_escape_plain(seq![72u8, 83, 50, 53, 54]);
    }
    assert(r@ =~= header_json());
    r
}

/// The canonical bytes of a header.
pub fn serialize_header(h: &Header) -> (r: Vec<u8>)
    ensures
        r@ == header_json_of(encode_utf8(h.typ@), encode_utf8(h.alg@)),
{
    let open: [u8; 8] = [123, 34, 116, 121, 112, 34, 58, 34];
    let mid: [u8; 9] = [34, 44, 34, 97, 108, 103, 34, 58, 34];
    let close: [u8; 2] = [34, 125];
    let mut out: Vec<u8> = Vec::new();
    push_bytes(&mut out, &open);
    write_escaped(&mut out, h.typ.as_str().as_bytes());
    push_bytes(&mut out, &mid);
    write_escaped(&mut out, h.alg.as_str().as_bytes());
    push_bytes(&mut out, &close);
    assert(out@ =~= header_json_of(encode_utf8(h.typ@), encode_utf8(h.alg@)));
    out
}

/// The canonical bytes of a payload.
pub fn serialize_payload(p: &Payload) -> (r: Vec<u8>)
    ensures
        r@ == payload_json(encode_utf8(p.address@), p.exp),
{
    let mut out: Vec<u8> = Vec::new();
    let open: [u8; 12] = [123, 34, 97, 100, 100, 114, 101, 115, 115, 34, 58, 34];
    let mid: [u8; 9] = [34, 44, 34, 101, 120, 112, 34, 58, 34];
    let close: [u8; 2] = [34, 125];
    push_bytes(&mut out, &open);
    write_escaped(&mut out, p.address.as_str().as_bytes());
    push_bytes(&mut out, &mid);
    write_decimal(&mut out, p.exp);
    push_bytes(&mut out, &close);
    assert(out@ =~= payload_json(encode_utf8(p.address@), p.exp));
    out
}

} // verus!
