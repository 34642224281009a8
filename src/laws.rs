use vstd::prelude::*;
use vstd::utf8::encode_utf8;
use crate::claims::{header_json, lemma_payload_round_trip, payload_json, payload_of};
use crate::codec::{
    b64url, is_dot_pair, lemma_b64url_alphabet, lemma_dot_pair_unique,
    lemma_segment_round_trip, segment_bytes, token_parts,
};
use crate::engine::{expires_at, inspect, pubkey_text, token_bytes};
use crate::keystore::KeyState;

verus! {

proof fn lemma_token_parts(h: Seq<u8>, p: Seq<u8>, s: Seq<u8>)
    requires
        h.len() > 0,
        p.len() > 0,
        s.len() > 0,
    ensures
        token_parts(token_bytes(h, p, s)) == Some((b64url(h), b64url(p), b64url(s))),
{
    let t = token_bytes(h, p, s);
    lemma_b64url_alphabet(h);
    lemma_b64url_alphabet(p);
    lemma_b64url_alphabet(s);
    let i = b64url(h).len() as int;
    let j = i + 1 + b64url(p).len();
    assert forall|k: int| 0 <= k < t.len() && k != i && k != j implies #[trigger] t[k] != 46 by {
        if k < i {
            assert(t[k] == b64url(h)[k]);
        } else if i < k < j {
            assert(t[k] == b64url(p)[k - i - 1]);
        } else {
            assert(t[k] == b64url(s)[k - j - 1]);
        }
    }
    assert(is_dot_pair(t, i, j));
    let (i2, j2) = choose|i2: int, j2: int| is_dot_pair(t, i2, j2);
    lemma_dot_pair_unique(t, i, j, i2, j2);
    assert(t.subrange(0, i) =~= b64url(h));
    assert(t.subrange(i + 1, j) =~= b64url(p));
    assert(t.subrange(j + 1, t.len() as int) =~= b64url(s));
}

/// Issue, then validate: a token issued for `subject` at `now` with a
/// lifetime of `expiry_seconds`, under any non-empty signature, passes every
/// check before signature verification exactly while the validation time `t`
/// is before its expiry, and then hands verification the very message that
/// was signed (header bytes followed by payload bytes) and that signature.
pub proof fn lemma_issue_then_validate(subject: Seq<char>, now: u64, expiry_seconds: u64, signature: Seq<u8>, t: u64)
    requires
        expires_at(now, expiry_seconds) <= u64::MAX,
        signature.len() > 0,
    ensures
        ({
            let exp = expires_at(now, expiry_seconds) as u64;
            let payload = payload_json(encode_utf8(subject), exp);
            inspect(token_bytes(header_json(), payload, signature), t) == if t < exp {
                Some((header_json() + payload, signature))
            } else {
                None
            }
        }),
{
    let exp = expires_at(now, expiry_seconds) as u64;
    let payload = payload_json(encode_utf8(subject), exp);
    lemma_token_parts(header_json(), payload, signature);
    lemma_segment_round_trip(header_json());
    lemma_segment_round_trip(payload);
    lemma_segment_round_trip(signature);
    lemma_payload_round_trip(subject, exp);
}

/// Expiry is strict: a token whose payload expires exactly at the validation
/// time is rejected.
pub proof fn lemma_expiry_is_strict(t: Seq<u8>, now: u64)
    requires
        token_parts(t) is Some,
        segment_bytes(token_parts(t)->Some_0.1) is Some,
        payload_of(segment_bytes(token_parts(t)->Some_0.1)->Some_0) matches Some((_, exp)) && exp
            == now,
    ensures
        inspect(t, now) is None,
{
}

/// Malformed tokens are rejected: one that does not split into exactly three
/// non-empty segments, one with a segment that is no base64 text, or one whose
/// payload is no canonical payload.
pub proof fn lemma_malformed_is_invalid(t: Seq<u8>, now: u64)
    requires
        token_parts(t) is None || ({
            let (hs, ps, ss) = token_parts(t)->Some_0;
            ||| segment_bytes(hs) is None
            ||| segment_bytes(ps) is None
            ||| segment_bytes(ss) is None
            ||| payload_of(segment_bytes(ps)->Some_0) is None
        }),
    ensures
        inspect(t, now) is None,
{
}

/// The public key handed out depends on the held secret alone.
pub proof fn lemma_public_key_deterministic(a: KeyState, b: KeyState)
    requires
        a.secret is Some,
        a.secret == b.secret,
    ensures
        pubkey_text(a.secret->Some_0) == pubkey_text(b.secret->Some_0),
{
}

/// Tampering with a byte of the payload segment of an issued token either
/// makes it fail the checks before signature verification, or changes the
/// message that the signature is then checked against.
pub proof fn lemma_tampered_payload(h: Seq<u8>, p: Seq<u8>, s: Seq<u8>, k: int, x: u8, now: u64)
    requires
        h.len() > 0,
        p.len() > 0,
        s.len() > 0,
        b64url(h).len() < k <= b64url(h).len() + b64url(p).len(),
        x != token_bytes(h, p, s)[k],
    ensures
        inspect(token_bytes(h, p, s).update(k, x), now) is None || inspect(
            token_bytes(h, p, s).update(k, x),
            now,
        )->Some_0.0 != h + p,
{
    let t = token_bytes(h, p, s);
    let t2 = t.update(k, x);
    lemma_token_parts(h, p, s);
    lemma_segment_round_trip(h);
    let i = b64url(h).len() as int;
    let j = i + 1 + b64url(p).len();
    let (i0, j0) = choose|i0: int, j0: int| is_dot_pair(t, i0, j0);
    lemma_b64url_alphabet(h);
    lemma_b64url_alphabet(p);
    lemma_b64url_alphabet(s);
    assert(t.subrange(0, i) =~= b64url(h));
    assert(t[i] == 46 && t[j] == 46);
    if inspect(t2, now) is Some && x != 46 {
        assert(is_dot_pair(t, i, j)) by {
            assert forall|m: int| 0 <= m < t.len() && m != i && m != j implies #[trigger] t[m] != 46 by {
                assert(is_dot_pair(t, i0, j0));
                lemma_dot_pair_unique(t, i, j, i0, j0);
            }
        }
        assert(is_dot_pair(t2, i, j)) by {
            assert forall|m: int| 0 <= m < t2.len() && m != i && m != j implies #[trigger] t2[m] != 46 by {
                if m != k {
                    assert(t2[m] == t[m]);
                }
            }
        }
        let (i2, j2) = choose|i2: int, j2: int| is_dot_pair(t2, i2, j2);
        lemma_dot_pair_unique(t2, i, j, i2, j2);
        let ps2 = t2.subrange(i + 1, j);
        assert(t2.subrange(0, i) =~= b64url(h));
        assert(ps2 != b64url(p)) by {
            assert(ps2[k - i - 1] == x);
            assert(t.subrange(i + 1, j) =~= b64url(p));
            assert(b64url(p)[k - i - 1] == t[k]);
        }
        let pb2 = segment_bytes(ps2)->Some_0;
        assert(b64url(pb2) == ps2);
        assert(pb2 != p);
        let m = h + pb2;
        if m == h + p {
            assert(pb2 =~= m.subrange(h.len() as int, m.len() as int));
            assert(p =~= (h + p).subrange(h.len() as int, (h + p).len() as int));
        }
    } else if inspect(t2, now) is Some {
        assert(t2[k] == 46 && t2[i] == 46 && t2[j] == 46);
        let (i2, j2) = choose|i2: int, j2: int| is_dot_pair(t2, i2, j2);
        assert(is_dot_pair(t2, i2, j2));
    }
}

} // verus!
