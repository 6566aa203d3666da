//! The signed stitch protocol: canonical signing bytes, wire encoding,
//! message construction and self-certifying verification, and the
//! inbound envelope check.
//!
//! One fixed deterministic binary encoding: every variable-length byte
//! string is prefixed with its 64-bit little-endian length; counts and
//! integers are 64-bit little-endian; the compact signature (64 bytes)
//! and the compressed public key (33 bytes) follow the signed fields
//! without a prefix.

use crate::bytes::{
    clone_bytes, copy_range, le64, le64_val, lemma_le64_roundtrip, push_bytes, push_le64, read_le64,
};
use crate::crypto::{
    blake2s32, blake2s_256, secp_pubkey_of, secp_public_key, secp_sig_ok, secp_sign, secp_sk_valid,
    secp_verify,
};
use vstd::prelude::*;

verus! {

broadcast use crate::bytes::lemma_le64_len;

/// Reserved message-type byte that marks a stitch envelope on the
/// shared transport.
pub const STITCH_MSG_TAG: u8 = 0xF0;

/// Seconds a fresh stitch request stays valid.
pub const STITCH_EXPIRY_SECS: u64 = 30;

/// Length of a compact ECDSA signature.
pub const SIG_LEN: usize = 64;

/// Length of a compressed secp256k1 public key.
pub const PK_LEN: usize = 33;

/// A byte string with its 64-bit little-endian length in front.
pub open spec fn enc_chunk(b: Seq<u8>) -> Seq<u8> {
    le64(b.len() as u64) + b
}

/// Length-prefixed byte strings, one after the other.
pub open spec fn enc_list(l: Seq<Seq<u8>>) -> Seq<u8>
    decreases l.len(),
{
    if l.len() == 0 {
        Seq::empty()
    } else {
        enc_chunk(l.first()) + enc_list(l.drop_first())
    }
}

/// Appending one string extends the encoded list at its end.
pub proof fn lemma_enc_list_push(l: Seq<Seq<u8>>, x: Seq<u8>)
    ensures
        enc_list(l.push(x)) == enc_list(l) + enc_chunk(x),
    decreases l.len(),
{
    let lp = l.push(x);
    if l.len() == 0 {
        assert(lp.first() == x);
        assert(lp.drop_first() =~= Seq::<Seq<u8>>::empty());
        assert(enc_list(lp.drop_first()) == Seq::<u8>::empty());
        assert(enc_list(lp) == enc_chunk(x) + enc_list(lp.drop_first()));
        assert(enc_list(lp) =~= enc_list(l) + enc_chunk(x));
    } else {
        assert(lp.first() == l.first());
        assert(lp.drop_first() =~= l.drop_first().push(x));
        lemma_enc_list_push(l.drop_first(), x);
        assert(enc_list(lp) == enc_chunk(l.first()) + enc_list(l.drop_first().push(x)));
        assert(enc_list(l.drop_first().push(x)) == enc_list(l.drop_first()) + enc_chunk(x));
        assert(enc_list(lp) =~= enc_list(l) + enc_chunk(x));
    }
}

/// Canonical signing bytes of the four signed fields.
pub open spec fn canon_spec(weak: Seq<u8>, tips: Seq<Seq<u8>>, reward: u64, expiry: u64) -> Seq<
    u8,
> {
    enc_chunk(weak) + le64(tips.len() as u64) + enc_list(tips) + le64(reward) + le64(expiry)
}

/// A signed request asking miners to heal a fracture by referencing
/// all the divergent tips as direct parents. Self-certifying: the
/// embedded key lets any receiver check integrity and signer identity
/// without prior trust setup.
pub struct StitchRequest {
    /// The branch node under the fracture.
    pub weak_block: Vec<u8>,
    /// The divergent tips a healing block must reference.
    pub tip_hashes: Vec<Vec<u8>>,
    /// Promised payout, in sompi.
    pub reward_sompi: u64,
    /// Unix time after which the request is void.
    pub expiry: u64,
    /// Compact ECDSA signature over the canonical signing bytes.
    pub signature: Vec<u8>,
    /// Compressed secp256k1 key of the signer.
    pub pubkey: Vec<u8>,
}

impl StitchRequest {
    /// The canonical signing bytes of this request's signed fields.
    pub open spec fn canon(self) -> Seq<u8> {
        canon_spec(self.weak_block@, self.tip_hashes.deep_view(), self.reward_sompi, self.expiry)
    }

    /// Signature and key have their fixed wire lengths.
    pub open spec fn wf(self) -> bool {
        self.signature@.len() == SIG_LEN && self.pubkey@.len() == PK_LEN
    }

    /// What a successful verification of this request establishes: the
    /// compact signature checks out over the BLAKE2s digest of the
    /// canonical bytes, under the embedded key.
    pub open spec fn verified_spec(self) -> bool {
        secp_sig_ok(blake2s_256(self.canon()), self.signature@, self.pubkey@)
    }

    /// Wire bytes: the canonical signed fields, then the fixed-length
    /// signature and key.
    pub open spec fn encode_spec(self) -> Seq<u8> {
        self.canon() + self.signature@ + self.pubkey@
    }

    /// Build and sign a request over the given weak block and tips,
    /// expiring a fixed interval after `now`. Fails exactly when the
    /// secret key bytes are unusable.
    pub fn new(weak: &Vec<u8>, tips: &Vec<Vec<u8>>, reward: u64, now: u64, sk: &Vec<u8>) -> (r:
        Option<StitchRequest>)
        requires
            now + STITCH_EXPIRY_SECS <= u64::MAX,
        ensures
            r is Some <==> secp_sk_valid(sk@),
            r matches Some(req) ==> {
                &&& req.weak_block@ == weak@
                &&& req.tip_hashes.deep_view() == tips.deep_view()
                &&& req.reward_sompi == reward
                &&& req.expiry == now + STITCH_EXPIRY_SECS
                &&& req.pubkey@ == secp_pubkey_of(sk@)
                &&& req.wf()
                &&& req.verified_spec()
            },
    {
        let pubkey = match secp_public_key(sk) {
            Some(pk) => pk,
            None => {
                return None;
            },
        };
        let canonical = encode_canonical(weak, tips, reward, now + STITCH_EXPIRY_SECS);
        let digest = blake2s32(&canonical);
        let signature = match secp_sign(&digest, sk) {
            Some(s) => s,
            None => {
                return None;
            },
        };
        let req = StitchRequest {
            weak_block: clone_bytes(weak),
            tip_hashes: clone_tips(tips),
            reward_sompi: reward,
            expiry: now + STITCH_EXPIRY_SECS,
            signature,
            pubkey,
        };
        proof {
            assert(req.canon() == canonical@);
        }
        Some(req)
    }

    /// Check this request against its own embedded key: recompute the
    /// canonical digest and verify the signature over it. Malformed
    /// signature or key bytes verify as false, never as an error.
    pub fn verify(&self) -> (r: bool)
        ensures
            r == self.verified_spec(),
    {
        let canonical = encode_canonical(
            &self.weak_block,
            &self.tip_hashes,
            self.reward_sompi,
            self.expiry,
        );
        let digest = blake2s32(&canonical);
        secp_verify(&digest, &self.signature, &self.pubkey)
    }
}

/// One length-prefixed byte string read at `pos`: the string and the
/// position just after it.
pub open spec fn parse_chunk(data: Seq<u8>, pos: int) -> Option<(Seq<u8>, int)> {
    if pos + 8 > data.len() {
        None
    } else {
        let l = le64_val(data.subrange(pos, pos + 8)) as int;
        if pos + 8 + l > data.len() {
            None
        } else {
            Some((data.subrange(pos + 8, pos + 8 + l), pos + 8 + l))
        }
    }
}

/// `cnt` length-prefixed strings read in order from `pos`.
pub open spec fn parse_list(data: Seq<u8>, pos: int, cnt: nat) -> Option<(Seq<Seq<u8>>, int)>
    decreases cnt,
{
    if cnt == 0 {
        Some((Seq::empty(), pos))
    } else {
        match parse_chunk(data, pos) {
            None => None,
            Some((s, p2)) => match parse_list(data, p2, (cnt - 1) as nat) {
                None => None,
                Some((rest, end)) => Some((seq![s] + rest, end)),
            },
        }
    }
}

/// The six fields a well-formed wire message stands for, or nothing.
pub open spec fn decode_spec(data: Seq<u8>) -> Option<
    (Seq<u8>, Seq<Seq<u8>>, u64, u64, Seq<u8>, Seq<u8>),
> {
    match parse_chunk(data, 0) {
        None => None,
        Some((weak, p1)) => if p1 + 8 > data.len() {
            None
        } else {
            let cnt = le64_val(data.subrange(p1, p1 + 8));
            match parse_list(data, p1 + 8, cnt as nat) {
                None => None,
                Some((tips, p2)) => if p2 + 16 + SIG_LEN + PK_LEN != data.len() {
                    None
                } else {
                    Some(
                        (
                            weak,
                            tips,
                            le64_val(data.subrange(p2, p2 + 8)),
                            le64_val(data.subrange(p2 + 8, p2 + 16)),
                            data.subrange(p2 + 16, p2 + 16 + SIG_LEN),
                            data.subrange(p2 + 16 + SIG_LEN, p2 + 16 + SIG_LEN + PK_LEN),
                        ),
                    )
                },
            }
        },
    }
}

impl StitchRequest {
    /// The six wire fields of this request, in wire order.
    pub open spec fn fields(self) -> (Seq<u8>, Seq<Seq<u8>>, u64, u64, Seq<u8>, Seq<u8>) {
        (
            self.weak_block@,
            self.tip_hashes.deep_view(),
            self.reward_sompi,
            self.expiry,
            self.signature@,
            self.pubkey@,
        )
    }
}

/// Whether decoded wire fields carry a signature that checks out over
/// their own canonical bytes, under their own embedded key.
pub open spec fn fields_verified(f: (Seq<u8>, Seq<Seq<u8>>, u64, u64, Seq<u8>, Seq<u8>)) -> bool {
    secp_sig_ok(blake2s_256(canon_spec(f.0, f.1, f.2, f.3)), f.4, f.5)
}

/// A length-prefixed string placed in the middle of a byte string
/// parses back to itself.
proof fn lemma_parse_chunk_of_enc(pre: Seq<u8>, b: Seq<u8>, post: Seq<u8>)
    requires
        b.len() <= u64::MAX,
    ensures
        parse_chunk(pre + enc_chunk(b) + post, pre.len() as int) == Some(
            (b, (pre.len() + 8 + b.len()) as int),
        ),
{
    let data = pre + enc_chunk(b) + post;
    let pos = pre.len() as int;
    lemma_le64_roundtrip(b.len() as u64);
    assert(data.subrange(pos, pos + 8) =~= le64(b.len() as u64));
    assert(le64_val(data.subrange(pos, pos + 8)) == b.len() as u64);
    assert(data.subrange(pos + 8, pos + 8 + b.len() as int) =~= b);
}

/// A run of length-prefixed strings placed in the middle of a byte
/// string parses back to itself.
#[verifier::rlimit(100)]
proof fn lemma_parse_list_of_enc(pre: Seq<u8>, tips: Seq<Seq<u8>>, post: Seq<u8>)
    requires
        forall|i: int| 0 <= i < tips.len() ==> #[trigger] tips[i].len() <= u64::MAX,
    ensures
        parse_list(pre + enc_list(tips) + post, pre.len() as int, tips.len()) == Some(
            (tips, (pre.len() + enc_list(tips).len()) as int),
        ),
    decreases tips.len(),
{
    let data = pre + enc_list(tips) + post;
    if tips.len() == 0 {
        assert(parse_list(data, pre.len() as int, 0) == Some(
            (Seq::<Seq<u8>>::empty(), pre.len() as int),
        ));
        assert(tips =~= Seq::<Seq<u8>>::empty());
    } else {
        let first = tips.first();
        let rest = tips.drop_first();
        assert(enc_list(tips) == enc_chunk(first) + enc_list(rest));
        assert(data =~= pre + enc_chunk(first) + (enc_list(rest) + post));
        lemma_parse_chunk_of_enc(pre, first, enc_list(rest) + post);
        let p2 = pre.len() + 8 + first.len();
        let pre2 = pre + enc_chunk(first);
        assert(pre2.len() == p2);
        assert(data =~= pre2 + enc_list(rest) + post);
        assert(forall|i: int|
            0 <= i < rest.len() ==> #[trigger] rest[i].len() <= u64::MAX) by {
            assert(forall|i: int|
                0 <= i < rest.len() ==> rest[i] == tips[i + 1] && #[trigger] rest[i].len()
                    <= u64::MAX);
        }
        lemma_parse_list_of_enc(pre2, rest, post);
        assert(seq![first] + rest =~= tips);
        assert(pre2.len() + enc_list(rest).len() == pre.len() + enc_list(tips).len());
    }
}

/// Round trip of the wire codec: the wire bytes of a well-formed
/// request decode back to exactly its own six fields, so a decoded
/// copy is field-identical and verifies exactly when the original
/// does.
#[verifier::rlimit(100)]
pub proof fn lemma_wire_roundtrip(req: StitchRequest)
    requires
        req.wf(),
        req.weak_block@.len() <= u64::MAX,
        req.tip_hashes.deep_view().len() <= u64::MAX,
        forall|i: int|
            0 <= i < req.tip_hashes.deep_view().len() ==> #[trigger] req.tip_hashes.deep_view()[i].len()
                <= u64::MAX,
    ensures
        decode_spec(req.encode_spec()) == Some(req.fields()),
{
    let data = req.encode_spec();
    let weak = req.weak_block@;
    let tips = req.tip_hashes.deep_view();
    let cnt = tips.len() as u64;
    let tail = le64(cnt) + enc_list(tips) + le64(req.reward_sompi) + le64(req.expiry)
        + req.signature@ + req.pubkey@;
    assert(data =~= Seq::<u8>::empty() + enc_chunk(weak) + tail);
    lemma_parse_chunk_of_enc(Seq::empty(), weak, tail);
    assert(Seq::<u8>::empty().len() == 0);
    let p1 = 8 + weak.len() as int;
    assert(parse_chunk(data, 0) == Some((weak, p1)));
    lemma_le64_roundtrip(cnt);
    assert(data.subrange(p1, p1 + 8) =~= le64(cnt));
    let pre2 = enc_chunk(weak) + le64(cnt);
    assert(pre2.len() == p1 + 8);
    let post2 = le64(req.reward_sompi) + le64(req.expiry) + req.signature@ + req.pubkey@;
    assert(data =~= pre2 + enc_list(tips) + post2);
    lemma_parse_list_of_enc(pre2, tips, post2);
    let p2 = (pre2.len() + enc_list(tips).len()) as int;
    assert(parse_list(data, p1 + 8, cnt as nat) == Some((tips, p2)));
    assert(p2 + 16 + SIG_LEN + PK_LEN == data.len());
    lemma_le64_roundtrip(req.reward_sompi);
    lemma_le64_roundtrip(req.expiry);
    assert(data.subrange(p2, p2 + 8) =~= le64(req.reward_sompi));
    assert(data.subrange(p2 + 8, p2 + 16) =~= le64(req.expiry));
    assert(data.subrange(p2 + 16, p2 + 16 + SIG_LEN) =~= req.signature@);
    assert(data.subrange(p2 + 16 + SIG_LEN, p2 + 16 + SIG_LEN + PK_LEN) =~= req.pubkey@);
}

/// A successful list parse yields exactly `cnt` strings, consumes at
/// least eight bytes per string, and never runs past the data.
proof fn lemma_parse_list_bounds(data: Seq<u8>, pos: int, cnt: nat)
    requires
        0 <= pos <= data.len(),
    ensures
        parse_list(data, pos, cnt) matches Some((l, end)) ==> l.len() == cnt && pos + 8 * cnt
            <= end <= data.len(),
    decreases cnt,
{
    if cnt > 0 {
        match parse_chunk(data, pos) {
            None => {},
            Some((s, p2)) => {
                lemma_parse_list_bounds(data, p2, (cnt - 1) as nat);
            },
        }
    }
}

/// Wire bytes of this request: run by the sender before broadcast.
impl StitchRequest {
    /// Serialize to wire bytes.
    pub fn encode(&self) -> (r: Vec<u8>)
        requires
            self.wf(),
        ensures
            r@ == self.encode_spec(),
    {
        let mut out = encode_canonical(
            &self.weak_block,
            &self.tip_hashes,
            self.reward_sompi,
            self.expiry,
        );
        push_bytes(&mut out, &self.signature);
        push_bytes(&mut out, &self.pubkey);
        proof {
            assert(out@ =~= self.encode_spec());
        }
        out
    }
}

/// Parse wire bytes back into a request: returns the request exactly
/// when the spec-level parse succeeds, and nothing on any malformed
/// input.
pub fn decode(data: &Vec<u8>) -> (r: Option<StitchRequest>)
    ensures
        r matches Some(req) ==> req.wf() && decode_spec(data@) == Some(req.fields()),
        r is None ==> decode_spec(data@) is None,
{
    let n = data.len();
    if n < 8 {
        return None;
    }
    let wlen64 = read_le64(data, 0);
    if wlen64 > (n - 8) as u64 {
        return None;
    }
    let wlen = wlen64 as usize;
    let weak = copy_range(data, 8, wlen);
    let p1: usize = 8 + wlen;
    proof {
        assert(parse_chunk(data@, 0) == Some((weak@, p1 as int)));
    }
    if n - p1 < 8 {
        return None;
    }
    let cnt64 = read_le64(data, p1);
    let list0: usize = p1 + 8;
    if cnt64 > ((n - list0) / 8) as u64 {
        proof {
            lemma_parse_list_bounds(data@, list0 as int, cnt64 as nat);
            vstd::arithmetic::div_mod::lemma_fundamental_div_mod((n - list0) as int, 8);
            vstd::arithmetic::div_mod::lemma_mod_division_less_than_divisor((n - list0) as int, 8);
        }
        return None;
    }
    let cnt = cnt64 as usize;
    let mut tips: Vec<Vec<u8>> = Vec::new();
    let mut pos: usize = list0;
    let mut i: usize = 0;
    while i < cnt
        invariant
            i <= cnt,
            pos <= n,
            n == data@.len(),
            tips@.len() == i,
            cnt64 == cnt as u64,
            parse_chunk(data@, 0) == Some((weak@, p1 as int)),
            p1 + 8 <= n,
            list0 == p1 + 8,
            cnt64 == le64_val(data@.subrange(p1 as int, p1 as int + 8)),
            parse_list(data@, list0 as int, cnt as nat) == (match parse_list(
                data@,
                pos as int,
                (cnt - i) as nat,
            ) {
                None => None::<(Seq<Seq<u8>>, int)>,
                Some((rest, end)) => Some((tips.deep_view() + rest, end)),
            }),
        decreases cnt - i,
    {
        if n - pos < 8 {
            proof {
                assert(parse_chunk(data@, pos as int) is None);
                assert(parse_list(data@, pos as int, (cnt - i) as nat) is None);
            }
            return None;
        }
        let tlen64 = read_le64(data, pos);
        if tlen64 > (n - (pos + 8)) as u64 {
            proof {
                assert(parse_chunk(data@, pos as int) is None);
                assert(parse_list(data@, pos as int, (cnt - i) as nat) is None);
            }
            return None;
        }
        let tlen = tlen64 as usize;
        let tip = copy_range(data, pos + 8, tlen);
        let next: usize = pos + 8 + tlen;
        proof {
            assert(parse_chunk(data@, pos as int) == Some((tip@, next as int)));
            let ghost old_tips = tips.deep_view();
            assert(forall|rest: Seq<Seq<u8>>|
                old_tips + (seq![tip@] + rest) =~= #[trigger] (old_tips.push(tip@) + rest));
        }
        let ghost prev_view = tips.deep_view();
        tips.push(tip);
        proof {
            assert(tips.deep_view() =~~= prev_view.push(tip@));
        }
        pos = next;
        i = i + 1;
    }
    proof {
        assert(parse_list(data@, pos as int, 0) == Some((Seq::<Seq<u8>>::empty(), pos as int)));
        assert(tips.deep_view() + Seq::<Seq<u8>>::empty() =~= tips.deep_view());
        assert(parse_list(data@, list0 as int, cnt as nat) == Some(
            (tips.deep_view(), pos as int),
        ));
    }
    if n - pos != 16 + SIG_LEN + PK_LEN {
        return None;
    }
    let reward = read_le64(data, pos);
    let expiry = read_le64(data, pos + 8);
    let signature = copy_range(data, pos + 16, SIG_LEN);
    let pubkey = copy_range(data, pos + 16 + SIG_LEN, PK_LEN);
    let req = StitchRequest {
        weak_block: weak,
        tip_hashes: tips,
        reward_sompi: reward,
        expiry,
        signature,
        pubkey,
    };
    proof {
        assert(decode_spec(data@) == Some(req.fields()));
    }
    Some(req)
}

/// Wrap wire bytes in a transport envelope: the reserved message-type
/// byte, then the payload.
pub fn make_envelope(req: &StitchRequest) -> (r: Vec<u8>)
    requires
        req.wf(),
    ensures
        r@ == seq![STITCH_MSG_TAG] + req.encode_spec(),
{
    let payload = req.encode();
    let mut out: Vec<u8> = Vec::new();
    out.push(STITCH_MSG_TAG);
    push_bytes(&mut out, &payload);
    proof {
        assert(out@ =~= seq![STITCH_MSG_TAG] + req.encode_spec());
    }
    out
}

/// The envelope carries a well-formed, self-verifying request over
/// exactly the given fields, signed by the holder of the given key.
pub open spec fn envelope_for(
    weak: Seq<u8>,
    tips: Seq<Seq<u8>>,
    reward: u64,
    expiry: u64,
    sk: Seq<u8>,
    env: Seq<u8>,
) -> bool {
    exists|req: StitchRequest|
        {
            &&& req.weak_block@ == weak
            &&& req.tip_hashes.deep_view() == tips
            &&& req.reward_sompi == reward
            &&& req.expiry == expiry
            &&& req.pubkey@ == secp_pubkey_of(sk)
            &&& req.wf()
            &&& req.verified_spec()
            &&& env == seq![STITCH_MSG_TAG] + #[trigger] req.encode_spec()
        }
}

/// Build, sign and frame one stitch request for the transport's
/// fire-and-forget broadcast primitive; the caller hands the returned
/// envelope bytes to every connected peer. Fails exactly when the
/// secret key bytes are unusable.
pub fn broadcast_stitch(weak: &Vec<u8>, tips: &Vec<Vec<u8>>, reward: u64, now: u64, sk: &Vec<u8>) -> (r:
    Option<Vec<u8>>)
    requires
        now + STITCH_EXPIRY_SECS <= u64::MAX,
    ensures
        r is Some <==> secp_sk_valid(sk@),
        r matches Some(env) ==> envelope_for(
            weak@,
            tips.deep_view(),
            reward,
            (now + STITCH_EXPIRY_SECS) as u64,
            sk@,
            env@,
        ),
{
    let req = match StitchRequest::new(weak, tips, reward, now, sk) {
        Some(req) => req,
        None => {
            return None;
        },
    };
    let env = make_envelope(&req);
    proof {
        assert(envelope_for(
            weak@,
            tips.deep_view(),
            reward,
            (now + STITCH_EXPIRY_SECS) as u64,
            sk@,
            env@,
        ));
    }
    Some(env)
}

/// Inbound handling of one transport envelope at the given receiver
/// time: an envelope yields a request exactly when it carries the
/// reserved tag, its payload parses, the signature checks out under
/// the embedded key, and the request has not yet expired. Anything
/// else is dropped silently.
pub fn handle_envelope(data: &Vec<u8>, now: u64) -> (r: Option<StitchRequest>)
    ensures
        r matches Some(req) ==> {
            &&& req.wf()
            &&& data@.len() >= 1
            &&& data@.first() == STITCH_MSG_TAG
            &&& decode_spec(data@.drop_first()) == Some(req.fields())
            &&& req.verified_spec()
            &&& req.expiry > now
        },
        r is None ==> {
            ||| data@.len() < 1
            ||| data@.first() != STITCH_MSG_TAG
            ||| decode_spec(data@.drop_first()) is None
            ||| (decode_spec(data@.drop_first()) matches Some(f) && (!fields_verified(f) || f.3
                <= now))
        },
{
    let n = data.len();
    if n < 1 {
        return None;
    }
    if data[0] != STITCH_MSG_TAG {
        return None;
    }
    let payload = copy_range(data, 1, n - 1);
    proof {
        assert(payload@ =~= data@.drop_first());
    }
    let req = match decode(&payload) {
        Some(req) => req,
        None => {
            return None;
        },
    };
    proof {
        assert(canon_spec(req.fields().0, req.fields().1, req.fields().2, req.fields().3)
            == req.canon());
    }
    if !req.verify() {
        return None;
    }
    if req.expiry <= now {
        return None;
    }
    Some(req)
}

/// Copy of a list of byte strings.
fn clone_tips(v: &Vec<Vec<u8>>) -> (r: Vec<Vec<u8>>)
    ensures
        r.deep_view() == v.deep_view(),
{
    let n = v.len();
    let mut out: Vec<Vec<u8>> = Vec::new();
    let mut i: usize = 0;
    while i < n
        invariant
            i <= n,
            n == v@.len(),
            out@.len() == i,
            forall|j: int| 0 <= j < i ==> out.deep_view()[j] == v.deep_view()[j],
        decreases n - i,
    {
        out.push(clone_bytes(&v[i]));
        i = i + 1;
    }
    proof {
        assert(out.deep_view() =~= v.deep_view());
    }
    out
}

/// Write the canonical signing bytes of the four signed fields.
pub fn encode_canonical(weak: &Vec<u8>, tips: &Vec<Vec<u8>>, reward: u64, expiry: u64) -> (r: Vec<
    u8,
>)
    ensures
        r@ == canon_spec(weak@, tips.deep_view(), reward, expiry),
{
    let mut out: Vec<u8> = Vec::new();
    push_le64(&mut out, weak.len() as u64);
    push_bytes(&mut out, weak);
    let n = tips.len();
    push_le64(&mut out, n as u64);
    proof {
        assert(out@ =~= enc_chunk(weak@) + le64(n as u64));
        assert(tips.deep_view().take(0) =~= Seq::<Seq<u8>>::empty());
    }
    let mut i: usize = 0;
    while i < n
        invariant
            i <= n,
            n == tips@.len(),
            tips.deep_view().len() == n,
            out@ == enc_chunk(weak@) + le64(n as u64) + enc_list(tips.deep_view().take(i as int)),
        decreases n - i,
    {
        push_le64(&mut out, tips[i].len() as u64);
        push_bytes(&mut out, &tips[i]);
        proof {
            let tv = tips.deep_view();
            assert(tips[i as int].deep_view() == tv[i as int]);
            assert(tv.take(i + 1) =~= tv.take(i as int).push(tv[i as int]));
            lemma_enc_list_push(tv.take(i as int), tv[i as int]);
            assert(out@ =~= enc_chunk(weak@) + le64(n as u64) + enc_list(tv.take(i + 1)));
        }
        i = i + 1;
    }
    push_le64(&mut out, reward);
    push_le64(&mut out, expiry);
    proof {
        assert(tips.deep_view().take(n as int) =~= tips.deep_view());
        assert(out@ =~= canon_spec(weak@, tips.deep_view(), reward, expiry));
    }
    out
}

} // verus!
