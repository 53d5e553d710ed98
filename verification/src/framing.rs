//! Wire framing: NUL-terminated UTF-8 text.
//!
//! An outbound message is written as its UTF-8 bytes followed by one `0x00`
//! byte.  Inbound bytes arrive in arbitrary chunks; the stream is cut at
//! every `0x00` into *segments*, and the bytes after the last `0x00` of a
//! chunk are carried over to the next read, so a message split across two
//! reads is reassembled and two messages coalesced into one read are both
//! recovered.  A completed segment is surfaced as a message unless it is
//! empty padding or the reserved heartbeat token `"ping"`.

use vstd::prelude::*;

verus! {

use vstd::string::StrSliceExecFns;
use vstd::string::StringSliceAdditionalSpecFns;
use vstd::utf8::decode_utf8;
use vstd::utf8::encode_utf8;
use vstd::utf8::valid_utf8;

/// The reserved liveness-probe token `"ping"`, as its UTF-8 bytes.
pub open spec fn heartbeat_bytes() -> Seq<u8> {
    seq![112u8, 105u8, 110u8, 103u8]
}

/// The wire form of one message: its payload bytes, then one NUL terminator.
pub open spec fn frame_bytes(payload: Seq<u8>) -> Seq<u8> {
    payload.push(0u8)
}

/// True when no byte of `b` is the NUL delimiter.
pub open spec fn nul_free(b: Seq<u8>) -> bool {
    forall|i: int| 0 <= i < b.len() ==> b[i] != 0u8
}

/// The completed (NUL-terminated) segments of the stream `b`, scanned left to
/// right, given that `cur` holds the bytes of the current segment read so far.
pub open spec fn scan_segments(b: Seq<u8>, cur: Seq<u8>) -> Seq<Seq<u8>>
    decreases b.len(),
{
    if b.len() == 0 {
        seq![]
    } else if b[0] == 0u8 {
        seq![cur] + scan_segments(b.drop_first(), seq![])
    } else {
        scan_segments(b.drop_first(), cur.push(b[0]))
    }
}

/// The bytes of `b` after its last NUL (all of `cur + b` when it has none):
/// the incomplete segment that must wait for the next read.
pub open spec fn scan_carry(b: Seq<u8>, cur: Seq<u8>) -> Seq<u8>
    decreases b.len(),
{
    if b.len() == 0 {
        cur
    } else if b[0] == 0u8 {
        scan_carry(b.drop_first(), seq![])
    } else {
        scan_carry(b.drop_first(), cur.push(b[0]))
    }
}

/// A completed segment is surfaced as a message only if it is neither empty
/// padding nor the heartbeat token.
pub open spec fn is_payload_segment(m: Seq<u8>) -> bool {
    m.len() > 0 && m != heartbeat_bytes()
}

/// The segments of `segs` that are surfaced as messages, in order.
pub open spec fn payload_segments(segs: Seq<Seq<u8>>) -> Seq<Seq<u8>>
    decreases segs.len(),
{
    if segs.len() == 0 {
        seq![]
    } else if is_payload_segment(segs[0]) {
        seq![segs[0]] + payload_segments(segs.drop_first())
    } else {
        payload_segments(segs.drop_first())
    }
}

/// True when every segment is a valid UTF-8 encoding.
pub open spec fn all_valid_utf8(segs: Seq<Seq<u8>>) -> bool {
    forall|i: int| 0 <= i < segs.len() ==> valid_utf8(#[trigger] segs[i])
}

/// The texts of the given segments, each decoded from UTF-8.
pub open spec fn decoded_texts(segs: Seq<Seq<u8>>) -> Seq<Seq<char>> {
    segs.map_values(|m: Seq<u8>| decode_utf8(m))
}

/// The views of a sequence of byte vectors.
pub open spec fn bytes_view(s: Seq<Vec<u8>>) -> Seq<Seq<u8>> {
    s.map_values(|v: Vec<u8>| v@)
}

/// The views of a sequence of strings.
pub open spec fn texts_view(s: Seq<String>) -> Seq<Seq<char>> {
    s.map_values(|t: String| t@)
}

/// The wire image of a whole sequence of messages: their frames, one after
/// the other.
pub open spec fn concat_frames(msgs: Seq<Seq<u8>>) -> Seq<u8>
    decreases msgs.len(),
{
    if msgs.len() == 0 {
        seq![]
    } else {
        frame_bytes(msgs[0]) + concat_frames(msgs.drop_first())
    }
}

/// Scanning past a NUL-free prefix only grows the current segment.
proof fn lemma_scan_nul_free_prefix(m: Seq<u8>, b: Seq<u8>, cur: Seq<u8>)
    requires
        nul_free(m),
    ensures
        scan_segments(m + b, cur) == scan_segments(b, cur + m),
        scan_carry(m + b, cur) == scan_carry(b, cur + m),
    decreases m.len(),
{
    if m.len() == 0 {
        assert(m + b =~= b);
        assert(cur + m =~= cur);
    } else {
        assert((m + b)[0] == m[0]);
        assert((m + b).drop_first() =~= m.drop_first() + b);
        lemma_scan_nul_free_prefix(m.drop_first(), b, cur.push(m[0]));
        assert(cur.push(m[0]) + m.drop_first() =~= cur + m);
    }
}

/// Scanning a stream in two chunks, carrying the incomplete tail from the
/// first into the second, cuts exactly the segments of the whole stream:
/// buffering across reads loses nothing and merges nothing.
pub proof fn lemma_scan_append(b1: Seq<u8>, b2: Seq<u8>, cur: Seq<u8>)
    ensures
        scan_segments(b1 + b2, cur) == scan_segments(b1, cur) + scan_segments(
            b2,
            scan_carry(b1, cur),
        ),
        scan_carry(b1 + b2, cur) == scan_carry(b2, scan_carry(b1, cur)),
    decreases b1.len(),
{
    if b1.len() == 0 {
        assert(b1 + b2 =~= b2);
        assert(scan_segments(b1, cur) + scan_segments(b2, scan_carry(b1, cur)) =~= scan_segments(
            b2,
            cur,
        ));
    } else {
        assert((b1 + b2)[0] == b1[0]);
        assert((b1 + b2).drop_first() =~= b1.drop_first() + b2);
        if b1[0] == 0u8 {
            lemma_scan_append(b1.drop_first(), b2, seq![]);
            assert(seq![cur] + (scan_segments(b1.drop_first(), seq![]) + scan_segments(
                b2,
                scan_carry(b1.drop_first(), seq![]),
            )) =~= (seq![cur] + scan_segments(b1.drop_first(), seq![])) + scan_segments(
                b2,
                scan_carry(b1.drop_first(), seq![]),
            ));
        } else {
            lemma_scan_append(b1.drop_first(), b2, cur.push(b1[0]));
        }
    }
}

/// Framing round trip: the wire image of NUL-free messages scans back to
/// exactly those messages, in order, with nothing left over — two messages
/// coalesced into one read are both recovered, never merged or dropped.
pub proof fn lemma_framing_round_trip(msgs: Seq<Seq<u8>>)
    requires
        forall|i: int| 0 <= i < msgs.len() ==> nul_free(#[trigger] msgs[i]),
    ensures
        scan_segments(concat_frames(msgs), seq![]) == msgs,
        scan_carry(concat_frames(msgs), seq![]) == Seq::<u8>::empty(),
    decreases msgs.len(),
{
    if msgs.len() == 0 {
        assert(scan_segments(concat_frames(msgs), seq![]) =~= msgs);
    } else {
        let m = msgs[0];
        let rest = concat_frames(msgs.drop_first());
        assert(concat_frames(msgs) =~= m + (seq![0u8] + rest));
        lemma_scan_nul_free_prefix(m, seq![0u8] + rest, seq![]);
        assert(Seq::<u8>::empty() + m =~= m);
        assert((seq![0u8] + rest)[0] == 0u8);
        assert((seq![0u8] + rest).drop_first() =~= rest);
        lemma_framing_round_trip(msgs.drop_first());
        assert(seq![m] + scan_segments(rest, seq![]) =~= msgs);
    }
}

/// Every segment that `payload_segments` keeps is a payload: non-empty and
/// not the heartbeat token.
pub proof fn lemma_payload_segments_are_payloads(segs: Seq<Seq<u8>>)
    ensures
        forall|i: int|
            0 <= i < payload_segments(segs).len() ==> is_payload_segment(
                #[trigger] payload_segments(segs)[i],
            ),
    decreases segs.len(),
{
    if segs.len() == 0 {
    } else {
        let rest = payload_segments(segs.drop_first());
        lemma_payload_segments_are_payloads(segs.drop_first());
        if is_payload_segment(segs[0]) {
            assert forall|i: int| 0 <= i < payload_segments(segs).len() implies is_payload_segment(
                #[trigger] payload_segments(segs)[i],
            ) by {
                if i == 0 {
                    assert(payload_segments(segs)[0] == segs[0]);
                } else {
                    assert(payload_segments(segs)[i] == rest[i - 1]);
                }
            }
        }
    }
}

/// The heartbeat token's bytes are the UTF-8 encoding of the text `"ping"`.
pub proof fn lemma_ping_encoding()
    ensures
        encode_utf8("ping"@) == heartbeat_bytes(),
        "ping"@.len() == 4,
{
    reveal_strlit("ping");
    assert(vstd::utf8::is_ascii_chars("ping"@));
    vstd::utf8::is_ascii_chars_encode_utf8("ping"@);
    assert(encode_utf8("ping"@) =~= heartbeat_bytes());
}

/// Encodes one outbound message for the wire: its UTF-8 bytes followed by a
/// single NUL terminator.
pub fn encode_frame(msg: &str) -> (r: Vec<u8>)
    ensures
        r@ == frame_bytes(encode_utf8(msg@)),
{
    let mut v = msg.as_bytes_vec();
    v.push(0u8);
    v
}

/// Cuts `chunk` at every NUL delimiter, continuing a segment whose first
/// `carry` bytes arrived in earlier reads: returns the completed segments and
/// the new carry, the bytes after the last NUL.
pub fn split_stream(carry: &Vec<u8>, chunk: &Vec<u8>) -> (r: (Vec<Vec<u8>>, Vec<u8>))
    requires
        nul_free(carry@),
    ensures
        bytes_view(r.0@) == scan_segments(chunk@, carry@),
        r.1@ == scan_carry(chunk@, carry@),
        nul_free(r.1@),
{
    let mut segs: Vec<Vec<u8>> = Vec::new();
    let mut cur: Vec<u8> = vstd::slice::slice_to_vec(carry.as_slice());
    let mut i: usize = 0;
    proof {
        assert(chunk@.skip(0) =~= chunk@);
        assert(bytes_view(segs@) =~= Seq::<Seq<u8>>::empty());
        assert(Seq::<Seq<u8>>::empty() + scan_segments(chunk@, cur@) =~= scan_segments(
            chunk@,
            cur@,
        ));
    }
    while i < chunk.len()
        invariant
            0 <= i <= chunk.len(),
            nul_free(cur@),
            scan_segments(chunk@, carry@) == bytes_view(segs@) + scan_segments(
                chunk@.skip(i as int),
                cur@,
            ),
            scan_carry(chunk@, carry@) == scan_carry(chunk@.skip(i as int), cur@),
        decreases chunk.len() - i,
    {
        let ghost rest = chunk@.skip(i as int);
        proof {
            assert(rest[0] == chunk@[i as int]);
            assert(rest.drop_first() =~= chunk@.skip(i as int + 1));
        }
        let b = chunk[i];
        if b == 0u8 {
            let done = cur;
            cur = Vec::new();
            segs.push(done);
            proof {
                assert(bytes_view(segs@) =~= bytes_view(segs@.drop_last()).push(done@));
                assert(bytes_view(segs@.drop_last()) + (seq![done@] + scan_segments(
                    chunk@.skip(i as int + 1),
                    cur@,
                )) =~= bytes_view(segs@) + scan_segments(chunk@.skip(i as int + 1), cur@));
            }
        } else {
            cur.push(b);
        }
        i = i + 1;
    }
    proof {
        assert(chunk@.skip(chunk@.len() as int) =~= Seq::<u8>::empty());
        assert(bytes_view(segs@) + scan_segments(Seq::<u8>::empty(), cur@) =~= bytes_view(segs@));
    }
    (segs, cur)
}

/// True exactly when the segment is the heartbeat token `"ping"`.
pub fn is_heartbeat(seg: &Vec<u8>) -> (b: bool)
    ensures
        b == (seg@ == heartbeat_bytes()),
{
    if seg.len() == 4 {
        let b = seg[0] == 112u8 && seg[1] == 105u8 && seg[2] == 110u8 && seg[3] == 103u8;
        proof {
            if b {
                assert(seg@ =~= heartbeat_bytes());
            }
        }
        b
    } else {
        false
    }
}

/// Keeps the segments that are surfaced as messages: the ones that are
/// neither empty padding nor the heartbeat token, in order.
pub fn filter_payload(segs: Vec<Vec<u8>>) -> (r: Vec<Vec<u8>>)
    ensures
        bytes_view(r@) == payload_segments(bytes_view(segs@)),
{
    let mut segs = segs;
    let mut kept: Vec<Vec<u8>> = Vec::new();
    let ghost all = bytes_view(segs@);
    while segs.len() > 0
        invariant
            payload_segments(all) == bytes_view(kept@) + payload_segments(bytes_view(segs@)),
        decreases segs.len(),
    {
        let ghost before = bytes_view(segs@);
        let seg = segs.remove(0);
        proof {
            assert(before[0] == seg@);
            assert(before.drop_first() =~= bytes_view(segs@));
        }
        if seg.len() > 0 && !is_heartbeat(&seg) {
            kept.push(seg);
            proof {
                assert(bytes_view(kept@) =~= bytes_view(kept@.drop_last()) + seq![seg@]);
                assert(bytes_view(kept@.drop_last()) + (seq![seg@] + payload_segments(
                    bytes_view(segs@),
                )) =~= bytes_view(kept@) + payload_segments(bytes_view(segs@)));
            }
        }
    }
    proof {
        assert(bytes_view(segs@) =~= Seq::<Seq<u8>>::empty());
        assert(bytes_view(kept@) + payload_segments(Seq::<Seq<u8>>::empty()) =~= bytes_view(
            kept@,
        ));
    }
    kept
}

/// Decodes every segment from UTF-8, or reports the protocol violation when
/// any of them is not valid UTF-8.
pub fn decode_all(msgs: &Vec<Vec<u8>>) -> (r: Option<Vec<String>>)
    ensures
        match r {
            Some(out) => all_valid_utf8(bytes_view(msgs@)) && texts_view(out@) == decoded_texts(
                bytes_view(msgs@),
            ),
            None => !all_valid_utf8(bytes_view(msgs@)),
        },
{
    let ghost all = bytes_view(msgs@);
    let mut out: Vec<String> = Vec::new();
    let mut i: usize = 0;
    while i < msgs.len()
        invariant
            0 <= i <= msgs@.len(),
            all == bytes_view(msgs@),
            all.len() == msgs@.len(),
            out@.len() == i,
            forall|j: int| 0 <= j < i ==> valid_utf8(#[trigger] all[j]),
            forall|j: int| 0 <= j < i ==> texts_view(out@)[j] == #[trigger] decoded_texts(all)[j],
        decreases msgs@.len() - i,
    {
        proof {
            assert(msgs@[i as int]@ == all[i as int]);
        }
        match utf8_to_string(&msgs[i]) {
            Some(t) => {
                let ghost out0 = out@;
                out.push(t);
                proof {
                    assert(out@ == out0.push(t));
                    assert forall|j: int| 0 <= j < i as int + 1 implies texts_view(out@)[j]
                        == #[trigger] decoded_texts(all)[j] by {
                        if j < i as int {
                            assert(out0.push(t)[j] == out0[j]);
                            assert(texts_view(out0)[j] == decoded_texts(all)[j]);
                        } else {
                            assert(out0.push(t)[j] == t);
                        }
                    }
                }
                i = i + 1;
            },
            None => {
                proof {
                    assert(!valid_utf8(all[i as int]));
                    assert(!all_valid_utf8(all));
                }
                return None;
            },
        }
    }
    proof {
        assert(texts_view(out@) =~= decoded_texts(all));
    }
    Some(out)
}

/// Relies on `String::from_utf8`: it succeeds exactly when the bytes are a
/// valid UTF-8 encoding, and then returns those bytes decoded; vstd's
/// `valid_utf8` and `decode_utf8` define that encoding.
#[verifier::external_body]
pub(crate) fn utf8_to_string(bytes: &Vec<u8>) -> (r: Option<String>)
    ensures
        match r {
            Some(s) => valid_utf8(bytes@) && s@ == decode_utf8(bytes@),
            None => !valid_utf8(bytes@),
        },
{
    String::from_utf8(bytes.clone()).ok()
}

} // verus!
