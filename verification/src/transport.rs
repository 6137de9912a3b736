//! The encrypted link's own logic: the pre-shared key derived from the
//! token, the length prefix of raw Noise messages, how plaintext is cut
//! into Noise-sized pieces, and the buffer that hands decrypted plaintext
//! to readers in order.
use vstd::prelude::*;
use sha2::Digest;
use vstd::string::StringSliceAdditionalSpecFns;

verus! {

/// Noise AEAD tag size.
pub const TAG_LEN: usize = 16;
/// Largest plaintext one Noise message carries (the message limit less the tag).
pub const MAX_PLAINTEXT: usize = 65519;

/// The SHA-256 digest of `data`.
pub uninterp spec fn sha256_of(data: Seq<u8>) -> Seq<u8>;

/// `sha2::Sha256::digest`: the 32-byte SHA-256 digest of `data`; nothing
/// is claimed of the digest beyond its being this function of the bytes.
#[verifier::external_body]
fn sha256(data: &[u8]) -> (digest: [u8; 32])
    ensures
        digest@ == sha256_of(data@),
{
    let out = sha2::Sha256::digest(data);
    let mut digest = [0u8; 32];
    digest.copy_from_slice(&out);
    digest
}

/// What the key is derived from: a fixed label, then the token's bytes (an
/// absent token counts as empty).
pub open spec fn psk_input(token: Option<&str>) -> Seq<u8> {
    "archon-noise:".spec_bytes() + match token {
        Some(t) => t.spec_bytes(),
        None => Seq::empty(),
    }
}

fn push_bytes(out: &mut Vec<u8>, bytes: &[u8])
    ensures
        final(out)@ == old(out)@ + bytes@,
{
    let ghost before = out@;
    let mut i: usize = 0;
    while i < bytes.len()
        invariant
            i <= bytes@.len(),
            out@ == before + bytes@.take(i as int),
        decreases bytes@.len() - i,
    {
        out.push(bytes[i]);
        i = i + 1;
        assert(out@ =~= before + bytes@.take(i as int));
    }
    assert(bytes@.take(i as int) =~= bytes@);
}

/// The Noise pre-shared key for a link token: SHA-256 of the label and the
/// token. An absent token gives the public key of the open mode.
pub fn psk_for(token: Option<&str>) -> (psk: [u8; 32])
    ensures
        psk@ == sha256_of(psk_input(token)),
{
    let mut input: Vec<u8> = Vec::new();
    let label = "archon-noise:".as_bytes();
    push_bytes(&mut input, label);
    match token {
        Some(t) => push_bytes(&mut input, t.as_bytes()),
        None => {},
    }
    assert(input@ =~= psk_input(token));
    sha256(input.as_slice())
}

// ---------------------------------------------------------------------------
// Raw Noise messages: a big-endian u16 length, then the message.

pub open spec fn be16(n: int) -> Seq<u8> {
    seq![(n / 256) as u8, (n % 256) as u8]
}

/// The length prefix of a raw message; messages over 65535 bytes cannot be
/// framed.
pub fn raw_frame_header(len: usize) -> (r: Result<[u8; 2], String>)
    ensures
        len > 65535 ==> (r matches Err(e) && e@ == "handshake message too large"@),
        len <= 65535 ==> (r matches Ok(h) && h@ == be16(len as int)),
{
    if len > 65535 {
        return Err(String::from_str("handshake message too large"));
    }
    let hi = (len / 256) as u8;
    let lo = (len % 256) as u8;
    let header: [u8; 2] = [hi, lo];
    assert(header@ =~= be16(len as int));
    Ok(header)
}

/// The message length a raw frame's prefix announces.
pub fn raw_frame_len(header: [u8; 2]) -> (len: usize)
    ensures
        len == header@[0] as int * 256 + header@[1] as int,
{
    header[0] as usize * 256 + header[1] as usize
}

/// A framed length reads back as itself.
pub proof fn lemma_raw_frame_roundtrip(len: int)
    requires
        0 <= len <= 65535,
    ensures
        be16(len)[0] as int * 256 + be16(len)[1] as int == len,
{
}

// ---------------------------------------------------------------------------
// Cutting plaintext into Noise messages.

/// The `[start, end)` ranges `data.chunks(MAX_PLAINTEXT)` yields for `len`
/// bytes: consecutive, each full but the last.
pub open spec fn chunk_ranges(len: nat) -> Seq<(int, int)>
    decreases len,
{
    if len == 0 {
        Seq::empty()
    } else if len <= MAX_PLAINTEXT {
        seq![(0, len as int)]
    } else {
        let rest = chunk_ranges((len - MAX_PLAINTEXT) as nat);
        seq![(0int, MAX_PLAINTEXT as int)] + rest.map_values(|r: (int, int)| (r.0 + MAX_PLAINTEXT, r.1 + MAX_PLAINTEXT))
    }
}

/// The pieces of `len` bytes of plaintext, each one Noise message.
pub fn plaintext_chunks(len: usize) -> (ranges: Vec<(usize, usize)>)
    ensures
        ranges@.len() == chunk_ranges(len as nat).len(),
        forall|i: int| 0 <= i < ranges@.len() ==> (#[trigger] ranges@[i]).0 as int == chunk_ranges(len as nat)[i].0
            && ranges@[i].1 as int == chunk_ranges(len as nat)[i].1,
        forall|i: int| 0 <= i < ranges@.len() ==> (#[trigger] ranges@[i]).0 < ranges@[i].1 <= len
            && ranges@[i].1 - ranges@[i].0 <= MAX_PLAINTEXT,
        forall|i: int| 0 <= i < ranges@.len() ==> (#[trigger] ranges@[i]).0 == i * MAX_PLAINTEXT,
        len > 0 ==> ranges@.len() > 0 && ranges@.last().1 == len,
        len == 0 ==> ranges@.len() == 0,
{
    let mut ranges: Vec<(usize, usize)> = Vec::new();
    let mut start: usize = 0;
    let mut k: usize = 0;
    while start < len
        invariant
            start <= len,
            start == k * MAX_PLAINTEXT || start == len,
            ranges@.len() == k,
            forall|i: int| 0 <= i < k ==> (#[trigger] ranges@[i]).0 == i * MAX_PLAINTEXT
                && ranges@[i].1 == (if (i + 1) * MAX_PLAINTEXT <= len { (i + 1) * MAX_PLAINTEXT } else { len as int }),
            forall|i: int| 0 <= i < k ==> (#[trigger] ranges@[i]).0 < ranges@[i].1 <= len,
            k > 0 ==> ranges@[k - 1].1 == start,
            k == 0 ==> start == 0,
        decreases len - start,
    {
        let end: usize = if len - start > MAX_PLAINTEXT { start + MAX_PLAINTEXT } else { len };
        ranges.push((start, end));
        proof {
            assert((k + 1) * MAX_PLAINTEXT == k * MAX_PLAINTEXT + MAX_PLAINTEXT) by (nonlinear_arith);
        }
        start = end;
        k = k + 1;
    }
    proof {
        lemma_chunk_ranges(len as nat);
        if len > 0 {
            let m = MAX_PLAINTEXT as int;
            let kk = k as int;
            assert(ranges@[kk - 1].0 == (kk - 1) * m);
            assert((kk - 1) * m < len as int <= kk * m);
            assert((len as int - 1) / m == kk - 1) by (nonlinear_arith)
                requires (kk - 1) * m <= len as int - 1, len as int - 1 < kk * m, m > 0;
        }
    }
    ranges
}

/// The shape of `chunk_ranges`: range `i` starts at `i` full messages and
/// ends one message later, or at the end.
proof fn lemma_chunk_ranges(len: nat)
    ensures
        chunk_ranges(len).len() == (if len == 0 { 0 } else { (len - 1) / (MAX_PLAINTEXT as int) + 1 }),
        forall|i: int| 0 <= i < chunk_ranges(len).len() ==> (#[trigger] chunk_ranges(len)[i]).0 == i * MAX_PLAINTEXT
            && chunk_ranges(len)[i].1 == (if (i + 1) * MAX_PLAINTEXT <= len { (i + 1) * MAX_PLAINTEXT } else { len as int }),
    decreases len,
{
    if len > MAX_PLAINTEXT {
        let rest_len = (len - MAX_PLAINTEXT) as nat;
        lemma_chunk_ranges(rest_len);
        let rest = chunk_ranges(rest_len);
        assert((len - 1) / (MAX_PLAINTEXT as int) == (rest_len - 1) / (MAX_PLAINTEXT as int) + 1) by (nonlinear_arith)
            requires rest_len == len - MAX_PLAINTEXT, rest_len > 0;
        assert forall|i: int| 0 <= i < chunk_ranges(len).len() implies (#[trigger] chunk_ranges(len)[i]).0 == i * MAX_PLAINTEXT
            && chunk_ranges(len)[i].1 == (if (i + 1) * MAX_PLAINTEXT <= len { (i + 1) * MAX_PLAINTEXT } else { len as int }) by {
            if i > 0 {
                assert(chunk_ranges(len)[i] == (rest[i - 1].0 + MAX_PLAINTEXT, rest[i - 1].1 + MAX_PLAINTEXT));
                assert((i - 1) * MAX_PLAINTEXT + MAX_PLAINTEXT == i * MAX_PLAINTEXT) by (nonlinear_arith);
                assert(i * MAX_PLAINTEXT + MAX_PLAINTEXT == (i + 1) * MAX_PLAINTEXT) by (nonlinear_arith);
            }
        }
    } else if len > 0 {
        assert((len - 1) / (MAX_PLAINTEXT as int) == 0) by (nonlinear_arith)
            requires 0 < len <= MAX_PLAINTEXT;
    }
}

// ---------------------------------------------------------------------------
// Decrypted plaintext waiting for readers.

/// Plaintext decrypted from the link and not yet read.
pub struct Pending {
    bytes: Vec<u8>,
}

impl Pending {
    pub closed spec fn view(self) -> Seq<u8> {
        self.bytes@
    }

    pub fn new() -> (p: Pending)
        ensures
            p.view() == Seq::<u8>::empty(),
    {
        Pending { bytes: Vec::new() }
    }

    pub fn is_empty(&self) -> (r: bool)
        ensures
            r == (self.view().len() == 0),
    {
        self.bytes.len() == 0
    }

    /// Queue one decrypted message behind what is waiting.
    pub fn fill(&mut self, plaintext: &[u8])
        ensures
            final(self).view() == old(self).view() + plaintext@,
    {
        let ghost before = self.bytes@;
        let mut i: usize = 0;
        while i < plaintext.len()
            invariant
                i <= plaintext@.len(),
                self.bytes@ == before + plaintext@.take(i as int),
            decreases plaintext@.len() - i,
        {
            self.bytes.push(plaintext[i]);
            i = i + 1;
            assert(self.bytes@ =~= before + plaintext@.take(i as int));
        }
        assert(plaintext@.take(i as int) =~= plaintext@);
    }

    /// Hand out up to `max` waiting bytes, oldest first.
    pub fn take(&mut self, max: usize) -> (out: Vec<u8>)
        ensures
            out@.len() == (if old(self).view().len() < max { old(self).view().len() } else { max as nat }),
            old(self).view() == out@ + final(self).view(),
    {
        let n: usize = if self.bytes.len() < max { self.bytes.len() } else { max };
        let mut out: Vec<u8> = Vec::new();
        let mut rest: Vec<u8> = Vec::new();
        let mut i: usize = 0;
        while i < self.bytes.len()
            invariant
                n <= self.bytes@.len(),
                i <= self.bytes@.len(),
                i <= n ==> out@ == self.bytes@.take(i as int) && rest@.len() == 0,
                i > n ==> out@ == self.bytes@.take(n as int) && rest@ == self.bytes@.subrange(n as int, i as int),
            decreases self.bytes@.len() - i,
        {
            if i < n {
                out.push(self.bytes[i]);
            } else {
                rest.push(self.bytes[i]);
            }
            i = i + 1;
            assert(i <= n ==> out@ =~= self.bytes@.take(i as int));
            assert(i > n ==> rest@ =~= self.bytes@.subrange(n as int, i as int));
        }
        let ghost all = self.bytes@;
        proof {
            if i <= n {
                assert(rest@ =~= all.subrange(n as int, i as int));
            }
            assert(all =~= all.take(n as int) + all.subrange(n as int, all.len() as int));
        }
        self.bytes = rest;
        out
    }
}

/// Reading never reorders or loses plaintext: bytes queued by two fills and
/// read back by two takes come out as queued.
pub proof fn lemma_pending_fifo(first: Seq<u8>, second: Seq<u8>, out1: Seq<u8>, mid: Seq<u8>, out2: Seq<u8>, rest: Seq<u8>)
    requires
        first + second == out1 + mid,
        mid == out2 + rest,
    ensures
        first + second == out1 + out2 + rest,
{
    assert(out1 + mid =~= out1 + out2 + rest);
}

} // verus!
