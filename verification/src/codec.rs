//! The chunked compression codec.
//!
//! An encoded stream is a concatenation of self-describing frames
//! `| flag(1) | length(2 LE) | payload(length) |`. Flag 0 marks a raw
//! payload, flag 1 a gzip-compressed one; each frame is produced from one
//! chunk of the input, and a chunk whose compressed form would be larger
//! than the chunk itself is stored raw.

use vstd::arithmetic::div_mod::lemma_fundamental_div_mod;
use vstd::prelude::*;

verus! {

/// Failure modes of a single encode or decode call.
#[derive(Clone, Copy, Debug, PartialEq, Eq, Structural)]
pub enum CodecError {
    /// A frame header or payload extends past the end of the input.
    TruncatedFrame,
    /// A frame flag other than 0 (raw) or 1 (compressed).
    UnknownFlag,
    /// A compressed payload too long for the 16-bit length field; the
    /// encoder's chunk-size bound keeps this from ever being emitted.
    OverlongCompressedFrame,
    /// The underlying compressor or decompressor rejected its input.
    UnderlyingCompressorFailure,
}

/// What flate2's gzip decoder returns on bytes it accepts; the result is
/// a function of the input bytes alone.
pub uninterp spec fn gunzip_of(b: Seq<u8>) -> Seq<u8>;

/// Whether flate2's gzip decoder accepts the bytes at all.
pub uninterp spec fn gunzip_ok(b: Seq<u8>) -> bool;

/// Relies on flate2's `write::GzEncoder` at the fast level: the encoded
/// bytes are valid gzip and decode back to the chunk through flate2's
/// `read::GzDecoder`. The encoder reports an error only when the writer
/// it wraps does, and a `Vec` sink never does, so the call always
/// succeeds.
#[verifier::external_body]
fn deflate_chunk(chunk: &Vec<u8>) -> (r: Result<Vec<u8>, CodecError>)
    ensures
        r is Ok,
        r matches Ok(c) ==> gunzip_ok(c@) && gunzip_of(c@) == chunk@,
{
    let mut enc = flate2::write::GzEncoder::new(Vec::new(), flate2::Compression::fast());
    if std::io::Write::write_all(&mut enc, chunk.as_slice()).is_err() {
        return Err(CodecError::UnderlyingCompressorFailure);
    }
    match enc.finish() {
        Ok(v) => Ok(v),
        Err(_) => Err(CodecError::UnderlyingCompressorFailure),
    }
}

/// Relies on flate2's `read::GzDecoder`: it succeeds exactly on the bytes
/// the gzip format accepts, and the result depends on the input alone.
#[verifier::external_body]
fn inflate_chunk(chunk: &Vec<u8>) -> (r: Result<Vec<u8>, CodecError>)
    ensures
        r is Ok <==> gunzip_ok(chunk@),
        r matches Ok(d) ==> d@ == gunzip_of(chunk@),
        r matches Err(e) ==> e == CodecError::UnderlyingCompressorFailure,
{
    let mut out = Vec::new();
    let mut dec = flate2::read::GzDecoder::new(chunk.as_slice());
    match std::io::Read::read_to_end(&mut dec, &mut out) {
        Ok(_) => Ok(out),
        Err(_) => Err(CodecError::UnderlyingCompressorFailure),
    }
}

/// A byte-for-byte copy.
pub fn clone_bytes(v: &Vec<u8>) -> (r: Vec<u8>)
    ensures
        r@ == v@,
{
    let n = v.len();
    let mut r: Vec<u8> = Vec::new();
    let mut i: usize = 0;
    while i < n
        invariant
            i <= n,
            n == v@.len(),
            r@ == v@.take(i as int),
        decreases n - i,
    {
        r.push(v[i]);
        proof {
            assert(r@ =~= v@.take(i + 1 as int));
        }
        i += 1;
    }
    proof {
        assert(v@.take(n as int) =~= v@);
    }
    r
}

/// A 16-bit little-endian value from its two bytes.
pub open spec fn u16_le(lo: u8, hi: u8) -> int {
    lo + 256 * hi
}

/// The meaning of an encoded stream, decoded frame by frame from the
/// left; the first malformed frame decides the error.
pub open spec fn decode_result(input: Seq<u8>) -> Result<Seq<u8>, CodecError>
    decreases input.len(),
{
    if input.len() == 0 {
        Ok(Seq::empty())
    } else if input.len() < 3 {
        Err(CodecError::TruncatedFrame)
    } else {
        let len = u16_le(input[1], input[2]);
        if 3 + len > input.len() {
            Err(CodecError::TruncatedFrame)
        } else {
            let payload = input.subrange(3, 3 + len);
            if input[0] == 0 {
                match decode_result(input.skip(3 + len)) {
                    Ok(rest) => Ok(payload + rest),
                    Err(e) => Err(e),
                }
            } else if input[0] == 1 {
                if gunzip_ok(payload) {
                    match decode_result(input.skip(3 + len)) {
                        Ok(rest) => Ok(gunzip_of(payload) + rest),
                        Err(e) => Err(e),
                    }
                } else {
                    Err(CodecError::UnderlyingCompressorFailure)
                }
            } else {
                Err(CodecError::UnknownFlag)
            }
        }
    }
}

/// The bytes an encoded stream decodes to, when it decodes at all.
pub open spec fn decode_spec(input: Seq<u8>) -> Option<Seq<u8>> {
    match decode_result(input) {
        Ok(d) => Some(d),
        Err(_) => None,
    }
}

/// The payload length of each frame of the stream, in order, for streams
/// whose frame headers all lie within bounds.
pub open spec fn frame_lens(input: Seq<u8>) -> Option<Seq<int>>
    decreases input.len(),
{
    if input.len() == 0 {
        Some(Seq::empty())
    } else if input.len() < 3 {
        None
    } else {
        let len = u16_le(input[1], input[2]);
        if 3 + len > input.len() {
            None
        } else {
            match frame_lens(input.skip(3 + len)) {
                Some(rest) => Some(seq![len] + rest),
                None => None,
            }
        }
    }
}

/// The decoded value of each frame of the stream, in order, for
/// streams the decoder accepts: the payload itself for a raw frame,
/// its gzip decoding for a compressed one.
pub open spec fn frame_values(input: Seq<u8>) -> Option<Seq<Seq<u8>>>
    decreases input.len(),
{
    if input.len() == 0 {
        Some(Seq::empty())
    } else if input.len() < 3 {
        None
    } else {
        let len = u16_le(input[1], input[2]);
        if 3 + len > input.len() {
            None
        } else {
            let payload = input.subrange(3, 3 + len);
            if input[0] == 0 || (input[0] == 1 && gunzip_ok(payload)) {
                let v = if input[0] == 0 {
                    payload
                } else {
                    gunzip_of(payload)
                };
                match frame_values(input.skip(3 + len)) {
                    Some(rest) => Some(seq![v] + rest),
                    None => None,
                }
            } else {
                None
            }
        }
    }
}

/// The `j`-th chunk of `s` at chunk size `c`: a full `c`-byte slice,
/// or whatever is left of `s` at the end.
pub open spec fn chunk_of(s: Seq<u8>, c: int, j: int) -> Seq<u8> {
    s.subrange(
        j * c,
        if (j + 1) * c <= s.len() {
            (j + 1) * c
        } else {
            s.len() as int
        },
    )
}

/// The sum of a sequence of payload lengths.
pub open spec fn sum_lens(ls: Seq<int>) -> int
    decreases ls.len(),
{
    if ls.len() == 0 {
        0
    } else {
        ls[0] + sum_lens(ls.skip(1))
    }
}

/// A single well-formed frame: a 3-byte header followed by exactly the
/// announced payload, with a known flag and a decodable payload.
pub open spec fn frame_wf(f: Seq<u8>) -> bool {
    &&& f.len() >= 3
    &&& u16_le(f[1], f[2]) == f.len() - 3
    &&& (f[0] == 0 || (f[0] == 1 && gunzip_ok(f.subrange(3, f.len() as int))))
}

/// What a single well-formed frame contributes to the decoded output.
pub open spec fn frame_value(f: Seq<u8>) -> Seq<u8> {
    if f[0] == 0 {
        f.subrange(3, f.len() as int)
    } else {
        gunzip_of(f.subrange(3, f.len() as int))
    }
}

/// Appending one well-formed frame to a decodable stream extends the
/// decoded bytes by the frame's value, the frame list by its length,
/// and the value list by its value.
proof fn lemma_append_frame(e: Seq<u8>, f: Seq<u8>)
    requires
        decode_result(e) is Ok,
        frame_lens(e) is Some,
        frame_values(e) is Some,
        frame_wf(f),
    ensures
        decode_result(e + f) == Ok::<Seq<u8>, CodecError>(decode_result(e)->Ok_0 + frame_value(f)),
        frame_lens(e + f) == Some(frame_lens(e)->Some_0.push(f.len() - 3)),
        frame_values(e + f) == Some(frame_values(e)->Some_0.push(frame_value(f))),
    decreases e.len(),
{
    if e.len() == 0 {
        assert(e + f =~= f);
        let len = u16_le(f[1], f[2]);
        assert(f.subrange(3, 3 + len) =~= f.subrange(3, f.len() as int));
        assert(f.skip(3 + len) =~= Seq::<u8>::empty());
        assert(decode_result(Seq::<u8>::empty()) == Ok::<Seq<u8>, CodecError>(Seq::<u8>::empty()));
        assert(frame_lens(Seq::<u8>::empty()) == Some(Seq::<int>::empty()));
        assert(frame_values(Seq::<u8>::empty()) == Some(Seq::<Seq<u8>>::empty()));
        assert(decode_result(f) == Ok::<Seq<u8>, CodecError>(frame_value(f) + Seq::<u8>::empty()));
        assert(frame_value(f) + Seq::<u8>::empty() =~= frame_value(f));
        assert(decode_result(e)->Ok_0 + frame_value(f) =~= frame_value(f));
        assert(frame_lens(f) == Some(seq![len] + Seq::<int>::empty()));
        assert(seq![len] + Seq::<int>::empty() =~= frame_lens(e)->Some_0.push(f.len() - 3));
        assert(frame_values(f) == Some(seq![frame_value(f)] + Seq::<Seq<u8>>::empty()));
        assert(seq![frame_value(f)] + Seq::<Seq<u8>>::empty() =~= frame_values(
            e,
        )->Some_0.push(frame_value(f)));
    } else {
        let len0 = u16_le(e[1], e[2]);
        let g = e + f;
        assert(g[0] == e[0] && g[1] == e[1] && g[2] == e[2]);
        assert(3 + len0 <= e.len());
        assert(g.subrange(3, 3 + len0) =~= e.subrange(3, 3 + len0));
        assert(g.skip(3 + len0) =~= e.skip(3 + len0) + f);
        lemma_append_frame(e.skip(3 + len0), f);
        let payload = e.subrange(3, 3 + len0);
        let head = if e[0] == 0 {
            payload
        } else {
            gunzip_of(payload)
        };
        let rest = decode_result(e.skip(3 + len0))->Ok_0;
        assert(head + (rest + frame_value(f)) =~= (head + rest) + frame_value(f));
        let rls = frame_lens(e.skip(3 + len0))->Some_0;
        assert(seq![len0] + rls.push(f.len() - 3) =~= (seq![len0] + rls).push(f.len() - 3));
        let rvs = frame_values(e.skip(3 + len0))->Some_0;
        assert(seq![head] + rvs.push(frame_value(f)) =~= (seq![head] + rvs).push(frame_value(f)));
    }
}

/// A stream the decoder accepts is a concatenation of frames whose
/// payload lengths, plus one 3-byte header each, sum to its total length.
pub proof fn lemma_frame_structure(input: Seq<u8>)
    requires
        decode_result(input) is Ok,
    ensures
        frame_lens(input) is Some,
        input.len() == sum_lens(frame_lens(input)->Some_0) + 3 * frame_lens(input)->Some_0.len(),
    decreases input.len(),
{
    if input.len() == 0 {
    } else {
        let len = u16_le(input[1], input[2]);
        lemma_frame_structure(input.skip(3 + len));
        let ls = frame_lens(input)->Some_0;
        let rls = frame_lens(input.skip(3 + len))->Some_0;
        assert(ls == seq![len] + rls);
        assert(ls.len() >= 1);
        assert(ls[0] == len);
        assert(ls.skip(1) =~= rls);
        assert(sum_lens(ls) == len + sum_lens(rls));
    }
}

/// Chunk boundary aligned with the input length: an input whose
/// length is a positive multiple of the chunk size splits into exactly
/// `len / c` chunks of exactly `c` bytes each, so the encoder's
/// per-chunk clauses give that many frames, each decoding to a full
/// chunk and none to a short or empty tail.
pub proof fn lemma_aligned_chunks(s: Seq<u8>, c: int)
    requires
        c > 0,
        s.len() as int % c == 0,
    ensures
        (s.len() + c - 1) / c == s.len() as int / c,
        forall|j: int| 0 <= j < s.len() as int / c ==> (#[trigger] chunk_of(s, c, j)).len() == c,
{
    let n = s.len() as int;
    let q = n / c;
    lemma_fundamental_div_mod(n, c);
    assert(n == c * q);
    assert(q >= 0 && (n + c - 1) / c == q) by (nonlinear_arith)
        requires
            c > 0,
            n >= 0,
            n == c * q,
    ;
    assert forall|j: int| 0 <= j < q implies (#[trigger] chunk_of(s, c, j)).len() == c by {
        assert(0 <= j * c && j * c + c == (j + 1) * c && (j + 1) * c <= n) by (nonlinear_arith)
            requires
                c > 0,
                n == c * q,
                0 <= j < q,
        ;
    }
}

/// The ceiling count of chunks steps by one per full or final chunk.
#[verifier::rlimit(100)]
proof fn lemma_ceil_step(pos: int, d: int, c: int)
    by (nonlinear_arith)
    requires
        c > 0,
        pos % c == 0,
        0 < d <= c,
    ensures
        (pos + c - 1) / c == pos / c,
        (pos + d + c - 1) / c == pos / c + 1,
        (pos + c) % c == 0,
{
}

/// The chunked compressor. It frames input into chunks of `chunk_size`
/// bytes and emits one raw-or-compressed frame per chunk.
pub struct BlockManager {
    chunk_size: usize,
}

impl BlockManager {
    /// The configured chunk size.
    pub closed spec fn spec_chunk_size(&self) -> int {
        self.chunk_size as int
    }

    /// The chunk size is positive, a multiple of 64, and small enough
    /// that every payload length fits the 16-bit frame header.
    pub open spec fn wf(&self) -> bool {
        0 < self.spec_chunk_size() <= 0xFC00 && self.spec_chunk_size() % 64 == 0
    }

    pub fn new() -> (r: Self)
        ensures
            r.wf(),
            r.spec_chunk_size() == 0xFC00,
    {
        BlockManager { chunk_size: 0x10000 - 0x400 }
    }

    pub fn with_capacity(chunk_size: usize) -> (r: Self)
        requires
            0 < chunk_size <= 0xFC00,
            chunk_size as int % 64 == 0,
        ensures
            r.wf(),
            r.spec_chunk_size() == chunk_size,
    {
        BlockManager { chunk_size }
    }

    /// Encode the input. The call always succeeds; the output decodes
    /// back to exactly the input, and consists of one frame per chunk
    /// of the configured size, in order — frame `j` decodes to exactly
    /// chunk `j` of the input — each payload no longer than a chunk.
    #[verifier::rlimit(50)]
    pub fn compress_all(&self, input: &Vec<u8>) -> (r: Result<Vec<u8>, CodecError>)
        requires
            self.wf(),
        ensures
            r is Ok,
            r matches Ok(out) ==> decode_result(out@) == Ok::<Seq<u8>, CodecError>(input@),
            r matches Ok(out) ==> (frame_lens(out@) matches Some(ls)
                && ls.len() == (input@.len() + self.spec_chunk_size() - 1) / self.spec_chunk_size()
                && (forall|j: int| 0 <= j < ls.len() ==> #[trigger] ls[j] <= self.spec_chunk_size())),
            r matches Ok(out) ==> (frame_values(out@) matches Some(vs)
                && vs.len() == (input@.len() + self.spec_chunk_size() - 1) / self.spec_chunk_size()
                && (forall|j: int|
                    0 <= j < vs.len() ==> #[trigger] vs[j] == chunk_of(
                        input@,
                        self.spec_chunk_size(),
                        j,
                    ))),
    {
        let c = self.chunk_size;
        let n = input.len();
        let mut out: Vec<u8> = Vec::new();
        let mut pos: usize = 0;
        proof {
            assert(input@.subrange(0, 0) =~= Seq::<u8>::empty());
            assert(decode_result(Seq::<u8>::empty()) == Ok::<Seq<u8>, CodecError>(
                Seq::<u8>::empty(),
            ));
            assert(frame_lens(Seq::<u8>::empty()) == Some(Seq::<int>::empty()));
            assert(frame_values(Seq::<u8>::empty()) == Some(Seq::<Seq<u8>>::empty()));
            assert((c as int - 1) / c as int == 0) by (nonlinear_arith)
                requires 0 < c,
            ;
        }
        while pos < n
            invariant
                0 < c <= 0xFC00,
                n == input@.len(),
                pos <= n,
                pos as int % c as int == 0 || pos == n,
                decode_result(out@) == Ok::<Seq<u8>, CodecError>(input@.subrange(0, pos as int)),
                frame_lens(out@) matches Some(ls)
                    && ls.len() == (pos + c - 1) as int / c as int
                    && (forall|j: int| 0 <= j < ls.len() ==> #[trigger] ls[j] <= c),
                frame_values(out@) matches Some(vs)
                    && vs.len() == (pos + c - 1) as int / c as int
                    && (forall|j: int|
                        0 <= j < vs.len() ==> #[trigger] vs[j] == chunk_of(input@, c as int, j)),
            decreases n - pos,
        {
            let end = if n - pos > c {
                pos + c
            } else {
                n
            };
            let mut chunk: Vec<u8> = Vec::new();
            let mut j = pos;
            while j < end
                invariant
                    pos <= j <= end <= n,
                    n == input@.len(),
                    chunk@ == input@.subrange(pos as int, j as int),
                decreases end - j,
            {
                chunk.push(input[j]);
                proof {
                    assert(chunk@ =~= input@.subrange(pos as int, j + 1 as int));
                }
                j += 1;
            }
            let comp = match deflate_chunk(&chunk) {
                Ok(v) => v,
                Err(e) => {
                    proof {
                        assert(false);
                    }
                    return Err(e);
                },
            };
            let raw_len = chunk.len();
            let comp_len = comp.len();
            let ghost old_out = out@;
            let ghost old_ls = frame_lens(old_out)->Some_0;
            let ghost old_vs = frame_values(old_out)->Some_0;
            if comp_len > raw_len {
                out.push(0u8);
                out.push((raw_len % 256) as u8);
                out.push((raw_len / 256) as u8);
                out.extend_from_slice(chunk.as_slice());
                proof {
                    let f = seq![0u8, (raw_len % 256) as u8, (raw_len / 256) as u8] + chunk@;
                    assert(out@ =~= old_out + f);
                    lemma_fundamental_div_mod(raw_len as int, 256);
                    assert(u16_le(f[1], f[2]) == raw_len);
                    assert(f.subrange(3, f.len() as int) =~= chunk@);
                    assert(frame_wf(f));
                    assert(frame_value(f) == chunk@);
                    lemma_append_frame(old_out, f);
                }
            } else {
                out.push(1u8);
                out.push((comp_len % 256) as u8);
                out.push((comp_len / 256) as u8);
                out.extend_from_slice(comp.as_slice());
                proof {
                    let f = seq![1u8, (comp_len % 256) as u8, (comp_len / 256) as u8] + comp@;
                    assert(out@ =~= old_out + f);
                    lemma_fundamental_div_mod(comp_len as int, 256);
                    assert(u16_le(f[1], f[2]) == comp_len);
                    assert(f.subrange(3, f.len() as int) =~= comp@);
                    assert(frame_wf(f));
                    assert(frame_value(f) == gunzip_of(comp@));
                    assert(frame_value(f) == chunk@);
                    lemma_append_frame(old_out, f);
                }
            }
            proof {
                assert(input@.subrange(0, pos as int) + input@.subrange(pos as int, end as int)
                    =~= input@.subrange(0, end as int));
                lemma_ceil_step(pos as int, end - pos, c as int);
                let ls = frame_lens(out@)->Some_0;
                assert(ls == old_ls.push(if comp_len > raw_len {
                    raw_len as int
                } else {
                    comp_len as int
                }));
                assert(forall|j: int| 0 <= j < ls.len() ==> #[trigger] ls[j] <= c);
                let ci = c as int;
                let k = pos as int / ci;
                lemma_fundamental_div_mod(pos as int, ci);
                assert(pos as int == ci * k);
                assert(k * ci == pos as int && (k + 1) * ci == pos as int + ci)
                    by (nonlinear_arith)
                    requires pos as int == ci * k,
                ;
                assert(chunk_of(input@, ci, k) =~= input@.subrange(pos as int, end as int));
                let vs = frame_values(out@)->Some_0;
                assert(vs == old_vs.push(chunk@));
                assert(old_vs.len() == k);
                assert forall|j: int| 0 <= j < vs.len() implies #[trigger] vs[j] == chunk_of(
                    input@,
                    ci,
                    j,
                ) by {
                    if j < k {
                        assert(vs[j] == old_vs[j]);
                    } else {
                        assert(vs[j] == chunk@);
                    }
                }
            }
            pos = end;
        }
        proof {
            assert(input@.subrange(0, n as int) =~= input@);
        }
        Ok(out)
    }

    /// Decode an encoded stream. The result is exactly what the frame
    /// grammar assigns to the input; `original_size` only pre-sizes the
    /// output buffer.
    pub fn decompress_all(&self, input: &Vec<u8>, original_size: usize) -> (r: Result<
        Vec<u8>,
        CodecError,
    >)
        ensures
            r matches Ok(v) ==> decode_result(input@) == Ok::<Seq<u8>, CodecError>(v@),
            r matches Err(e) ==> decode_result(input@) == Err::<Seq<u8>, CodecError>(e),
    {
        let n = input.len();
        let mut out: Vec<u8> = Vec::with_capacity(original_size);
        let mut i: usize = 0;
        proof {
            assert(input@.skip(0) =~= input@);
            assert(Seq::<u8>::empty() + decode_result(input@)->Ok_0 =~= decode_result(
                input@,
            )->Ok_0);
        }
        while i < n
            invariant
                i <= n,
                n == input@.len(),
                (match decode_result(input@.skip(i as int)) {
                    Ok(d) => decode_result(input@) == Ok::<Seq<u8>, CodecError>(out@ + d),
                    Err(e) => decode_result(input@) == Err::<Seq<u8>, CodecError>(e),
                }),
            decreases n - i,
        {
            let ghost tail = input@.skip(i as int);
            proof {
                assert(tail.len() == n - i);
                assert(forall|k: int| 0 <= k < tail.len() ==> tail[k] == input@[i + k]);
            }
            if n - i < 3 {
                return Err(CodecError::TruncatedFrame);
            }
            let flag = input[i];
            let len: usize = (input[i + 1] as usize) + 256 * (input[i + 2] as usize);
            proof {
                assert(tail[0] == input@[i as int] && tail[1] == input@[i + 1] && tail[2]
                    == input@[i + 2]);
                assert(u16_le(tail[1], tail[2]) == len);
            }
            if len > n - i - 3 {
                proof {
                    assert(3 + len > tail.len());
                }
                return Err(CodecError::TruncatedFrame);
            }
            let start = i + 3;
            let stop = start + len;
            let mut payload: Vec<u8> = Vec::new();
            let mut j = start;
            while j < stop
                invariant
                    start <= j <= stop <= n,
                    n == input@.len(),
                    payload@ == input@.subrange(start as int, j as int),
                decreases stop - j,
            {
                payload.push(input[j]);
                proof {
                    assert(payload@ =~= input@.subrange(start as int, j + 1 as int));
                }
                j += 1;
            }
            proof {
                assert(payload@ =~= tail.subrange(3, 3 + len));
                assert(input@.skip(stop as int) =~= tail.skip(3 + len));
            }
            if flag == 0 {
                let ghost old_out = out@;
                out.extend_from_slice(payload.as_slice());
                proof {
                    if decode_result(input@.skip(stop as int)) is Ok {
                        let d = decode_result(input@.skip(stop as int))->Ok_0;
                        assert(out@ + d =~= old_out + (payload@ + d));
                    }
                }
            } else if flag == 1 {
                let dec = match inflate_chunk(&payload) {
                    Ok(v) => v,
                    Err(e) => {
                        return Err(e);
                    },
                };
                let ghost old_out = out@;
                out.extend_from_slice(dec.as_slice());
                proof {
                    if decode_result(input@.skip(stop as int)) is Ok {
                        let d = decode_result(input@.skip(stop as int))->Ok_0;
                        assert(out@ + d =~= old_out + (dec@ + d));
                    }
                }
            } else {
                return Err(CodecError::UnknownFlag);
            }
            i = stop;
        }
        proof {
            assert(input@.skip(n as int) =~= Seq::<u8>::empty());
            assert(out@ + Seq::<u8>::empty() =~= out@);
        }
        Ok(out)
    }
}

} // verus!
