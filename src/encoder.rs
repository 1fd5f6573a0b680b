//! The Luby-Transform encoder: an unbounded stream of droplets over a message.
use vstd::prelude::*;
use labrador_ldpc::LDPCCode;
use rand::rngs::StdRng;
use crate::decoder::{assemble, chunk_count, Decoder, droplet_indices, droplet_matches, lemma_chunk_of_byte, lemma_xor_of_single};
use crate::droplet::{DropType, Droplet};
use crate::ldpc::{code_k, code_n, droplet_encode, ldpc_codeword};
use crate::sampling::{draw_u64, entropy_rng, get_sample_from_rng_by_seed};
use crate::soliton::{ideal_outcome, Soliton};
use crate::xor::{bxor, chunks_sized, lemma_bxor_comm, lemma_bxor_zero, lemma_xor_of_push, xor_of, zeros};

verus! {

/// Chunk `i` of `data` in chunks of `b` bytes, the last one padded with zeros.
pub open spec fn source_chunk(data: Seq<u8>, b: nat, i: int) -> Seq<u8> {
    Seq::new(b, |j: int| if i * b + j < data.len() { data[i * b + j] } else { 0u8 })
}

/// All chunks of `data`.
pub open spec fn source_chunks(data: Seq<u8>, b: nat) -> Seq<Seq<u8>> {
    Seq::new(chunk_count(data.len(), b), |i: int| source_chunk(data, b, i))
}

/// The payload that a droplet of selector `dt` carries over the chunks `c`.
pub open spec fn payload_of(dt: DropType, c: Seq<Seq<u8>>, k: usize, b: nat) -> Seq<u8> {
    xor_of(c, droplet_indices(dt, k), b)
}

/// How the encoder picks droplets.
#[derive(Debug, Clone, Copy)]
pub enum EncoderType {
    /// The first k symbols of a systematic Encoder correspond to the first k source symbols.
    /// In case there is no loss, no repair needed. The source symbols are sent in two
    /// passes (2k droplets); after that it continues like in the Random case.
    Systematic,
    /// Begins immediately with random encoding.
    /// This may be a better choice when used with high-loss channels.
    Random,
    /// Systematic encoder, but wrapping droplets in LDPC codes of chosen byte size
    SysLdpc(LDPCCode, u32),
    /// Random encoding but wrapping droplets in LDPC codes of chosen byte size
    RandLdpc(LDPCCode, u32),
}

/// The LDPC code of a mode, if it has one, takes a whole chunk as its data.
pub open spec fn code_fits(t: EncoderType, blocksize: nat) -> bool {
    match t {
        EncoderType::SysLdpc(code, _) => blocksize * 8 == code_k(code),
        EncoderType::RandLdpc(code, _) => blocksize * 8 == code_k(code),
        _ => true,
    }
}

/// What one step of the encoder does: `pre` becomes `post` and hands out `r`.
/// The counter steps by one; systematic modes send chunk `cnt % k` as it is and
/// turn random after two passes over the chunks; random modes send the XOR of
/// the chunks a fresh seed names, with a degree the ideal soliton gives for some
/// draw; LDPC modes send the codeword of that payload.
pub open spec fn drop_post(pre: Encoder, post: Encoder, r: Droplet) -> bool {
    &&& post.wf()
    &&& post.spec_data() == pre.spec_data()
    &&& post.spec_blocksize() == pre.spec_blocksize()
    &&& post.spec_cnt_blocks() == pre.spec_cnt_blocks()
    &&& post.spec_cnt() == if pre.spec_cnt() < usize::MAX { pre.spec_cnt() + 1 } else { pre.spec_cnt() as int }
    &&& {
        let c = source_chunks(pre.spec_data(), pre.spec_blocksize());
        let k = pre.spec_cnt_blocks();
        let b = pre.spec_blocksize();
        let i = (pre.spec_cnt() % k) as usize;
        let last_pass = pre.spec_cnt() + 2 > 2 * k;
        match pre.spec_type() {
            EncoderType::Systematic => {
                &&& r.droptype == DropType::Edges(i)
                &&& r.data@ == c[i as int]
                &&& droplet_matches(r.droptype, r.data@, c, k, b)
                &&& post.spec_type() == if last_pass {
                    EncoderType::Random
                } else {
                    EncoderType::Systematic
                }
            },
            EncoderType::Random => {
                &&& r.droptype is Seeded
                &&& 1 <= r.droptype->Seeded_1 <= k
                &&& ideal_outcome(k as nat, r.droptype->Seeded_1)
                &&& r.data@ == payload_of(r.droptype, c, k, b)
                &&& droplet_matches(r.droptype, r.data@, c, k, b)
                &&& post.spec_type() == pre.spec_type()
            },
            EncoderType::SysLdpc(code, session) => {
                &&& r.droptype == DropType::Edges(i)
                &&& r.data@ == ldpc_codeword(code, c[i as int])
                &&& r.data@.len() * 8 == code_n(code)
                &&& post.spec_type() == if last_pass {
                    EncoderType::RandLdpc(code, session)
                } else {
                    EncoderType::SysLdpc(code, session)
                }
            },
            EncoderType::RandLdpc(code, _) => {
                &&& r.droptype is Seeded
                &&& 1 <= r.droptype->Seeded_1 <= k
                &&& ideal_outcome(k as nat, r.droptype->Seeded_1)
                &&& r.data@ == ldpc_codeword(code, payload_of(r.droptype, c, k, b))
                &&& r.data@.len() * 8 == code_n(code)
                &&& post.spec_type() == pre.spec_type()
            },
        }
    }
}

/// Encoder for Luby Transform codes.
///
/// In case you send the packages over UDP, the blocksize should be
/// the MTU size.
///
/// There are two encoding modes, Systematic and Random.  The
/// Systematic encoder first produces a set of the source
/// symbols. After each symbol is sent twice, it switches to Random.
pub struct Encoder {
    data: Vec<u8>,
    len: usize,
    blocksize: usize,
    rng: StdRng,
    cnt_blocks: usize,
    sol: Soliton,
    /// Droplets made so far.
    pub cnt: usize,
    encodertype: EncoderType,
}

impl Encoder {
    pub closed spec fn spec_data(&self) -> Seq<u8> {
        self.data@
    }

    pub closed spec fn spec_blocksize(&self) -> nat {
        self.blocksize as nat
    }

    pub closed spec fn spec_cnt_blocks(&self) -> usize {
        self.cnt_blocks
    }

    pub closed spec fn spec_cnt(&self) -> usize {
        self.cnt
    }

    pub closed spec fn spec_type(&self) -> EncoderType {
        self.encodertype
    }

    pub closed spec fn wf(&self) -> bool {
        &&& self.len == self.data@.len()
        &&& 0 < self.len
        &&& 0 < self.blocksize
        &&& self.len + self.blocksize <= usize::MAX
        &&& self.cnt_blocks == chunk_count(self.len as nat, self.blocksize as nat)
        &&& self.sol.chunks() == self.cnt_blocks
        &&& code_fits(self.encodertype, self.blocksize as nat)
    }

    /// An encoder of `data` in chunks of `blocksize` bytes whose degrees follow
    /// the ideal soliton distribution.
    pub fn ideal(data: Vec<u8>, blocksize: usize, encodertype: EncoderType) -> (r: Self)
        requires
            0 < data@.len(),
            0 < blocksize,
            data@.len() + blocksize <= usize::MAX,
            code_fits(encodertype, blocksize as nat),
        ensures
            r.wf(),
            r.spec_data() == data@,
            r.spec_blocksize() == blocksize,
            r.spec_cnt_blocks() == chunk_count(data@.len(), blocksize as nat),
            r.spec_type() == encodertype,
            r.spec_cnt() == 0,
    {
        let rng = entropy_rng();
        let len = data.len();
        let cnt_blocks = (len + blocksize - 1) / blocksize;
        proof {
            lemma_chunk_of_byte(len as nat, blocksize as nat, 0);
        }
        let sol = Soliton::ideal(cnt_blocks);
        Encoder { data, len, blocksize, rng, cnt_blocks, sol, cnt: 0, encodertype }
    }

    /// The next droplet. Systematic modes send chunk `cnt % k` as it is, and turn
    /// random after two passes over the chunks; random modes send the XOR of
    /// chunks drawn from a fresh seed. LDPC modes then encode the payload.
    pub fn drop(&mut self) -> (r: Droplet)
        requires
            old(self).wf(),
        ensures
            drop_post(*old(self), *final(self), r),
    {
        let ghost c = source_chunks(self.data@, self.blocksize as nat);
        let k = self.cnt_blocks;
        let ghost b = self.blocksize as nat;
        proof {
            lemma_chunk_of_byte(self.len as nat, b, 0);
            assert(chunks_sized(c, b));
        }
        let i = self.cnt % k;
        let last_pass = self.cnt >= k && self.cnt - k >= k - 1;
        let drop = match self.encodertype {
            EncoderType::Random => self.random_droplet(),
            EncoderType::Systematic => {
                if last_pass {
                    self.encodertype = EncoderType::Random;
                }
                self.chunk_droplet(i)
            },
            EncoderType::SysLdpc(code, session) => {
                if last_pass {
                    self.encodertype = EncoderType::RandLdpc(code, session);
                }
                let mut drop = self.chunk_droplet(i);
                droplet_encode(&mut drop, code);
                drop
            },
            EncoderType::RandLdpc(code, _) => {
                let mut drop = self.random_droplet();
                droplet_encode(&mut drop, code);
                drop
            },
        };
        if self.cnt < usize::MAX {
            self.cnt = self.cnt + 1;
        }
        drop
    }

    /// The next droplet; the stream never ends.
    pub fn next(&mut self) -> (r: Option<Droplet>)
        requires
            old(self).wf(),
        ensures
            r is Some,
            drop_post(*old(self), *final(self), r->Some_0),
    {
        Some(self.drop())
    }

    /// The shape of a well-formed encoder: a non-empty message in chunks of a
    /// positive size, at least one of them.
    pub proof fn lemma_shape(&self)
        requires
            self.wf(),
        ensures
            self.spec_data().len() > 0,
            self.spec_blocksize() > 0,
            self.spec_cnt_blocks() == chunk_count(self.spec_data().len(), self.spec_blocksize()),
            self.spec_cnt_blocks() >= 1,
            self.spec_data().len() + self.spec_blocksize() <= usize::MAX,
    {
        lemma_chunk_of_byte(self.len as nat, self.blocksize as nat, 0);
    }

    /// Chunk `i` as it is, named by its index.
    fn chunk_droplet(&self, i: usize) -> (r: Droplet)
        requires
            self.wf(),
            i < self.cnt_blocks,
        ensures
            r.droptype == DropType::Edges(i),
            r.data@ == source_chunks(self.data@, self.blocksize as nat)[i as int],
            droplet_matches(
                r.droptype,
                r.data@,
                source_chunks(self.data@, self.blocksize as nat),
                self.cnt_blocks,
                self.blocksize as nat,
            ),
    {
        let ghost c = source_chunks(self.data@, self.blocksize as nat);
        let ghost b = self.blocksize as nat;
        let mut r = vec![0u8; self.blocksize];
        proof {
            assert(r@ =~= zeros(b));
        }
        xor_chunk(&mut r, &self.data, i, self.blocksize);
        proof {
            lemma_bxor_comm(zeros(b), c[i as int]);
            lemma_bxor_zero(c[i as int]);
            lemma_xor_of_single(c, i, b);
            assert(r@.take(b as int) =~= r@);
        }
        Droplet::new(DropType::Edges(i), r)
    }

    /// The XOR of a degree's worth of chunks drawn from a fresh seed.
    fn random_droplet(&mut self) -> (r: Droplet)
        requires
            old(self).wf(),
        ensures
            final(self).wf(),
            final(self).data == old(self).data,
            final(self).blocksize == old(self).blocksize,
            final(self).cnt_blocks == old(self).cnt_blocks,
            final(self).cnt == old(self).cnt,
            final(self).encodertype == old(self).encodertype,
            r.droptype is Seeded,
            1 <= r.droptype->Seeded_1 <= old(self).cnt_blocks,
            ideal_outcome(old(self).cnt_blocks as nat, r.droptype->Seeded_1),
            r.data@ == payload_of(
                r.droptype,
                source_chunks(old(self).data@, old(self).blocksize as nat),
                old(self).cnt_blocks,
                old(self).blocksize as nat,
            ),
            droplet_matches(
                r.droptype,
                r.data@,
                source_chunks(old(self).data@, old(self).blocksize as nat),
                old(self).cnt_blocks,
                old(self).blocksize as nat,
            ),
    {
        let ghost c = source_chunks(self.data@, self.blocksize as nat);
        let ghost b = self.blocksize as nat;
        proof {
            lemma_chunk_of_byte(self.len as nat, b, 0);
        }
        let degree = self.sol.sample(&mut self.rng);
        let seed = draw_u64(&mut self.rng);
        let sample = get_sample_from_rng_by_seed(seed, self.cnt_blocks, degree);
        let mut r = vec![0u8; self.blocksize];
        proof {
            assert(r@ =~= zeros(b));
            assert(sample@.take(0) =~= Seq::<usize>::empty());
        }
        let mut t: usize = 0;
        while t < sample.len()
            invariant
                self.wf(),
                b == self.blocksize,
                c == source_chunks(self.data@, b),
                t <= sample@.len(),
                forall|j: int| 0 <= j < sample@.len() ==> #[trigger] sample@[j] < self.cnt_blocks,
                r@ == xor_of(c, sample@.take(t as int), b),
                r@.len() == b,
            decreases sample@.len() - t,
        {
            xor_chunk(&mut r, &self.data, sample[t], self.blocksize);
            proof {
                assert(sample@.take(t as int).push(sample@[t as int]) =~= sample@.take(t + 1));
                lemma_xor_of_push(c, sample@.take(t as int), sample@[t as int], b);
            }
            t = t + 1;
        }
        proof {
            assert(sample@.take(sample@.len() as int) =~= sample@);
            assert(r@.take(b as int) =~= r@);
        }
        Droplet::new(DropType::Seeded(seed, degree), r)
    }
}

/// Laying the chunks of `data` out again, cut to its length, gives back `data`.
pub proof fn lemma_source_chunks_assemble(data: Seq<u8>, b: nat)
    requires
        0 < b,
    ensures
        assemble(source_chunks(data, b), b, data.len()) == data,
{
    let c = source_chunks(data, b);
    assert forall|p: int| 0 <= p < data.len() implies #[trigger] assemble(c, b, data.len())[p] == data[p] by {
        lemma_chunk_of_byte(data.len(), b, p as nat);
        let bi = b as int;
        vstd::arithmetic::div_mod::lemma_fundamental_div_mod(p, bi);
        vstd::arithmetic::mul::lemma_mul_is_commutative(bi, p / bi);
        assert((p / bi) * bi + p % bi == p);
    }
    assert(assemble(c, b, data.len()) =~= data);
}

/// Lossless round trip: a decoder for a message of `data.len()` bytes that agrees
/// with the chunks of `data` (as it does when it starts, and keeps doing while it
/// catches droplets of an encoder of `data`) and has resolved every chunk holds
/// exactly `data`, which is what `catch` then reports as finished.
pub proof fn lemma_round_trip(dec: Decoder, data: Seq<u8>)
    requires
        dec.wf(),
        dec.spec_total_length() == data.len(),
        dec.consistent(source_chunks(data, dec.spec_blocksize())),
        forall|i: int| 0 <= i < dec.spec_cnt_chunks() ==> #[trigger] dec.known_view()[i],
    ensures
        assemble(dec.chunks_view(), dec.spec_blocksize(), dec.spec_total_length()) == data,
{
    dec.lemma_shape();
    dec.lemma_complete_holds(source_chunks(data, dec.spec_blocksize()));
    lemma_source_chunks_assemble(data, dec.spec_blocksize());
}

/// `r` takes the XOR of itself with chunk `i` of `data` (chunks of `b` bytes, the
/// last one padded with zeros).
fn xor_chunk(r: &mut Vec<u8>, data: &Vec<u8>, i: usize, b: usize)
    requires
        0 < b,
        old(r)@.len() == b,
        i < chunk_count(data@.len(), b as nat),
        data@.len() + b <= usize::MAX,
    ensures
        final(r)@ == bxor(old(r)@, source_chunk(data@, b as nat, i as int)),
{
    let ghost k = chunk_count(data@.len(), b as nat);
    proof {
        lemma_chunk_bytes_fit(data@.len(), b as nat, i as nat);
    }
    let begin = i * b;
    let len = data.len();
    let mut j: usize = 0;
    while j < b
        invariant
            r@.len() == b,
            j <= b,
            begin == i * b,
            begin + b <= usize::MAX,
            len == data@.len(),
            forall|t: int| 0 <= t < j ==> r@[t] == old(r)@[t] ^ source_chunk(data@, b as nat, i as int)[t],
            forall|t: int| j <= t < b ==> r@[t] == old(r)@[t],
        decreases b - j,
    {
        if begin + j < len {
            let v = r[j] ^ data[begin + j];
            r[j] = v;
        } else {
            let ghost x = r@[j as int];
            proof {
                crate::xor::lemma_u8_xor(x, 0, 0);
            }
        }
        j = j + 1;
    }
    assert(r@ =~= bxor(old(r)@, source_chunk(data@, b as nat, i as int)));
}

/// The bytes of chunk `i` lie within `usize`.
proof fn lemma_chunk_bytes_fit(len: nat, b: nat, i: nat)
    requires
        0 < b,
        i < chunk_count(len, b),
        len + b <= usize::MAX,
    ensures
        i * b + b <= usize::MAX,
{
    let k = chunk_count(len, b) as int;
    let bi = b as int;
    vstd::arithmetic::div_mod::lemma_fundamental_div_mod((len + b - 1) as int, bi);
    let r1 = (len + b - 1) as int % bi;
    assert(bi * k + r1 == len + b - 1);
    assert(i * bi + bi <= k * bi) by (nonlinear_arith)
        requires
            i < k,
            bi > 0,
    ;
    vstd::arithmetic::mul::lemma_mul_is_commutative(bi, k);
}

} // verus!
