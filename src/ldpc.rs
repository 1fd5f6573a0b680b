//! The inner forward-error-correction layer: LDPC codes from labrador-ldpc,
//! wrapped around a droplet's payload.
use vstd::prelude::*;
use labrador_ldpc::LDPCCode;
use crate::droplet::Droplet;

verus! {

#[verifier::external_type_specification]
pub struct ExLDPCCode(LDPCCode);

/// Which decoding algorithm to run on a received codeword.
#[derive(Debug, Clone, Copy, PartialEq, Eq, Structural)]
pub enum DecoderType {
    /// Min-sum belief propagation on soft information made from the hard bits.
    Ms,
    /// Hard-decision bit flipping.
    Bf,
}

/// Iterations that either decoder may run.
pub const DECODE_ITERATIONS: usize = 50;

/// Bits in a codeword of `code`.
pub open spec fn code_n(code: LDPCCode) -> nat {
    match code {
        LDPCCode::TC128 => 128,
        LDPCCode::TC256 => 256,
        LDPCCode::TC512 => 512,
        LDPCCode::TM1280 => 1280,
        LDPCCode::TM1536 => 1536,
        LDPCCode::TM2048 => 2048,
        LDPCCode::TM5120 => 5120,
        LDPCCode::TM6144 => 6144,
        LDPCCode::TM8192 => 8192,
    }
}

/// Data bits that a codeword of `code` carries.
pub open spec fn code_k(code: LDPCCode) -> nat {
    match code {
        LDPCCode::TC128 => 64,
        LDPCCode::TC256 => 128,
        LDPCCode::TC512 => 256,
        LDPCCode::TM1280 => 1024,
        LDPCCode::TM1536 => 1024,
        LDPCCode::TM2048 => 1024,
        LDPCCode::TM5120 => 4096,
        LDPCCode::TM6144 => 4096,
        LDPCCode::TM8192 => 4096,
    }
}

/// Parity bits of `code` that are not sent but that the decoders recover.
pub open spec fn code_punctured(code: LDPCCode) -> nat {
    match code {
        LDPCCode::TC128 => 0,
        LDPCCode::TC256 => 0,
        LDPCCode::TC512 => 0,
        LDPCCode::TM1280 => 128,
        LDPCCode::TM1536 => 256,
        LDPCCode::TM2048 => 512,
        LDPCCode::TM5120 => 512,
        LDPCCode::TM6144 => 1024,
        LDPCCode::TM8192 => 2048,
    }
}

/// Bytes that the decoders write: the whole codeword, punctured bits included.
pub open spec fn decoded_len(code: LDPCCode) -> nat {
    (code_n(code) + code_punctured(code)) / 8
}

/// The codeword of `code` for the data bytes `data`.
pub uninterp spec fn ldpc_codeword(code: LDPCCode, data: Seq<u8>) -> Seq<u8>;

/// What bit flipping, for at most `maxiters` iterations, makes of the received bytes `input`.
pub uninterp spec fn bf_decoded(code: LDPCCode, input: Seq<u8>, maxiters: usize) -> Seq<u8>;

/// What min-sum, for at most `maxiters` iterations, makes of the log-likelihood ratios `llrs`.
pub uninterp spec fn ms_decoded(code: LDPCCode, llrs: Seq<i8>, maxiters: usize) -> Seq<u8>;

/// Hard bits as log-likelihood ratios, most significant bit of each byte first:
/// `-1` for a one bit, `+1` for a zero bit.
pub open spec fn hard_llrs(input: Seq<u8>) -> Seq<i8> {
    Seq::new(
        input.len() * 8,
        |t: int| if (input[t / 8] >> ((7 - t % 8) as u8)) & 1u8 == 1u8 { -1i8 } else { 1i8 },
    )
}

/// Relies on `LDPCCode::n`: the code length in bits.
pub assume_specification[ LDPCCode::n ](code: LDPCCode) -> (r: usize)
    ensures
        r == code_n(code),
;

/// Relies on `LDPCCode::k`: the data length in bits.
pub assume_specification[ LDPCCode::k ](code: LDPCCode) -> (r: usize)
    ensures
        r == code_k(code),
;

/// Relies on `LDPCCode::copy_encode`: with `data` of k bits and `codeword` of n
/// bits, it fills `codeword` with the codeword of `data`, whose first part is the
/// data itself.
#[verifier::external_body]
fn copy_encode_into(code: LDPCCode, data: &Vec<u8>, codeword: &mut Vec<u8>)
    requires
        data@.len() * 8 == code_k(code),
        old(codeword)@.len() * 8 == code_n(code),
    ensures
        final(codeword)@ == ldpc_codeword(code, data@),
        final(codeword)@.len() == old(codeword)@.len(),
        final(codeword)@.subrange(0, data@.len() as int) == data@,
{
    code.copy_encode(data, codeword.as_mut_slice());
}

/// Relies on `LDPCCode::decode_bf`: with `input` of n bits it writes the decoded
/// codeword into an output of `output_len()` = (n + punctured bits) / 8 bytes, using scratch space of
/// `decode_bf_working_len()` bytes, and returns that output.
#[verifier::external_body]
fn decode_bf(code: LDPCCode, input: &Vec<u8>, maxiters: usize) -> (r: Vec<u8>)
    requires
        input@.len() * 8 == code_n(code),
    ensures
        r@ == bf_decoded(code, input@, maxiters),
        r@.len() == decoded_len(code),
{
    let mut working = vec![0u8; code.decode_bf_working_len()];
    let mut output = vec![0u8; code.output_len()];
    code.decode_bf(input, &mut output, &mut working, maxiters);
    output
}

/// Relies on `LDPCCode::decode_ms`: with `llrs` of n entries it writes the decoded
/// codeword into an output of `output_len()` = (n + punctured bits) / 8 bytes, using the scratch space the
/// code asks for, and returns that output.
#[verifier::external_body]
fn decode_ms(code: LDPCCode, llrs: &Vec<i8>, maxiters: usize) -> (r: Vec<u8>)
    requires
        llrs@.len() == code_n(code),
    ensures
        r@ == ms_decoded(code, llrs@, maxiters),
        r@.len() == decoded_len(code),
{
    let mut working = vec![0i8; code.decode_ms_working_len()];
    let mut working_u8 = vec![0u8; code.decode_ms_working_u8_len()];
    let mut output = vec![0u8; code.output_len()];
    code.decode_ms(llrs, &mut output, &mut working, &mut working_u8, maxiters);
    output
}

/// Relies on `LDPCCode::hard_to_llrs`: with `input` of n bits and `llrs` of n
/// entries, it sets entry `8 * i + j` to `-1` where bit `7 - j` of byte `i` is set,
/// and to `+1` where it is clear.
#[verifier::external_body]
fn hard_to_llrs(code: LDPCCode, input: &Vec<u8>, llrs: &mut Vec<i8>)
    requires
        input@.len() * 8 == code_n(code),
        old(llrs)@.len() == code_n(code),
    ensures
        final(llrs)@ == hard_llrs(input@),
{
    code.hard_to_llrs(input, llrs.as_mut_slice());
}

/// Decodes a received droplet's payload with `code`, by the algorithm `decoder`;
/// the payload becomes the decoded codeword, whose first `k / 8` bytes are the data.
pub fn droplet_decode(droplet: &mut Droplet, code: LDPCCode, decoder: DecoderType)
    requires
        old(droplet).data@.len() * 8 == code_n(code),
    ensures
        final(droplet).droptype == old(droplet).droptype,
        final(droplet).data@ == match decoder {
            DecoderType::Bf => bf_decoded(code, old(droplet).data@, DECODE_ITERATIONS),
            DecoderType::Ms => ms_decoded(code, hard_llrs(old(droplet).data@), DECODE_ITERATIONS),
        },
        final(droplet).data@.len() == decoded_len(code),
{
    match decoder {
        DecoderType::Bf => {
            droplet.data = decode_bf(code, &droplet.data, DECODE_ITERATIONS);
        },
        DecoderType::Ms => {
            let mut llrs = vec![0i8; code.n()];
            hard_to_llrs(code, &droplet.data, &mut llrs);
            droplet.data = decode_ms(code, &llrs, DECODE_ITERATIONS);
        },
    }
}

/// Replaces a droplet's payload of `k / 8` bytes with its codeword under `code`.
pub fn droplet_encode(droplet: &mut Droplet, code: LDPCCode)
    requires
        old(droplet).data@.len() * 8 == code_k(code),
    ensures
        final(droplet).droptype == old(droplet).droptype,
        final(droplet).data@ == ldpc_codeword(code, old(droplet).data@),
        final(droplet).data@.len() * 8 == code_n(code),
        final(droplet).data@.subrange(0, old(droplet).data@.len() as int) == old(droplet).data@,
{
    let n = code.n();
    let mut txcode = vec![0u8; n / 8];
    copy_encode_into(code, &droplet.data, &mut txcode);
    droplet.data = txcode;
}

} // verus!
