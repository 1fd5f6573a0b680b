use fountaincode::decoder::{CatchResult, Decoder};
use fountaincode::encoder::{Encoder, EncoderType};
use fountaincode::ldpc::{droplet_decode, DecoderType};
use labrador_ldpc::LDPCCode;
use rand::{thread_rng, Rng};

/// A text-like message of `len` bytes.
fn sample_message(len: usize) -> Vec<u8> {
    (0..len).map(|i| b"the quick brown fox jumps over the lazy dog\n"[i % 44]).collect()
}

fn corrupt(data: &mut Vec<u8>) {
    data[2] ^= 1 << 7 | 1 << 5 | 1 << 3;
    data[7] ^= 1 << 7 | 1 << 5 | 1 << 3;
    data[8] ^= 1 << 7 | 1 << 5 | 1 << 3;
    data[3] ^= 1 << 7 | 1 << 5 | 1 << 3;
}

fn enc_dec_helper(chunk_len: usize, loss: f64, enc_type: EncoderType, buf: Vec<u8>, decoder_type: DecoderType) {
    let length = buf.len();
    let buf_org = buf.clone();
    let mut enc = Encoder::ideal(buf, chunk_len, enc_type);
    let mut dec = Decoder::new(length, chunk_len);
    let mut loss_rng = thread_rng();
    loop {
        let mut drop = enc.next().unwrap();
        if loss_rng.gen::<f64>() > loss {
            droplet_decode(&mut drop, LDPCCode::TM1280, decoder_type);
        } else {
            if loss_rng.gen::<f64>() > 0.5 {
                continue;
            }
            corrupt(&mut drop.data);
            droplet_decode(&mut drop, LDPCCode::TM1280, decoder_type);
        }
        match dec.catch(drop) {
            CatchResult::Missing(_stats) => {}
            CatchResult::Finished(data, _stats) => {
                assert_eq!(buf_org.len(), data.len());
                for i in 0..length {
                    assert_eq!(buf_org[i], data[i]);
                }
                return;
            }
        }
    }
}

#[test]
fn ldpc_test_enc_dec_random() {
    enc_dec_helper(128, 0.0, EncoderType::RandLdpc(LDPCCode::TM1280, 0), sample_message(3000), DecoderType::Bf);
}

#[test]
fn ldpc_test_enc_dec_systematic() {
    enc_dec_helper(128, 0.1, EncoderType::SysLdpc(LDPCCode::TM1280, 0), sample_message(3000), DecoderType::Bf);
}

#[test]
fn ldpc_test_enc_dec_random_lossy() {
    for loss in &[0.05, 0.1, 0.2, 0.25, 0.3, 0.5, 0.9] {
        enc_dec_helper(128, *loss, EncoderType::RandLdpc(LDPCCode::TM1280, 0), sample_message(2000), DecoderType::Bf);
    }
}

#[test]
fn ldpc_test_enc_dec_systematic_lossy() {
    for loss in &[0.05, 0.1, 0.2, 0.25, 0.3, 0.5, 0.9] {
        enc_dec_helper(128, *loss, EncoderType::SysLdpc(LDPCCode::TM1280, 0), sample_message(2000), DecoderType::Bf);
    }
}

#[test]
fn ldpc_test_enc_dec_random_minsum() {
    enc_dec_helper(128, 0.0, EncoderType::RandLdpc(LDPCCode::TM1280, 0), sample_message(2000), DecoderType::Ms);
}

#[test]
fn ldpc_test_enc_dec_systematic_minsum() {
    enc_dec_helper(128, 0.0, EncoderType::SysLdpc(LDPCCode::TM1280, 0), sample_message(2000), DecoderType::Ms);
}

#[test]
fn ldpc_test_enc_dec_random_lossy_minsum() {
    for loss in &[0.05, 0.1, 0.2, 0.25, 0.3, 0.5, 0.9] {
        enc_dec_helper(128, *loss, EncoderType::RandLdpc(LDPCCode::TM1280, 0), sample_message(2000), DecoderType::Ms);
    }
}

#[test]
fn ldpc_test_enc_dec_systematic_lossy_minsum() {
    for loss in &[0.05, 0.1, 0.2, 0.25, 0.3, 0.5, 0.9] {
        enc_dec_helper(128, *loss, EncoderType::SysLdpc(LDPCCode::TM1280, 0), sample_message(2000), DecoderType::Ms);
    }
}

#[test]
fn ber_test_enc_dec_systematic() {
    let buf = sample_message(3000);
    let length = buf.len();
    let mut enc = Encoder::ideal(buf.clone(), 128, EncoderType::SysLdpc(LDPCCode::TM1280, 0));
    let mut dec = Decoder::new(length, 128);
    let mut bers: Vec<u32> = Vec::new();
    loop {
        let mut drop = enc.drop();
        corrupt(&mut drop.data);
        let received = drop.data.clone();
        droplet_decode(&mut drop, LDPCCode::TM1280, DecoderType::Bf);
        // Encode the decoded data again and count the bits that differ from what was received.
        let code = LDPCCode::TM1280;
        let mut recode = vec![0u8; code.n() / 8];
        let mut data_copy = drop.data.clone();
        data_copy.resize(128, 0);
        code.copy_encode(&data_copy, &mut recode);
        let weight: u32 = received.iter().zip(recode.iter()).map(|(a, b)| (a ^ b).count_ones()).sum();
        bers.push(weight);
        match dec.catch(drop) {
            CatchResult::Missing(_stats) => {}
            CatchResult::Finished(data, _stats) => {
                assert_eq!(buf.len(), data.len());
                for i in 0..length {
                    assert_eq!(buf[i], data[i]);
                }
                assert!(bers.iter().all(|&w| w == 12));
                return;
            }
        }
    }
}
