// Round trips over many message and chunk sizes and loss rates. They run on the
// ideal soliton: no robust soliton distribution is available to this crate, so
// the `robust_` in their names refers to the sweep over sizes and loss rates.
use fountaincode::decoder::{CatchResult, Decoder};
use fountaincode::encoder::{Encoder, EncoderType};
use rand::distributions::Alphanumeric;
use rand::{thread_rng, Rng};

fn enc_dec_helper(total_len: usize, chunk_len: usize, loss: f32, enc_type: EncoderType) {
    let s: String = thread_rng()
        .sample_iter(Alphanumeric)
        .take(total_len)
        .map(char::from)
        .collect();
    let buf = s.into_bytes();
    let len = buf.len();
    let to_compare = buf.clone();

    let mut enc = Encoder::ideal(buf, chunk_len, enc_type);
    let mut dec = Decoder::new(len, chunk_len);

    let mut loss_rng = thread_rng();

    loop {
        if loss_rng.gen::<f32>() > loss {
            let drop = enc.drop();
            match dec.catch(drop) {
                CatchResult::Missing(stats) => {
                    assert!(stats.resolved_chunks < stats.cnt_chunks);
                }
                CatchResult::Finished(data, stats) => {
                    assert_eq!(stats.resolved_chunks, stats.cnt_chunks);
                    assert_eq!(to_compare.len(), data.len());
                    for i in 0..len {
                        assert_eq!(to_compare[i], data[i]);
                    }
                    return;
                }
            }
        }
    }
}

#[test]
fn robust_enc_dec_simple_systemtatic() {
    enc_dec_helper(1_024, 512, 0.0, EncoderType::Systematic);
}

#[test]
fn robust_enc_dec_simple_random() {
    enc_dec_helper(1_024, 512, 0.0, EncoderType::Random);
}

#[test]
fn robust_enc_dec_uneven_sizes_systematic() {
    for size in 1000..1100 {
        for chunk in 100..130 {
            enc_dec_helper(size, chunk, 0.0, EncoderType::Systematic);
        }
    }
}

#[test]
fn robust_enc_dec_uneven_sizes_random() {
    for size in 1000..1100 {
        for chunk in 100..130 {
            enc_dec_helper(size, chunk, 0.0, EncoderType::Random);
        }
    }
}

#[test]
fn robust_enc_dec_simple_systemtatic_lossy() {
    enc_dec_helper(1_024, 512, 0.3, EncoderType::Systematic);
}

#[test]
fn robust_enc_dec_simple_random_lossy() {
    enc_dec_helper(1_024, 512, 0.3, EncoderType::Random);
}

#[test]
fn robust_enc_dec_uneven_sizes_systematic_lossy() {
    for size in 1000..1100 {
        for chunk in 100..130 {
            enc_dec_helper(size, chunk, 0.3, EncoderType::Systematic);
        }
    }
}

#[test]
fn robust_enc_dec_uneven_sizes_random_lossy() {
    for size in 1000..1100 {
        for chunk in 100..130 {
            enc_dec_helper(size, chunk, 0.3, EncoderType::Random);
        }
    }
}

#[test]
fn robust_enc_dec_combination_systematic_lossy() {
    for size in 1000..1100 {
        for chunk in 100..130 {
            for loss in &[0.1, 0.3, 0.5, 0.9] {
                enc_dec_helper(size, chunk, *loss, EncoderType::Systematic);
            }
        }
    }
}

#[test]
fn robust_enc_dec_combination_random_lossy() {
    for size in 1000..1100 {
        for chunk in 100..130 {
            for loss in &[0.1, 0.3, 0.5, 0.9] {
                enc_dec_helper(size, chunk, *loss, EncoderType::Random);
            }
        }
    }
}
