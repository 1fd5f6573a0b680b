use fountaincode::decoder::{CatchResult, Decoder};
use fountaincode::droplet::{DropType, Droplet};
use fountaincode::encoder::{Encoder, EncoderType};
use fountaincode::ldpc::{droplet_decode, droplet_encode, DecoderType};
use fountaincode::sampling::get_sample_from_rng_by_seed;
use fountaincode::soliton::Soliton;
use labrador_ldpc::LDPCCode;
use rand::rngs::StdRng;
use rand::SeedableRng;

fn message(len: usize) -> Vec<u8> {
    (0..len).map(|i| (i * 7 + 3) as u8).collect()
}

fn chunk(msg: &[u8], b: usize, i: usize) -> Vec<u8> {
    let mut c = vec![0u8; b];
    for j in 0..b {
        if i * b + j < msg.len() {
            c[j] = msg[i * b + j];
        }
    }
    c
}

fn resolved(r: &CatchResult) -> usize {
    match r {
        CatchResult::Finished(_, st) => st.resolved_chunks,
        CatchResult::Missing(st) => st.resolved_chunks,
    }
}

/// A seed whose `degree` indices below `k` are exactly `want`, in that order.
fn seed_for(k: usize, degree: usize, want: &[usize]) -> u64 {
    (0u64..100_000)
        .find(|&s| get_sample_from_rng_by_seed(s, k, degree) == want)
        .unwrap()
}

#[test]
fn systematic_three_chunks_in_any_order() {
    let msg = message(300);
    let mut enc = Encoder::ideal(msg.clone(), 128, EncoderType::Systematic);
    let drops: Vec<Droplet> = (0..3).map(|_| enc.drop()).collect();
    for (i, d) in drops.iter().enumerate() {
        assert_eq!(d.droptype, DropType::Edges(i));
        assert_eq!(d.data, chunk(&msg, 128, i));
    }
    assert_eq!(drops[2].data[43], msg[299]);
    assert!(drops[2].data[44..].iter().all(|&x| x == 0));
    let orders = [[0, 1, 2], [0, 2, 1], [1, 0, 2], [1, 2, 0], [2, 0, 1], [2, 1, 0]];
    for order in orders.iter() {
        let mut dec = Decoder::new(300, 128);
        for (step, &i) in order.iter().enumerate() {
            let d = Droplet::new(drops[i].droptype, drops[i].data.clone());
            let r = dec.catch(d);
            assert_eq!(resolved(&r), step + 1);
            match r {
                CatchResult::Missing(st) => {
                    assert!(step < 2);
                    assert_eq!(st.cnt_chunks, 3);
                    assert_eq!(st.cnt_droplets, step + 1);
                }
                CatchResult::Finished(data, st) => {
                    assert_eq!(step, 2);
                    assert_eq!(st.resolved_chunks, 3);
                    assert_eq!(data.len(), 300);
                    assert_eq!(data, msg);
                }
            }
        }
    }
}

#[test]
fn systematic_mode_turns_random_after_two_passes() {
    let msg = message(300);
    let mut enc = Encoder::ideal(msg, 128, EncoderType::Systematic);
    for c in 0..6 {
        assert_eq!(enc.drop().droptype, DropType::Edges(c % 3));
    }
    for _ in 0..20 {
        match enc.drop().droptype {
            DropType::Seeded(_, d) => assert!((1..=3).contains(&d)),
            DropType::Edges(_) => panic!("systematic droplet after two passes"),
        }
    }
    assert_eq!(enc.cnt, 26);
}

#[test]
fn same_droplet_twice_changes_nothing() {
    let msg = message(300);
    let mut dec = Decoder::new(300, 128);
    let r1 = dec.catch(Droplet::new(DropType::Edges(1), chunk(&msg, 128, 1)));
    assert_eq!(resolved(&r1), 1);
    let r2 = dec.catch(Droplet::new(DropType::Edges(1), chunk(&msg, 128, 1)));
    assert_eq!(resolved(&r2), 1);
    assert!(matches!(r2, CatchResult::Missing(_)));
}

#[test]
fn single_chunk_message_finishes_at_once() {
    let msg = message(5);
    let mut dec = Decoder::new(5, 128);
    match dec.catch(Droplet::new(DropType::Edges(0), chunk(&msg, 128, 0))) {
        CatchResult::Finished(data, st) => {
            assert_eq!(data, msg);
            assert_eq!(st.cnt_chunks, 1);
            assert_eq!(st.resolved_chunks, 1);
        }
        CatchResult::Missing(_) => panic!("a single chunk should finish"),
    }
}

#[test]
fn pending_droplet_resolves_by_cascade() {
    let msg = message(300);
    let s = seed_for(3, 2, &[0, 1]);
    let mut payload = chunk(&msg, 128, 0);
    for (p, x) in payload.iter_mut().zip(chunk(&msg, 128, 1)) {
        *p ^= x;
    }
    let mut dec = Decoder::new(300, 128);
    assert_eq!(resolved(&dec.catch(Droplet::new(DropType::Seeded(s, 2), payload))), 0);
    assert_eq!(resolved(&dec.catch(Droplet::new(DropType::Edges(0), chunk(&msg, 128, 0)))), 2);
    match dec.catch(Droplet::new(DropType::Edges(2), chunk(&msg, 128, 2))) {
        CatchResult::Finished(data, _) => assert_eq!(data, msg),
        CatchResult::Missing(_) => panic!("all chunks were given"),
    }
}

#[test]
fn repeated_index_cancels() {
    let msg = message(200);
    let s = seed_for(2, 2, &[1, 1]);
    let mut dec = Decoder::new(200, 128);
    let r = dec.catch(Droplet::new(DropType::Seeded(s, 2), vec![0u8; 128]));
    assert_eq!(resolved(&r), 0);
    let s3 = seed_for(2, 3, &[1, 0, 1]);
    let r = dec.catch(Droplet::new(DropType::Seeded(s3, 3), chunk(&msg, 128, 0)));
    assert_eq!(resolved(&r), 1);
}

#[test]
fn seeded_sample_is_fixed_by_its_seed() {
    let a = get_sample_from_rng_by_seed(42, 10, 5);
    let b = get_sample_from_rng_by_seed(42, 10, 5);
    assert_eq!(a, b);
    assert_eq!(a.len(), 5);
    assert!(a.iter().all(|&i| i < 10));
    assert!(get_sample_from_rng_by_seed(7, 10, 0).is_empty());
}

#[test]
fn random_droplet_is_xor_of_its_chunks() {
    let msg = message(1000);
    let mut enc = Encoder::ideal(msg.clone(), 100, EncoderType::Random);
    for _ in 0..20 {
        let d = enc.drop();
        match d.droptype {
            DropType::Seeded(seed, degree) => {
                assert!((1..=10).contains(&degree));
                let mut want = vec![0u8; 100];
                for i in get_sample_from_rng_by_seed(seed, 10, degree) {
                    for (w, x) in want.iter_mut().zip(chunk(&msg, 100, i)) {
                        *w ^= x;
                    }
                }
                assert_eq!(d.data, want);
            }
            DropType::Edges(_) => panic!("random mode sent a chunk"),
        }
    }
}

#[test]
fn ideal_degree_for_given_draws() {
    let sol = Soliton::ideal(3);
    assert_eq!(sol.degree_for_draw(0), 1);
    assert_eq!(sol.degree_for_draw(0x80_0000 << 8), 2);
    assert_eq!(sol.degree_for_draw(0x40_0000 << 8), 1);
    assert_eq!(sol.degree_for_draw(5_592_405 << 8), 1);
    assert_eq!(sol.degree_for_draw(5_592_406 << 8), 3);
    assert_eq!(sol.degree_for_draw(u32::MAX), 2);
    assert_eq!(Soliton::ideal(10).degree_for_draw(0x40_0000 << 8), 4);
    assert_eq!(Soliton::ideal(1).degree_for_draw(u32::MAX), 1);
}

#[test]
fn sampler_stays_within_bounds() {
    let mut rng = StdRng::seed_from_u64(1);
    for k in 1..60 {
        let sol = Soliton::ideal(k);
        for _ in 0..500 {
            let d = sol.sample(&mut rng);
            assert!(d >= 1 && d <= k);
        }
    }
}

#[test]
fn ldpc_encode_keeps_data_in_front() {
    let data = message(128);
    let mut d = Droplet::new(DropType::Edges(4), data.clone());
    droplet_encode(&mut d, LDPCCode::TM1280);
    assert_eq!(d.data.len(), 160);
    assert_eq!(&d.data[..128], &data[..]);
    assert_eq!(d.droptype, DropType::Edges(4));
    let mut corrupted = Droplet::new(DropType::Edges(4), d.data.clone());
    corrupted.data[5] ^= 0x10;
    droplet_decode(&mut corrupted, LDPCCode::TM1280, DecoderType::Bf);
    assert_eq!(&corrupted.data[..128], &data[..]);
    let mut soft = Droplet::new(DropType::Edges(4), d.data.clone());
    soft.data[9] ^= 0x01;
    droplet_decode(&mut soft, LDPCCode::TM1280, DecoderType::Ms);
    assert_eq!(&soft.data[..128], &data[..]);
}

#[test]
fn iterator_style_next_never_ends() {
    let mut enc = Encoder::ideal(message(10), 4, EncoderType::Systematic);
    for _ in 0..10 {
        assert!(enc.next().is_some());
    }
}

fn copy(d: &Droplet) -> Droplet {
    Droplet::new(d.droptype, d.data.clone())
}

/// Feeds `drops` in order; returns the resolved count and the message, if finished.
fn feed(drops: &[Droplet], len: usize, b: usize) -> (usize, Option<Vec<u8>>) {
    let mut dec = Decoder::new(len, b);
    let mut last = 0;
    for d in drops {
        match dec.catch(copy(d)) {
            CatchResult::Missing(st) => last = st.resolved_chunks,
            CatchResult::Finished(data, st) => return (st.resolved_chunks, Some(data)),
        }
    }
    (last, None)
}

#[test]
fn arrival_order_does_not_change_the_outcome() {
    let msg = message(1000);
    for n in [5usize, 10, 15, 40] {
        let mut enc = Encoder::ideal(msg.clone(), 100, EncoderType::Random);
        let drops: Vec<Droplet> = (0..n).map(|_| enc.drop()).collect();
        let reversed: Vec<Droplet> = drops.iter().rev().map(copy).collect();
        let mut rotated: Vec<Droplet> = drops.iter().map(copy).collect();
        rotated.rotate_left(n / 3);
        let a = feed(&drops, 1000, 100);
        let b = feed(&reversed, 1000, 100);
        let c = feed(&rotated, 1000, 100);
        assert_eq!(a.0, b.0);
        assert_eq!(a.0, c.0);
        assert_eq!(a.1.is_some(), b.1.is_some());
        if let Some(m) = a.1 {
            assert_eq!(m, msg);
            assert_eq!(b.1.unwrap(), msg);
            assert_eq!(c.1.unwrap(), msg);
        }
    }
}

#[test]
fn seeded_droplet_twice_changes_nothing() {
    let msg = message(300);
    let s = seed_for(3, 2, &[0, 2]);
    let mut payload = chunk(&msg, 128, 0);
    for (p, x) in payload.iter_mut().zip(chunk(&msg, 128, 2)) {
        *p ^= x;
    }
    let mut dec = Decoder::new(300, 128);
    assert_eq!(resolved(&dec.catch(Droplet::new(DropType::Edges(2), chunk(&msg, 128, 2)))), 1);
    assert_eq!(resolved(&dec.catch(Droplet::new(DropType::Seeded(s, 2), payload.clone()))), 2);
    let r = dec.catch(Droplet::new(DropType::Seeded(s, 2), payload));
    assert_eq!(resolved(&r), 2);
    match r {
        CatchResult::Missing(st) => assert_eq!(st.cnt_droplets, 3),
        CatchResult::Finished(_, _) => panic!("chunk one was never sent"),
    }
}

#[test]
fn next_advances_like_drop() {
    let msg = message(300);
    let mut enc = Encoder::ideal(msg.clone(), 128, EncoderType::Systematic);
    for c in 0..3 {
        let d = enc.next().unwrap();
        assert_eq!(d.droptype, DropType::Edges(c));
        assert_eq!(d.data, chunk(&msg, 128, c));
        assert_eq!(enc.cnt, c + 1);
    }
}

#[test]
fn resolved_chunk_keeps_its_bytes() {
    let msg = message(300);
    let mut dec = Decoder::new(300, 128);
    dec.catch(Droplet::new(DropType::Edges(0), chunk(&msg, 128, 0)));
    dec.catch(Droplet::new(DropType::Edges(0), vec![0xAAu8; 128]));
    dec.catch(Droplet::new(DropType::Edges(1), chunk(&msg, 128, 1)));
    match dec.catch(Droplet::new(DropType::Edges(2), chunk(&msg, 128, 2))) {
        CatchResult::Finished(data, _) => assert_eq!(data, msg),
        CatchResult::Missing(_) => panic!("all chunks were given"),
    }
    assert_eq!(dec.total_length(), 300);
    assert_eq!(dec.blocksize(), 128);
}
