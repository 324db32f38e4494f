use lemur::hvc::HvcCom;
use lemur::lemur::bench_internals::{concat_pk_bytes_pub, hash_to_randomizers_pub, repetitions};
use lemur::lemur::LemurPk;
use lemur::params::{GAUSS_CDT_BITS, GAUSS_CDT_BYTES, GAUSS_TAILCUT, SECURITY_BITS};
use lemur::profile::d256_k4;
use lemur::sample::{agg_randomizer_xof, draw_all, xof_ternary_poly, DRAW_BYTES};
use sha3::digest::{ExtendableOutput, Update, XofReader};
use sha3::Shake128;

#[test]
fn stream_is_shake128_of_slot_message_keys_and_attempt() {
    let stream = agg_randomizer_xof(1, b"abc", &[1, 2, 3], 2, 20);
    assert_eq!(
        stream,
        vec![
            142, 198, 155, 216, 165, 158, 120, 146, 51, 190, 142, 184, 2, 237, 183, 66, 112, 169,
            62, 21
        ]
    );
    let mut hasher = Shake128::default();
    hasher.update(&1u64.to_le_bytes());
    hasher.update(b"abc");
    hasher.update(&[1, 2, 3]);
    hasher.update(&2u64.to_le_bytes());
    let mut expected = vec![0u8; 500];
    hasher.finalize_xof().read(&mut expected);
    assert_eq!(agg_randomizer_xof(1, b"abc", &[1, 2, 3], 2, 500), expected);
    assert_eq!(agg_randomizer_xof(1, b"abc", &[1, 2, 3], 2, 0), Vec::<u8>::new());
}

#[test]
fn polynomials_are_drawn_one_after_the_other() {
    let stream = agg_randomizer_xof(1, b"abc", &[1, 2, 3], 2, 2 * 3 * DRAW_BYTES);
    let first: Vec<i64> = vec![0, 0, -1, 0, -1, 0, 1, 0];
    let second: Vec<i64> = vec![0, 0, 0, 0, 0, -1, -1, 1];
    assert_eq!(xof_ternary_poly(&stream, 0, 3, 8), first);
    assert_eq!(xof_ternary_poly(&stream, 27, 3, 8), second);
    assert_eq!(draw_all(&stream, 2, 3, 8), vec![first, second]);
    assert_eq!(draw_all(&stream, 0, 3, 8), Vec::<Vec<i64>>::new());
}

#[test]
fn draws_keep_the_weight_when_they_meet() {
    // Every position drawn is 0: what stands there moves up.
    let mut stream = vec![0u8; 4 * DRAW_BYTES];
    stream[DRAW_BYTES - 1] = 1;
    assert_eq!(xof_ternary_poly(&stream, 0, 4, 4), vec![1, -1, 1, 1]);
    assert_eq!(xof_ternary_poly(&stream, 0, 2, 4), vec![1, 0, 0, -1]);
    assert_eq!(xof_ternary_poly(&stream, 0, 0, 4), vec![0, 0, 0, 0]);
}

#[test]
fn randomizers_are_ternary_of_the_weight_of_the_profile() {
    let profile = d256_k4();
    let pks_bytes: Vec<u8> = (0..16).collect();
    let ws = hash_to_randomizers_pub(7, b"msg", &pks_bytes, 1, 3, &profile);
    assert_eq!(ws.len(), 3);
    for w in &ws {
        assert_eq!(w.len(), profile.d);
        assert!(w.iter().all(|x| -1 <= *x && *x <= 1));
        assert_eq!(w.iter().filter(|x| **x != 0).count(), profile.alpha_w);
    }
    let at: Vec<usize> = (0..256).filter(|i| ws[0][*i] != 0).collect();
    assert_eq!(
        at,
        vec![
            1, 9, 10, 20, 24, 37, 48, 50, 59, 82, 88, 89, 101, 109, 110, 118, 121, 152, 156, 197,
            210, 212, 248
        ]
    );
    assert_eq!((ws[0][1], ws[0][10], ws[0][248]), (1, -1, 1));
    assert_eq!((ws[2][5], ws[2][37], ws[2][243]), (1, -1, 1));
}

#[test]
fn randomizers_depend_on_every_argument() {
    let profile = d256_k4();
    let ws = hash_to_randomizers_pub(7, b"msg", &[1, 2], 1, 2, &profile);
    assert_eq!(hash_to_randomizers_pub(7, b"msg", &[1, 2], 1, 2, &profile), ws);
    assert_ne!(hash_to_randomizers_pub(8, b"msg", &[1, 2], 1, 2, &profile), ws);
    assert_ne!(hash_to_randomizers_pub(7, b"msh", &[1, 2], 1, 2, &profile), ws);
    assert_ne!(hash_to_randomizers_pub(7, b"msg", &[1, 3], 1, 2, &profile), ws);
    assert_ne!(hash_to_randomizers_pub(7, b"msg", &[1, 2], 2, 2, &profile), ws);
    assert_ne!(ws[0], ws[1]);
}

#[test]
fn public_keys_are_little_endian() {
    let pks = vec![
        LemurPk(HvcCom(vec![1, -2])),
        LemurPk(HvcCom(vec![])),
        LemurPk(HvcCom(vec![i64::MIN, 0x0102_0304_0506_0708])),
    ];
    let mut expected: Vec<u8> = Vec::new();
    for x in [1i64, -2, i64::MIN, 0x0102_0304_0506_0708] {
        expected.extend_from_slice(&x.to_le_bytes());
    }
    assert_eq!(concat_pk_bytes_pub(&pks), expected);
    assert_eq!(concat_pk_bytes_pub(&[]), Vec::<u8>::new());
}

#[test]
fn sampler_constants() {
    assert_eq!(GAUSS_CDT_BITS, 32);
    assert_eq!(GAUSS_CDT_BYTES, 4);
    assert_eq!(GAUSS_TAILCUT, 5);
    assert_eq!(SECURITY_BITS, 128);
}

#[test]
fn larger_sets_are_repeated_less() {
    let r = repetitions(1024);
    assert_eq!((r.preverify, r.steps, r.avrfy, r.aggregate, r.concat), (3, 10, 5, 3, 20));
    let r = repetitions(8192);
    assert_eq!((r.preverify, r.steps, r.avrfy, r.aggregate, r.concat), (2, 5, 3, 2, 10));
    let r = repetitions(32_768);
    assert_eq!((r.preverify, r.steps, r.avrfy, r.aggregate, r.concat), (1, 3, 2, 1, 5));
}

#[test]
fn randomizers_of_the_first_signers_do_not_depend_on_the_others() {
    let profile = d256_k4();
    let few = hash_to_randomizers_pub(7, b"msg", &[1, 2], 3, 2, &profile);
    let many = hash_to_randomizers_pub(7, b"msg", &[1, 2], 3, 50, &profile);
    assert_eq!(few[..], many[..2]);
}
