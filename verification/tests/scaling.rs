use lemur::aux_ntt::{CrtBackend, CrtConfig};
use lemur::hvc::HvcCom;
use lemur::lemur::{
    aggregate_vec_crt_ntt, scale_mat_crt, scale_vec_crt, weighted_sum_commitments, LemurPk,
};
use lemur::ntt::Ntt;
use lemur::parallel::chunk_size;
use lemur::poly::{poly_mul, poly_mul_u64, scale_mat, scale_mat_u64, RingParams, RingParams64};
use lemur::profile::{d256_k4, HvcRing};

/// The product modulo `X^d + 1`, by the definition.
fn negacyclic(a: &[i64], b: &[i64]) -> Vec<i128> {
    let d = a.len();
    let mut r = vec![0i128; d];
    for i in 0..d {
        for j in 0..d {
            let x = a[i] as i128 * b[j] as i128;
            if i + j < d {
                r[i + j] += x;
            } else {
                r[i + j - d] -= x;
            }
        }
    }
    r
}

fn centered(x: i128, q: i128) -> i64 {
    let r = x.rem_euclid(q);
    (if r > q / 2 { r - q } else { r }) as i64
}

#[test]
fn aggregate_vec_crt_ntt_matches_reference_scaling() {
    let profile = &d256_k4();
    let cfg = profile.kots_crt().expect("D256_K4 uses CRT KOTS");
    let backend_acc = cfg.backend_for_accum(5);
    let backend_single = cfg.backend();
    let d = profile.d;
    let m = profile.m;

    let ws: Vec<Vec<i64>> = (0..5)
        .map(|signer| {
            let mut w = vec![0i64; d];
            for j in 0..profile.alpha_w {
                let idx = (17 * signer + 31 * j) % d;
                w[idx] = if (signer + j) & 1 == 0 { 1 } else { -1 };
            }
            w
        })
        .collect();
    let vectors: Vec<Vec<i64>> = (0..5)
        .map(|signer| {
            (0..m * d)
                .map(|i| ((signer as i64 * 19 + i as i64 * 7) % 101) - 50)
                .collect()
        })
        .collect();
    let vector_refs: Vec<&[i64]> = vectors.iter().map(|v| v.as_slice()).collect();

    let fast = aggregate_vec_crt_ntt(&ws, &vector_refs, m, &backend_acc);
    let reference = ws
        .iter()
        .zip(vectors.iter())
        .map(|(w, v)| scale_mat_crt(w, v, 1, m, &backend_single))
        .reduce(|mut acc, scaled| {
            for (a, b) in acc.iter_mut().zip(scaled.iter()) {
                *a += *b;
            }
            acc
        })
        .expect("nonempty vector set");

    assert_eq!(fast, reference);
}

/// Past the no-wrap crossover (`N alpha_w beta_z > q / 2`) the scaled vectors are summed one by
/// one.  On vectors within the bound `beta_z` and ternary weights of weight `alpha_w` that sum is
/// compared with the one accumulated in the transformed domain, at the smallest `N` past the
/// crossover.
#[test]
fn aggregate_vec_paths_agree_past_no_wrap_crossover() {
    let profile = &d256_k4();
    let cfg = profile.kots_crt().expect("D256_K4 uses CRT KOTS");
    let d = profile.d;
    let m = profile.m;
    let alpha_w = profile.alpha_w;
    let beta_z = profile.beta_z;
    let q_prime = profile.q_kots() as i128;
    let n_crossover = (q_prime / (2 * alpha_w as i128 * beta_z as i128)) as usize;
    let n: usize = n_crossover + 1;
    let z_sum_no_wrap = (n as i128) * (alpha_w as i128) * (beta_z as i128) <= q_prime / 2;
    assert!(!z_sum_no_wrap, "test setup failed: still inside fast-path range");
    let backend_acc = cfg.backend_for_accum(n);
    let backend_single = cfg.backend();

    let ws: Vec<Vec<i64>> = (0..n)
        .map(|signer| {
            let mut w = vec![0i64; d];
            for j in 0..alpha_w {
                let idx = (17 * signer + 31 * j) % d;
                w[idx] = if (signer + j) & 1 == 0 { 1 } else { -1 };
            }
            w
        })
        .collect();
    let vectors: Vec<Vec<i64>> = (0..n)
        .map(|signer| {
            (0..m * d)
                .map(|i| {
                    let raw = (signer as i64 * 1009 + i as i64 * 1597) % (2 * beta_z + 1);
                    raw - beta_z
                })
                .collect()
        })
        .collect();
    let vector_refs: Vec<&[i64]> = vectors.iter().map(|v| v.as_slice()).collect();

    let fast = aggregate_vec_crt_ntt(&ws, &vector_refs, m, &backend_acc);
    let reference = ws
        .iter()
        .zip(vectors.iter())
        .map(|(w, v)| scale_mat_crt(w, v, 1, m, &backend_single))
        .reduce(|mut acc, scaled| {
            for (a, b) in acc.iter_mut().zip(scaled.iter()) {
                *a += *b;
            }
            acc
        })
        .expect("nonempty vector set");

    assert_eq!(fast, reference);
}

#[test]
fn weighted_sum_commitments_u64_ntt_matches_reference() {
    let profile = &d256_k4();
    let rp = profile.hvc_ring.as_u64().expect("D256_K4 uses u64 HVC");
    let d = profile.d;
    let omega = profile.omega;
    let q = profile.q_hvc() as i64;

    let ws: Vec<Vec<i64>> = (0..5)
        .map(|signer| {
            let mut w = vec![0i64; d];
            for j in 0..profile.alpha_w {
                let idx = (11 * signer + 37 * j) % d;
                w[idx] = if (signer + j) & 1 == 0 { 1 } else { -1 };
            }
            w
        })
        .collect();
    let pks: Vec<LemurPk> = (0..5)
        .map(|signer| {
            let c = (0..omega * d)
                .map(|i| ((signer as i64 * 23 + i as i64 * 41) % 10_000).rem_euclid(q))
                .collect();
            LemurPk(HvcCom(c))
        })
        .collect();

    let fast = weighted_sum_commitments(&ws, &pks, profile);
    let mut reference = vec![0i64; omega * d];
    for (w, pk) in ws.iter().zip(pks.iter()) {
        for r in 0..omega {
            let off = r * d;
            let prod = poly_mul_u64(w, &pk.0 .0[off..off + d], rp);
            for i in 0..d {
                reference[off + i] = (reference[off + i] + prod[i]).rem_euclid(q);
            }
        }
    }

    assert_eq!(fast.0, reference);
}

#[test]
fn scaling_is_the_centered_negacyclic_product() {
    let cfg = CrtConfig { q: 1_000_003, d: 8 };
    let backend = cfg.backend();
    assert_eq!((backend.q(), backend.d()), (1_000_003, 8));
    let w: Vec<i64> = vec![3, -1, 0, 7, 500_000, -500_001, i64::MAX, i64::MIN];
    let v: Vec<i64> = (0..24).map(|i| (i * i * i - 1000) * 777_777).collect();
    let r = scale_vec_crt(&w, &v, 3, &backend);
    assert_eq!(r.len(), 24);
    for i in 0..3 {
        let p = negacyclic(&w, &v[8 * i..8 * i + 8]);
        for k in 0..8 {
            assert_eq!(r[8 * i + k], centered(p[k], 1_000_003));
        }
    }
    assert_eq!(scale_mat_crt(&w, &v, 3, 1, &backend), r);
    assert_eq!(scale_vec_crt(&w, &v, 0, &backend), Vec::<i64>::new());
}

#[test]
fn x_times_x_to_the_last_wraps_with_a_sign() {
    let backend = CrtConfig { q: 97, d: 4 }.backend();
    let w: Vec<i64> = vec![0, 1, 0, 0];
    let v: Vec<i64> = vec![0, 0, 0, 5];
    assert_eq!(scale_vec_crt(&w, &v, 1, &backend), vec![-5, 0, 0, 0]);
}

#[test]
fn aggregation_reduces_the_sum_and_scaling_each_product() {
    // Two products that are 48 each modulo 97: their sum 96 is -1 when it is reduced, while the
    // products are in the centered range by themselves.
    let cfg = CrtConfig { q: 97, d: 2 };
    let ws: Vec<Vec<i64>> = vec![vec![1, 0], vec![1, 0]];
    let a: Vec<i64> = vec![48, 0];
    let refs: Vec<&[i64]> = vec![&a, &a];
    let fast = aggregate_vec_crt_ntt(&ws, &refs, 1, &cfg.backend_for_accum(2));
    assert_eq!(fast, vec![-1, 0]);
    let single = scale_vec_crt(&ws[0], &a, 1, &cfg.backend());
    assert_eq!(single, vec![48, 0]);
}

#[test]
fn aggregation_does_not_depend_on_the_number_of_chunks() {
    // 200 pairs are more than one chunk of the largest size.
    let cfg = CrtConfig { q: 12_289, d: 4 };
    let n = 200usize;
    let ws: Vec<Vec<i64>> = (0..n).map(|i| vec![i as i64, -1, 2, (i % 7) as i64]).collect();
    let vs: Vec<Vec<i64>> = (0..n).map(|i| (0..8).map(|j| (i * j) as i64 - 300).collect()).collect();
    let refs: Vec<&[i64]> = vs.iter().map(|v| v.as_slice()).collect();
    let r = aggregate_vec_crt_ntt(&ws, &refs, 2, &cfg.backend_for_accum(n));
    for p in 0..2 {
        let mut sum = vec![0i128; 4];
        for i in 0..n {
            let x = negacyclic(&ws[i], &vs[i][4 * p..4 * p + 4]);
            for k in 0..4 {
                sum[k] += x[k];
            }
        }
        for k in 0..4 {
            assert_eq!(r[4 * p + k], centered(sum[k], 12_289));
        }
    }
}

#[test]
fn chunks_are_shared_out() {
    assert_eq!(chunk_size(0, 8), 1);
    assert_eq!(chunk_size(5, 8), 1);
    assert_eq!(chunk_size(33, 8), 2);
    assert_eq!(chunk_size(1024, 8), 32);
    assert_eq!(chunk_size(8192, 8), 64);
    assert_eq!(chunk_size(10, 0), 10);
    assert_eq!(chunk_size(1 << 20, usize::MAX), 1);
}

#[test]
fn backend_needs_headroom() {
    assert!(CrtBackend::new_for_accum(3_469_400_021, 256, 1).is_some());
    assert!(CrtBackend::new_for_accum(3_469_400_021, 256, 1 << 20).is_some());
    assert!(CrtBackend::new_for_accum(3_469_400_021, 256, 0).is_some());
    assert!(CrtBackend::new_for_accum(0, 256, 1).is_none());
    assert!(CrtBackend::new_for_accum(97, 0, 1).is_none());
    assert!(CrtBackend::new_for_accum(97, 24, 1).is_none());
    assert!(CrtBackend::new_for_accum(97, 2048, 1).is_none());
    assert!(CrtBackend::new_for_accum(1 << 61, 4, 1).is_none());
    assert!(CrtBackend::new_for_accum(u64::MAX, 4, 1).is_none());
    assert!(CrtBackend::new_for_accum(1 << 50, 1024, 1 << 11).is_none());
}

#[test]
fn largest_coefficients_are_exact() {
    // The centered products reach the bound of the headroom.
    let q = (1u64 << 52) + 1;
    let d = 64usize;
    let backend = CrtBackend::new_for_accum(q, d, 1).expect("within the headroom");
    let h = (q / 2) as i64;
    let w = vec![h; d];
    let v = vec![-h; d];
    let r = scale_vec_crt(&w, &v, 1, &backend);
    let p = negacyclic(&w, &v);
    for k in 0..d {
        assert_eq!(r[k], centered(p[k], q as i128));
    }
}

#[test]
fn transform_exists_only_for_a_root() {
    // 3 has order 16 modulo 17, so 3^8 = -1.
    assert!(Ntt::new(17, 8, 3).is_some());
    assert!(Ntt::new(17, 8, 9).is_none());
    assert!(Ntt::new(17, 4, 9).is_some());
    assert!(Ntt::new(17, 3, 3).is_none());
    assert!(Ntt::new(16, 8, 3).is_none());
    assert!(Ntt::new(2, 1, 1).is_none());
}

#[test]
fn ring_products_are_residues() {
    let rp = RingParams::new(17, 8, 3).unwrap();
    let rp64 = RingParams64::new(17, 8, 3).unwrap();
    assert_eq!((rp.q(), rp.d()), (17, 8));
    assert_eq!((rp64.q(), rp64.d()), (17, 8));
    let a: Vec<i64> = vec![1, -2, 3, 40, -50, 6, 7, 8];
    let b: Vec<i64> = vec![-9, 8, 7, -6, 5, 4, 300, 2];
    let p = negacyclic(&a, &b);
    let expected: Vec<i64> = p.iter().map(|x| x.rem_euclid(17) as i64).collect();
    assert_eq!(poly_mul(&a, &b, &rp), expected);
    assert_eq!(poly_mul_u64(&a, &b, &rp64), expected);
    let expected: Vec<i64> = p.iter().map(|x| centered(*x, 17)).collect();
    assert_eq!(scale_mat(&a, &b, 1, 1, &rp), expected);
    assert_eq!(scale_mat_u64(&a, &b, 1, 1, &rp64), expected);
}

#[test]
fn commitments_of_a_small_modulus_are_summed() {
    let mut profile = d256_k4();
    profile.d = 8;
    profile.alpha_w = 3;
    profile.hvc_ring = HvcRing::U32(RingParams::new(17, 8, 3).unwrap());
    profile.kots_crt = Some(CrtConfig { q: 97, d: 8 });
    assert!(profile.validate());
    let ws: Vec<Vec<i64>> = vec![vec![1, 0, -1, 0, 0, 0, 0, 1], vec![0, 1, 0, 0, 0, 1, -1, 0]];
    let pks: Vec<LemurPk> = (0..2)
        .map(|s| LemurPk(HvcCom((0..16).map(|i| (i * (s + 5)) % 17).collect())))
        .collect();
    let r = weighted_sum_commitments(&ws, &pks, &profile);
    for p in 0..2 {
        let x = negacyclic(&ws[0], &pks[0].0 .0[8 * p..8 * p + 8]);
        let y = negacyclic(&ws[1], &pks[1].0 .0[8 * p..8 * p + 8]);
        for k in 0..8 {
            assert_eq!(r.0[8 * p + k] as i128, (x[k] + y[k]).rem_euclid(17));
        }
    }
    // The same ring with the transform of 62 bits gives the same sum.
    profile.hvc_ring = HvcRing::U64(RingParams64::new(17, 8, 3).unwrap());
    assert_eq!(weighted_sum_commitments(&ws, &pks, &profile).0, r.0);
    // A weight without a commitment is left out.
    let one = weighted_sum_commitments(&ws, &pks[..1], &profile);
    let x = negacyclic(&ws[0], &pks[0].0 .0[..8]);
    for k in 0..8 {
        assert_eq!(one.0[k] as i128, x[k].rem_euclid(17));
    }
    // No commitments sum to zero.
    let none: Vec<LemurPk> = Vec::new();
    assert_eq!(weighted_sum_commitments(&ws, &none, &profile).0, vec![0i64; 16]);
}

#[test]
fn product_with_the_aggregate_is_the_aggregate_of_the_products() {
    let cfg = CrtConfig { q: 12_289, d: 4 };
    let a: Vec<i64> = vec![5, -6000, 77, 1];
    let ws: Vec<Vec<i64>> = vec![vec![1, 0, -1, 0], vec![0, 1, 0, 1], vec![-1, -1, 0, 0]];
    let vs: Vec<Vec<i64>> = vec![vec![9, 8, 7, 6], vec![-5, 4, -3, 2], vec![100, 0, 6000, -1]];
    let refs: Vec<&[i64]> = vs.iter().map(|v| v.as_slice()).collect();
    let sum = aggregate_vec_crt_ntt(&ws, &refs, 1, &cfg.backend_for_accum(3));
    let left = scale_vec_crt(&a, &sum, 1, &cfg.backend());
    let products: Vec<Vec<i64>> =
        vs.iter().map(|v| scale_vec_crt(&a, v, 1, &cfg.backend())).collect();
    let refs: Vec<&[i64]> = products.iter().map(|v| v.as_slice()).collect();
    let right = aggregate_vec_crt_ntt(&ws, &refs, 1, &cfg.backend_for_accum(3));
    assert_eq!(left, right);
}

#[test]
fn groups_of_signers_add() {
    let profile = d256_k4();
    let d = profile.d;
    let q = profile.q_hvc() as i64;
    let ws: Vec<Vec<i64>> = (0..7)
        .map(|s| {
            let mut w = vec![0i64; d];
            w[s] = 1;
            w[200 + s] = -1;
            w
        })
        .collect();
    let pks: Vec<LemurPk> = (0..7)
        .map(|s| {
            let c = (0..2 * d).map(|i| (s as i64 + 3) * (i as i64) * 1_234_567_891).collect();
            LemurPk(HvcCom(c))
        })
        .collect();
    let all = weighted_sum_commitments(&ws, &pks, &profile);
    let first = weighted_sum_commitments(&ws[..3], &pks[..3], &profile);
    let rest = weighted_sum_commitments(&ws[3..], &pks[3..], &profile);
    for j in 0..2 * d {
        assert!(0 <= all.0[j] && all.0[j] < q);
        assert_eq!(all.0[j], (first.0[j] + rest.0[j]) % q);
    }
}
