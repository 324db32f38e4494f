use lemur::hvc::{proj_label_with_profile, proj_label_zz_with_profile};
use lemur::profile::{d256_k4, Profile};

fn center(x: i64, q: i64) -> i64 {
    if x > q / 2 {
        x - q
    } else {
        x
    }
}

#[test]
fn proj_label_zz_matches_centered_modq_on_arbitrary_label() {
    // For any label (digit polynomial), the centered representative of
    // proj_q is congruent to proj_zz mod q.  They are equal whenever
    // proj_zz lands inside [-(q-1)/2, (q-1)/2].
    let profile: &Profile = &d256_k4();
    let d = profile.d;
    let omega = profile.omega;
    let kappa = profile.kappa;
    let eta = profile.eta;
    let q = profile.q_hvc() as i64;

    // A small label with |digits| <= eta, by a deterministic pattern.
    let mut label = vec![0i64; omega * kappa * d];
    for k in 0..(omega * kappa) {
        for i in 0..d {
            let v = ((k * d + i) as i64) % (2 * eta + 1) - eta;
            label[k * d + i] = v;
        }
    }

    let proj_q = proj_label_with_profile(&label, profile);
    let proj_zz = proj_label_zz_with_profile(&label, profile);
    assert_eq!(proj_q.len(), omega * d);
    assert_eq!(proj_zz.len(), omega * d);

    let half_q = (q as i128 - 1) / 2;
    for i in 0..(omega * d) {
        let centered = center(proj_q[i], q) as i128;
        // Congruence mod q always holds.
        assert_eq!(
            (proj_zz[i] - centered).rem_euclid(q as i128),
            0,
            "centered mod q must be congruent to ZZ-proj at i={i}"
        );
        // Equality holds whenever proj_zz lands inside [-(q-1)/2, (q-1)/2].
        if proj_zz[i].abs() <= half_q {
            assert_eq!(
                centered, proj_zz[i],
                "centered must equal ZZ-proj in the central band at i={i}"
            );
        }
    }
}

#[test]
fn proj_label_zz_exceeds_q_over_2_for_max_eta_digits() {
    // All-eta digits push the ZZ-projection past q/2, the threshold for one signature.  There a
    // check of the centered representative would be capped at q/2 and accept.
    let profile: &Profile = &d256_k4();
    let d = profile.d;
    let omega = profile.omega;
    let kappa = profile.kappa;
    let eta = profile.eta;
    let q = profile.q_hvc() as i64;

    let label = vec![eta; omega * kappa * d];

    let proj_zz = proj_label_zz_with_profile(&label, profile);
    let proj_q = proj_label_with_profile(&label, profile);
    let centered: Vec<i64> = proj_q.iter().map(|&x| center(x, q)).collect();

    let max_zz = proj_zz.iter().map(|x| x.abs()).max().unwrap();
    let max_centered = centered.iter().map(|x| x.abs()).max().unwrap();

    // Closed form: sum_{k=0}^{kappa-1} eta * (2*eta+1)^k = ((2*eta+1)^kappa - 1)/2
    let b_val = (2 * eta + 1) as i128;
    let mut expected: i128 = 0;
    let mut base: i128 = 1;
    for _ in 0..kappa {
        expected += eta as i128 * base;
        base *= b_val;
    }
    assert_eq!(max_zz, expected);

    // The centered representative is bounded by q/2.
    assert!(max_centered <= q / 2);
    // The integer value exceeds q/2.
    assert!(max_zz > q as i128 / 2);

    // For one signature the threshold is q*eta/(2*eta) = q/2 exactly.
    let threshold_ivrfy = (q as i128 * eta as i128) / (2 * eta) as i128;
    assert!((max_centered as i128) <= threshold_ivrfy);
    assert!(max_zz > threshold_ivrfy);
}

#[test]
fn projection_reads_digits_from_the_lowest() {
    let profile = d256_k4();
    let d = profile.d;
    let kappa = profile.kappa;
    let mut label = vec![0i64; profile.omega * kappa * d];
    // Polynomial 1, coefficient 3: the digits 2, -1, 0, 0, 5 of base 339.
    label[kappa * d + 3] = 2;
    label[(kappa + 1) * d + 3] = -1;
    label[(kappa + 4) * d + 3] = 5;
    let zz = proj_label_zz_with_profile(&label, &profile);
    let value: i128 = 2 - 339 + 5 * 339 * 339 * 339 * 339;
    assert_eq!(zz[d + 3], value);
    assert_eq!(zz.iter().filter(|x| **x != 0).count(), 1);
    let modq = proj_label_with_profile(&label, &profile);
    assert_eq!(modq[d + 3] as i128, value);
}

#[test]
fn projection_of_a_negative_label_is_reduced() {
    let profile = d256_k4();
    let q = profile.q_hvc() as i64;
    let mut label = vec![0i64; profile.omega * profile.kappa * profile.d];
    label[0] = -1;
    assert_eq!(proj_label_zz_with_profile(&label, &profile)[0], -1);
    assert_eq!(proj_label_with_profile(&label, &profile)[0], q - 1);
    label[0] = i64::MIN;
    assert_eq!(
        proj_label_with_profile(&label, &profile)[0],
        i64::MIN.rem_euclid(q)
    );
}

#[test]
fn shipped_profile_has_its_parameters() {
    let profile = d256_k4();
    assert!(profile.validate());
    assert_eq!(profile.name, "D256_K4");
    assert_eq!((profile.d, profile.k, profile.tau), (256, 4, 20));
    assert_eq!((profile.omega, profile.kappa, profile.eta), (2, 5, 169));
    assert_eq!((profile.alpha_w, profile.beta_z), (23, 7023));
    assert_eq!((profile.beta_agg, profile.gamma), (175_655, 10));
    assert_eq!(profile.n_signers, 1024);
    // The crossover of the no-wrap bound.
    assert_eq!(profile.q_kots() / (2 * 23 * 7023), 10_739);
}

#[test]
fn profile_with_parts_that_do_not_fit_is_not_valid() {
    let mut profile = d256_k4();
    profile.alpha_w = profile.d + 1;
    assert!(!profile.validate());
    let mut profile = d256_k4();
    profile.d = 128;
    assert!(!profile.validate());
    let mut profile = d256_k4();
    profile.kots_crt = None;
    assert!(!profile.validate());
    let mut profile = d256_k4();
    profile.kappa = 20;
    assert!(!profile.validate());
    let mut profile = d256_k4();
    profile.beta_z = -1;
    assert!(!profile.validate());
}
