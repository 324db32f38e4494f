//! Signing.

use crate::error::LemurError;
use crate::hvc::{BdsState, Hvc};
use crate::kots::{Kots, KotsPk, KotsSig};
use crate::lemur::keys;
use crate::lemur::keys::{make_leaf_fn, LeafSource};
use crate::lemur::{LemurPp, LemurSig, LemurSk, LemurStateSk};
use crate::text;
use crate::text::push_decimal;
use vstd::arithmetic::div_mod::*;
use vstd::arithmetic::power2::*;
use vstd::prelude::*;
use vstd::string::*;

verus! {

/// `z` is a one-time signature of the message under the key of slot `t`, and `opk` the public key.
pub open spec fn is_one_time<K: Kots, H: Hvc>(
    pp: &LemurPp<K, H>,
    master_seed: [u8; 32],
    t: usize,
    msg: &[u8],
    opk: KotsPk,
    z: KotsSig,
) -> bool {
    exists|ss: [u8; 32], osk: K::Sk|
        #![trigger call_ensures(K::kots_keygen, (&pp.kots_a, &ss, pp.profile), (osk, opk))]
        call_ensures(K::slot_seed, (&master_seed, t), ss) && call_ensures(
            K::kots_keygen,
            (&pp.kots_a, &ss, pp.profile),
            (osk, opk),
        ) && call_ensures(K::kots_sign, (&osk, msg, pp.profile), z)
}

/// Derives the one-time key of slot `t` and signs the message with it.
fn sign_one_time<K: Kots, H: Hvc>(
    pp: &LemurPp<K, H>,
    master_seed: &[u8; 32],
    t: usize,
    msg: &[u8],
) -> (r: (KotsPk, KotsSig))
    ensures
        is_one_time(pp, *master_seed, t, msg, r.0, r.1),
{
    let ss = K::slot_seed(master_seed, t);
    let (osk, opk) = K::kots_keygen(&pp.kots_a, &ss, pp.profile);
    let z = K::kots_sign(&osk, msg, pp.profile);
    (opk, z)
}

/// A signature from the master seed: a one-time signature, and the opening of the commitment at
/// the slot, computed from all leaves.
pub open spec fn is_seed_signature<K: Kots, H: Hvc>(
    pp: &LemurPp<K, H>,
    master_seed: [u8; 32],
    t: usize,
    msg: &[u8],
    sig: LemurSig<H>,
) -> bool {
    exists|opk: KotsPk|
        #![trigger is_one_time(pp, master_seed, t, msg, opk, sig.z)]
        is_one_time(pp, master_seed, t, msg, opk, sig.z) && call_ensures(
            H::hvc_open_with_known_leaf::<LeafSource<K>>,
            (&pp.hvc_pp.key, pp.hvc_pp.tau, t, &opk.0, &keys::leaves_of(pp, master_seed)),
            sig.opening,
        )
}

/// Signs at slot `t`: derives the one-time key of the slot and computes the opening from all
/// leaves.
pub fn lemur_sign_seed<K: Kots, H: Hvc>(
    pp: &LemurPp<K, H>,
    sk: &LemurSk,
    t: usize,
    msg: &[u8],
) -> (r: LemurSig<H>)
    ensures
        is_seed_signature(pp, sk.master_seed, t, msg, r),
{
    let (opk, z) = sign_one_time(pp, &sk.master_seed, t, msg);
    let leaves = make_leaf_fn(pp, sk.master_seed);
    let opening = H::hvc_open_with_known_leaf(
        &pp.hvc_pp.key,
        pp.hvc_pp.tau,
        t,
        &opk.0,
        &leaves,
    );
    let sig = LemurSig { z, opening };
    assert(is_one_time(pp, sk.master_seed, t, msg, opk, sig.z));
    sig
}

/// Signs at slot `t` from the master seed.
pub fn lemur_sign<K: Kots, H: Hvc>(pp: &LemurPp<K, H>, sk: &LemurSk, t: usize, msg: &[u8]) -> (r:
    LemurSig<H>)
    ensures
        call_ensures(lemur_sign_seed::<K, H>, (pp, sk, t, msg), r),
        is_seed_signature(pp, sk.master_seed, t, msg, r),
{
    lemur_sign_seed(pp, sk, t, msg)
}

impl<H: Hvc> Clone for LemurStateSk<H> {
    fn clone(&self) -> (r: Self)
        ensures
            is_copy(*self, r),
    {
        LemurStateSk {
            master_seed: self.master_seed,
            bds: BdsState {
                h: self.bds.h,
                phi: self.bds.phi,
                cache: self.bds.cache.clone(),
            },
        }
    }
}

/// The text of the error for a state of another depth.
pub open spec fn tau_message(h: usize, tau: usize) -> Seq<char> {
    "stateful sk tau="@ + text::decimal(h as nat) + " does not match pp tau="@ + text::decimal(
        tau as nat,
    )
}

/// The text of the error for another slot than the current one.
pub open spec fn slot_message(phi: usize, slot: usize) -> Seq<char> {
    "stateful signer is at slot "@ + text::decimal(phi as nat) + ", got "@ + text::decimal(
        slot as nat,
    )
}

/// The text of the error for a slot past the last one.
pub open spec fn range_message(slot: usize, last: nat) -> Seq<char> {
    "slot "@ + text::decimal(slot as nat) + " out of range [0, "@ + text::decimal(last) + "]"@
}

/// The state is one of another depth, or the slot that is given is not the current one.
pub open spec fn is_off_slot(h: usize, phi: usize, tau: usize, t: Option<usize>) -> bool {
    h != tau || (t matches Some(slot) && slot != phi)
}

/// Why a stateful signer refuses before it signs, and nothing where it does not.
pub open spec fn refusal(h: usize, phi: usize, tau: usize, t: Option<usize>) -> Option<Seq<char>> {
    if h != tau {
        Some(tau_message(h, tau))
    } else if t matches Some(slot) && slot != phi {
        Some(slot_message(phi, t->0))
    } else if phi >= pow2(tau as nat) {
        Some(range_message(phi, (pow2(tau as nat) - 1) as nat))
    } else {
        None
    }
}

/// The number of slots of a tree.
fn slot_count(tau: usize) -> (r: usize)
    requires
        tau < usize::BITS,
    ensures
        r == pow2(tau as nat),
{
    let mut r: usize = 1;
    let mut i: usize = 0;
    proof {
        lemma2_to64();
    }
    while i < tau
        invariant
            i <= tau < usize::BITS,
            r == pow2(i as nat),
        decreases tau - i,
    {
        proof {
            lemma2_to64();
            lemma_pow2_unfold((i + 1) as nat);
            if i + 1 < usize::BITS - 1 {
                lemma_pow2_strictly_increases((i + 1) as nat, (usize::BITS - 1) as nat);
            }
            assert(pow2(31) == 0x8000_0000);
            assert(pow2(63) == 0x8000_0000_0000_0000) by {
                lemma2_to64_rest();
            }
        }
        r = r * 2;
        i += 1;
    }
    r
}

/// Tests whether a stateful signer refuses, and words the error.
fn check_state(h: usize, phi: usize, tau: usize, t: Option<usize>) -> (r: Option<String>)
    requires
        tau < usize::BITS || is_off_slot(h, phi, tau, t),
    ensures
        match r {
            None => refusal(h, phi, tau, t) is None,
            Some(text) => refusal(h, phi, tau, t) == Some(text@),
        },
{
    if h != tau {
        let mut text: String = String::from_str("stateful sk tau=");
        push_decimal(&mut text, h);
        text.append(" does not match pp tau=");
        push_decimal(&mut text, tau);
        return Some(text);
    }
    if let Some(slot) = t {
        if slot != phi {
            let mut text: String = String::from_str("stateful signer is at slot ");
            push_decimal(&mut text, phi);
            text.append(", got ");
            push_decimal(&mut text, slot);
            return Some(text);
        }
    }
    let n_slots: usize = slot_count(tau);
    proof {
        lemma_pow2_pos(tau as nat);
    }
    if phi >= n_slots {
        let mut text: String = String::from_str("slot ");
        push_decimal(&mut text, phi);
        text.append(" out of range [0, ");
        push_decimal(&mut text, n_slots - 1);
        text.append("]");
        return Some(text);
    }
    None
}

/// Signs with the state of the tree traversal, which moves to the next slot.
///
/// The current slot is `sk_state.bds.phi`.  A slot that is given must be that one.  At the last
/// slot the state stays where it is.  On an error the state is left unchanged.
pub fn lemur_sign_stateful_mut<K: Kots, H: Hvc>(
    pp: &LemurPp<K, H>,
    sk_state: &mut LemurStateSk<H>,
    msg: &[u8],
    t: Option<usize>,
) -> (r: Result<(LemurSig<H>, usize), LemurError>)
    requires
        pp.hvc_pp.tau < usize::BITS || is_off_slot(
            old(sk_state).bds.h,
            old(sk_state).bds.phi,
            pp.hvc_pp.tau,
            t,
        ),
    ensures
        refusal(old(sk_state).bds.h, old(sk_state).bds.phi, pp.hvc_pp.tau, t) matches Some(text)
            ==> (r matches Err(LemurError::InvalidEncoding(s)) && s@ == text),
        refusal(old(sk_state).bds.h, old(sk_state).bds.phi, pp.hvc_pp.tau, t) is None ==> (match r {
            Ok((sig, slot)) => {
                &&& slot == old(sk_state).bds.phi
                &&& is_state_signature(pp, *old(sk_state), msg, sig)
            },
            Err(e) => is_open_error(pp, *old(sk_state), e),
        }),
        r is Ok ==> old(sk_state).bds.h == pp.hvc_pp.tau && old(sk_state).bds.phi < pow2(
            pp.hvc_pp.tau as nat,
        ) && (t matches Some(slot) ==> slot == old(sk_state).bds.phi),
        r is Err ==> *final(sk_state) == *old(sk_state),
        r is Ok && old(sk_state).bds.phi + 1 >= pow2(pp.hvc_pp.tau as nat) ==> *final(sk_state)
            == *old(sk_state),
        r is Ok && old(sk_state).bds.phi + 1 < pow2(pp.hvc_pp.tau as nat) ==> {
            &&& is_next_state(*old(sk_state), *final(sk_state))
            &&& exists|cache: &mut H::Cache|
                #![trigger call_ensures(
                    H::bds_advance::<LeafSource<K>>,
                    (
                        cache,
                        &pp.hvc_pp.key,
                        pp.hvc_pp.tau,
                        old(sk_state).bds.phi,
                        &keys::leaves_of(pp, old(sk_state).master_seed),
                    ),
                    (),
                )]
                *cache == old(sk_state).bds.cache && *final(cache) == final(sk_state).bds.cache
                    && call_ensures(
                    H::bds_advance::<LeafSource<K>>,
                    (
                        cache,
                        &pp.hvc_pp.key,
                        pp.hvc_pp.tau,
                        old(sk_state).bds.phi,
                        &keys::leaves_of(pp, old(sk_state).master_seed),
                    ),
                    (),
                )
        },
{
    if let Some(text) = check_state(sk_state.bds.h, sk_state.bds.phi, pp.hvc_pp.tau, t) {
        return Err(LemurError::InvalidEncoding(text));
    }
    let slot: usize = sk_state.bds.phi;
    let leaves = make_leaf_fn(pp, sk_state.master_seed);
    let (opk, z) = sign_one_time(pp, &sk_state.master_seed, slot, msg);
    let opening = match H::bds_opening(
        &sk_state.bds.cache,
        &pp.hvc_pp.key,
        pp.hvc_pp.tau,
        slot,
        &leaves,
    ) {
        Ok(opening) => opening,
        Err(e) => {
            return Err(e);
        },
    };
    let n_slots: usize = slot_count(pp.hvc_pp.tau);
    let sig = LemurSig { z, opening };
    assert(is_one_time(pp, old(sk_state).master_seed, slot, msg, opk, sig.z));
    if slot + 1 < n_slots {
        H::bds_advance(&mut sk_state.bds.cache, &pp.hvc_pp.key, pp.hvc_pp.tau, slot, &leaves);
        sk_state.bds.phi = slot + 1;
    }
    Ok((sig, slot))
}

/// `lemur_sign_stateful_mut` on a copy of the state, so that the state that was given stays valid.
pub fn lemur_sign_stateful<K: Kots, H: Hvc>(
    pp: &LemurPp<K, H>,
    sk_state: &LemurStateSk<H>,
    msg: &[u8],
    t: Option<usize>,
) -> (r: Result<(LemurSig<H>, LemurStateSk<H>, usize), LemurError>)
    requires
        pp.hvc_pp.tau < usize::BITS || is_off_slot(
            sk_state.bds.h,
            sk_state.bds.phi,
            pp.hvc_pp.tau,
            t,
        ),
    ensures
        r is Ok ==> sk_state.bds.h == pp.hvc_pp.tau && sk_state.bds.phi < pow2(
            pp.hvc_pp.tau as nat,
        ) && (t matches Some(slot) ==> slot == sk_state.bds.phi),
        refusal(sk_state.bds.h, sk_state.bds.phi, pp.hvc_pp.tau, t) matches Some(text) ==> (
        r matches Err(LemurError::InvalidEncoding(s)) && s@ == text),
        refusal(sk_state.bds.h, sk_state.bds.phi, pp.hvc_pp.tau, t) is None ==> exists|
            copy: LemurStateSk<H>,
        | #[trigger]
            is_copy(*sk_state, copy) && (match r {
                Ok((sig, next, slot)) => {
                    &&& slot == sk_state.bds.phi
                    &&& is_state_signature(pp, copy, msg, sig)
                    &&& slot + 1 >= pow2(pp.hvc_pp.tau as nat) ==> next == copy
                    &&& slot + 1 < pow2(pp.hvc_pp.tau as nat) ==> {
                        &&& is_next_state(copy, next)
                        &&& exists|cache: &mut H::Cache|
                            #![trigger call_ensures(
                                H::bds_advance::<LeafSource<K>>,
                                (
                                    cache,
                                    &pp.hvc_pp.key,
                                    pp.hvc_pp.tau,
                                    copy.bds.phi,
                                    &keys::leaves_of(pp, copy.master_seed),
                                ),
                                (),
                            )]
                            *cache == copy.bds.cache && *final(cache) == next.bds.cache
                                && call_ensures(
                                H::bds_advance::<LeafSource<K>>,
                                (
                                    cache,
                                    &pp.hvc_pp.key,
                                    pp.hvc_pp.tau,
                                    copy.bds.phi,
                                    &keys::leaves_of(pp, copy.master_seed),
                                ),
                                (),
                            )
                    }
                },
                Err(e) => is_open_error(pp, copy, e),
            }),
        exists|state: &mut LemurStateSk<H>, in_place: Result<(LemurSig<H>, usize), LemurError>|
            #![trigger call_ensures(lemur_sign_stateful_mut::<K, H>, (pp, state, msg, t), in_place)]
            is_copy(*sk_state, *state) && call_ensures(
                lemur_sign_stateful_mut::<K, H>,
                (pp, state, msg, t),
                in_place,
            ) && (match in_place {
                Ok((sig, slot)) => r == Ok::<_, LemurError>((sig, *final(state), slot)),
                Err(e) => r == Err::<(LemurSig<H>, LemurStateSk<H>, usize), _>(e),
            }),
{
    let mut next_state = sk_state.clone();
    let ghost copy = next_state;
    assert(is_copy(*sk_state, copy));
    match lemur_sign_stateful_mut(pp, &mut next_state, msg, t) {
        Ok((sig, slot)) => Ok((sig, next_state, slot)),
        Err(e) => Err(e),
    }
}

/// A state that a successful signature left behind, before the last slot.
pub open spec fn is_next_state<H: Hvc>(before: LemurStateSk<H>, after: LemurStateSk<H>) -> bool {
    &&& after.master_seed == before.master_seed
    &&& after.bds.h == before.bds.h
    &&& after.bds.phi == before.bds.phi + 1
}

/// `b` is a copy of the state `a`.
pub open spec fn is_copy<H: Hvc>(a: LemurStateSk<H>, b: LemurStateSk<H>) -> bool {
    &&& b.master_seed == a.master_seed
    &&& b.bds.h == a.bds.h
    &&& b.bds.phi == a.bds.phi
    &&& cloned(a.bds.cache, b.bds.cache)
}

/// A signature with the state of a traversal: a one-time signature under the key of the current
/// slot, and the opening that the cache gives.
pub open spec fn is_state_signature<K: Kots, H: Hvc>(
    pp: &LemurPp<K, H>,
    state: LemurStateSk<H>,
    msg: &[u8],
    sig: LemurSig<H>,
) -> bool {
    &&& exists|opk: KotsPk|
        #[trigger] is_one_time(pp, state.master_seed, state.bds.phi, msg, opk, sig.z)
    &&& call_ensures(
        H::bds_opening::<LeafSource<K>>,
        (
            &state.bds.cache,
            &pp.hvc_pp.key,
            pp.hvc_pp.tau,
            state.bds.phi,
            &keys::leaves_of(pp, state.master_seed),
        ),
        Ok(sig.opening),
    )
}

/// An error with which the cache gives no opening.
pub open spec fn is_open_error<K: Kots, H: Hvc>(
    pp: &LemurPp<K, H>,
    state: LemurStateSk<H>,
    e: LemurError,
) -> bool {
    call_ensures(
        H::bds_opening::<LeafSource<K>>,
        (
            &state.bds.cache,
            &pp.hvc_pp.key,
            pp.hvc_pp.tau,
            state.bds.phi,
            &keys::leaves_of(pp, state.master_seed),
        ),
        Err(e),
    )
}

} // verus!
