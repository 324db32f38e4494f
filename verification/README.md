# Lemur

Synchronized multi-signatures: signers sign messages under time slots, and the signatures of many
signers on one message under one slot aggregate into one. The library is written in Rust and
verified with Verus.

A signature is a one-time signature under the key of its slot, together with an opening of a
commitment to the one-time public keys of all slots. An aggregate is the weighted sum of both, with
ternary weights hashed from the slot, the message, the public keys and the number of the attempt.

## Layout

| Module | What it holds |
| --- | --- |
| `arith`, `ring`, `transform` | integers modulo `q`, the ring `Z[X]/(X^n + 1)`, the transform as mathematics |
| `residue`, `ntt` | residues of up to 62 bits and the transform as code |
| `aux_ntt` | exact products modulo a modulus without a transform, through two auxiliary primes |
| `poly` | products modulo a modulus with a transform |
| `weighted`, `parallel` | weighted sums of many vectors, accumulated chunk by chunk |
| `bytes`, `sample`, `text` | little-endian bytes, the ternary weights, decimal numbers in messages |
| `profile`, `params` | parameter sets and sampler constants |
| `kots`, `hvc` | what the scheme asks of one-time signatures and of commitments; the projections of labels |
| `lemur` | setup, keys, signing, verification, aggregation |
| `laws`, `scheme_laws` | what holds of the library as a whole |

The one-time signatures and the commitments are parameters of the scheme: the traits `Kots` and
`Hvc` promise nothing of them, and the contracts of `lemur` say which of their answers led to which
result. `scheme_laws` says what follows where they are functions of their arguments and complete.

`app` times the steps of an aggregation with two small linear schemes.

## What is not proved

Four calls go to other crates: `rayon` maps a function over indices, runs one until it fails, and
tells the number of its threads; `sha3` computes SHAKE128. What is claimed of them stands above
`map_indices`, `try_indices`, `current_num_threads` and `shake128`.
