# flock_core

The host side of a prover over GF(2^128) whose heavy arithmetic may run on another
device. The library is written in Verus: what each function does is stated in its
contract and proved.

## What is in it

- `field`, `unreduced`: GF(2^128) with its laws, and products that are reduced late.
- `multilinear`, `rounds`, `extension`: equality tables, folding, round messages, and
  what they mean for multilinear polynomials.
- `padding`, `univariate`: the univariate-skip fold of packed bit planes.
- `zerocheck`, `resident_ab`, `cpu_ab`, `zerocheck_host`: the zerocheck prover whose
  first rounds a provider computes, a provider for the host's own processor, and the
  prover of the host alone.
- `sumcheck`, `ligerito`, `host`, `resident_prefix`, `started_prefix`, `cpu_prefix`,
  `opening`, `batch`: the recursive opening proof, made with a provider or by the host
  alone, and a whole batch of openings from the geometry test to the proof.
- `faithful`: with a provider that answers as the host would, the proof is the host's.
- `running`, `reader`, `zerocheck_reader`: what a reader of a proof follows. The claim
  stays true of the planes from step to step, an opening of true claims is accepted, and
  the zerocheck sum goes through every round to the product of the two evaluations.
- `unique`, `parity`, `zerocheck_parity`: a proof is determined by its inputs and by
  what the transcript and the kernels answered, so a run with the processor provider
  gives the proof, the claim and the transcript of the host, to the last element.
- `repeat`, `faults`: attempts that a provider brings down end at the same point each
  time, with the error and the counters that its fault leads to.
- `keccak`, `keccak3`: the Keccak permutation, and witness blocks for three of them.
- `transcript`, `mix_transcript`, `samples`: the transcript interface, a deterministic
  transcript for tests, and reproducible inputs.

`app/` spreads the univariate fold over a pool of threads.

## How outside work appears in contracts

A transcript and a provider are traits. Each keeps a ghost log of its calls, and the
provers say exactly which events and calls a run appends to them, also when a provider
fails. What a provider or a transcript keeps true of itself (`consistent`) holds after a
run if it held before, so the planes, the counters and the replies of the processor
provider can be read off its log. The numeric kernels (the first-round sums, the code and
its Merkle tree, the bases induced by opened rows) are parameters: a contract speaks of
what they answered through `call_ensures`.
