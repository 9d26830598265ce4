# Large-scale collision and birthday-spacings tests for pseudorandom number generators

Two empirical tests for pseudorandom number generators, the *collision test* and the
*birthday-spacings test*, with space-time tradeoffs, decimation, repetitions and parallel generation
that open the way to very large scale execution with a limited amount of memory.

The tests draw the *u* ≤ 64 − *s* upper bits from the 64-bit output shifted to the left by *s*, *t*
times, forming *t*-tuples of cell indices. With *d* < *u* decimation bits, only those tuples in which
all elements have the lower *d* bits equal to zero are kept: the cell space has size (2ᵘ⁻ᵈ)ᵗ. With *b*
tradeoff bits, the combined index is partitioned into 2ᵇ value intervals by its top *b* bits, and each
interval is processed in a pass; the birthday-spacings test counts by a second level, on the lower *b*
bits of the spacings.

## Layout

- `src/` is the library, written in Verus. Every item states its contract, and every contract is
  proved. What is taken from other crates (radix sorting, the thread pool, modular powers of large
  numbers) stands behind wrappers whose contracts are believed; each of them says so.
- `tests/` runs the library on concrete values.
- `app/` is the program: argument parsing, memory maps, *p*-values, and printing.

## What is proved

- A generator that jumps ahead by *n* lands where *n* draws would.
- A runner returns the collision count of exactly the points that the orbit of its generator gives,
  or names the buffer that was too small for them; what it reports ends there.
- The passes of a tradeoff, together or each run alone, sum to the count of the plain test.
- Parallel tests find what sequential ones do, on any number of threads.
- Storage of any sufficient width gives the same counts, also where the number of cells is one more
  than the largest number it can hold.
