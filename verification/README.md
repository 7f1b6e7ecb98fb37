# lib: multi-limb greatest common divisor, verified with Verus

Natural numbers are held as little-endian vectors of 64-bit limbs. The
library computes the greatest common divisor of two such numbers with the
binary algorithm, and proves with Verus that the limbs it writes hold the
greatest common divisor of the two inputs when the second is nonzero (0 when
it is 0), and how many limbs it reports for that result; a limb carried out
when the common low zero bits are put back is written past that count.

- `src/ll/limb_value.rs`: the value of a limb sequence, and facts about it
  (splitting, bounds, shifting bits across two limbs, trailing zero bits).
- `src/ll/euclid.rs`: the greatest common divisor of natural numbers
  (Euclid's definition) and the facts the binary algorithm rests on.
- `src/ll/limbs.rs`: routines on windows of limb vectors: zero test, shifts,
  subtraction, comparison, copying, stripping zero limbs.
- `src/ll/limb_count.rs`: the limb count that `gcd` reports, as a function
  of its inputs.
- `src/ll/gcd.rs`: `gcd`, with its contract and the law that its result is
  the greatest common divisor.
