# field_arith

Arithmetic for prime fields, verified with Verus.

- `src/limbs.rs`: `adc`, `sbb`, `mac`, and products and squares of four limbs
  accumulated into eight.
- `src/sqrt.rs`: `SqrtTables`, which takes square roots of ratios in a field of
  2-adicity 32 by looking discrete logarithms up in tables.
- `src/helpers.rs`: the trait that such a field implements.
- `src/field.rs`, `src/modular.rs`: the mathematics of those fields.
- `src/choice.rs`: the flags of the `subtle` crate.
- `src/proth.rs`: a field with the modulus 43 * 2^32 + 1.
- `app/`: the tables for fields of the `ff` crate.
