# chapa

Bitfield structs over a single unsigned storage word, with every operation
specified and proved with Verus.

A bitfield is declared the way `#[bitfield(u32, order = msb0)]` and
`#[bits(...)]` attributes declare it: a storage type, a bit numbering (MSB-0 or
LSB-0), an optional effective width, and named fields, each selecting one or
more bit ranges, with `readonly`, `alias`, `overlay` and `default` options.
The library parses those attribute tokens, validates the definition, computes
the physical layout of every field, and reads and writes field values in a
storage word through that layout. C-like enums (`#[bitenum]`) resolve to
discriminant tables with a fallback variant. Masks over bit ranges, and the
extraction, insertion and placement of bits, complete it.

## Layout

- `src/model.rs`: storage kinds, bit order, ranges, field and bitfield definitions.
- `src/parse.rs`: the grammar of the attribute tokens, and struct resolution.
- `src/defaults.rs`: the values of `default = ...` expressions: literals, bit
  enum variants (`Mode::On`) and nested bitfields built by `with_*` calls
  (`Nibble::zeroed().with_high(3)`), resolved against the enums and nested
  bitfields in scope.
- `src/validate.rs`: the layout rules, with the exact set of violations.
- `src/ordering.rs`: logical ranges to physical shifts, masks and segments.
- `src/layout.rs`: a validated definition with the layout of each field.
- `src/access.rs`: gathering and scattering a field's bits.
- `src/bitfield.rs`: bitfield values: fields, defaults, raw arithmetic,
  bitwise operations, byte conversions, debug text.
- `src/bit_enum.rs`: bit enums.
- `src/mask.rs`: masks and bit extraction, insertion and placement.
- `src/define.rs`: the attribute entry points.
- `src/laws.rs`: properties across operations (reads after writes, disjoint
  fields, round trips).
- `app/lib.rs`: the `syn` front end that turns attribute and item token
  streams into the library's inputs and its errors into `syn::Error`s.
