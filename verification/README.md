# entry_orders

Decides which orders open and enlarge a position on a perpetual futures market, long or short:
the first entry at a distance from a band of moving averages, then re-entries on a grid, by
trailing, or on a divergence between price and RSI. Entries are sized by a wallet exposure limit,
which they may pass in two cases: by one percent before they are cropped, and by what the exchange
takes at the least. The library also plans the entries ahead that follow when each next one is
filled.

Everything is computed in IEEE 754 double precision. The library holds doubles by their bits
(`Binary64`) and computes them with integers, so that every result is proved, bit for bit, down
to the rounding of each operation.

## Layout

- `src/entries.rs`: the functions that callers use.
- `src/rules.rs`: what they return, stated once for both sides of the market.
- `src/laws.rs`: what holds of all entries and plans. As long as the book has a price, entries do
  not cross it, and planned prices strictly improve. Entries meet the exchange's minimum, except
  for inflated grid entries and where that minimum is not a number. In a grid of sensible settings
  more exposure never brings a re-entry closer to the position.
- `src/landing.rs`: where entries end. A cropped or an inflated entry ends at the exposure limit,
  but for half a quantity step and the last decimal, and up to a stated rounding error, as long as
  all that goes into it lies between `2^-100` and `2^100`.
- `src/accuracy.rs`, `src/interpolation.rs`: how exact the formulas are. The smallest quantity that
  the exchange takes costs no less than its smallest cost, up to a stated rounding error.
- `src/side.rs`, `src/types.rs`, `src/utils.rs`: the two sides, the parameters and orders, and the
  formulas on prices, quantities and exposures.
- `src/binary64.rs`, `src/arithmetic.rs`, `src/rounding.rs`, `src/monotone.rs`,
  `src/precision.rs`, `src/reals.rs`, `src/constants.rs`: the numbers.
  A finite double is a whole number of units of `2^-1074`; rounding is to the nearest double, ties
  to even.
- `app/lib.rs`: the same functions for callers that hold their numbers as `f64`.
- `tests/`: worked examples, and comparisons with the processor's own doubles.

## Conventions

- A NaN that an operation produces always has the same bits. Only whether a number is a NaN is
  ever looked at.
- Of two equal zeros, `max` and `min` return the first.
