# neant

A small expression-oriented language whose compiler infers, for every function, what it costs: the
work it does and the bytes it moves across the cache boundary. This crate is the verified library
behind it, in Verus, with a thin command line around it.

- `lex`, `grammar`, `parse`, `ast`: source to tree. `grammar` says what the grammar is; `parse`
  reads it.
- `typing`, `types`, `ir`: the typing rules, and the checker that follows them.
- `compile`: source to typed module. `dump`: what was read, as numbers. `decimals`: how a decimal
  literal is written out.
- `cost`: symbolic costs.
  - `rat`, `model`, `assoc`, `algebra`, `size`, `subst`, `forms`, `sums`: exact rationals and
    polynomials over sizes and the machine's `B` and `M`.
  - `piece`, `costs`, `machine`, `logs`, `wide`: costs by regime, and their values at sizes that are
    numbers, infinite or neither. `point`: polynomials at the point where every size is a million.
  - `affine`, `scope`, `reading`, `trees`, `recognise`, `settle`, `footprint`, `recur`, `declare`:
    the parts of the calculus. `rules` says what the walk over a function does; `track`, `calls`
    and `walk` do it; `analyze` runs it on a module.
  - `bounds`, `linear`, `iolb`: lower bounds. `rewrite`, `tiling`: what could be done about the gap.
  - `lock`, `measure`, `scop`, `evaluate`, `show`: reports, drivers and exports.
  - `laws`, `pruning`, `regimes`, `summing`: what holds of costs as functions of the sizes.
    `degrees`, `replacing`, `rooting`: what holds of products, substitutions and roots. `turns`: a sum
    over a loop follows its turns. `unrolling`: the total of a linear recurrence meets it. `tiles`:
    tiled loops run the turns of the loops they replace, each once. `radix`: an
    index that passes the test is injective. `vertices`: the exponent of a nest is the least of all.
    `ledger`: what a lockfile gives back.
- `app/`: the command line.

Floating point does not occur; infinities, and what is not a number, are values of their own where a
size may be one. A whole power or an exact root is exact. An irrational power is kept to
four decimals where it becomes a coefficient; where it is only a value, it or its inverse, whichever
is more than one, is kept to sixteen. A logarithm is the sum of twelve terms of its series for every
factor of two. What is compared is compared exactly, on those numbers.
