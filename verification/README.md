# flowlab

A market-microstructure library whose executable code is verified with
[Verus](https://github.com/verus-lang/verus), and a small engine around it.

## Layout

- `src/` is the library.
  - `book`: events, the reference order book, the fixed-depth book with its
    hash-indexed slab, the replay state machine with its gap detection, and
    digests. `book::laws` relates the two books to each other.
  - `flow`: order-to-trade and position limits (`circuit_breaker`), imbalance,
    spread, price impact, VPIN and regimes.
  - `chaos`: seven detectors of aggressive patterns, the chain that runs them all,
    clustering of flags into episodes, stress windows, generators of each pattern,
    and the storm that runs generators against the clock. `chaos::closure` shows
    that a detector finds what the generator of its pattern makes.
  - `engine`: the pipeline from an event to the frames that are published, the walk
    over files of exchange messages, a synthetic source, and the wire format.
  - `lab`: running a strategy against a stream.
  - `bench`: workloads and latency histograms.
- `app/` is the engine as a program. It holds what needs a clock, a socket, a file,
  a serialiser or floating point.
- `tests/` runs the library.

## Conventions

Contracts speak of mathematical models: each stateful type has a view, and an
operation states its effect as a function on that view. A type with an internal
invariant has a `wf` predicate.

The library holds no floating point. A limit is a `Ratio`, a reported figure is a
`Fraction` or a `SignedFraction`, and a severity is a sum of weighted terms, all
exact. `chaos::scale` compares severities and takes their peak and mean over several
flags, in numbers as large as that takes (`natural`). Where a decision needs
statistics (whether the rate of cancels is unusual), the library hands out the exact
sample and takes the verdict as an argument.

Time never comes from inside: functions that need it take nanoseconds.

Facts that relate several operations are public proof functions with plain names,
such as `books_agree`, `cancel_undoes_add` or `storms_are_reproducible`.

What is trusted rather than proved are calls into `xxhash-rust`, `hashbrown`,
`rand` and two methods of `BTreeMap`. Each stands behind a function whose comment
says what is claimed of it.
