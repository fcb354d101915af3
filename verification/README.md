# vcable

Virtual audio cables: devices are connected by routes, each with a channel matrix and a gain. A
daemon keeps the routes, answers requests over a local socket, and moves the samples between the
devices.

## Layout

- `src/` is the library, verified with Verus.
  - `graph`, `routing`: endpoints, routes, and the graph that admits no feedback
  - `matrix`, `ring`: channel matrices, and the queue between a producer and a consumer
  - `resampler`, `pcm`: resampling, and streams between the process and a device
  - `device`: what Core Audio says of its devices, and commands to the driver
  - `router`, `incoming`, `buffers`, `io`: the plan of a set of routes, and what a device's callback
    does
  - `protocol`, `fields`, `text`, `cli`: messages, command lines, and the text in them
  - `daemon`, `requests`, `endpoints`, `saved`, `textmap`: the daemon's state and how it carries a
    request out
  - `float`: floating-point values as bit patterns
- `app/` holds the two programs, `vcabled` and `vcablectl`: sockets, files and Core Audio.
- `tests/` runs the library.

## What the proofs cover

Contracts are stated over mathematical models: sequences of samples, maps of endpoints and routes,
and relations between the states before and after a step. Public proof functions state what holds
across several operations, such as that an accepted route never makes feedback, that a message that
was written is read back, and that frames are used in the order in which they were queued.

Floating-point arithmetic is not covered. Values are bit patterns, and the operations on them come in
through the trait `FloatMath`, of which nothing is assumed: contracts say which operation is applied
to which values.

One function is taken on trust: `text_from_utf8`, which calls `String::from_utf8`.

Work outside, such as saving a file or starting the router, is not done by the library. It says what
is to be done next (`Action`), and goes on with what came of it (`Event`).
