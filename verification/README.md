# visloc

The decisions of a visual-inertial odometry pipeline and of a multi-robot loop-closing pipeline, as a
Verus library: every function has a contract, and Verus proves it.

## Layout

- `src/basalt/`: the estimator. Settings, the start from a device at rest, the choice of samples for
  integration, the stores of tracks and landmarks, the window of frames, the problem that a solver is
  given, what leaves the window and when, what is told of a frame, the packets for the mapper, and the
  diagnostic records.
- `src/multi_robot/`: the exchange between robots. Records and their checks, cutting keyframes into
  sequences, covisibility, retrieval, verification of loops, and the graph of all keyframes.
- `src/tensorrt.rs`: the tensors that go in and out of an inference engine.
- `src/ieee.rs`: order, sign and finiteness of real numbers, read off their bits.
- `src/text.rs`, `src/ordered.rs`, `src/json.rs`, `src/digest.rs`: text, ordered collections, and the
  two outside libraries that the pipelines call.
- `tests/`: tests of the library from outside.
- `app/`: ordinary Rust around the library. It measures, solves, reads and writes.

## Real numbers

The library does no floating-point arithmetic. A real number is held as its bits. The library compares
numbers and decides; what has to be computed in real numbers is measured by the caller and handed in.

## What is proved

Each function states when it succeeds, what it returns, and which refusal comes for which input. Laws
that join several functions are public proof functions: that a solved frame leaves the window below its
limit with the newest state in it, that an estimator tells the same of every frame whether or not packets
are kept, that frames pass the start unchanged and in order, that components do not depend on the order
in which messages arrive, that what an encoder makes is accepted by those that take it in, and so on.

## What is believed

Four small functions call outside code behind a contract that is believed: reading JSON (two), SHA-256,
and the order of bytes of the machine. Their doc comments say what is claimed.
