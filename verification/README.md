# design_project_m11

A pipes-and-filters framework for streams of sensor data chunks, with its logic
verified in Verus.

- `src/chain.rs`: the bounded buffer and the windowing stage that runs one filter,
  with the laws that a stage, and a chain of stages, passes every chunk on once and
  in order.
- `src/primes.rs`: prime factorisation as mathematics, and its laws.
- `src/readwrite.rs`: prime factors and chunk sizing, the empty reader, and the
  planning of reads from and writes to datasets by their shapes.
- `src/filters.rs`: the filter types and their configuration.
- `app/`: the program around the library: threads and channels, the chunk type with
  its floating-point data, the HDF5 file access and the filters' arithmetic.
