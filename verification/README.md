# residual_risk

How much a passing property test has shown: the counts behind a 95% failure bound, the coverage
regions the passing test cases ran, and the chance that the next test case runs code that no test
case has run, max(k/n, 1/(n+2)).

The library in `src/` is written in Verus; every function there carries a contract that Verus
proves, except the few wrappers that call the outside crates (`md5`, `miniz_oxide`, `object`) and
`String::push`, whose contracts are trusted and say so in their doc comments.

- `campaign`: which calls of a test body are new test cases (replays of persisted failures and
  shrinking after a failure pass through unrecorded) and what is counted once the runner returns.
- `estimators`: k, the singletons, the distinct elements and the chance of new code as a fraction.
- `mapping`: LLVM's coverage mapping (`__llvm_covmap`, `__llvm_covfun`), read from bytes: the
  files of each compilation unit (zlib-compressed or not), each function's expressions and
  regions, and a region's count as a function of the counters' increments.
- `coverage`: which source files are code under test, the profile data records, the index of the
  code under test, the per-test-case snapshots of its counters and the regions that ran.
- `report`: a count read back from the runner's statistics, file names, JSON strings, numbers
  with thousands separators, and the sampling setting.
- `record`: the record of a test run (one JSON line), the trace of its test cases, and the
  report printed when asked for; the real numbers in them come already written.
- `text`, `demo`: string helpers, and the two functions of the demonstration crate.

`app/` holds what is not verified: the `proptest!` macro, the process's counter array and test
binary, the clock, the environment, the record files, and the floating-point numbers (the failure
bound, the test cases needed for a target, and how real numbers are written).

The laws the library states are public proof functions whose names begin with `law_`.
