# prob_sampling

A corpus scheduler for a fuzzer. It samples the testcases at random, each with the probability that
its score deserves. The score of a testcase grows with the blocks that are reachable from the code
it covers but that no testcase covers yet. Rare and near blocks count more, blocks behind much
fuzzed neighbours count less, and fast testcases are preferred.

The library in `src/` is verified with Verus.

- `model`: the corpus, its testcases and the metadata of the scheduler
- `numbers`: the arithmetic that scores are computed in
- `collections`, `table`: hash maps and hash sets, and a map that is walked in the order of its keys
- `reachable`: how often, and how closely, testcases come near to uncovered blocks
- `ordering`, `favored`: the cheapest testcases that come near to everything
- `scoring`: the score of each testcase
- `sampling`: which testcase of the corpus a random draw picks
- `scheduler`: adding testcases, recalculating scores, choosing the next testcase
- `laws`: what holds whatever numbers the scheduler computes in
- `exact`: what holds of numbers that do not round
- `rounding`: what holds of numbers that round, but not by much

`app/` runs the library in floating point, reads the clock, prints the messages and stores the
probabilities. `tests/` runs the library on given values.
