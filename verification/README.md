# parler_tts

The decoder of a text-to-speech model, verified with Verus: grouped-query attention with
rotary positions and a cache of keys and values, gated feed-forward networks, the model
made of them, the choice of tokens, and the rounds of generation.

Tensors, parameters and random numbers come from `candle-core`, `candle-nn` and `rand`.
Their functions stand behind small wrappers whose contracts say what is relied on. The
numbers in a tensor depend on the machine in their last digits, so a contract gives the
formula of each element and not its digits.

## Layout

- `src/shape.rs`, `src/view.rs`: shapes, row-major order, and what an array holds.
- `src/array.rs`: arrays with contracts, over tensors.
- `src/layers.rs`, `src/names.rs`: linear layers, lookup tables and normalizations with
  stored parameters, and the names under which these are stored.
- `src/heads.rs`, `src/rotary.rs`, `src/attention.rs`, `src/decoder.rs`, `src/model.rs`:
  the model, from its heads up.
- `src/ranking.rs`, `src/sampling.rs`: the order of scores and the choice of a token.
- `src/generation.rs`: the rounds of generation.
- `src/laws.rs`: what holds of the parts together, such as that attention averages values by
  the softmax of the scores, that the cache stands for the rows that were seen, and when the
  model succeeds.
- `src/positions.rs`, `src/meaning.rs`, `src/steps.rs`: what the parts make of single
  positions, what formulas mean, and that one token at a time comes to the same as all tokens
  at once.
- `src/outcomes.rs`: what follows from the success of a call, and the laws that hold wherever
  calls succeed, such as that scores do not depend on later tokens.
- `src/turning.rs`: rotations over the real numbers: they can be undone, keep lengths, and
  leave products that depend on the distance of positions alone.
- `app/`: the model on plain tensors and floating-point numbers. It does the arithmetic
  that the library asks for.
- `tests/`: the library on concrete values, next to a plain computation of the same model.
