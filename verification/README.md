# invariant_protocol

A concentrated-liquidity AMM, written in Verus with its behaviour stated in
contracts and proved: the price and tick math, the registry of fee tiers and
pools with its administration, liquidity positions, ticks and the tick bitmap,
and the swap loop that moves a pool's price across its ticks.

- `math`: fixed-point decimals (`SqrtPrice`, `Percentage`, `Liquidity`,
  `TokenAmount`, `FixedPoint`, `FeeGrowth`), 256-bit unsigned integers, the
  tick to square-root-price conversion and its bounds, strict monotonicity of
  the price in the tick, the logarithm-based search from a price back to its
  tick (proved to return, for every price in range, the greatest tick whose
  price does not exceed it, aligned to the spacing), tick checks, and in
  `clamm` the token amounts between two prices, the next price after a trade,
  a single swap step and the fee growth inside a range.
- `contracts`: accounts, fee tiers, pool keys, pools, ticks, positions, the
  tick bitmap with its search for the next initialized tick, and the
  collections they are kept in, each with a mathematical view.
- `protocol`: the contract as a state machine. Every request takes the caller
  (and, where it matters, the block time) as an argument, and its result and
  next state are given by a spec function over `InvariantState`. A contract
  can be saved as plain parts and restored from them.
- `swap`: one pass of the swap loop, the loop itself, and how a swap's amounts
  stand against the amount asked for.
- `laws`: properties that span several requests, such as "a refused request
  changes nothing", "only the admin configures", "a created pool is found
  under its tokens in either order", "every request keeps the state well
  formed", "a swap by the amount paid in takes exactly that amount", "a
  swap does what its quote reports", "a second claim pays nothing" and "the
  count of liquidity ticks is the number of stored ticks in the range".

`app/` hosts the library as an ink! contract: its storage holds the saved
parts, and its messages load the state, pass it the caller and the block
time, store it back, and make the token transfers and code upgrades that the
answers call for.
