# arbitraj

A bot that trades the price difference of ETH between two concentrated-liquidity
pools (Uniswap V3 and Aerodrome) on Base. Its decisions are a verified library;
the program around it talks to the chain and to the user.

## The library (`src/`)

- `rounding`, `double`, `order`: IEEE 754 binary64 numbers as bit patterns, with
  arithmetic that is proved to round correctly and to respect the order of numbers.
- `wide`: 256-bit integers. `text`: numbers as text.
- `math`, `pricing`, `scaling`: prices, swap outputs and profits, and what holds
  of them.
- `exact`, `algebra`: the same profit without rounding is concave, so that a point
  where its slope is zero is its maximum.
- `accuracy`, `fidelity`: how far the rounded operations, swaps and profits are
  from the exact ones.
- `search`: a trade size, by a scan for the most profitable one of 20 sizes and
  Newton-Raphson steps from there towards a slope of zero.
- `optimality`: by how much another trade size can beat the one that a search
  gives.
- `types`: configuration, pools, opportunities, statistics.
- `state_sync`: what a pool reports becomes its state.
- `evm`, `simulator`: a trade is checked and run in a local virtual machine before
  it is sent; one that would revert is never sent.
- `strategy`: when to trade, and what becomes of an opportunity.
- `session`, `report`: reconnecting, what each block asks for, and the texts that
  describe it.
- `outside`: the calls into other crates that parse addresses and keys.

Times are readings of a monotonic clock in nanoseconds, handed in by the caller.

## The program (`app/`)

Reads the environment (and `.env`), follows the blocks of a node over WebSocket,
prints what happens, and sends the trades that the library orders.
