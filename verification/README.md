# mm_engine

A market-making engine on a simulated market: a price-time-priority limit order
book, the matching engine that owns it, a numbered market data feed, and a
strategy that knows the market only by replaying that feed.

The library under `src/` is verified with [Verus](https://github.com/verus-lang/verus).
Each function states what it returns and changes, over mathematical models of its
data, and exactly so wherever its arguments decide. Where something else decides, the
contract says what holds whatever comes up, and a function beside it that takes the
outcome as an argument is exact: the two ends of the ring buffer (the other thread;
`RingInner`), `Exchange::noise_order` (chance; `noise_side` and `market_order`) and
`now_nanos` (the clock; `stamp_reading`).

| module | what it holds |
| --- | --- |
| `types` | orders, fills, market events, commands, snapshots |
| `levels` | the model of one side of a book, and what can be done to it |
| `orderbook` | the order book |
| `market_sim` | the matching engine: background liquidity, the strategy's quotes, noise traders |
| `feed` | numbering what is sent, and finding what was lost |
| `strategy` | the replayed book, the holding, when to take a snapshot, when to quote |
| `risk` | the kill switch |
| `ringbuffer` | a bounded queue between two threads |
| `ipc` | the line that stops trading |

What holds of the whole is stated and proved in modules of its own:

- `book_laws`: a book stays in order, and no order that is matched leaves it crossed.
- `matching_laws`: price-time priority; quantity is neither made nor lost; a market
  order may be split, and a limit that all meet is no limit.
- `replay_laws`: the trades of a match, and the rows of a snapshot, tell all of it.
- `exchange_laws`: the matching engine's book is never crossed, no two orders share a
  name, the strategy never trades with itself, and a book that replays every event
  holds what the engine's book holds.
- `strategy_laws`: the strategy follows the engine; a snapshot that is taken holds all
  that was seen and never sets the strategy back; from a snapshot on, the strategy
  follows the engine again, if what it replays afterwards is exactly what followed the
  snapshot; a triggered kill switch ends quoting. In the program, events from before
  the snapshot that still wait in the ring buffer are replayed once more.

`app/` is the program around the library: threads, sockets, JSON, the clock, chance,
and all that is floating point (quoting, value at risk, the price process).

```
mm_engine [--duration <seconds>]   run the engine
mm_engine --bench <messages>       measure the ring buffer
```

With `MM_ASSERT_INVARIANTS` set, the program also checks on every step that the
matching engine's book is not crossed.
