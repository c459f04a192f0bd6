# Gemma Trading

A trading bot for BTC-USDT futures whose decisions come from a local language model. The strategy
has two independent boxes, long term (80 percent of the equity) and short term (20 percent). It can
be simulated over stored candles or run at the exchange. A leverage that the model chooses is
brought between 5 and 10, and a short-term stop loss to at most 2 percent from the entry price.

`src/` is the verified library. Every rule of the bot is there, with its contract proved by Verus:

| Module | What it holds |
|---|---|
| `double`, `rounding`, `double_laws`, `error_laws` | binary64 arithmetic on bit patterns, proved against exact quotients |
| `decimal`, `decimal_reader`, `decimal_laws` | numbers as text and back |
| `text`, `json`, `clock` | text, JSON documents, dates and times |
| `types`, `positions`, `ledger` | records, positions, and the books of an account |
| `indicators`, `indicator_laws`, `metrics`, `metric_laws` | technical indicators and the figures of a run |
| `backtest`, `simulation`, `backtest_run`, `strategy_laws`, `box_laws`, `liquidation_laws` | the strategy, its simulation, and what every step keeps |
| `prompts`, `llm` | the question to the model and the reading of its answer |
| `bingx`, `bingx_answers`, `live` | signed requests, the answers of the exchange, and the orders of a live step |
| `db`, `dashboard`, `menu` | candles and settings, the report page, and the answers at the console |

Numbers are held as `Double`, a bit pattern of a native floating-point number, so that every
formula is part of the proofs. Contracts speak of the exact result rounded once per operation.

`app/` is the program around it: the console, the network, and the database. `tests/` runs the
library on concrete values, the arithmetic against the machine's own.
