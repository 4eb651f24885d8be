# lob-lab

A limit order book rebuilt from a recorded exchange feed, a simulator that fills
resting orders under several assumptions about their place in the queue, and a
study of how much those assumptions matter.

The library under `src/` is verified with Verus: every function states what it
returns, and the proofs are checked. The program under `app/` does the input and
output around it.

## Layout

- `rounding`, `double`, `order`, `doubling`, `error`: binary64 arithmetic on
  integers, with what each operation returns, how it goes with the order of the
  numbers, and how far rounding goes.
- `stats`, `sort`, `text`: sums and least squares, a stable sort, strings.
- `book`, `event`, `messages`, `gaps`, `replay`: from decoded messages to a
  timeline of events and a book.
- `recorder`, `packing`, `recording`, `archive`, `session`: what is written, how
  it is compressed and read back, what a run leaves on disk, and what the recorder
  decides between two messages.
- `snapshot`: the rebuilt book against a REST snapshot of the same `change_id`.
- `ofi`, `measure`: order flow imbalance, and whether it predicts the next move.
- `queue`, `ledger`, `markout`, `desk`, `engine`: the simulator. `desk` says what
  each event makes of it, `desk_laws` what holds of every run.
- `intensity`, `fit_laws`, `quoters`, `bootstrap`, `shifting`, `study`: the quoting
  rules, and what the study says of the recorded days.

## Running

    lob-lab record --out data
    lob-lab verify-book --dir data
    lob-lab measure-ofi --dir data
    lob-lab study --data data/days --out artifacts

The study takes a directory of days, each a directory of that day's recorded
hours. A day counts if every hour of it was recorded and its feed gaps add up to
no more than 60 seconds.
