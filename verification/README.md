# state_space

A state space holds automated market maker pools by address, keeps indexes from tokens and token
pairs to the pools that trade them, and follows the chain block by block. A pass that goes back to
a block which is not beyond `latest_block` undoes what came from that block and later; setting
`StateSpace::latest_block` while following the chain is up to the caller.

The library in `src/` is written in Verus. Everything that it decides is stated in contracts and
proved:

- `space` holds the pools and answers lookups; `index`, `key_map` and `key_set` are the containers
  under it.
- `sync` takes a batch of logs, one at a time. What a log asks of the outside (building a pool,
  reading it from the chain, waiting) comes back as a `Step`, and the result is handed in again.
- `cache` remembers the former state of changed pools, for a bounded number of blocks.
- `builder` and `grouping` set a space up; `manager` and `log_filter` say which logs it needs.
- `pass` describes a whole pass, and the passes that follow a chain, in ghost code. `index_laws`,
  `lookup_laws`, `reorg_laws` and `setup_laws` state what holds of them: the indexes stay in step
  with the pools, lookups find exactly the pools that trade a token or a pair, undoing a block
  gives back the pools that were held before it (as far as the cache reaches, and except that
  pools created since stay), and a set-up holds what its steps came up with, in any order.

What is believed without proof: how `alloy` formats an address and builds a log filter, and what
`str::to_lowercase` and `str::contains` do. The doc comments in `primitives`, `log_filter` and
`text` say what is claimed of them.

`app/` runs the library against an `alloy` provider. It also measures the reserves of constant
product pools, which takes floating point.
