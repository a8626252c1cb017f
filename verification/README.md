# nft_clob

A floor central limit order book for NFT collections, as a Solana program,
with its logic proved in Verus.

- `src/` is the verified library. `account_states/` holds the book: each
  `Side` is a doubly linked list of resting orders, best price first and
  arrival order among equal prices, threaded through a fixed array of slots
  with a chain of freed slots; `Book` matches incoming orders against the
  opposite side at the resting price; the crank ring queues the payments owed
  to makers and the report ring keeps the latest trades. `instructions/` holds
  what each instruction decides. Contracts speak of each side as the sequence
  of its orders (`side@`), the slots that hold them (`slots()`) and the
  vacant slots in the order they will be handed out (`vacant()`), and of the
  rings as their pending contents.
- `app/` is the Anchor program around it: account layouts, account
  validation, token transfers and the entry points. It converts accounts to
  the library's types (a side is read back with `Side::from_layout`, which
  refuses slots that do not form a valid list) and back.
- `tests/` runs the library on concrete books.

The laws of the library stand in `src/` as public proof functions:
`law_matching` and `law_new_limit_keeps_order` (book), `law_order_types`
and `law_one_placement` (new_order_single), `law_model` and
`law_sells_rest_sorted` (model: runs of placements against a reference
model), `law_crank_fifo` (crank), and `law_layout_determines` and
`law_vacant_handout` (side).
