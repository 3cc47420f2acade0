# keyberon

The layout engine of a keyboard firmware, written and proved in Verus. It turns
presses and releases on the key matrix, and the passing of time, into the key
codes that the keyboard reports.

- `src/action.rs`, `src/key_code.rs`: what keys can do.
- `src/layout.rs`: the `Layout`. `new`, `event` and `tick` are all that a firmware
  needs; their contracts say what they do to the `LayoutView`, the model of a
  layout in `src/layout/view.rs`.
- `src/layout/`: the parts of a layout: events, states, hold-tap keys that wait,
  sequences that are being played, tri-layers.
- `src/layout/laws.rs`, `hold_tap_laws.rs`, `sequence_laws.rs`,
  `sequence_timing.rs`: what follows from the model, such as that releasing a key
  undoes its press.
- `src/layout/steady.rs`: a criterion on the actions of a keyboard under which
  every event and every tick can be taken.
- `src/collections.rs`: the calls into `heapless` and `arraydeque`, which hold the
  collections. The contracts of these calls are not proved.

A user's own rule for a hold-tap key is a `HoldTapHandler`. What `tick` does is
proved for every answer that the handler may give. That a handler which is not
verified itself gives no other answers is up to its author; one that does not say
what it answers may give any.
