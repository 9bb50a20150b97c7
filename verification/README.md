# bus

An in-process message bus with a verified core.

- `src/` is verified with Verus:
  - `message`: messages and their chunk markers.
  - `channel`: the channel traits and three channels (in memory, first in first out;
    sorted by topic; watched by an observer), with laws on what comes back of what was sent.
  - `names`: a table of values under distinct names (the bus's listeners).
  - `preprocessor`: processors and pipelines of them, with laws on how steps compose.
  - `engine`: where each processed message goes, with laws on broadcast and addressing.
- `app/` is ordinary Rust around it: the threaded bus, its shared queues, the dispatching
  thread, a channel served by a worker thread, and serialisable message forms.
- `tests/` runs the library on concrete messages.
