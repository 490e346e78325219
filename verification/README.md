# bingus

A word-level Markov chain that learns from chat messages and answers them,
verified with Verus, and the Discord bot around it.

- `src/` is the verified library.
  - `brain.rs`: the brain (tokens and their edges): learning a message,
    forgetting a word, merging brains, writing and reading the legacy format.
  - `legacy.rs`: the legacy (Nushell) format of tokens and chains.
  - `edges.rs`: the edges of one token: weights, totals, weighted sampling.
  - `reply.rs`: answering a message by a random walk along the chain.
  - `text.rs`: cutting a message into words, normalizing them, joining a reply.
  - `config.rs`: reading the list of reply channels.
  - `bot.rs`: the bot's decisions (what to do with a message, which command
    was called and who may call it, the status line, message length).
  - `storage.rs`: the brain file's brotli layer (`brotli`).
  - `counting.rs`: learning read as counting pairs of neighbouring tokens.
  - `laws.rs`: properties that hold across operations.
  - `assoc.rs`: association lists read as maps, with their lemmas.
  - `chance.rs`: the random numbers (`fastrand`) and the typing channel
    (`tokio`) that a reply draws on.
- `app/` is the bot: configuration, the gateway loop, commands, reading and
  writing the brain file, and its MessagePack encoding.
- `tests/` run the library.
