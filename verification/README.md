# forge_ai

The verified core of Forge AI, a desktop control center for local, remote
and cloud AI providers.

- `src/` is the library, verified with Verus: connections and their API-key
  handling, base-URL normalization, context budgeting, the fallback order of
  providers, provider endpoints and reply reading over a JSON model, the
  bounded usage history and the usage summary, conversations and settings.
  Each public function states its result in its `ensures`, except
  `system::path` and `system::epoch`, which only read the platform's path
  rules and the clock; the library-wide properties are public proof
  functions (`lemma_*`) or clauses of the `ensures` they are about.
- `app/` holds the desktop commands: files, the OS credential store, HTTP
  calls, system metrics, and the floating-point cost and latency arithmetic.
- `tests/` runs the library on concrete values.
