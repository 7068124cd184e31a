# tool_monitor

A verified monitor over the tool calls of an agent. It denies runaway loops:

- `check_tool_call` follows calls one by one and denies a call that carries a
  run of identical calls beyond the limit;
- `inspect` holds pending requests against the conversation. After a sustained
  run of malformed calls it denies malformed requests (`REP-002`); otherwise it
  denies calls that occur too often within a window of the last calls
  (`REP-001`), which also catches loops that alternate between calls.

Layout:

- `src/message.rs`, `src/call.rs`: conversations and tool calls
- `src/json.rs`: the JSON values of arguments, as `serde_json` holds them; the
  statements about `serde_json` that are trusted rather than proved
- `src/history.rs`: what a conversation tells about past calls
- `src/inspection.rs`, `src/text.rs`: findings and their wording
- `src/inspector.rs`: the inspector
- `src/run_laws.rs`, `src/inspection_laws.rs`: what holds of it as a whole
- `app/`: the adapter for agents that speak `rmcp`
