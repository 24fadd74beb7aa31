# kiro_rs

A proxy that takes requests for messages, asks the Kiro service, and answers with
server-sent events or with a whole message. It picks among several credentials, tries
again where that helps, and carries on where an upstream stream breaks off.

`src/` is the library, verified with Verus:

- `anthropic` – the stream of events to the client: blocks and their order
  (`state_manager`), the conversion of upstream events (`stream`, with its model in
  `stream_model` and its laws in `stream_laws`), a connection with its replays
  (`session`), answers as a whole (`complete`), thinking (`thinking`), what the two have
  in common (`agreement`), what the handlers decide (`handlers`), the protocol that all of
  it keeps (`protocol`).
- `kiro` – a call with its retries (`call`, `call_laws`, `provider`), upstream events,
  requests and limits.
- `admin`, `model`, `model_stats`, `metrics` – administration, configuration and counts.
- `app`, `desktop`, `common` – startup, files, the desktop shell, forwarded answers.
- `outside` – the calls into other crates, with contracts that are not proved.

`app/` is the program around it: HTTP, files, the environment, floating-point amounts.
`app/main.rs` is the server, `app/shell.rs` the desktop program with its tray and window.
`app/parts.rs` names what a product hands in: its pool of credentials and the two ends of
the upstream protocol. Where the configuration lists no models, the ids and names of the
built-in ones start with what `KIRO_MODEL_LINE` and `KIRO_MODEL_TITLE` say, or else with
what the protocol says. `tests/` runs the library on concrete values.
