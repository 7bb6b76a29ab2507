# Chorda

A plugin kernel whose decisions are proved correct with Verus.

A kernel owns a tree of fibers (units of lifecycle), a tree of realms (scopes
of typed services), scoped event handlers and pipeline middlewares. Plugins
declare the services they inject; they wait while one is missing, start once
it is provided, and are taken down again when its provider goes. Everything a
fiber registered is cleaned up in last-in-first-out order when the fiber is
disposed.

## Layout

- `src/` is the verified library. It decides; the host acts. Plugins,
  cleanups, handlers and services are numbers, by which the host finds the
  code and the values they stand for.
  - `kernel`, `disposal`, `setup`, `ctx`, `context`, `fiber`, `plugin`,
    `service`: fibers, realms and their lifecycle. `model` says what each
    operation makes of a kernel.
  - `events`, `pipeline`: which handlers and middlewares a dispatch runs, and
    in what order.
  - `entries`, `tree`, `document`, `loader`, `reconcile`, `json`: entry trees,
    and mounting them.
  - `registry`, `extract`, `plugin_macro`: discovered plugins, and what the
    `plugin` attribute makes of an impl block.
  - `describe`: the text of a kernel's state.
  - `laws`: what holds of the library as a whole, as proof functions.
- `app/` is the host: it runs setups, cleanups and handlers on tokio, collects
  compiled-in plugins, and turns serde types into entry configs.
- `tests/` run the library.

## What is trusted

- The calls into `serde_json` that read and write documents, and that a number
  it printed reads back as the same text (`src/json.rs`).
- That `TypeId::of` gives a type one identity, and the comparison of two
  identities (`src/service.rs`).
- How the `Debug` of a `str` prints it, under a name of its own
  (`src/entries.rs`).

Every other function of `src/` is proved.
