# bitefluent

The logic of BiteFluent, a translation manager for Fluent (`.ftl`)
projects hosted on GitHub, written in Verus with its behaviour stated in
contracts and proved.

- `src/` is the verified library:
  - `github`: repository paths, tree listings, the directory-by-directory
    tree walk and path lookup, and the decoding of blob contents;
  - `fluent`: reading the messages of a Fluent file;
  - `locale`, `scan`: locales inferred from paths, and the ranking of the
    directories that hold translations;
  - `sync`: what a synchronisation reads, stores and removes, and the
    progress it reports;
  - `workspace`, `project_view`: the files and keys a project page lists,
    its sidebar groups and its sync button;
  - `onboarding`, `pages`, `auth`: repository choice, translations
    directory choice, import, and which page a user sees;
  - `helpers`, `dto`, `datetime`: slugs, the session cookie, the transfer
    types, and instants passed between `time` and `chrono`;
  - `text`, `keyed`, `sort`: text operations over character sequences,
    deduplication by key, and a stable sort by key.
- `tests/` runs the library on concrete values.
- `app/` is a command-line front end that reads a repository through the
  GitHub API and prints what the library makes of it.

Notes on the design:

- Where the logic keeps texts keyed or ordered by a `String` (the messages
  read per locale, the locales of a repository, the owners of its
  repositories, the stored file shas and key ids), the library holds a `Vec`
  kept in strictly increasing order and states that order as an invariant,
  in place of a `BTreeMap` or `BTreeSet` with `String` keys, whose contents
  Verus does not model.
- `serde_json` and `tokio` serve only the command-line front end in `app/`
  (printing JSON and running the asynchronous GitHub client); `async-trait`
  is listed but not used by any part of the crate.
- The `chrono` side of the instant conversions stands in `app/`: Verus does
  not take a declaration of `chrono::DateTime`, whose type parameter is
  bounded by an outside trait.
