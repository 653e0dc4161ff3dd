# educartable_sync

A desktop tool that downloads the activities published on Educartable (their
articles as Markdown and their photos and documents) into a local folder, and keeps
the user's login tokens in the system keyring.

The library under `src/` is verified with Verus:

- `text` — decimal formatting and parsing of integers, UTF-8 byte lengths, searching
  in character sequences.
- `chunks` — how a credential too long for one keyring entry is cut into pieces and
  read back. The round trip from storing to loading is proved over a model of the
  entries as a map from names to texts; the system keyring itself is outside the
  proof, and the store and load functions state it for any reader and writer that
  behave as such a map.
- `auth` — the credential store abstraction, the system-keyring store, an in-memory
  store, and saving, loading and clearing token sets.
- `session` — when an access token is refreshed, the refresh request and its answer,
  and the login window's hand-over.
- `api` — request addresses and headers, and how answers are judged.
- `sync` — folder and file names, the article text, the retry policy and the
  counting of a synchronisation run.
- `updater` — what an update check reports.
- `models` — the data exchanged with the service.

`app/` is the Tauri application around it: windows, HTTP, files, the update plugin
and the asynchronous synchronisation loop.
