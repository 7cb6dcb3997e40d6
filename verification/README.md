# drey

One language server per workspace, shared by every client.

Many editors and coding agents attach to a single indexed workspace instead of each
starting their own language server. drey is one binary in two roles: the shim looks like
a language server on stdio, and the daemon owns a pool of real servers, one per
workspace.

## Layout

- `src/` is the library. Every function in it is verified with Verus against its
  contract.
  - `json`, `msg`, `framing`: JSON values, JSON-RPC messages and request-id namespacing,
    and the `Content-Length` framing.
  - `text`: document text with UTF-16 positions.
  - `config`, `paths`: builtin servers, the merge with the user's configuration, and root
    widening.
  - `daemon/key`, `daemon/registry`: who shares what.
  - `daemon/backend`, `daemon/session`: the shared documents, routing, and a client's
    copy-on-write view. `daemon/sharing` proves what holds across clients, and
    `daemon/mirror` that what is recorded of a server is what it holds.
  - `daemon/launch`: how a real server is started and initialized.
  - `install`, `calendar`: discovery of servers, the block in shell startup files, and what
    `drey install` and `drey uninstall` change and report.
  - `shim`, `status`: waiting for the daemon, and the status table.
  - `strings`, `table`: text and small tables.
- `tests/` exercises the library.
- `app/` is the program around it: sockets, processes, files and the command line.
