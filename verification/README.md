# agpeek

An App Group container inspector for iOS simulators.

`agpeek` lists what is in an App Group container, decodes the binary formats
inside it, and shows what changed between two points in time.

```
agpeek devices                       # simulators that can be inspected
agpeek groups <bundle-id>            # the groups an installed app declares
agpeek ls <group-id> [path]          # tree view, sizes, times
agpeek cat <group-id> <path>         # auto-decoded, --raw to bypass
agpeek defaults <group-id>           # the shared UserDefaults suite
agpeek snapshot <group-id> -o a.json
agpeek diff a.json b.json
```

## Layout

- `src/` is the library, written in Verus. Everything that decides or computes
  lives here, with contracts that are proved.
  - `discover` — devices, containers and groups, from what `simctl` printed and what
    lies in the container directories
  - `source` — what a walk of a container lists, and paths that stay inside it
  - `decode` — what bytes are, and property lists as plain values
  - `snapshot`, `hash`, `clock` — the state of a container at a moment in time
  - `diff` — two snapshots compared, file by file and key by key
  - `ui` — tables, trees, values and changes as they are shown
  - `text`, `number`, `double`, `bytes`, `path`, `order`, `json` — what the rest is
    built of
- `app/` is the program around it: arguments, processes, the filesystem, the clock,
  and JSON.
- `tests/` runs the library on concrete values.

## What is taken on trust

The library calls `plist`, `chrono`, `base64`, `sha2`, `anstyle`, `unicode-width`
and `serde_json` through small wrappers. Each wrapper says in its doc comment what
it claims of the call, and that claim is not proved here.

## Reliability

Everything read from a container is untrusted input. Decoding never fails: what
cannot be understood is shown as a hexdump, with a note saying why.

One limit remains. The `plist` crate holds a document at whatever depth it nests, so
one that nests for a megabyte or more can run the stack out inside that crate.
