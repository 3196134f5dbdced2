# mdm

The core of a download manager: a file is fetched over several connections at
once, goes on where it stopped after a crash, and is never put together from
two versions. The library decides; the program around it talks to the network,
the disk and the screen.

## Layout

- `src/` is the library. Every function states what it does and Verus proves
  it.
  - `segment` ranges of bytes, how they are cut and how work is taken over
  - `transfer` fetching: what a connection does between two network events
  - `probe` the first answer of a server, and how a download is set up
  - `download`, `engine` downloads and everything that becomes of them
  - `gate`, `queue`, `limiter` connections, downloads and bytes per second
  - `sidecar`, `names`, `url` what is kept on disk, file names, links
  - `config`, `history`, `update`, `host`, `server`, `notify`, `taskbar`, `ui`
    settings, past downloads, new versions, browser, window
  - `text`, `num` characters and numbers
  - `foreign` what is taken from elsewhere without proof
- `tests/` runs the library, among other things on whole downloads from a
  server in memory to a disk in memory.
- `app/` is the program.

Times are nanoseconds that the caller passes in; the library has no clock, and
opens no file.
