# dropbox_cp

The library behind `dcp`, a `cp` for Dropbox: it copies a local file or
directory tree into a Dropbox path. The library (`src/`) holds the decisions
and computations, each with a contract proved by Verus:

- `text`: white space as `char::is_whitespace` defines it, and `trim`.
- `path`: normalizing `DEST`, joining a folder with a relative path, and the
  components of a relative path.
- `retry`: retrying calls declined for rate limiting (at most six attempts).
- `session`: single request or upload session, and the chunks of a session.
- `outcome`: write mode, conflicts, per-file reports, what to do with the source.
- `order`: the order in which folders are created.
- `walk`: from a walk of the source directory, the uploads and folder creations.
- `credentials`: which credentials to use, and the messages when there are none.

`app/` is the `dcp` program: argument parsing, the environment, the file
system, the directory walk and the Dropbox calls, driven by the library.
