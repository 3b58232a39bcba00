# remote_fs

A small HTTP file server that exposes one directory (the mount point):

- `GET /api/file?path=…` sends a file,
- `GET /api/directory?path=…` lists a directory,
- `GET /api/stat?path=…` reports an entry's kind, size, mode and times,
- `POST /api/file?path=…` stores the request body in a file.

`src/` is the library, verified with Verus: taking raw requests apart,
assembling responses, query parsing and percent-decoding, path
normalisation and the containment check against the mount point, routing,
and the decisions each handler takes on what the file system reports.
Its public proof functions state the laws the library keeps, such as that
normalising a path twice changes nothing, that a target without `..`
segments stays inside the mount point, and that every response carries,
among header names that never repeat ignoring case, a `Content-Length`
header with the length of its body and a `Date` header.

`app/` is the program around it: the `may_minihttp` service, the file
system and network work, and a plain threaded server over `std::net`.
