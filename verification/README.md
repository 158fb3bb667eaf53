# offkilter (verified core)

The logic of the offkilter CAD server and tools that does not depend on
floating point or on the geometry kernel, written in Verus with its
contracts proved.

`src/` is the library:

| Module | What |
| --- | --- |
| `raster`, `png` | RGB images and the PNG subset the renderer writes and reads (CRC-32, chunks, zlib through `miniz_oxide`). |
| `text` | String building blocks: decimal and hexadecimal digits, trimming, comparison. |
| `sessions`, `auth` | Accounts (argon2 password hashes), session tokens and their expiry, cookies. |
| `store` | Document metadata and its rules: who may open, edit or manage a document, sharing, invitations, branches, id prefixes, ids. |
| `teams` | Teams of accounts and who may change them. |
| `access` | What refused requests are answered with, the document list a user sees, the session cookie in a request. |
| `limiter` | The fixed-window sign-in rate limiter. |
| `live` | Who is editing a live document and what each socket message gets. |
| `cli` | The server's command line. |
| `sheet`, `pdf` | Sheet sizes, PDF text escapes, and the PDF file structure with its cross-reference table. |
| `step`, `step_read` | STEP text: writing entities and strings, and reading the DATA section back. |
| `view` | View names and section-plane texts, read up to their numbers. |
| `jigsaw`, `loops`, `faces`, `sketch` | Jigsaw grid checks, counts, edge names and seeding; the region finder's union–find, half-edges, pruning of dangling edges and face tracing; sketch ids and errors. |

`app/` holds what cannot be verified: the JSON files the stores live in,
the clock and counter behind ids, the command line as the process sees
it, and the floating-point formatting of PDF pages, STEP reals and jigsaw
offsets, and the numbers of view directions and section planes.
