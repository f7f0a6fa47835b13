# sector_store

Verified building blocks of a farmer that keeps its plotted sectors in an S3 bucket.

- `s3`: objects that are cut into parts of one size and can be written, overwritten and read at any
  position. The modules plan the requests, read the responses and put the bytes together.
- `reading`: the way from the bytes of a sector to a piece: where the chunks of a record are, how
  they are decoded, and the check of the piece against its checksum.
- `messenger`: storage keys and encoded forms of channel details, and the inherent data of the
  cross-domain messenger.
- `scale`, `text`, `bytes`: encoded numbers, decimal numerals and byte strings.

The library in `src/` is verified with Verus and does no I/O. Requests, disk reads and database
access are in `app/`, which hands the outcome to the library as plain values.
