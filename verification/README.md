# zim

A library and a command line tool to read and extract ZIM files. The library is written in Verus:
its contracts say what every function reads out of an archive's bytes, and are proved.

## Layout

- `src/` is the library. `store` and `chunks` present the files of an archive as one sequence of
  bytes; `header`, `mime_type`, `pointers`, `directory_entry`, `cluster` and `checksum` read the
  structures in it; `zim`, `lookup`, `redirect` and `content` answer what callers ask; `extract`
  and `report` decide what the tool does. `laws` states what holds of archives as a whole.
- `app/` is the tool: file system, memory maps, threads, arguments and output.
- `tests/` runs the library on archives that are put together there.

## What is trusted

The contracts of `codec` (xz2, zstd), `checksum` (md5), `raw` (byteorder, bitreader and
`String::from_utf8`), `report` (hex, num-format) and `String::push` in `chunks` are believed, not
proved. What a decoder makes of a payload, and what digest belongs to some bytes, is only given a
name.

## Split archives

Archives split into chunks (`data.zimaa`, `data.zimab`, ...) are read transparently. Name either
the archive or its first chunk:

```sh
> zim info data.zim
> zim info data.zimaa
> zim extract --skip-link data.zim
```

Under the names `zim-info` and `extract-zim` the tool takes the arguments of that command directly:

```sh
> zim-info data.zim
> extract-zim --skip-link data.zim
```
