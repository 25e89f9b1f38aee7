# prometheus-client-php-mmap

Metric files that many worker processes write and one reader merges into
Prometheus text. Each worker owns its files and maps them into memory; readers
scan the files of a directory without taking locks.

## Files

A file is a header followed by entries:

- header: 4-byte number of bytes in use, 4-byte format version
- entry: `[u32 family_len][u32 sample_len][u32 labels_len][family][sample][labels][space padding][f64 value]`

All numbers are in native byte order. An entry is written first, then comes a release
fence, and only then does the header cover it, in one write: a reader never sees half
of one. A value that is there is written over in one write as well.

Files are named `counter_PID-N.db`, `histogram_PID-N.db`, `summary_PID-N.db` or
`gauge_MODE_PID-N.db`.

## Layout

`src/` is the library. It works on bytes, texts and bit patterns of doubles, and is
verified with Verus:

- `native`, `text`, `path`, `key_table`: numbers in bytes, ordered texts, paths, ordered tables
- `raw_entry`, `scan`, `publish`, `mmap_file`: one entry, the walk over a file, writes that others read, the writer of a file
- `metric_key`, `file_name`: label sets, keys, and what a file name says
- `merge`, `render`, `aggregate`, `exporter`: values of many files brought together and written out
- `directory`: a whole scrape of a directory, and what leaves its text as it is
- `gc`: which files of dead processes may go
- `service`: command line and replies of the exporter
- `error`: refusals

`app/` maps files, lists directories, adds up doubles, serves HTTP and registers the
PHP extension.

`tests/` runs the library on files held in memory.
