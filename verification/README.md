# onebrc

Aggregation of weather-station readings, one `name;temperature` line at a
time, into the minimum, mean and maximum temperature of every station.

- `src/` — the library, verified with Verus:
  - `search` — first and all occurrences of a byte (through `memchr`), and
    the lexicographic order on byte strings;
  - `reading` — temperatures read as fixed-point integers and written back
    with one decimal place;
  - `model` — the statistics model, aggregation, merging and its laws;
  - `input` — lines, the readings they hold, the line-by-line fold, the
    newline-aligned chunks of a file, the law that aggregating chunks
    separately and merging gives the aggregation of the whole file, and the
    law that the order of the lines does not matter;
  - `table` — sorted listings that stand for maps, the binary search both
    station maps share, and the law that a map decides its sorted listing;
  - `baseline` — single-threaded stations (tenths of a degree);
  - `threaded` — stations borrowing their names from the mapped file
    (hundredths of a degree), chunking, per-chunk parsing, merging and the
    sorted summary, which depends on the file's lines alone, not on their
    order or on the number of threads.
- `app/main.rs` — the program: file reading, memory mapping, threads,
  standard output, and the float formatting the library does not hold.
- `tests/` — the tests.
