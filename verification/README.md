# splayed

A columnar store for time series. A dataset is a directory with one metadata file (the
symbols, the times, and which rows belong to which symbol) and one file per field. A table
is a directory of such datasets, cut by year, month or day.

`src/` is the library: the file formats, the data model in memory, the rules by which rows
are spread over partitions, and what a query may leave to a scan. Every function states
what it does in a contract. Verus proves these contracts, but for the wrappers of a few calls
to bytemuck and to the standard library (marked `external_body`, in `buffer`, `le`, `naming`
and `text`) and the assumed specifications of three functions of the standard library (in
`bitmap` and `text`): those it believes. Properties that span functions are public
proof functions whose names start with `law_`.

| Modules | What they hold |
| --- | --- |
| `types`, `error`, `schema`, `le`, `text` | types and their ids, errors, little-endian numbers, texts |
| `bitmap`, `buffer`, `column`, `dataview` | columns in memory and views of them |
| `meta`, `field`, `field_footer`, `header`, `subset` | headers, footers and subset files |
| `partition`, `spans`, `gather`, `plan`, `writing` | partitions, and how rows get into them |
| `query`, `table`, `listing`, `fields` | scans, statistics, directories, changes of fields |
| `filter`, `stats`, `provider` | conditions, statistics and scans of an SQL engine |
| `hint`, `lazy`, `frame` | conditions, columns and series of a frame library |
| `bridge`, `naming` | batches for a C caller, words of a script |

`app/` is what surrounds it: directories and locks, the traits that a storage engine
implements, and adapters for DataFusion, Polars, DuckDB and Python.

A floating-point number stands in the library as its bits, and a time as the number of days
or microseconds since 1970-01-01.
