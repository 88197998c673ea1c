# Gengis Mimi

An object-storage database for documents, vectors and full-text search on
SlateDB. A write is acknowledged after durable storage has committed it. Vector
search is exact or by probing centroid clusters; attribute filters and BM25 run
over immutable index generations, with newer writes laid over them.

## Layout

- `src/` is the library: every decision of the database as a function from
  values to values, with its contract proved by Verus.
- `app/` is the server around it: storage, HTTP, serialisation, and the
  arithmetic on floating-point numbers.
- `tests/` runs the library on concrete values; `tests/database.rs` runs it as
  a whole database over an in-memory store.

| Module | Holds |
| --- | --- |
| `text`, `textmap`, `terms` | byte order of text, sorted maps, tokens of a document |
| `json`, `double`, `binary` | attribute values, sortable numbers, vector blocks |
| `model`, `config`, `error` | documents, requests, settings and their rules |
| `keys`, `store` | the key layout and what a set of keys stands for |
| `engine` | admission and planning of a write, counters and quotas |
| `postings`, `index` | lists, blocks and the entries of an index generation |
| `search`, `ranking`, `bm25` | candidates, filters, top results, text statistics |
| `agreement`, `filtering` | what the postings and statistics of an index say |
| `generation`, `reads` | the stored keys of a generation and what is read of them |
| `history`, `equivalence`, `gathering` | that index and scan answer alike, whatever was written since |
| `maintenance`, `listing` | publication, cleanup, deletion, format, pages |
| `backup`, `migration` | export, verification, restore and migration |
| `lease`, `cluster`, `access` | leadership, routing, tokens |
| `metrics` | the text exposition format |
| `outside` | the calls into other crates, with the contracts taken on trust |

Floating-point numbers are carried as their bit patterns. Proof functions whose
names start with `law_` state what holds of the database as a whole.
