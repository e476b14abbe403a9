# dash_spv_storage

Segmented storage of block headers, filter headers and compact filters for a light client.

Headers are kept in segments of 50,000. A few segments are in memory; the others are in files, one
per segment. A background worker saves segments that have changed, and a reverse index leads from
block hashes to heights.

`src/` is the library. It decides and computes, and Verus proves what the contracts say. `app/`
does the reading and writing, the locking and the background task.

| module | contents |
| --- | --- |
| `encoding`, `headers` | headers and their bytes |
| `segments`, `io` | segment files and the cache of a segment |
| `segment_map` | the segments in memory, and which one leaves when there is no room |
| `index`, `index_file` | the reverse index and its file |
| `names` | names of files, and the numbers in them |
| `worker` | commands to the background worker and its reports |
| `atomic_write` | the steps of a write that never leaves half a file |
| `manager` | the storage manager and its work with the background worker |
| `metadata` | what is read when the storage is opened |
| `filters`, `filter_data`, `filter_laws` | filter headers and compact filters |

A function of the manager that needs a segment which is not in memory returns its number. The
caller loads the segment and calls again with the same cursor.

Proof functions whose names begin with `law_` state what holds over several operations.
