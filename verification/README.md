# Comb

Comb keeps immutable binary data and ordered event feeds on object storage.
Objects are addressed by a keyed digest of their bytes. Mutable state is a set
of refs, each replaced by one guarded write, with a chain of commits behind it
from which every acknowledged change can be told again.

The library in `src/` is written in Verus: what its functions return is stated
in their contracts and proved. It does no I/O. Functions over stored objects
take a table of what has been fetched and answer with a result or with the
digest of the object that they need next; the changes to refs are state
machines that say what to write next and take the answer. The program in
`app/` performs that I/O on a local directory or an S3 bucket, and serves the
feeds to other processes over stdin and stdout.

## Layout

| Modules | What they hold |
| --- | --- |
| `text`, `bytes`, `bits`, `time`, `json`, `error` | texts, bytes, bit strings, moments, JSON values, errors |
| `foreign` | calls into other crates, each with the contract that is relied on |
| `digest`, `envelope`, `operation`, `commit`, `refs` | digests, stored objects, operation identities, commits and intents, refs |
| `object`, `fault`, `failpoint`, `conformance` | what backends do, with and without faults, and how they are judged |
| `table`, `store`, `chain`, `ancestry`, `plans`, `publish`, `publication`, `retry` | reading objects and commit chains, and changing a ref, once |
| `log`, `append`, `group` | logs: reading, appending, grouping, trimming, compacting |
| `catalog`, `hamt` | the tree of chunks of a complete feed, and its index of stable keys |
| `feed`, `complete`, `session`, `appending` | complete feeds, and the sessions that write them |
| `bridge` | the line protocol that other processes speak |
| `sweep`, `chaos`, `config`, `report` | the orphan sweep, the torture run, the configuration, what commands print |

Proof functions whose names begin with `law_` state what holds of the library
as a whole: that an appended event is read back, that a retry gets the first
receipt, that a claim fences earlier writers, that the sweep never collects
what is reachable, and so on.

`tests/` runs the library on concrete values.
