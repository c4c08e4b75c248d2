# swh_resolver

Resolves code metadata `(repo, commit_prefix, rel_path)` to Software Heritage content SWHIDs
(`swh:1:cnt:<sha1_git>`) over the compressed archive graph. Given, for example,
`("torvalds/linux", "a1b2c3d", "kernel/sched/core.c")`, it finds the SWHID of that very file.

The library under `src/` is written in Verus: every function states in its contract what it
returns or changes, and Verus proves it. The program under `app/` reads and writes the tables,
loads the graph and runs the threads. It has two commands: `scratch` resolves a table, `verify`
resolves a sample of the result once more.

`app/archive.rs` also needs `swh-graph` and `webgraph`, which `Cargo.toml` does not name: they have
to be added to build the program. The library needs neither.

## Stages

```
input table (repo, commit_id, rel_path[, bin])
 prefix      revisions by the first digits of their hash (not needed for full hashes)
 provenance  per (repo, commit): of the candidate revisions, those from which a walk backwards
             comes to a snapshot of the origin; a branch head before others, then the greatest
 scratch     the rows of the input, each with the winner                -> candidates
 names       components of the paths -> ids in the label table
 seeds       revision -> root directory; path -> ids of its names
 reach       directories reached from the root directories
 hydrate     one scan of the labels, in bands -> directory map: directory -> (name, child, type)
 traverse    the walk of each row over the directory map; leaf -> content SWHID
 bins        the output, by bins
 verify      a sample of the output, resolved once more straight over the graph
```

`ntf::pipeline` runs the stages in a row: `resolve_rows` those from `seeds` to `traverse`,
`resolve_input` all of them from the input table to the rows of the output. The contracts say
that every row is resolved just as the direct walk of `ntf::verify` resolves it.

## The graph

The graph is far larger than memory and lives outside the library, which asks it questions
through the traits of `ntf::graph`. These promise nothing. A contract speaks of every
mathematical graph that the answers agree with.

## What is trusted

The hash collections (`hashbrown`, `dashmap`), the label offset index (`sux`), SHA-1 (`sha1`),
hexadecimal digits (`hex`) and a few functions of the standard library are called through
wrappers. Each has a contract that Verus believes and a comment that says what it claims.

## Laws

`ntf::laws`, `ntf::scratch_laws`, `ntf::text_laws` and `ntf::bins_laws` hold the properties that
span several functions, each as a proof function.

## Output

Ten columns: `repo, commit_id, rel_path, id, origin_url, snapshot_swhid, rev_swhid, cnt_swhid,
qualified, status`. The status is `ok` or `path_not_found`; only `ok` rows have a content.
