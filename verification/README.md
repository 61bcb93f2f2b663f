# bdmount

`bdmount` presents an encrypted Blu-ray as a plain folder on macOS: it reads the
disc's UDF volume from the raw device, decrypts its streams through MakeMKV's
`libmmbd`, and serves the result over NFS on the local machine.

The logic is a library verified with Verus. Everything that touches the system
is ordinary Rust around it.

## The library (`src/`)

The library does no I/O. Where an operation needs the outside, it says what it
needs and is told the outcome: reads of a device are collected in a log, and the
courses of a walk, a read, a mount, a take-over and a tick are state machines.

| Module | What it holds |
| --- | --- |
| `rawudf` | the UDF reader: descriptors, partition maps, directories, files, windows that are read ahead, and the names of raw devices |
| `decrypt`, `cache`, `mmbd` | unit-aligned decrypted reads with a cache of units |
| `disc` | the decrypted directory tree, the walk that builds it, and Blu-ray volumes |
| `vfs` | the read-only NFS view of a tree |
| `da`, `drives`, `idle` | claims, ejecting, drives, and who holds a disc |
| `mount`, `watch`, `session` | mounts and releases, the watch, and what the commands decide |
| `text`, `number`, `path`, `order`, `plist` | texts, numerals, paths, orders and property lists |

The files named `law.rs`, and the sections called "laws", state what holds of
the library as a whole: that a read gives the bytes of the file whatever was
cached, that a tree mirrors its disc, that only claimed discs are ejected.

## The program (`app/`)

Argument handling, DiskArbitration, IOKit, `libmmbd`, the NFS server, files and
processes. It performs what the library asks for.
