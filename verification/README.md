# Defragger

Defragger analyzes and defragments Linux filesystems. The library holds what it
decides and computes, with contracts that Verus proves; the programs around it
make the system calls.

## Layout

- `src/` is the library.
  - Volumes: `mounts` (discovery), `mounting` (private mounts and superblocks),
    `service` (jobs, analyses and plans), `jobs` (events and control).
  - Analyses: `scan` (the walk over a mounted volume), `linux` (the mapping
    requests of the kernel), `extents` and `file_report` (files),
    `block_map` and `report_map` (the drive map), `raw_report` (unmounted FAT
    volumes), `plan`, `backend`.
  - ext4: `ext4_writer` moves the blocks of fragmented files.
  - FAT: `fat_table`, `classic_fat` (snapshots), `fat_writer` (moves),
    `fat_device` (records on the device), `fat_safety` and `fat_placement` (what
    a crash leaves), `cluster_set`.
  - Front ends: `controller`, `map_view`, `contributors` (the window), `cli`,
    `helper` and `remote` (the service in another process), `labels`.
  - Foundations: `domain`, `error`, `path`, `text`, `sort`, `arith`, `views`.
- `tests/` holds the tests of the library.
- `app/` holds the command line, the helper, the threads of the jobs and the
  system calls that they make.

## How jobs are written

A job alternates between work on the system and decisions. The decisions are
state machines in the library (`scan::Scan`, `ext4_writer::Ext4Writer`,
`classic_fat::FatWalk`, `fat_writer::Placement`): each takes an event and
answers with the next action. The programs carry the action out and hand back
the event that came of it.

## What is proved

Each function states what it returns in terms of the contents of its arguments.
Beside the functions stand laws about whole jobs, such as that the placement of a
file on a FAT volume can be broken off at any step without loss of a file, that
a walk never leaves its mount, that a display which applies the published
changes shows the map of the finished report, or that a client of the helper
reaches no job of another client. The law on FAT volumes holds where the volume
is sound. One that is opened for writing is, unless it has more clusters than
its kind has numbers for.
