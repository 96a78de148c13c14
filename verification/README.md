# wizpatch

A patcher for Wizard101 whose decisions are verified with Verus.

`src/` is the verified library:

- `webdriver`: the patch server's handshake and reply, HTTP ranges and settings
- `utils`: revisions in patch URLs, local paths of file records
- `patcher`: pinned revisions, and what is done about each record of a file list
- `file_list`: the names and checksums in a file list
- `run`: laws of whole runs, however the work on the records is interleaved
- `pool`: laws of the worker pool, whatever the number of workers
- `tally`: the counts of a run and their reports
- `checksum`: CRC32 in chunks, on top of `crc32fast`
- `cli`: the command line
- `text`: searching, replacing and rendering text

`app/` is the program around it: sockets, HTTP, files, the terminal and the worker pool. It takes
the patch servers' addresses from `WIZPATCH_HOST_US`, `WIZPATCH_HOST_EU` and `WIZPATCH_PORT`.

```
wizpatch --path <DIR>   # patch a game directory
wizpatch urls           # print file-list + base URLs
wizpatch revision       # print current revision
wizpatch list --limit 5 # list file records
```
