# fclones

Finds groups of files that are identical, unique, or kept in too many or too few copies.

`src/` is a library in Verus. It decides and never touches the disk: it groups the files of a scan
by length, leaves out other names of the same file, and then splits the groups by hashes of a
prefix, of a suffix and of the whole file. Whenever something has to be read, the search stops,
says what, and goes on with what was read.

| module | what it holds |
| --- | --- |
| `config` | the settings of a search |
| `files` | lengths, positions, hashes, identifiers, paths |
| `unique`, `dedup` | leaving out repeated paths and other names of the same file |
| `group`, `metrics` | groups of files, and counting them |
| `sizes` | from the files of a scan to groups of one length |
| `stages` | splitting groups by hashes |
| `order`, `process` | the search as a whole, and the order of its report |
| `help` | painting a help text |
| `splitting`, `laws`, `limits`, `copies`, `gather`, `paths`, `scans` | what is proved of a search as a whole |

`app/` is the command line program around it: arguments, walking directories, reading and hashing
files, writing the report. It searches the files and directories that it is given; wildcards in
their paths are left to the shell. Its hashes are compared only within one run, and it writes sizes
in bytes.

Outside functions that the library calls stand behind small functions marked
`#[verifier::external_body]`, in `unique`, `process` and `help`. Each says what is believed of the
function that it calls.
