# scrubfs

A single virtual drive that mirrors configured folders and strips metadata
from files as they are read (with `mat2`), without touching the files on disk.

- `src/` is the verified library: the drive's inode and file-handle tables
  and the answer to each filesystem request (`fs`), the settings (`config`),
  the paths the drive uses (`paths`), paths read component by component
  (`pathname`), which formats are stripped
  (`stripper`), and the parsers for the pid file and the mount table
  (`daemon`). Each public function carries a contract that Verus proves.
- `app/` is the program around it: argument parsing, the settings file on
  disk, the FUSE session, running `mat2`, signals and the pid file.
- `tests/` runs the library on concrete inputs.
