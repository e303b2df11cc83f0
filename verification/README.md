# Akimi

Disk usage analysis for Linux filesystems. Akimi reads ext4 devices and images through libext2fs
and mounted btrfs volumes by a walk of their directories, or through tree searches where these are
asked for. It adds up what every subtree takes, and shows the result as a ranking, as a tree and as
a treemap.

- `src/` is the library, written in Verus: the node arenas, the totals, the tree builders of both
  filesystems, the ranking, the reports, the rows of the tree, the tiles of the treemap, and the
  decisions of the graphical program. Every function states what it returns, and the laws that hold
  of the whole are proof functions whose names start with `law_`.
- `tests/` runs the library on concrete values.
- `app/` holds the programs: the command line, the window, the privileged helper, the shims around
  libext2fs and the btrfs ioctl, and everything that needs floating point.
