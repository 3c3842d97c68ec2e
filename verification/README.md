# diskharitasi

A disk usage map: it scans a folder into a tree of nodes, adds sizes and file/folder
counts up the tree, and shows the result as nested boxes.

- `src/` is the library, verified with Verus:
  - `tree`: the node arena, paths, `finalize` (subtree totals, children sorted largest
    first) and `detach` (taking a trashed node out while keeping the totals right);
  - `builder`: the bookkeeping of a scan (hard links counted once, other file systems
    not entered);
  - `mounts`: reading `/proc/self/mounts` (lines, fields, octal escapes, path equality);
  - `i18n`: the string tables, thousands separators, human-readable sizes, date format
    (dates are formatted by chrono at a given UTC offset; the program reads the machine's
    local offset for each instant, and chrono panics there when the zone data fails);
  - `uri`, `nav`, `text`: `file://` URIs, navigation decisions, text helpers.
- `app/` is the egui program around it: the window, file-system I/O, the scan thread and
  the box layout (which is computed in floating point).
