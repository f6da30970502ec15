# plox

Sorts the plugin load order of Morrowind, OpenMW and Cyberpunk 2077 topologically by
ordering rules (`[Order]`, `[NearStart]`, `[NearEnd]`, and the masters each plugin
declares), and evaluates warning rules (`[Note]`, `[Conflict]`, `[Requires]`, `[Patch]`)
against it. The rules follow the mlox rules format.

The library in `src/` is written in Verus; each public function carries a contract that
Verus proves.

- `text`, `wildcard`, `versions`: characters and strings, plugin names with wildcards
  (`*`, `?`, `<ver>`), semantic versions.
- `expressions`, `rules`: rule expressions (`[ALL]`, `[ANY]`, `[NOT]`, `[DESC]`,
  `[SIZE]`, `[VER]`) and the rules, with what each evaluates to.
- `syntax`, `parser`: the rules file format as functions on text, and the parser that
  follows them.
- `ordering`, `sorter`, `sort_laws`: ordering pairs, the dependency graph, the stable and
  the graph library's sort, and what a sorted order promises of the rules.
- `tes3`, `load_order`, `outcome`: plugin headers, the ini and cfg files that list the
  load order, file times, downloaded rules, and what loading a load order comes to.

`app/` is the command line (`sort`, `list`, `verify`, `graph`): it reads and writes the
files and calls the library. `tests/` exercises the library on concrete load orders and
rules files.
