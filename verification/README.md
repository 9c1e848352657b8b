# taskman

The table, tree and command logic of a Windows Task Manager look-alike,
written in Verus and proved against its contracts.

`src/` is the verified library:

- `processes`, `process_rows`, `process_order`, `process_nav`, `forest`:
  the Processes page. Processes are grouped into Apps, Background and
  Windows by window ownership and launch boundaries, families fold into
  expandable rows, and resource sorts flatten the groups while keeping
  expanded families attached to their head row.
- `details`, `details_state`, `details_tree`, `details_rows`: the Details
  page's column catalogue, saved preferences, the literal parent/child tree
  (the Name column's third sort state) and the flat sorted list.
- `modules`, `module_list`, `module_unload`: the module inspector, its
  filter and sort, and the forced unload that releases a module one request
  at a time and only while a fresh inventory still maps it.
- `services`, `startup`, `users`, `app_history`, `apphistory`: the simpler
  tables' row orders, search commits and commands.
- `session_tally`: the Users page's per-session rollup of process counts,
  measured-network flags and per-program entries.
- `performance`, `chart`: the graph window, device cards and sample ages.
- `menus`, `process_rules`, `value_columns`, `sort_state`, `window_state`:
  right-click menus, per-program scheduling rules, the numeric column
  layout, header-click sorting and the window-state file.
- `text`, `compare`, `stable_sort`: text helpers, case-insensitive orders
  and the stable insertion order the tables sort by.

Floating-point telemetry never enters the library: values that order rows
arrive as ranks, and the sums and heat shading are computed in `app/`,
which also holds the file I/O and the platform-facing loops.
