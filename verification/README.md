# Breadify

Turns the daily bread-order export into picking lists: one route per sheet,
stops in the order the van gets emptied, and a total of everything the route
needs at its end.

`src/` is the library, written in Verus and proved against its contracts:

- `sheet` reads the worksheet's cells into rows and says exactly which cell
  it refused and why; `order` folds rows into orders, `route` groups orders
  into routes in driving order, `total` and `crates` count what each route
  needs, `validate` lists what is odd about a file, most severe first.
- `date` and `list` read the delivery dates and the kind of list from the
  export's file name; `store` reads and writes the remembered crate sizes;
  `dump` writes one route as plain text.
- `tally` holds the laws that tie the counts together; `icon` writes the
  window icon's bitmap and `.ico` formats; `chars`, `sorting` and `grouping`
  are the text, ordering and grouping the rest is built on.

`app/` is the command line around it: reading the workbook with `calamine`,
the settings file, and printing to the terminal.

`tests/` runs the library on concrete files and values.
