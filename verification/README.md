# laifanyi_core

The ledger of a studio's members and classes, kept in an Excel workbook. The workbook is the only
store: a change is made in the XML of one worksheet, and all cells that it does not name, the bytes
between them and every other part of the package stay as they are. When it is packed, the calculation
chain is left out with what refers to it, and the workbook asks to be calculated when it is opened.

- `src/` is the library, written in Verus; each function states what it returns or changes.
  - `text`: texts, bytes and numerals
  - `model`: numbers, days, columns, rows and the fields of a request
  - `compute`: the figures that follow from members and classes
  - `xlsx`: the package (`zipio`), the XML of a worksheet (`xmlscan`), changes to rows (`surgery`),
    reading the rows (`read`) and what a workbook has to keep to for that (`limits`); `laws`, `again`
    and `reload` hold what is true of written cells, of a change that is made twice and of a workbook
    that is packed, over tags that stand elsewhere (`moved`)
  - `store`: the workbook in memory and its changes
  - `snapshot`, `config`, `api`: versions, settings, and what requests are checked for and answered
- `tests/` runs the library on concrete values.
- `app/` is the program: files, the clock, the server and the desktop. Amounts of money are summed
  there in floating point, over the rows that `compute` picks. The page is read from
  `static/index.html` beside the program.

Numbers of cells are held by the decimal text that writes them.
