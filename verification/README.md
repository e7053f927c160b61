# sniprun (verified core)

The library in `src/` holds the logic of a snippet runner, proved with Verus:

- `level`: the support levels and their order;
- `interpreter`: the `Interpreter` trait, source ranges, inclusion between ranges and
  the squashing of range lists (with its laws);
- `treesitter_utils`: reading the editor's listings of syntax nodes and the walk up the
  syntax tree that collects the code a selection depends on;
- `interpreters`: the Rust and Python 3 interpreters: choosing the code, completing it
  into a program, cutting dependencies out of the file, keeping used imports, and what
  compiler and program outcomes come to;
- `text`: the string processing these need, each function proved against a
  specification of the standard-library operation it stands for;
- `foreign`: the trusted items (`char::is_whitespace`, `unindent::unindent`).

`app/` talks to the outside world: neovim, files, `rustc` and `python`.
