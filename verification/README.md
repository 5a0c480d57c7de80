# vcl-normalizer

`vcl-normalizer` compares two VCL 4.1 files for functional equivalence. It parses
both, brings each into a canonical form and tells whether the two forms are the
same. Naming, formatting, comments, the order of declarations, the spelling of
literals, the style of vmod arguments, probes written in place and the layout of
files do not matter to the canonical form.

- `src/` is the library, written in Verus: every function has a contract, and
  every contract is proved.
  - `text`, `decimal`, `order`, `table`, `json`: texts, exact decimals, sorting,
    maps and JSON trees.
  - `ast`: the tree, source places, diagnostics and comments.
  - `lexer`, `vclshow`, `inclusion`: tokens of a text, of a `vcl.show` dump, and
    of a file with what it includes.
  - `grammar`, `statements`, `parser`: what the tokens mean, and reading it.
  - `symbols`, `uses`, `vmod`: declared and used names, and vmod descriptions.
  - `normalize`: the five passes to the canonical form.
  - `canon`, `printer`, `compare`, `pipeline`: the canonical JSON, the printed
    program, the places at which two programs differ, and the commands.
  - `layout`: layout, comments and the split over files do not matter.
  - `readback`: what is printed is read back, and printing is a fixpoint of the
    canonical form.
- `tests/` runs the library on concrete programs.
- `app/` is the command line around it.

Functions named `law_...` state what holds of several functions together: what
does not matter to the canonical form (`layout`, `normalize::invariance`,
`normalize::reordering`, `normalize::arg_style`, `normalize::spelling`, and for
whole texts `layout::arms`, `layout::equivalence` and `layout::written`), what
each pass leaves done (`normalize::once`, `normalize::fixpoint` and beside the
passes), what a valid program declares (`symbols::soundness`), that a comparison
is exact (`compare::exactness`), that the canonical form keeps all but the places
(`layout::telling`), and what of a printed program is read back (`readback`).

A printed program stands for the program that was printed where the language has
words for all of it. It has none for a string that holds `"}`, for an argument
left out before another, and for a whole number of seconds beyond 64 bits, and it
takes a call of a name that starts with `else` behind an `if` for another arm.

What the library takes from other crates stands behind functions whose contracts
are believed: the JSON texts of `serde_json`, the unified diff of `similar`, and a
few text functions of the standard library. Their doc comments say what is
claimed of them.
