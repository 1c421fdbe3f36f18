# rcl

An interpreter for RCL, a small language whose programs declare generators,
constraints, events and concepts over an operator algebra, and run them on a
machine that keeps a causal graph of everything it executed.

The crate is a Verus library with the language's logic proved against its
contracts, and a program around it.

## `src/`: the verified library

- `text`: character classes and string helpers.
- `lexer`: the tokenizer, with the token grammar as spec functions
  (`tokens_from`) and the law that a token list ends with one `Eof`.
- `ast`, `grammar`, `parser`: the syntax tree, the grammar as spec functions
  (`sp_program` and the functions below it), and a parser proved to follow it.
- `algebra`: generators and monomials, with the monoid laws of composition.
- `vm`: token kinds, identifiers, and the counters that hand out generators
  and grow the basis when the pathways fill it.
- `graph`: the causal graph's links: closures, depths, ancestors, and the
  walks along lists and down from the deepest event, the loading of a saved
  memory, and the law that adding events keeps the structure closed.
- `scan`: the source scanner behind `lex`, and the line stream behind
  `lex_file_lines`.
- `ingest`: free text to concept phrases and cleaned words.
- `session`: the interactive session's input blocks.
- `imports`: the record of imported files, each read once.
- `memory`: the memory file's byte format, with the law that reading back
  what was written gives the same image.

## `app/`: the program

`main`, file and terminal I/O, and the parts that compute with floating
point: complex matrices, the physical state, the quotient of elements, burdens
and attentional scales, and the compiler that evaluates expressions to
algebra elements.
