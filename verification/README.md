# assembler

The core of a two-pass assembler for instruction sets that are defined by rules. A rule says how an
instruction is written, which arguments it takes and what has to be true of them, and which bits the
instruction stands for.

The first pass reads the source line by line. It defines labels and constants, picks a rule for each
instruction, and writes every piece of data and every instruction whose values are known. What needs
a label from further down keeps its place free and is written by the second pass.

## Layout

- `src/` is the library. Every function in it is verified with Verus.
  - `model.rs` says what assembling a program means, line by line.
  - `assembler.rs` does it; `assemble` is proved to give what the model says.
  - `laws/` states what holds of every program: labels keep their values, the place of an item does
    not depend on its value, the output is what the items of the program lay down in a fixed order,
    a nested file is as good as its text, constants whose values do not depend on where they stand
    may stand behind the data that uses them, places in the source do not matter, and a line that
    fails leaves behind what it did before the failure and nothing else.
  - `expr/` holds expressions and their values, `rule.rs` and `definition.rs` the instruction set,
    `source.rs`, `token.rs` and `parser.rs` the source, `label.rs` the labels, `integer.rs` and
    `bitvec.rs` the bits, `error.rs` and `text.rs` messages.
- `app/` reads the files that a program asks for.
- `tests/` runs the library on whole programs and on its parts.

Tokens and expressions come from a front end that the caller supplies: a `Source` holds the tokens
of a file, and for each of them the expression that starts there.

A file that is asked for but was not supplied is reported as `Failure::MissingFile`; the caller adds
it and assembles once more. Numbers that leave the range of the integers that hold them are reported
as `Failure::Overflow`, and files that are nested too deeply as `Failure::TooDeep`.
