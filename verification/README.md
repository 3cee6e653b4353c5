# rlox

A tree-walking interpreter for the Lox language, whose front end and runtime
core are verified with Verus.

## Layout

- `src/` — the verified library:
  - `lexer.rs`: the lexer, specified by a grammar of lexemes (`lexemes`,
    `next_lexeme`); `tokenize` returns exactly the tokens that grammar gives,
    whose lines never decrease.
  - `grammar.rs`: the grammar of Lox as spec functions, one per precedence
    level and statement form (`g_expr`, `g_level`, `g_stmt`, `g_program`, ...),
    each giving the tree that the tokens from a position make and where it ends.
  - `parser.rs`: the recursive-descent parser. Each parsing function returns
    exactly the tree the grammar gives, or reports an error where the grammar
    gives none; `parse` succeeds exactly on programs of the grammar (when no
    error was reported before), and a `for` loop becomes its `while` form.
  - `resolver.rs`: the static resolver. It succeeds exactly on programs
    without static errors (`stmts_clean`); on success it records, for each
    local reference, the distance to the innermost scope that declares it
    (`stmts_res`); each static error comes with its report.
  - `environment.rs`: environments as an arena with read-after-write laws.
  - `interpreter.rs`, `value.rs`: the interpreter's state (functions, classes,
    instances, arrays) and every operation on it that does not compute with
    numbers: variables, calls, classes and methods, properties, arrays, native
    functions, operators and printing of non-numbers.
  - `runner.rs`: the statement runner, a state machine that decides, one step
    at a time, what statements do (branches, loops, blocks and their
    environments, declarations, `return`, errors), and asks its driver to
    evaluate expressions and to print; and the program-level decisions
    (`program_start`, `program_next`): resolve, run the statements in order,
    stop at the first that fails, then end with the program's outcome.
- `app/` — the command-line program: reading files and lines, printing, driving
  the statement runner, the walk over expressions, and all arithmetic on Lox
  numbers (`f32`).
- `tests/` — tests of the library.
