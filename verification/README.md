# just

Justfiles: recipes, which are named lists of commands, and variables that the commands use.

    greeting = "x"

    all: build
        echo {{greeting}} done

    build:
        @cc main.c

`src/` is the library, written in Verus: every function in it but two is proved to meet its contract.

- `text`, `table`, `graph`: strings, tables and sets of names, paths and circles.
- `pattern`: the regular expressions that tokens are found with. The `regex` crate matches them.
  Two private functions hand it a pattern and a text; their contracts say what each pattern finds,
  and are taken on trust.
- `token`, `lexer`: a text is cut into tokens.
- `expression`, `recipe`, `error`: what is parsed, and what can be wrong with it.
- `parser`, `file`, `parse`: tokens are parsed.
- `resolver`, `evaluator`: dependencies are resolved, variables and lines evaluated.
- `justfile`, `run`: which recipes are run, in which order, and what each has the system do.
- `*_laws`: what holds of all texts, tokens, errors, values and plans.
- `alike`, `linked`, `written*`: that a justfile is read back from what is written of it.

`app/` is ordinary Rust around it: it reads files, starts processes and prints messages.
