# rested

A small language for describing HTTP requests, and its interpreter.

```rd
set BASE_URL env("b_url")
let token = env("token")

@name("create")
post /potatoes {
   header "Authorization" `Bearer ${token}`
   body read("potato.json")
}
```

## Layout

- `src/` is the library, verified with Verus:
  - `lexer` turns source text into tokens; `simple_lexer` is the older,
    simpler tokenizer of the same language;
  - `parser` reads tokens into a program (`ast`), reports errors with the lines
    around them (`error`), and writes programs back as text (`stringify`);
  - `interpreter` evaluates a program into the requests it describes, with the
    variables of an environment (`runtime`, which also reads an environment
    file's text) and the files read so far, and lays out JSON responses
    (`response`);
  - `scratch` orders scratch files, reads history selections such as `1..3`,
    and tells which file a listing shows or a pick names;
  - `language_server` holds what an editor is told: where a cursor stands
    relative to a span of source text (`position`), which sort of completions
    to offer at a cursor (`completions`), and what to show when the cursor
    rests on a built-in function, an `env(..)` variable or an endpoint
    (`hover`), and which `env(..)` variables some namespaces lack (`warnings`);
  - `error_meta` and `error` lay errors out under the source line they point at;
  - `locations`, `names` and `text` are shared helpers.
- `app/` is the `rstd` command line program: it reads scripts and environment
  files, reads the files that `read(..)` asks for, sends the requests with
  `ureq`, and prints the responses; it also keeps scratch files in the
  directory its configuration (`confy`) names and opens them in `$EDITOR`;
  `rstd lsp` serves the editor protocol (`tower-lsp`), answering from the
  library's `language_server` functions.
- `tests/` holds the tests of the library.

Evaluation never touches the disk itself: when a script calls `read(..)` on a
file not read yet, evaluation stops and names it; the program reads it and
evaluates again with its contents.

Object and array values are written as JSON, with object keys in sorted order,
and so is the value of `json(..)`. Evaluation goes on past an item that fails,
so that every failing item is reported; a text that does not parse reports
every parse error.
