# nexa

A minimal compiler and stack virtual machine for the NEXA language (`.nxa` files):

```
fn main() { print("Hello NEXA"); }
```

The library under `src/` is written in Verus. Each stage states what it computes as a
spec function over mathematical models (sequences of characters, tokens and syntax trees)
and is proved against it:

- `text`: UTF-8 offsets, decimal rendering, string helpers.
- `errors`: spans, diagnostics and their rendering with a source excerpt.
- `lexer`: characters to tokens, with byte spans.
- `ast`, `parser`: tokens to a syntax tree (recursive descent).
- `types`: the type checker (`Int`, `String`, `Void`, `print`, calls).
- `compile`: syntax tree to bytecode, one chunk per function.
- `vm`: the bytecode and a stack machine that runs it one step at a time.
- `driver`: the front end as one step, from source text to bytecode or to the reason it stops.
- `session`: a loaded source file.
- `examples`: a program with a `Void` call statement, type-checked, compiled and run in the models.

`app/` holds the command line (`nexa run|check|build|fmt <file>`): it reads the file,
drives the stages and prints what the machine asks it to print. `build` and `fmt` are
reserved commands that report that they are not available.
