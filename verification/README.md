# jsonnet_bytecode

The front end of a bytecode implementation of Jsonnet, written in Verus: the
behaviour of each part is stated as `requires`/`ensures` contracts over
mathematical models and proved.

- `src/lexical.rs`, `src/text_block.rs`, `src/text.rs`: the lexer as
  specification (what one token is, from a character index), with UTF-8
  widths and Unicode character classes.
- `src/scanner.rs`: the scanner, proved to produce exactly the tokens and
  errors of that specification, with byte-offset spans.
- `src/parser.rs`: a token cursor with lookahead, checkpoints and error state.
- `src/scopes.rs`: the state of the function being compiled: operator
  binding powers, locals and their stack slots, block scopes and the code
  that leaves them, upvalues through enclosing functions, the constant pool,
  and the code for constants, jumps and closures.
- `src/compile_errors.rs`: the errors compiling reports about the tokens.
- `src/compiler.rs`: the expression compiler, a Pratt parser over the
  token cursor that writes bytecode for literals, imports, `self`, `super`,
  variables, unary and binary operators (with short-circuit `&&` and `||`),
  parentheses, `error`, `if`/`then`/`else` and the `.name` and `[e]`
  index operators, pooling equal constants. A compiled chunk decodes into
  whole instructions ending in `Return`, every constant load and import
  names one of its constants, no constant occurs twice, and its span table
  stands for its code.
- `src/chunk.rs`: opcodes, bytecode chunks, the run-length table of source
  spans, little-endian operands and instruction decoding.
- `src/disassembly.rs`: the text of a bytecode listing (raw bytes and one
  label per instruction).
- `src/string_pool.rs`: string interning with mark-and-sweep collection.
- `src/memory_manager.rs`: the heap of the virtual machine in a slot map
  (strings, objects, arrays, functions, closures, upvalues, imports), its
  byte count and a mark-and-sweep collector proved to keep exactly the
  entries reachable from its roots.
- `src/heap_natives.rs`: standard-library functions on heap values (type and
  kind tests, split, join, lines, stringChars, strReplace, the strip
  functions, startsWith, endsWith, isEmpty, asciiUpper, asciiLower, reverse,
  flattenArrays, all, any, md5, sha1, sha256, sha512, sha3).
- `src/manifest.rs`: the text of a JSON value as jsonnet prints it.
- `src/formatting.rs`: `std.format` (`format_string`): the format's pieces
  applied to the values, with the floating-point steps (a number's text,
  `%f`/`%e`/`%g`, the conversion to a whole number) handed in by the caller.
- `call_native` in `src/heap_natives.rs` dispatches the standard-library
  functions that compute without floating point, after checking the number
  of arguments.
- `src/coverage.rs`, `src/lcov.rs`: span, function and branch coverage and
  LCOV records.
- `src/native.rs`: standard-library helpers (base64, digests, value
  equality, string escaping and parsing, pieces of `%` formatting).
- `src/string_natives.rs`: the text side of the standard library's string
  functions (strip, substr, split, replace, join, repeat, code points, UTF-8).
- `src/format_spec.rs`, `src/int_format.rs`: the grammar of `std.format`
  strings, the values they draw on, and the whole-number and text
  conversions.
- `src/serialized.rs`: the stored form of code and span tables.
- `app/`: the command-line program (file and terminal I/O, ariadne reports,
  floating-point formatting and the parsing of number literals).

Not in the library: the forms whose instructions the instruction set of
`src/chunk.rs` does not have (object and array literals and
comprehensions, `local`, tail calls, `in`, slices, `importstr`,
`importbin`, indexing `super`, and `std`), function definitions, calls
and `assert`, the standard-library functions that compute on
floating-point numbers or on object inheritance chains, sorting, and the
serialized program format; `app/` holds the floating-point renderings and
the command line.
