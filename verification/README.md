# lua_compiler

A compiler from the syntax tree of Lua chunks to the bytecode of a register machine, with the proof
of what it does.

The compiler takes declarations of locals, local functions, calls without results, assignments to
locals and upvalues, returns, and expressions of literals, names, brackets and additions. Anything
else is refused with an error that names the part.

- `ast`, `operators`: the syntax tree that is compiled.
- `opcode`, `function`, `value`: what it is compiled to.
- `error`: why a chunk cannot be compiled.
- `registers`, `top_stack`, `constants`, `compiler_function`, `compiler`: the compiler.
- `model`: what each part of a chunk compiles to, as a function.
- `emission`: what is emitted for operands, wherever the registers in use lie.
- `validity`, `soundness`, `limits`: what holds of the functions under compilation at all times.
- `machine`, `execution`: what compiled code does when it runs.
- `laws`: what holds of every chunk.

Operators between values that are known when a chunk is compiled are left to a function that the
caller hands in.

The crate under `app` puts the compiled functions into a garbage collected arena.
