# fidget_kernels

Compiled kernels for implicit shapes: subexpressions of a math tree which are
compiled into straight-line WGSL functions, instead of being run by a tape
interpreter.  The library is verified with Verus.

| Module | What it holds |
|---|---|
| `kernels` | kernel sets, and splitting a tree into kernels and the rest |
| `program` | the WGSL program of the kernels that a shape uses |
| `wgsl` | straight-line code as WGSL text |
| `tape` | bytecode tapes: what running one means, and lowering one |
| `leaves` | which parts of an expression are worth a kernel |
| `split` | why splitting does not change an expression |
| `pipeline` | from a tree that was split to the program of its kernels |
| `signature` | the function that every kernel source defines |
| `trace`, `rebuild`, `faithful` | from one expression context to another |
| `model` | models as text |
| `expr`, `opcode`, `error`, `text` | expressions, operations, errors, numbers |
| `context`, `outside` | what is taken as given of the `fidget` crates |
| `gallery` | pixels and files of the model gallery |

`app/` is the gallery program: it reads models, renders them and writes files.

## What is proved

- Compiled and interpreted evaluation of a tape agree, in every kind of value
  (`tape::compiled_and_interpreted_agree`).
- Splitting a tree into kernels and an outer tree is exact
  (`kernels::compile_leaves_is_exact`), wherever the order of the two arguments
  of a sum, product, minimum or maximum makes no difference.
- The choices (`min`, `max`, `and`, `or`) stay in the outer tree
  (`kernels::compile_leaves_keeps_choices`).
- Kernels are maximal, shared, large enough, and use only the axes
  (`leaves`).
- A program holds exactly the kernels that the shape uses, under different
  names, and depends on their content only (`program`).
- Building the program of a tree that was split succeeds, and every kernel is
  used (`pipeline::split_trees_build`).
- Different placeholders have different cases, and the inputs of a program are
  distinct (`program::placeholders_are_told_apart`).
- Every source defines `kernel_input` once, with the same signature
  (`signature`).

Placeholders are random variables.  That splitting is exact, that the choices
stay outside and that every kernel is used is proved for placeholders that are
new: distinct, and none of them a variable of the tree.  For any others,
`kernels::is_split` says how the outer tree is built.

What is not proved is listed where it is assumed: the functions in `context`
and `outside` whose comments say *Taken as given*.
