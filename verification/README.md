# crowc

The compiler of Crow, a small statically typed language with structs, enums,
generics, closures, methods and pattern matching, with the decisions of its
runtime and a model of its precise, generational collector.

`src/` is the library. Every function in it has a contract that Verus proves.

| Modules | What they hold |
| --- | --- |
| `text`, `lexer`, `grammar`, `parser`, `ast` | from source text to trees |
| `types`, `typing`, `rules`, `typeck` | the type checker and its rules |
| `mono`, `walk` | instantiation of generic functions |
| `ir`, `lower`, `codegen` | from checked trees to units of functions and data |
| `cli` | the command line, and the way from text to unit |
| `object`, `builtins`, `stackmaps`, `gc` | what the runtime decides and computes |
| `heap`, `arrays` | a model of the collector and of arrays, on handles in place of addresses |
| `memory`, `machine`, `meaning`, `objects`, `writing` | what code does |
| `evaluate`, `computing`, `expressions`, `building`, `choosing`, `handing` | what expressions mean, over memory, and that their code computes it |
| `statements`, `performing`, `assigning`, `branching`, `looping` | the same of statements |
| `routines`, `programs` | what units do whose bodies call one another, and what programs are compiled to |
| `scalars`, `execute`, `calling` | more of programs over integers and truth values |
| `checking`, `soundness`, `matching`, `concrete`, `sharing` | what holds of the checker, of checked and of compiled programs |

Proof functions whose names begin with `law_` state what holds of the library
as a whole. To name a few: the code of every expression and statement but those
on floating-point numbers does what it means, over memory; so do whole programs,
with their calls, closures and generic functions, their panics and what they
print; what a closure captured is what its body reads; a
checked match leaves no value out; a collection keeps what is reachable and
frees the rest; all instantiations at references share one body.

`tests/` runs programs: they are compiled to units, and the units are run
instruction by instruction.

`app/` is the program around the library: it reads and writes files, hands
units to Cranelift, links, and holds the runtime's entry points. The runtime in
`app/` works on raw memory, by the functions of `object`, `builtins`,
`stackmaps` and `gc`; nothing ties it to the model in `heap` and `arrays` but
that both follow the same design.
