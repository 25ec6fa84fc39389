# zia

An interpreter for the Zia programming language, with a core whose behaviour
is stated in contracts and proved.

A command is a binary tree of symbols, written with parentheses and single
spaces. A `Context` holds concepts: each may be defined as a pair of other
concepts, may reduce to another concept, and may be labelled with a text.
Three concepts are built in: `LABEL`, which labels the others, `:=` and `->`.

```
let (c (:= (a b)))    defines c as the pair a b
c :=                  prints the definition of c: a b
let (e (:= b))        relabels b as e
let (a (-> b))        makes a reduce to b
a ->                  prints the normal form of a: b
let (a (-> a))        removes the reduction rule of a
```

A command `let X` carries out `X`; the word `let` may also be left out.

Commands that would make a chain of reductions loop, define a concept by an
expression that contains it, give a reduction rule to a pair whose parts
already reduce, or repeat an existing rule are refused with an error message.

## Layout

- `src/model.rs`: the mathematical model of a context and its invariant.
- `src/concepts.rs`, `src/context.rs`: concepts and the context that stores them.
- `src/reading.rs`, `src/syntax.rs`, `src/reducing.rs`: reading concepts,
  normal forms, labels and the syntax trees of concepts.
- `src/upkeep.rs`, `src/writing.rs`, `src/labelling.rs`: changing
  definitions, reductions and labels while keeping the invariant.
- `src/token.rs`, `src/translating.rs`, `src/ast.rs`: reading commands.
- `src/commands.rs`: carrying out commands.
- `src/laws.rs`: properties of the library as a whole.
- `app/main.rs`: an interactive shell that executes one command per line.
