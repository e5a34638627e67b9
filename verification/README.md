# modus_ponens

A library for building forward-chaining inference engines over facts whose syntax is given
by a grammar. Facts are parse trees, cut into paths from the root to each leaf or logical
node; rules are
sets of antecedent facts (with variables) leading to consequent facts.

The library is written in Verus, and its logic is verified:

- `segment`, `path`, `matching`, `lexicon`, `fact`, `syntax`: segments of parse trees,
  paths of segments, matchings of variables, and the stores that intern them.
- `facttree`: the set of facts, a tree of paths, with its query; adding a fact whose
  logical values are leaves keeps every fact found before, and such a fact, without
  variables, is found afterwards; while every fact added has leaf values, a query without
  variables is found only where its leaf paths begin those of a fact added.
- `ruletree`: the set of rules, indexed by the paths of their first antecedent, and the
  climb that finds the rules a fact matches; a rule stored under paths without variables
  is reached by a fact with those paths, and stays reachable as more rules are stored; the
  first occurrence of a variable in a rule hangs on the unbound variable edge.
- `parser`: the reading of texts through a grammar (`FactParser`) into facts and rules,
  and the normalization of a fact's variables, with its inverse.
- `knowledge`, `kbase`: the knowledge base, with its queues of activations and the forward
  chaining that `tell` runs; `ask` queries it. Where the work runs out, every fact of the
  text told is found as told; a ground fact of leaf values found as told is answered.
- `transform`, `transform_text`, `transform_num`, `transform_str`, `str_expr`: transforms
  that rules apply to their bindings; the text of a list of transforms and of a string
  expression is read here, and string expressions are computed here.

`app/` holds what surrounds the library: the pest parsers behind `FactParser`, the
floating-point evaluation of numeric transforms and conditions, and the code generators
for the derive of a knowledge base.
