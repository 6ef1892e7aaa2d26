# pulse

The abstract domain and the decision procedures of a separation-logic based
memory analyser, written in Verus.

A state of the analysis is a pair of abstract heaps (what a procedure needs and
what it leaves behind) and a path condition over the values in them. The library
holds these data types, the operations on them and the rules by which a procedure
is analysed; each function states in its contract what it returns or changes.

- `src/ordered.rs`, `list.rs`, `key.rs`, `text.rs`: ordered maps and sets, lists,
  keys that identify a value, and text.
- `src/sil.rs`: the part of the intermediate language that the analysis reads.
- `src/rational.rs`, `src/formula/`: rational arithmetic and the path condition:
  intervals, classes of equal values, linear equations, terms, comparisons, the
  solver, and the rules by which a condition goes into a summary. The modules
  `meaning`, `path_laws`, `binop_laws`, `first_facts` and `progress_laws` relate
  the solver to what a formula says of numbers; `apart_laws`, `reach_laws`,
  `simplify_laws`, `witness_laws` and `export_laws` say what holds of a formula that
  goes into a summary.
- `src/base_*.rs`, `heap_*.rs`: stack, heap and attributes.
- `src/abductive*.rs`, `state_laws.rs`: states, reading, writing, equalities.
- `src/diagnostic.rs`, `bug_trace.rs`, `execution_domain.rs`, `state_same.rs`:
  errors, their traces, and how a path can end.
- `src/checker/`: what is run at a node, how a call is dealt with, specialization
  of summaries, what goes into a summary and what is reported.
- `app/`: the fixpoint, logs, resource limits and serialization around the library.

The arithmetic on fractions is `num_rational`'s; `src/rational.rs` says what each
of its operations returns.
