# razel-analysis

The analysis phase of a build: for a target in a configuration it resolves `select()` attributes,
looks up the dependencies, checks their visibility, runs the rule and yields a configured target.

- `src/` is the verified library. It holds the identity and the canonical bytes of configured
  targets, labels, visibility, `config_setting` and `select()`, the map from the files of
  dependencies to their producing actions, and the analysis itself as a sequence of steps. A step
  says what is asked of the build graph; the answer leads to the next step.
- `tests/` runs the library on concrete values.
- `app/` drives the steps: it requests nodes of an engine, reads sources and runs rules.

Contracts are stated over models (`…View` types): every function of the library says exactly what
it returns, each failure with its text included. Where such a text prints a list of strings, that
part is the result of the standard library's formatting, which `outside::listed` names. The laws that span functions are public proof
functions whose names begin with `law_`.
