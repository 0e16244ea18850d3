# oxidelica_flatten

Flattening of Modelica class trees: a model and everything it holds is
instantiated into one flat system of components and equations, with every name
written out in full. The library under `src/` is verified with Verus. `flatten`
calls every step it has of its own - instantiating, stating equations, working
calls out, joining connections, lifting clocks out - and its contract is written
over theirs, down to what is handed in. The `law_...` proof functions state what
holds across steps.

- `class`, `expr`, `sameness`, `number`, `value`, `table`, `text`, `make`: what a
  model is written in, its mathematical views, and when two expressions are the
  same.
- `lookup`, `asked`, `inheritance`, `scoping`, `restrictions`: what names mean,
  what is inherited, and what the language asks of a class.
- `constants`, `folding`, `resolving`, `shapes`, `sizes`, `slices`,
  `spreading`: settling values and array lengths.
- `functions`, `bodies`, `arguments`, `inlining`, `calls`, `operators`,
  `records`, `external`: calls, the bodies behind them and what travels with a
  model.
- `instantiate`, `reading`, `rounds`, `equations`, `values`: building the
  components and equations of a class.
- `keeping`: that no check is lost on the way, and that what called bodies check
  the model checks.
- `joins`, `groups`, `graph`, `queries`, `streams`, `buses`: connections.
- `machines`, `stepping`, `clockwork`, `partitions`: state machines and clocks.
- `grids`: tables read between their points.
- `flat`, `flattening`, `info`: the flat model, the whole of flattening, and a
  summary of a class for tools.
- `outside`, `web`, `tree`: what flattening leans on and does not hold itself,
  and the library's own steps tied together over it.

What is handed in are the parts of a compiler that stand beside this one:
floating-point arithmetic, the making of array values, the running of statements,
the components of a class, clocks, strings, tables and the checks of a finished
model (`outside`). Each is a function with a mathematical model of what it
answers, and the contracts speak of that model; what such a part does is not
proved here. Numbers are doubles held by their bits. `app/` holds the
floating-point arithmetic, the lookup of resource files, the environment switches
and the entry points for tools.
