# sbpl

Fits a smoothly broken power law to the light curves of an afterglow in several bands
at once: a particle swarm searches the parameters globally, a quasi-Newton solver
refines what it finds, and the best of several restarts is reported with the spread of
all of them.

The library under `src/` is verified with Verus. It holds numbers as binary64 words and
compares them as integers; everything that rounds is asked of an arithmetic unit that
the caller supplies, and so are random numbers and the local solver. The contracts say
what is computed for every such unit, source and solver.

- `word`: binary64 words, their order, extremes and clamping
- `arith`: the operations asked of the arithmetic unit
- `model`: band frequencies and the power law
- `cost`: chi squared per observation, in physical and in scaled parameters
- `swarm`, `rng`: the global search and its random numbers
- `refine`: local refinement
- `bands`, `observe`: from light curves to normalised observations
- `result`, `fit`: the fit
- `rounding`, `reals`: facts of rounded arithmetic that laws rest on, and real numbers
- `model_laws`, `cost_laws`: what holds of frequencies, the model and the cost
- `laws`: what holds of numbers, the search and the refinement
- `fit_laws`: what holds of a whole fit
- `data_laws`, `unit_laws`: what a fit does not depend on

`app/` supplies floating-point arithmetic, the generator's draws and the solver, and a
result that can be serialised.
