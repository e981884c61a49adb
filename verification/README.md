# taguchi

Designs, analyses and augments factorial experiments from a model. You name the
factors, the results and the terms that you want to estimate; the library picks
the smallest design that estimates them, writes a run table, and reads the filled
table back.

The library in `src/` is written in Verus: every function carries its contract,
and the properties that span functions stand beside them as public proof
functions. Floating-point arithmetic, files and the command line stay in `app/`.

## Modules

| module | what it holds |
| --- | --- |
| `oa` | orthogonal arrays: Galois fields, Bush construction, Kronecker products, mixed levels by backtracking, the array catalog, the strength test |
| `model` | formulas, model matrices, estimability and aliases |
| `design_select` | candidate designs, the assignment of factors to columns, the choice of the smallest one, its report |
| `construct` | the design file, the interactive dialogue, the run table and its ids |
| `augment` | the filled table, the targets, the choice of added runs, ids and units that continue |
| `analyze` | observations, the columns of each fit, strata, pooling, significance, the prediction grid, resampled groups |
| `report` | the text of an analysis |
| `factor`, `rng`, `csv_text`, `text`, `float`, `tuples`, `error` | what the others share |

Numbers that are floats in the program stand in the library as the 64 bits that
represent them. Ranks, gains and predicted means come in as arguments or through
a function that the caller passes.

## Program

    taguchi construct --from design.txt -o runs.csv
    taguchi analyze runs.csv
    taguchi augment runs.csv -o more.csv --for a:b

The array catalog is read from the directory in `TAGUCHI_ARRAYS`, otherwise from
`data/sloane_arrays`.
