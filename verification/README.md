# singularity_benchmark

A benchmark runner for tool-using models, whose decisions are verified with
Verus: a dataset of cases is validated, the models to measure are chosen from
a catalogue, each case is graded from what the model left in its workspace,
each model's results are summed into a score and a verdict, and the models are
ranked.

- `src/` is the verified library:
  - `text.rs`: equality, order, search, white space, trimming and joining of text;
  - `json.rs`: JSON values, their equality and the containment test of graders;
  - `dataset.rs`: datasets, cases, graders, path safety and dataset validation;
  - `catalog.rs`: the model catalogue, the choice of its cache file and the selection of models;
  - `report.rs`: results, percentages, verdicts and the ranking;
  - `run.rs`, `run/grade.rs`, `run/workspace.rs`: grading a case, summing a model's results, the names of result directories;
  - `schedule.rs`: the queues of models per provider and the number of workers.
- `app/` is the program around it: command line, files, processes, threads and
  the JSON formats of the dataset, the catalogue and the report.
- `tests/` runs the library on concrete inputs.
