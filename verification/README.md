# kokkupanek

Building blocks of a cluster scheduler, verified with Verus, and the
scheduler program built on them.

- `src/` is the verified library:
  - `strmap`: a map from text keys kept in key order, viewed as a `Map`;
  - `lwwset`: last-writer-wins maps whose replicas merge key by key;
  - `shield`: valid values, or the JSON that stood where one was expected;
  - `input`: the scheduler input, its hosts, and the merge of parents;
  - `logger`: the text of the log of a scheduler run;
  - `random`: the seeding of the run's generator, and its samples;
  - `scheduler`: the schedule, the mutations of its API, and the placement
    of service instances over the hosts (`distribute`, `plan`).
- `app/` is the program around it: JSON in and out, the process-wide
  logger, and the GraphQL schema that runs the requested actions.
- `tests/` runs the library on concrete schedules.
