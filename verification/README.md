# boxpacker

Fits rectangular items into rectangular containers with exact integer
geometry, and proves, with Verus, what the packing code does.

## Layout

- `src/` — the verified library.
  - `geometry` — positive lengths, coordinates, boxes, the distinct rotations
    of an item.
  - `validate` — input validation into a `PackingInstance`, and the
    independent solution validator: a solution passes exactly when every
    placement is inside its container, rotated only by exchanging axes, clear
    of the others, and every item is named once; each reported violation is a
    real one, and every violation is reported.
  - `objective` — the ordering of candidate solutions.
  - `solver::constructive` — maximal-free-space construction. Without a
    binding deadline its answer is a function of the instance alone, and an
    item is left out only when no orientation of it fits anywhere. It fails
    only when a score or its count of tries would overflow the exact integer
    arithmetic.
  - `solver::improve` — deterministic seeded construction plans
    (shuffle, move, swap, forced rotation, ejection chain, ruin and recreate).
  - `solver::portfolio` — the deterministic work plan and the incumbent
    reduction (best objective, then smallest work index). The answer is the
    best of validated outcomes of the plan's work units; two runs whose
    units all ran to the end agree, whatever their thread counts.
  - `solver::exact` — bounded residual repair at face events; never worse
    than its incumbent.
  - `compatibility` — resolution of saved outputs to stable identities; the
    error returned is the first failure in document order.
  - `report`, `cli`, `app` — escaping for the HTML report, output paths, and
    the solving stage of a run.
- `tests/` — tests of the library on concrete values.
- `app/` — the command-line program: argument parsing, JSON reading and
  writing, decimal input conversion, the HTML page and parallel workers.
