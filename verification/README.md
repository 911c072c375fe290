# Conflux

Federated learning with a verified core.

- `src/` is the library. It holds the aggregation methods and the rules for
  their batches, clipping, noising and privacy accounting, the limits and
  checks of the transport, and the decisions of a node and of a federation's
  supervisor. Verus proves each function against its contract.
- `src/float/` is IEEE 754 arithmetic on integers. A contract that speaks of a
  sum or a product means the exact one, rounded once.
- `src/laws/` holds what the methods promise together: that a minority cannot
  move a median, that a lone update comes back unchanged, that every method
  makes finite weights of finite updates, that a round moves a model no further
  than its radius or its reference, that another round never costs less
  privacy, and more of that kind.
- `app/` does what the library only decides: it reads the environment, opens
  connections, starts processes, draws noise, and supplies the logarithms and
  powers of the machine.
- `tests/` runs the library on concrete values.

FedNova and SCAFFOLD are built under their names from what the caller
supplies.

Functions that need a logarithm, an exponential or a power take it as an
argument, and their contracts speak of the values it returns.
