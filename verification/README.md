# lau_varadhan_transport

Varadhan's formula and Maslov dequantization: heat kernels on graphs, the
Cole-Hopf transform, tropical (min-plus / max-plus) arithmetic, Hopf-Lax
semigroups, Wasserstein distances, tropical attention and a GPU kernel
scheduler built on them.

## Layout

- `src/` — the verified library (Verus):
  - `maslov.rs`: the min-plus and max-plus tropical semirings on the extended
    integers ℤ ∪ {−∞, +∞} (with an undefined value for +∞ + (−∞), as NaN),
    with their semiring laws proved.
  - `heat_kernel.rs`: the edge relation of a graph, connectivity by search
    from vertex 0 (proved equal to reachability), the path, complete, cycle and
    star families (proved symmetric and connected).
  - `gpu_schedule.rs`: greedy list scheduling of dependent kernels in priority
    order, proved to respect dependencies, to run no task twice and to be
    unique. When the priority list names every task (as the heat-kernel
    priorities do), it is proved to run exactly the tasks from which no chain
    of dependencies runs into a cycle, hence every task exactly when the
    dependencies are acyclic.
- `tests/` — tests of the library.
- `app/` — the real-valued numerics (heat kernel by eigendecomposition,
  Varadhan approximations, Cole-Hopf, deformed arithmetic, Hopf-Lax,
  Wasserstein, attention, spectral embedding, schedule timing, the tropical
  semirings on `f64`) on top of
  `nalgebra`, calling the library for graph structure and scheduling order.
