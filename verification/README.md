# gol

Conway's Game of Life on a toroidal board, as a Verus library with a small
command-line program around it.

- `src/` is the verified library:
  - `gol_instance`: the board, its drawing as text, and its flat (row after
    row) encoding, with the law that rebuilding a board from its encoding
    gives it back.
  - `solver`: one generation (`step`) against a mathematical model of the
    rule, `iterate`, and the laws on generations (shape, zeros and ones,
    still empty board, composition, and that a step commutes with turning
    the torus and with mirroring the board on its diagonal).
  - `generators`: the small board, a board filled row after row from
    given values, and a random board (through `rand`).
  - `solver_gpu`: the decisions of the GPU path: work group counts, the
    order of the descriptor sets over the dispatches and the buffer the
    result is read from, and the checks of the buffer tests.
  - `gpu_utils`: the choice of the physical device.
- `app/` is the program: argument handling, printing, and the Vulkan calls
  (through `vulkano`), which take their decisions from the library.
- `extras/shaders/` holds the compute shaders the program loads.
