# Scalarboard

A native viewer for the scalars in TensorBoard event files, with a verified core.

- `src/` is the library, verified with Verus: reading event files, binning, the
  compute worker, the cache of shown series, and the decisions of the window.
- `app/` is the program around it: threads, files, the window, and floating point
  arithmetic.
- `tests/` runs the library on concrete values.

Tags that start with `eval/` are shown point by point. All other tags are summarised
into bins of equal width; each bin shows the mean of its values and one standard
deviation around it. The width can be changed at any time.

The library does no floating point arithmetic. It carries values as bit patterns and
takes the running moments of a bin as a function; what is proved holds for every such
function. Horizontal coordinates of bins are held doubled, as exact integers.

    scalarboard --path <directory> --depth <levels>
