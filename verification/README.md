# region_converter

A converter for Minecraft Java Edition region saves between

- `mca` (`.mca`, with `.mcc` chunk files),
- `linear` (`.linear`, versions 1 and 2),
- `blinear_v2` and `blinear_v3` (`.b_linear`),

whose logic is proved with Verus.

## Layout

- `src/` is the verified library. `formats/` holds the four layouts: for each a
  model of what a file says, a reader that keeps every chunk that can be kept and
  notes the others, a writer, and the law that a written region reads back.
  `discovery` and `planner` decide what is converted to what; `convert`, `runtime`
  and `writer` decide what a run does next and what it reports; `info` and `console`
  are about inspections and what is printed.
- Taken on trust are the calls of the compression crates and of the hash, in `codec`,
  and `String::push`, in `text`. Their doc comments say what is claimed of them.
- `app/` is the program: arguments, files, threads and the progress bar.
- `tests/` runs the library on concrete values.

Paths are lists of components, and times are nanoseconds, so that contracts can speak
of them.
