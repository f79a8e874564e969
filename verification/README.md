# obamify

Rearranges the pixels of a source picture so that it resembles a target picture.
Finding the rearrangement is an assignment problem: every target position gets
exactly one source pixel, at a cost that weighs colour against distance.

The library under `src/` is verified with Verus. Every solver is stated as a
mathematical model of its steps, its executable code is proved to follow that
model, and what the model promises is proved about it: permutations stay
permutations, the exact solvers are optimal, refinements never cost more, and a
run that is not cancelled ends with a preset that can be used.

| part | modules |
|------|---------|
| costs and permutations | `cost`, `perm` |
| solvers | `jonker_volgenant`, `auction`, `sinkhorn`, `patchmatch`, `multiscale`, `modes`, `genetic` |
| their steps | `pyramid`, `candidates`, `local_swap`, `float`, `rng` |
| runs | `settings`, `images`, `job`, `process`, `pipeline`, `progress`, `catalog`, `preset` |
| drawing, playing, recording | `drawing`, `morph`, `single`, `recorder`, `render`, `web` |
| small helpers | `text`, `slices` |

`float` computes binary64 numbers with integers, so that the auction is the same
on every machine. The transport plan of Sinkhorn, the forces of the animation and
the user's crops are floating point; they live in `app/`, together with windows,
the GPU, threads and files, and hand the library plain values.

`app/` reads pictures, presets and shaders from the directory that
`OBAMIFY_DATA` names: `calculate/target256.png`, `calculate/weights256.png`,
`calculate/blank.png`, `presets/<name>/source.png`,
`presets/<name>/assignments.json`, and `shaders/*.wgsl`.
