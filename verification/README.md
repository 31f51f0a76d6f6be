# hydrocode

GPU fluid simulation (smoothed-particle hydrodynamics and MLS-MPM) with a
verified core.

- `src/` is the library, verified with Verus:
  - `shader_module`: collects WGSL modules and joins them into one source;
  - `geometry`: the topology of UV-sphere meshes (vertex grid and triangle
    index list) over a vertex type chosen by the caller;
  - `sph`: the spatial hash of the SPH solver: stable sort by cell key, start
    index of every cell, and the GPU word layout of the hash;
  - `mls_mpm`: the integer grid nodes of the MLS-MPM solver read back from the
    GPU;
  - `gpu`: workgroup counts and the byte view of GPU buffers.
- `app/` is the program: window, GPU pipelines, floating-point particle
  records, camera, and CSV input and output. It reads its WGSL shaders from
  the directory named by `HYDROCODE_SHADER_DIR` (default `shaders`).
