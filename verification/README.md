# Inkline

A layered vector drawing editor: pressure-sensitive strokes, layers with
visibility, opacity and blend modes, selection and transform tools, undo and
redo, compressed project files, and SVG, PNG and JPEG export.

- `src/` is the verified library: the document model, the reversible edit
  commands and the undo history with their laws, the editing actions that
  build commands from a selection, which strokes can be picked, mesh
  concatenation, the blending and buffer-layout decisions of the renderer,
  project-file packing and the list of recent projects.  Coordinates, colours,
  opacities and pressures are held as the bit patterns of `f32` values.
- `app/` is the application around it: the egui window, pointer input,
  stroke tessellation with freedraw and lyon, picking with an R-tree, wgpu
  rendering, file I/O and serde (de)serialization of documents.
- `tests/` exercises the library.
