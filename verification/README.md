# gtaveh

Decoding of GTA5 vehicle assets into the compact GVEH wire format a Roblox
client reads, verified with Verus.

- `src/` is the library: RPF archive lookup (`archive`), RSC7 paged
  resources (`rsc7`), `.yft` fragments (`yft`), skeletons, shaders and
  physics joints, `.ytd` texture dictionaries (`textures`), grouping of the
  mesh into rigid parts (`parts`), `handling.meta` fields (`handling`), the
  wire encoder (`wire`) and the end-to-end build (`pipeline`). Every `f32`
  of the formats is carried as its bit pattern.
- `app/` is the program around it: the command line, the HTTP server, file
  I/O, PNG and OBJ output, and the floating-point steps (bone world
  positions, placing physics children, parsing handling numbers).
- `tests/` exercises the library on hand-built resources and archives.

Archives are RPF7 (GTA V). The table of contents must form a tree the
directory walk can go down: every directory lies before its children, no
entry is the child of two directories, and directories nest at most 64 deep;
other tables are refused. Functions
that decrypt take a key set only once `keys_usable` has accepted it (all 101
NG keys present, each at least 272 bytes).
