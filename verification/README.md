# alloy_engine

A small 2D/3D rendering engine whose core is verified with Verus.

`src/` is the verified library:

- `keyboard` — frame-by-frame keyboard state (held, pressed this frame,
  released this frame), modelled as three sets of keys.
- `backend` — the choice between the GPU drawer and the software drawer
  (`DrawerManager`), by preference and availability.
- `cpu_drawer` — the software rasterizer over an RGBA frame: pixels with an
  optional depth buffer, rectangles, Bresenham lines, triangle outlines and
  scanline-filled triangles, each specified exactly in terms of the frame's
  bytes and the depth buffer.
- `ordering` — stable orders by key (painter's algorithm, 2D layers).
- `scene` — the rendering steps of a scene in each ordering mode.
- `primitives` — capsule mesh topology, cube faces and colors, plane quads.
- `surface` — what to do when the window surface gives no texture, and the
  choice of presentation mode and surface format.

`app/` is the program around it: the window and event loop (`winit`), the
`wgpu` backend, the `pixels` framebuffer for the software path, and the
floating-point geometry (vectors, camera, vertex positions, shading).
