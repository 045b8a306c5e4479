# solar_system

A software-rendered solar system viewer. The verified library (`src/`) holds the
integer parts of the renderer, each with a Verus contract:

- `color`: packed `0xRRGGBB` colors and their channels.
- `framebuffer`: color and depth buffers, depth-tested plots, additive blends,
  and `depth_key`, which turns an `f32` depth into an integer with the same order.
- `line`: the Bresenham walk that rasterizes a line into fragments.
- `app`: inspection mode and hotkeys, bounded orbit trails, trail lines.
- `skybox`: cube-map faces built from RGBA bytes and the sky fill.
- `shaders`: the shader layers (opaque or additive, lit or unlit) and the palette constructors.

`app/` is the program around it: window and input (minifb), image loading (image),
vector math, shading and triangle rasterization (floating point, nalgebra-glm), and
the parallel vertex and fragment stages (rayon).
