# miniko_renderer

The compositing core of the Miniko avatar renderer, written in Verus, and
the desktop program around it.

`src/` is the verified library:

- `layer_stack`: the textures of the 41 avatar layers, drawn from layer 41
  (back) to layer 1 (front).
- `renderer`: which asset each layer should show, the background loads
  waiting to be installed (a load is installed only while its asset is still
  wanted), the animations on screen, the upload jobs of each frame and the
  drawing plan.
- `animation`: frame storage (BC-compressed or decoded RAM frames), frame
  timing and which frame each sublayer's texture must show.
- `bcf`: the BCF container of block-compressed animation frames.
- `encode`, `frame_files`: the steps of the `compress-animations` tool that
  prepare frames for block compression and name the frame and BCF files.
- `png_loader`, `pixels`, `tint`: PNG decoding, premultiplication, tinting,
  alpha extraction and padding.
- `svg_loader`, `colors`: sentinel recoloring of SVG text and the colour
  choices of a layer.
- `manifest`, `resize`, `text`: asset lookup, pending window resizes, string
  helpers.

`app/` holds what runs around it: the wgpu device and surface, texture
uploads, SVG rasterization, file reading and background threads, the
floating-point colour and placement arithmetic, the commands of the user
interface, and the `compress-animations` tool's directory walk and BC4/BC7
encoding.

`tests/` exercises the library on concrete values.
