# image_enhancer

Verified core of an AI image-enhancement service: a photo is restored
(denoised) with SCUNet and upscaled four times with Real-ESRGAN, both run tile
by tile through ONNX Runtime; faces can be detected, cropped and blended back
through a feathered mask.

- `src/` is the library, written in Verus and verified:
  - `raster`: 8-bit images (grey, RGB, RGBA) and their pixel operations:
    reading and writing pixels, cropping, pasting, colour conversion and resizing
    (the last two through the `image` crate).
  - `tensor`: plane-by-plane tensors, the padded model input of a tile, and the
    record of a tiled pass's model runs, tile by tile in row order.
  - `models`, `upscaler`: the tiled SCUNet and Real-ESRGAN passes; the model is
    a function handed in by the caller.
  - `segmentation`: face detection input and report, cropping to a box, the
    hard mask of a feathered mask.
  - `blending`: putting a processed crop back into the base image.
  - `pipeline`, `api`: output file names and paths, upload names, API answers.
- `app/` is the program around it: the HTTP server (axum), file input and
  output, ONNX Runtime sessions, and the floating-point steps (tensor scaling,
  the alpha-blend formula, the Gaussian blur of the mask).
- `tests/` runs the library on concrete images.

`Cargo.toml` names `ort-sys`, `ort`'s own low-level crate, only to hold it at the
release that `ort` 2.0.0-rc.9 was built against: `ort` asks for it with a
pre-release requirement that a later release candidate would also meet. It is
named without features; the ONNX Runtime library is loaded at run time
(`load-dynamic`).
