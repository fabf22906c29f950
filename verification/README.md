# gemini_watermark_remover

Removes the visible Gemini watermark from images by reverse alpha blending and
reports, by normalized cross-correlation (NCC), how confidently the watermark was
found. The library in `src/` is verified with Verus; `app/` is the command-line
program around it (argument parsing, image files, threads, printing).

- `watermark`: logo size (96 when both sides exceed 1024 pixels, 48 otherwise)
  and its bottom-right position with a 64 or 32 pixel margin.
- `alpha_map`: the calibrated opacity of the logo as levels `0..=255`.
- `blend_modes`: `underlying = (watermarked - alpha * 255) / (1 - alpha)`,
  computed exactly with alpha capped at 0.99; laws: exact blends are inverted
  exactly, rounded-down blends are never overshot, blends rounded to nearest are
  recovered within `1 + 0.5 / (1 - alpha)`, restoration is monotone.
- `ncc`: exact correlation scores (compared by integer cross-multiplication,
  with `bignum` for the wide products), the template search that keeps the
  first best window, and proofs that every score lies between -1 and 1, that
  inverting the window negates its score, that window and template can swap
  roles, that the best match is unique and that the threshold only decides
  whether the watermark counts as found.
- `batch`: output and comparison paths, side-by-side comparisons, run modes and
  the summary of a batch.
- `paths`, `raster`: path and pixel-buffer plumbing; the luma conversion and the
  path operations are delegated to `image` and `std::path`.
