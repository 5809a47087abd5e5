# UnderKb

Image tools for the web: compress a JPG, PNG or WebP under a kilobyte
budget (default 200 KB), convert, resize, cut a flat background, and extract
a HEX palette; with the rules around them (form fields, upload refusals,
rate limiting, short-lived download staging, Pro keys, ad settings).

The library under `src/` is written in Verus: each public function states
what it returns in its contract, and the laws that span functions are proof
functions next to the code they are about.

| Module | What it holds |
|---|---|
| `text` | trimming, ASCII case, decimal and hex digits, number fields |
| `format` | output formats, resize modes, budget and quality clamps |
| `picture` | decoded pictures as RGBA8 data |
| `sniff` | SVG, HEIC/HEIF and AVIF detection |
| `codec` | decoding, encoding and resampling through `image` and `webp` |
| `shrink` | the compression rounds and `compress_with` |
| `cutout` | flood fill from the border and the alpha ramp |
| `palette` | sampled histogram, ranking and the greedy palette |
| `ops` | convert, resize, remove background, extract colours |
| `naming` | download names and `Content-Disposition` |
| `stage` | download staging (time to live, eviction, ids) |
| `rate` | per-client rate limiting |
| `access` | Pro keys, cookie unescaping, contact and measurement settings |
| `ads` | AdSense client and slot ids, `ads.txt`, CSP origins |
| `request` | form reading, upload refusals, staging replies, downloads |
| `tools` | the tool pages' texts and cards |

Pictures are decoded to 8-bit RGBA and resampled in that form, whatever
their stored colour type.

`app/` is the server (axum and resuma): it reads the environment, the
clock and the multipart uploads, renders the pages, computes the float
parts (the rescale size of a compression round, a palette colour's share)
and hands everything else to the library.
