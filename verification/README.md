# misato

A pipeline that scans the four Neon Genesis Evangelion artbooks and surfaces
the pages that show Misato Katsuragi, Rei Ayanami and Asuka Langley Soryu,
by hair-color clustering: per-pixel HSV + CIELAB matching, 4-connected
components, secondary-color coupling and inter-character competition.

## Layout

- `src/` — the verified library (Verus). Connected-component labeling of
  pixel masks, the union-find grouping of overlapping blobs, bounding boxes,
  page enumeration order and grouping by page, Unix path reading (file
  names, extensions, short labels), `#RRGGBB` parsing, the human label store
  with its laws, and the naming and tuning rules. Each public function
  carries a contract stated over spec functions and views.
- `tests/` — tests of the library on concrete inputs.
- `app/` — the command-line program around the library: image decoding and
  writing, the floating-point color math and scoring, parallel ranking and
  extraction, the HTML contact sheets, the labeling web server and the
  weight tuner.

## Commands

```bash
misato rank                      # score every page, write rankings.{csv,json}
misato extract --top-n 40        # crops and full pages for the top hits
misato all --top-n 40            # both
misato label                     # label pages in the browser
misato tune                      # fit scoring weights to the labels
misato --character misato all    # one character only
misato --art-root /path/book rank
```
