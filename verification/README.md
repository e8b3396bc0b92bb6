# mdcat

Render markdown in the terminal — with syntax highlighting, images, and
diagrams — and page it, keeping inline images, with a small pager for the
Kitty graphics protocol.

The library (`src/`) is written in Verus; its functions carry contracts
that Verus proves.

- `text` — characters, decimal numbers, whitespace and lines, escape
  sequences, search.
- `render` — markdown as the events of its syntax tree (`events`), rendered
  to ANSI text (`markdown`), with code highlighted (`code`), images encoded
  for the terminal (`images`), SVG rasterized (`svg`) and links made
  clickable (`links`); rendered text with captured images becomes a
  document for the Kitty pager; the choice of output (Kitty pager, text
  pager or standard output) and image decoding are here too.
- `kitty_pager` — layout of a document into terminal rows, frames with
  cached image placements, and the pager's response to each key.
- `terminal` — the cell size and graphics protocol from the terminal's
  answers.

`app/` is the program around it: arguments, reading files, asking the
terminal, reading image files and URLs, running `mmdc` for Mermaid
diagrams, and the pagers' event loops.
