# gat

Show a picture in the terminal: PNG, JPEG, PDF, SVG and Markdown, on a terminal
that speaks the Kitty graphics protocol.

The library under `src/` is verified with Verus: every function states what it
returns or changes, and laws that hold across functions stand beside them as
public proof functions whose names begin with `law_`.

```
src/args.rs          the command line
src/config.rs        the settings file, and what it and the command line come to
src/term.rs          finding out about the terminal
src/geometry.rs      fitting pictures into cells
src/framebuffer.rs   pixels
src/render/          the graphics protocol
src/source/          what a file is, and a document as a page
src/print.rs         pictures and pages written where the cursor is
src/tui/             the viewer: keys, search, what is seen and what is drawn
app/                 the program: files, the terminal, threads, and SVG and PDF
tests/               the library from outside
```

Positions and sizes are whole numbers or fractions throughout, so that nothing
is rounded but where a contract says so. A page is laid out in rows and columns
of the terminal and drawn to a thousandth of a pixel.

What other crates do is called and not repeated: `lexopt` parts the command
line, `image` decodes and scales, `pulldown-cmark` reads Markdown, `syntect`
colours code, `unicode-width` counts columns, `resvg` draws pages, `flate2` and
`base64` pack pixels. Each such call stands behind a small function whose
comment says what is taken on trust.

The program sets pages in Liberation Mono. It looks for the four faces in the
directory that `GAT_FONTS` names, and then where distributions put them.

A PDF is drawn by `hayro`, or with `GAT_PDFIUM` set by the machine's own PDFium
where it has one.
