# charpaint

A MacPaint-style painting program for the browser that paints with characters
on a canvas of 80 by 24 cells. It has a pencil, an eraser, lines, rectangles,
ovals, a flood fill, text, a selection, undo and redo, and it can match
characters to a background image.

`src/` is the program without the browser, verified with Verus:

| Module | What it holds |
| --- | --- |
| `grid` | the canvas: a committed layer and a preview over it |
| `util`, `ellipse`, `fill` | lines, ellipses and flood fill on the cell grid |
| `single`, `asciiart` | single-precision pixel arithmetic; luminance, edges, blur and sprite matching |
| `modes` | tools and modes |
| `app` | the state of the program |
| `history`, `typing`, `selection`, `paint` | undo and redo, text, selecting and copying, painting |
| `background`, `controls` | the background image, and choosing tools and modes |
| `events` | what happens on events of the mouse, of fingers and of the keyboard |
| `clipboard`, `page`, `startup` | text and HTML, what the page says, palette and greeting |

The state of the program is described by `AppState`; every operation says which
state it leads to. Public proof functions whose names begin with `law_` state
what holds of several operations together.

`app/` is the browser shell: it builds the page, listens to it and shows the
state. Positions and sizes on the screen are floating point and stay there.
Its `build_stamp::stamp_build` is for a build script to run: it passes the time of
the build to the program and to the page.

`tests/` runs the library on concrete values.
