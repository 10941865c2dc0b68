# wikiBits

A terminal wiki built on a folder of plain Markdown files: the folder tree on the left, the
rendered page in the middle with breadcrumbs, links and backlinks on the right.

The library in `src/` is verified with Verus; every public function states what it returns
or changes:

- `text`: characters, widths, splitting, trimming and ordering of text.
- `wiki`: pages, titles, links and how they resolve, backlinks, the folder tree, search, and
  the link rewriting that follows a moved page.
- `markdown`: rendering Markdown (parsed by `pulldown-cmark`) into styled screen lines, with
  links, images, tasks and headings tracked.
- `diabits`: the ```diaBits flowchart blocks, parsed and drawn with box characters.
- `editor`: the plain page editor, with undo and redo, find and replace, and soft wrapping.
- `app`: the browser: which page is open, what each pane shows and how keys and the mouse
  change it.
- `ui`: layout helpers.

The program in `app/` reads the wiki folder, draws with `ratatui`, shows images with
`ratatui-image`, watches the folder with `notify` and hands web links to `xdg-open`. The
browser asks it for that work through plain fields (`needs_render`, `open_url`,
`reload_wanted`) and takes the results back through `set_rendered` and `reload_done`.
