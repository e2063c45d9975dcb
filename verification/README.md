# mdfolio

`mdfolio` is a quiet local reader for the Markdown already in your repositories.
Point it at one repository to open its README. Point it at a directory of
repositories to browse them as a shelf. The file system is the catalog.

What the reader decides is a library whose behaviour is stated in contracts and
proved with [Verus](https://github.com/verus-lang/verus): which files are
documents, how they are grouped and ordered, what a link leads to, what a
request may reach, and which headers a reply has. Everything that touches the
file system, the network or the terminal is a thin program around it.

## Layout

| Path | What it holds |
| --- | --- |
| `src/text.rs`, `src/order.rs` | text, bytes and stable sorting |
| `src/paths.rs`, `src/places.rs` | paths of the library, and of the file system |
| `src/pathing.rs` | addresses, and reading a path back from one |
| `src/titles.rs` | the title of a document |
| `src/discovery.rs` | what a walk looks at, and where a repository begins |
| `src/walk.rs` | a walk through a library, step by step |
| `src/reading.rs`, `src/assembly.rs`, `src/catalog.rs` | reading order, and the catalog of a walk |
| `src/markdown.rs` | links, images, assets and what is left of HTML |
| `src/rendering.rs` | from Markdown to the HTML of a page |
| `src/pages.rs`, `src/server.rs` | what pages show, and what requests get |
| `src/watcher.rs` | what a change in the file system means |
| `src/cli.rs` | the command line |
| `src/*_laws.rs` | what holds across functions |
| `tests/` | tests of the compiled library |
| `app/` | the program: walking, serving, watching |

Each module has a specification of its own: `spec` functions over sequences of
characters, bytes and names say what a result is, and the executable functions
are proved to return it. The `law_` functions state what follows for the library
as a whole, such as that a path written into an address is read back as the same
path, that every page of a catalog is reached at its address, that a reply
depends on nothing but the library as it is now, that a catalog does not depend
on the order of the walk, or that no link of a page keeps a scheme other than
`http`, `https` and `mailto`.

## What is trusted

A few functions stand for calls into other crates, and their contracts are
believed, not proved. Each says in its documentation which call it makes and what
it claims:

- `text::text_lossy` and `text::text_from_utf8` (`std`), and `String::push`;
- `pathing::percent_decode` and the contract of
  `percent_encoding::percent_encode_byte`;
- `titles::parse_nodes` (`comrak`);
- `markdown::clean_html` (`ammonia`);
- `rendering::new_highlighter` and `rendering::markdown_html` (`comrak`);
- `server::is_header_value` (`axum`).
