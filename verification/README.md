# Ubuntu documentation indexer

Parses the Ubuntu documentation repositories listed in `docs.toml` into a
LanceDB vector database, and archives it as `target/index.lance.tar.gz`.

The logic is a library whose behaviour is stated in contracts and proved with
[Verus](https://github.com/verus-lang/verus). The program around it reads files,
runs git, embeds the chunks and writes the table.

## Layout

- `src/` is the library.
  - `text`, `paths`, `path_order`: strings as characters, paths as bytes, and the
    order of paths.
  - `config`, `repo_sync`, `base_urls`, `walk`: the repositories, how git brings
    them up to date, where they are published, and which of their files are pages.
  - `snapshot`, `includes`: inlining files into one another, driven by what is
    known so far of the contents of files.
  - `markdown`, `page_urls`, `chunks`: pages as plain text, their published
    addresses, and the chunks that go into the index.
  - `output`: the rows of the table, permissions and the archive's path.
  - `path_laws`, `expansion_laws`, `loader_laws`, `listing_laws`: what holds of
    several of these together.
- `app/` is the program.
- `tests/` runs the library on concrete values.

## What is taken on trust

The Markdown parser (`pulldown-cmark`), the text splitter (`text-splitter`) and
three functions of the standard library are called through items whose contracts
are not proved. Each says above it what it claims.
