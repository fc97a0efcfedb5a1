# rust_app

The search service of a food-diary blog: posts written in Markdown with
TOML-style front matter are read, embedded and segmented into words, loaded
into PostgreSQL, and searched by a hybrid of vector similarity and BM25 whose
rankings are fused by reciprocal rank. An administration API uploads images,
pushes them to an R2 bucket and compares the two.

- `src/` is the verified library (Verus): reading front matter and Markdown,
  file names and image types, sorting and comparing image sets, the search
  request and response, the SQL of the two searches, merging their hits by
  title, and the decisions and answers of the administration endpoints.
  Morphological analysis calls Lindera behind a trusted wrapper; it loads
  the IPADIC dictionary that lindera embeds when built with its
  `embed-ipadic` feature (whose build script downloads the dictionary), and
  fails on every text in a build without it.
- `tests/` exercises the library; the Markdown and front-matter readers are
  also compared with regular-expression readings of the same formats.
- `app/` is the program around it: the Axum server, PostgreSQL, the Candle
  embedding model, the command-line preparation of posts, and file and
  process I/O.
