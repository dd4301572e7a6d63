# web_server

A small collection of building blocks, verified with Verus:

- `queens`: an N-queens board and a backtracking solver whose results are
  proved to be exactly the valid completions of the starting board, in row
  order, with the number of candidates it examines;
- `http_msgs`: an HTTP request parser (request line, headers, content) and
  the header collection it fills;
- `server`: what a tiny static-file server decides: which files to look for
  for a requested path, and the response text;
- `glossary`: word-by-word translation of a text;
- `address`, `either`, `cached` (a value computed on first use),
  `interleaver`, `usado_em`, `complex`, `matrix`.

`src/` is the verified library. `app/` holds the programs around it: the
solver's timing run and its parallel variant, the web server's network and
file-system loop, an argument printer and a multi-threaded translator.
