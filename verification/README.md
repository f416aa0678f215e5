# fructa

A small personal web site: an HTTP server that sends static files and pages
rendered from HTML templates with a little expression language in `{{ }}`
blocks, in English or Polish.

The logic of the site is a library verified with Verus (`src/`):

- `json`: a lenient JSON reader (translation tables are JSON files);
- `template`: splitting a template into plain text and code blocks;
- `lang`, `parser`, `env`: the tokenizer, the parser and the variables of
  the expression language;
- `http`, `request`: reading a request, deciding what to answer, and
  writing the response;
- `repo`: the description files of the repositories on the projects page;
- `text`: character and decimal helpers.

Each public function states what it returns in its contract, and the laws of
each module (public `law_*` proof functions) state what holds across calls.

`app/` is the server around it: the listener, file access, and the
evaluation of expressions, whose numbers are floating point.
