# oxi_gen

Converts the rows of a CSV or TSV file to RDF. A SPARQL `CONSTRUCT` query is answered once per
row, with the cells of the row as the values of the variables that are named after the columns,
and the triples of the answers are written out in Turtle, N-Triples or, with a graph, N-Quads.

    oxi_gen --input people.csv --query people.rq --output people.ttl

* A blank cell leaves its variable unbound, unless `--bind-empty-strings` is given.
* `?ROWNUM` is the number of the row, from 0.
* `--split ORIGINAL SPLIT DELIMITER` answers the query once per part of a cell, with the part in
  `?SPLIT`.
* `tarql:expandPrefix(?p)` gives the IRI of a prefix that the query declares, and
  `tarql:expandPrefixedName(?n)` the node of a prefixed name.
* `--dedup` collects triples in windows that are freed of duplicates; without it, duplicates go
  within a row only.
* Without a header row (`-H`) the columns are `a` to `z`, then `A` to `Z`.

## Layout

`src/` is the library, written in Verus: the functions state what they do, and their bodies are
proved to do it, given what is taken on trust of the crates that they call (see below). What an
answer of SPARQL may be is left to the evaluator: the library states what goes into an evaluation
and what becomes of what comes out.
`app/` is the program around it: the command line, files, and the threads that rows, triples and
bytes go between.

| module | holds |
| --- | --- |
| `text`, `pieces` | strings as sequences of characters: trimming, splitting, joining |
| `columns`, `split`, `rows` | the names of columns, split cells, what a row gives to variables |
| `comments`, `patterns`, `prefixes`, `variables` | what the text of a query declares and mentions |
| `terms`, `functions` | RDF terms and the functions that a query may call |
| `rdf` | triples, queries, their evaluation, and documents |
| `order`, `store`, `output`, `windows` | triples in order, without duplicates, in blocks and windows |
| `table` | reading separated values |
| `pipeline`, `transform`, `config` | the stages of a transformation, a whole one, and its settings |

Regular expressions, CSV, SPARQL and the RDF formats are the work of `regex`, `csv`, `spargebra`,
`spareval`, `oxrdf` and `oxrdfio`. What the proofs take from them on trust stands in the contracts
of the functions marked `external_body` and of the `assume_specification` items, each with a
comment that says so.

The parser puts a projection around the pattern of a `CONSTRUCT` query. It is taken off, so that
a column also reaches a variable that occurs in expressions only.
