# Shoulders of Giants

A citation-graph toolkit. Papers are nodes; an edge from one paper to another means that
the first cites the second. Since a paper can only cite earlier papers, the graph is a
directed acyclic graph. Given papers, the toolkit lists the papers that cite them and that
they cite, finds their latest common ancestors and earliest common descendants, and
searches titles.

The library under `src/` is verified with Verus:

- `dataset`: reading the CSV dataset into records (the CSV parsing itself is the `csv`
  crate's).
- `records`: dataset rows and papers, and the filter that drops papers connected to no
  other paper of the dataset.
- `text`: parsing reference lists, trimming and truncating text.
- `dag`: the interface that every graph representation offers, the search for the last
  common ancestors and earliest common descendants, and its laws (every result is common to
  both papers and reached from no other common paper, it does not depend on the order of
  the two papers, and on an acyclic graph it is empty only when they share no ancestor or
  descendant).
- `adj_dag`, `edge_list_dag`, `linked_dag`: three representations of the same graph (an
  adjacency matrix, an edge list, and nodes linked both ways); `consistency` shows that they
  agree when built from the same records.
- `ndarray`: the dense n-dimensional array behind the adjacency matrix, with the law that
  indexing reads back what construction put at each multi-index.
- `queries`, `report`, `menu`: the questions the tool answers, the lines it prints and the
  decisions of its interactive menu.

`app/main.rs` is the command-line program: it reads the dataset file, prints, and runs the
menu loop.
