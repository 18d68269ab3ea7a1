# genea_graph

The verified core of a family-tree viewer whose window is drawn with egui.

- `src/` is the library, verified with Verus:
  - `decimal`: the decimal text of person ids in node labels, and its parser;
  - `date`: calendar dates, checked by chrono;
  - `person`: the people and links that the server sends;
  - `graph`: the family graph in a petgraph `StableGraph` (nodes labelled
    with person ids, edges with relations) and the id-to-node map: loading,
    linking, deleting a selection;
  - `layout`: the tree layout of the graph;
  - `events`: the bounded log of graph events;
  - `settings`: the view settings and the rules between them;
  - `api`: the REST paths of the server (people, links by relation,
    ancestors and nearest-common-ancestor queries);
  - `model`: the state behind the widgets and the decisions of each frame:
    fetch results, selection, the parent and cousin link keys, deletion,
    the two queries.
- `app/` is the egui/eframe program around it: widgets, the graph widget,
  HTTP requests and background tasks.
- `tests/` runs the library on concrete values.
