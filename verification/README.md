# tsugiki

Tsugiki (接ぎ木) is an HTML tree manipulation library, written in Verus.

- `src/` is the verified library: qualified and expanded names (`names`), the attributes of an
  element in an insertion-ordered map (`attributes`, on `indexmap`), the document tree as an
  arena of nodes with its moves and queries (`tree`), the tree builder's sink that carries out
  the requests of an HTML tree builder on a tree (`sink`), and the parser's options (`parser`).
  Every operation states its effect on a mathematical model of the tree or of the map, and the
  laws that relate operations are proved as lemmas beside them. That a tree is well formed,
  and that no two attributes of an element share a name, are type invariants that every
  operation keeps.
- `app/` connects the library to `html5ever`: it implements `TreeSink` by forwarding each
  request to `tsugiki::Sink`, and offers `parse_html`, `parse_fragment` and the `Parser` that
  accepts input as tendrils.
