# usbselector

Selecting USB devices out of the device tree with CSS-like selectors, such
as `!hub > device[vid=046d]` (the hubs that have a Logitech device attached
directly) or `(!hub > device[manufacturer="Logitech"]) > device[port=2]`.

The library is written in Verus: every function under `src/` carries a
contract, and Verus proves all of them but two small trusted wrappers,
`text::push_char` (`String::push`) and `parser::util::char_from_u32`
(`char::from_u32`), whose contracts are believed.

- `node`: the device tree, its well-formedness (a bus address names one
  node), the text of a node, and the order of bus addresses.
- `topology`: building the tree from the flat list of enumerated devices.
- `predicate`: the constraints that one element of a selector puts on a node.
- `selector` and `frontier`: selectors and their evaluation over a forest;
  `semantics` states what a selector selects, as sets of nodes, with the
  laws that the evaluation obeys.
- `parser`: the textual syntax, as functions from characters to values
  whose results are stated by a grammar written as spec functions.
- `text`: building strings, and white space.

`app/main.rs` enumerates the devices with `rusb`, hands them to the library
as plain records, and prints the tree or the selected devices.
