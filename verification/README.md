# kademlia

A Kademlia node, with its logic verified by Verus.

`src/` is the library. Its verified functions state what they return or change,
and Verus proves it. Where chance, a clock or another task decides (a random
request id, an answer's age, whether a caller still waits), the function that
asks says what holds whatever comes back, and another one, which takes what
came back as an argument, says what is made of it.

- `close_nodes` is the keyspace: ids, XOR distance, and the tables that answer
  which known nodes are nearest an id. `StaticBucket` is the routing table,
  `SiblingList` pins the nodes nearest to us over it, and `CachedCloseNodes`
  memoises answers on top. `close_nodes::recommended` stacks all three.
- `hashing` is where keys and node ids come from.
- `wire` is how bodies are encoded, `rpc_transport` how messages are numbered
  and framed.
- `handle_rpc` answers requests: `dispatch` routes a request to `ping`,
  `store`, `find_node` or `find_value`. `values` is what a node stores.
- `rpc` is the other end: what a request says, and what is made of the answer.
- `lookup` decides whom an iterative lookup asks next, and `bootstrap` how a
  node joins a network.
- `pending` and `rpc_transport::retry_transport` keep track of requests that
  wait for a reply; `rpc_transport::networked_debug_transport` keeps the
  addresses of an in-process network.
- `node` puts a node together, and `cli` reads its command line.

A table says in `asked` and `offered` which outcomes a question and an offer
can have. Public proof functions (`lemma_...`) state what holds across
functions: that siblings are the nearest nodes ever offered, that a lookup ends
with the closest nodes it heard of, that a cache which counts writes answers as
the table under it does, that a call is resolved by its own reply only, that a stored value is found, that what is
written on the wire is read back.

What the library relies on of other crates stands in functions marked
`external_body`, each with the contract that is believed of it, if anything can
be promised.

`app/` runs a node: sockets, tasks, files and the terminal. A node is started
with `kademlia IP:PORT [BOOTSTRAP_IP:PORT]`.

`tests/` runs the library.
