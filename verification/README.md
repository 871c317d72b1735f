# alloy

A proxy between Kafka and the stream processors that read from it. It filters the events of a
topic by the values of their fields (selections), strips the fields that a query does not read
(projections), and gives every source of a query its own virtual partitions, so that each event
reaches the one source that its key belongs to.

The library under `src/` holds the logic, verified with Verus:

- `hashing`, `partitions`: key groups, slots and virtual partitions, as Flink deals them out
- `routing`, `routing_laws`, `guards`: the routing engine and what it promises
- `wire`, `codec`, `passing`, `frames`, `batches`, `kafka`: Kafka messages and record batches
- `json`, `pattern`, `criteria`, `filter`, `filter_laws`: what events are filtered by
- `downstream`, `upstream`, `fetching`, `data`, `message_laws`, `assembly_laws`: requests and
  responses
- `settings`, `root`, `root_laws`, `identifier`: the root of the proxy and its configuration
- `maps`, `text`: maps keyed by what a key says, and texts

What comes from another crate stands behind small functions marked `external_body`, or has an
`assume_specification`; each says which function it calls and what is claimed of it.

`app/` is the WebAssembly plugin around the library: the proxy-wasm contexts, shared data and
queues, and the configuration as YAML. `tests/` runs the library.

A configuration looks like this:

```yaml
workload_type: kafka-alloy
default_cluster: grpc-bridge-edge1
additional_configuration:
  debug_protocol: 0
  remove_empty_records: true
alloy_filters:
  bid:
    num_partitions: 4
    num_sources: 4
    projections:
    - auction
    - bidder
    - dateTime
    selections:
    - attribute: category
      value: 10
```
