# rtun

Forwards TCP and UDP ports between two machines you own, over a direct QUIC
connection. One side offers a list of local ports, the other reaches them on its own
`127.0.0.1`. Machines address each other by public key.

- `src/` is the library: every decision of the tunnel, written in Verus and proved
  against the contracts stated there.
- `app/` is the program around it: the command line, sockets, files, the network
  endpoint, the admin HTTP server and the tasks. It hands the library what happened
  and carries out what is decided.
- `tests/` run the library on concrete values.

## The library

| Module | What it decides |
| --- | --- |
| `config`, `config_file` | what a configuration is, when it is acceptable, what is read and written |
| `grants` | who is admitted, and which ports an admitted peer may reach |
| `seed` | what the command-line flags add |
| `state` | one writer path: validate, save, then publish; and the runtime facts |
| `serve` | admission, eviction, streams, datagrams and sessions of the serving side |
| `connect` | flows, session ids and reply routes of the connecting side |
| `listeners` | which local ports are bound, retargeted and dropped |
| `link` | dialing, carrying, giving up and trying again |
| `admin`, `edit`, `report` | what each admin request is answered, and what it changes |
| `proto` | the framing on the wire |
| `identity`, `endpoint`, `token`, `address`, `portmap`, `path` | keys, ids, the admin token, addresses, mappings, path reports |

The laws that span several functions stand as public proof functions at the end of the
module they belong to, and for the edits in `edit_laws`.

What the library takes on trust is marked `external_body` or `assume_specification`,
each with a comment that names the outside function and says what is claimed of it.
