# tr-infer

The logic of an inference server for one language model, verified with Verus: what a request means,
how prompts are rendered and outputs split, which requests run together, what of a prompt is cached
and restored, how packed weights and tiles are laid out.

`src/` is the library. Its functions have contracts over a mathematical model of their data (the
clock and a buffer's address, of which nothing can be promised, have none), and the laws that span functions stand as public proof functions named `law_*`. Floating point and input
and output are outside: numbers that only have to be compared are compared by integer keys
(`order`), numbers that are only carried are type parameters.

| part | modules |
|---|---|
| texts and formats | `text`, `utf8`, `json`, `members`, `yaml`, `sha256`, `http` |
| requests and answers | `api`, `chat`, `tools`, `calls`, `cuts`, `images`, `spans`, `completion`, `streaming`, `emit`, `sending`, `generation` |
| running requests | `engine`, `scheduler`, `serving`, `staging` |
| prefix cache | `role`, `roles`, `key`, `object`, `policy`, `index`, `shelf`, `restore`, `cache`, `waiting`, `reopen`, `backend`, `buf`, `prefix`, `report` |
| settings | `config`, `defaults`, `schema`, `edits`, `overrides`, `flags` |
| weights and kernels | `manifest`, `codec`, `iq4nl`, `quant`, `gemv`, `amx`, `amx_i8`, `attn`, `qsa`, `rope`, `router`, `ple`, `order` |

Where the library calls another crate, the call stands in a small function of its own whose contract
says what is relied on: JSON is read by `serde_json`, base64 by `base64`, pictures by `image`.

`app/` is the program around the library: arguments, files, sockets, threads and the model itself.
`tests/` runs the library on concrete values.
