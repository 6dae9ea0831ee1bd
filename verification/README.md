# kuna_inputtile

When the varnodes of a function are renamed, a read asks for the value that a range
of storage holds on entry. Other inputs may already occupy a part of that range.
This library answers such requests, with Verus proofs of what it does.

- An input of exactly the requested storage answers the request; where no input has
  a byte in it, one is made.
- Inputs that renaming passes over (write-masked ones) are folded into one input when
  all that is in the way are such inputs, inside the request.
- Live inputs are never destroyed. Their bytes are cut off with `SUBPIECE`, the bytes
  that no input has become new inputs, and the value is joined with `PIECE` where the
  function is entered.

## Layout

| Module | Content |
| --- | --- |
| `address`, `varnode`, `op` | addresses, varnodes, operations, and their models |
| `graph` | the model of a function: what it is, when it is sound, what an edit makes of it |
| `soundness` | edits keep a function sound |
| `funcdata` | the function under analysis and its edits |
| `plan` | how a requested range is tiled by a list of inputs |
| `tiling` | laws of plans: they tile the range, and when there is one |
| `request` | plans made from the inputs of a function |
| `rebuild` | `compose_overlapping_inputs` |
| `fold` | `combine_covered_pieces` |
| `inputtile` | `new_tiled_input` |
| `shape` | what the edits of a request leave and add |
| `meaning` | values of varnodes, and what a request does to them |
| `aside` | an input that is out of the way of a request |
| `laws` | laws of requests |

`laws` states what a caller can rely on: when a request is answered, that the answer
has the requested storage and the bytes that enter it, that live inputs survive, that
all other values stay what they were, and where new operations stand.

`Graph::linked` is what the edits and the requests ask of a function: whatever is named
exists. `Graph::wf` says besides that every varnode has storage and that no two inputs
share any; it holds of every function that is made through this library, and the edits
keep it. Where two inputs that have a byte in a request share storage, nothing is folded
or rebuilt: the function stays as it was.
