# Pose-to-glyph retrieval

A library and a program that find oracle-bone glyphs by the pose of a person in an image.

The library in `src/` is written in Verus: every function states in its contract what it returns,
and the proofs are checked together with the code.

| Module | What it holds |
| --- | --- |
| `pose` | the Lite-HRNet pose network as programs over tensors, pose samples, heatmaps, training settings |
| `retrieval` | pairs of poses and glyphs, glyph shapes, the feature cache, batches, the candidate index and its search |
| `spinepose` | SpinePose keypoints: pose files, the person that counts, features |
| `service` | requests, forms, routes, searches and pages of the browser UI |
| `training`, `batches` | epochs, shuffled batches, checkpoints and the best loss |
| `cli` | what the command line decides |
| `floats` | floating-point numbers by their bits, with their comparison |
| `text`, `names`, `sorting`, `error` | what the others need |

Proof functions whose names start with `law_` state what holds across functions: that a shuffle is
undone by its counterpart, that every epoch trains on every sample once, that hits are ranked and
no better entry is left out, that the network keeps the shapes of its branches.

The library calls the `rand` crate for the order of epochs. What it takes on trust is marked
`external_body` or `assume_specification`, each with a comment that says what is claimed.

Floating-point arithmetic, tensors and weights stay outside the library. `app/` is the program
around it: the command line, files, the HTTP server, image decoding, and the tensor library that
runs the programs which `pose::graph` writes down. `tests/` runs the library, among other things
against real tensors.

## Commands

- `train` trains the pose network on COCO person keypoints.
- `smoke` takes a few optimizer steps on random images.
- `retrieval train`, `retrieval index`, `retrieval search` and `retrieval serve` train the
  retrieval model, embed the glyphs, answer one query, and serve the browser UI.
