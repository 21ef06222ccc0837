# anaphora

Retrieval-augmented masked-diffusion language modeling, with its rules proved
in Verus.

Chunked cross-attention, as RETRO defined it, under a masked diffusion LM. The
shape is a retrofit: freeze a pretrained diffusion backbone and train only the
neighbour encoder, the cross-attention blocks and the gates.

The rule that everything else serves:

> The retriever may only see what the denoiser sees.

`train::law_masked_tokens_do_not_reach_retrieval` states it of a whole training
step: two sequences that differ only in tokens that the step masks retrieve the
same neighbours.

## Layout

| directory | what it holds |
|---|---|
| `src/` | the library: every function has a contract, and laws relate them |
| `app/` | the program around it: files, the parquet dump, the device, the terminal |
| `tests/` | the library from outside, with a host interpreter for the graphs |

Numbers of the model are single-precision words (`Binary32`), added, multiplied,
divided and rounded in integers, so that contracts can speak of every bit. What
needs a device or a transcendental function is handed in by `app/`: the forward
pass, the optimiser, and the exponential under the softmax that ranks positions.

A model is laid down as a `Plan`, which is a graph of operators with its shapes
and parameters. `app/device.rs` lowers a plan onto the engine's graph, node by
node.

## Laws worth reading first

| law | what it says |
|---|---|
| `train::law_masked_tokens_do_not_reach_retrieval` | masked tokens do not reach retrieval |
| `retrieval::law_a_document_does_not_retrieve_itself` | a document is kept out of its own results |
| `model::retrofit::law_the_backbone_never_trains` | no gradient reaches the backbone |
| `model::reach::law_every_block_parameter_trains` | every block parameter gets one |
| `model::values::law_a_fresh_retrofit_is_the_backbone` | a fresh retrofit computes what the backbone computes |
| `model::values::law_a_masked_row_passes_unchanged` | a row that retrieved nothing passes a block unchanged |
| `model::values::law_a_chunk_sees_its_own_neighbours_alone` | attention is block-diagonal without a mask |
| `eval::law_a_finished_run_is_even` | every condition is scored on the same pairs, band by band |
| `sample::law_a_committed_token_stays` | sampling never revises a token |
| `shard::law_shard_round_trip`, `checkpoint::law_checkpoint_round_trip` | what is written is read back |

## Running

```sh
anaphora prepare --parquet simple.parquet --tokenizer tokenizer.json --out corpus/
anaphora play --train
anaphora play --prompt "The cat sat"
```
