# mlx_rerank

A reranker for Apple Silicon: it scores documents against a query and gives them
back best first. Two models run behind one interface: the bidirectional
cross-encoder `nvidia/llama-nemotron-rerank-1b-v2` and the encoder-decoder family
KaLM-Reranker-V1.

- `src/` is the library, verified with Verus: tokens to length-sorted, padded
  sub-batches; the forward passes as tensor programs; the schedules of a run;
  checkpoints' names and configurations; ranking; requests and answers; the command
  line.
- `app/` is the program around it: files, the GPU (through `mlx-rs`), timing and the
  HTTP server.
- `tests/` runs the library, with a small interpreter of tensor programs.

A tensor program lists array operations. The library proves which operations a
program holds, that each accepts the extents of its operands, which types the
elements have, and that there is a score for every document; the arithmetic itself is
the GPU's. That the operations of KaLM accept their operands is proved for one key
head only.

For every arithmetic in which padding adds nothing it proves that a document is scored
by itself: other documents, their order, the size of the sub-batches and tokens behind
the 512th change no score. Further it proves what a position depends on: masked tokens
and other rows change no score and no pooled state, the decoder does not read later
tokens of its prompt nor pooled states that its mask hides, and their order does not
matter.

A tokenizer is used where it can be seen from its file that it ends on every text: the
steps before its model cut and rewrite plainly, or search one of two known patterns in
a text of up to a million characters.

## Running

    rerank                          # time the sample, print the best three
    rerank --ndocs 50 --subbatch 25
    rerank --sweep                  # sub-batches of 100, 50, 25 and 10
    rerank --dump scores.json       # scores in the order of the documents
    rerank --serve --port 9000      # POST /rerank

`RERANK_MODEL` chooses the checkpoint by its repository id. The server takes
`{"query": .., "documents": [..], "top_n": ..}` and answers
`{"results": [{"index": .., "relevance_score": ..}]}`, best first.
