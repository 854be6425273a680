# hypno

Local inference of language models from single `.hypno` files. The library under `src/` is written
in Verus: what a function returns or changes is stated in its contract and proved.

| Modules | What they hold |
| --- | --- |
| `bytes`, `layout`, `text`, `order` | little-endian integers, positions in a file, texts, maps ordered by name |
| `dtype`, `format`, `writer`, `loader` | the `.hypno` format: its element types, its table, writing and reading files |
| `json`, `archive`, `gguf`, `ggml` | what models come in: JSON documents, safetensors archives, GGUF files and their blocks |
| `convert`, `lora` | conversion of models and adapters, and merging of the two |
| `float`, `quant`, `quantize`, `kernels` | floating-point values as bit patterns, 4-bit and 8-bit blocks, products and norms |
| `config`, `cache`, `transformer`, `turbo` | the forward pass, for one token and for a whole prompt |
| `tokenizer`, `sampling`, `generate` | from text to tokens and back, and the choice of the next one |
| `prompt` | the proof that a whole prompt and its tokens one by one lead to the same, where the arithmetic is plain and all scores and values on the way are ordinary numbers |
| `serve`, `commands` | the rules of the chat service and of the command line |

The laws that hold of several functions together stand as proof functions named `law_..` beside
them, such as `writer::law_file_round_trip` and `loader::law_tensor_round_trip`: a file that was
written is opened again with the same metadata, tensors and data.

Floating-point arithmetic is not defined in the library. Values are bit patterns, and every operation
on them is asked of a `FloatUnit`; the contracts say which operations are applied to which values, in
which order. `app/unit.rs` supplies the arithmetic of the machine.

`app/` is the program around the library: `hypno pull`, `convert`, `run`, `serve` and `bench`.
