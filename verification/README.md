# manga_ocr_rs

Japanese manga OCR (ViT encoder + BERT decoder, run with ONNX Runtime),
with the decisions of its pipeline verified.

- `src/` — the verified library:
  - `model_dir` — where the model files are looked for;
  - `preprocess` — an image crop, held as plain bytes, to the encoder's NCHW
    pixel bytes: grayscale and resize are done by the `image` crate (the
    grayscale formula is stated; the resize result is named, not computed);
    the layout and the equality of the three planes are proved;
  - `vocab` — the line-indexed `vocab.txt` and decoding token ids to text;
  - `ngram` — the no-repeat n-gram rule;
  - `beam` — the beam search as a state machine over token sequences (at most
    four beams, a limit on decoder runs), with scores carried as an opaque
    type parameter, and its outcome (`Finished`): the chosen hypothesis's
    transcript holds between one token and the limit;
  - `calibration` — confidence factors by crop size, in percent;
  - `tensor` — index arithmetic on flat tensors;
  - `transcript` — text and counts of the chosen sequence.
- `app/` — the `manga-ocr` command and the `MangaOcr` engine: ONNX Runtime
  sessions, file and image loading, and the floating-point scoring
  (log-softmax, top-k, score normalisation, confidence).
- `tests/` — tests of the library on concrete values.
