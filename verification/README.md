# gigatoken

Tokenizers for text, with machine-checked contracts: byte-level BPE, SuperBPE's
two-level encoding, WordPiece, and the reading of `tokenizer.json` files.

- `src/pretokenize/`: character classes, the pretokenization schemes as patterns,
  and the walkers that find their pretokens.
- `src/bpe/`: merging, WordPiece, BERT normalization, superwords, and the
  tokenizer that puts them together.
- `src/load_tokenizer/`: from the text of a file to a tokenizer.
- `src/train.rs`: what the training entry points decide.
- `app/`: files, the environment and corpora.

The laws of the library are its public proof functions named `law_..`: among them
that decoding gives back what was encoded, that pretokens tile the text, that the
walkers agree, that both ways of loading a SentencePiece file agree, and that
two-level encoding gives what one level gives, for every plan and every text.
