# pizza-analysis-nori

Korean morphological analysis over the ko-dic dictionary (through `lindera`),
written in Verus.

- `src/tokenizer.rs`: `NoriTokenizer` with its three decompound modes; the
  conversion of dictionary segments into tokens (character offsets, positions)
  and the mixed-mode merge of compounds and their parts.
- `src/part_of_speech.rs`: `NoriPartOfSpeechFilter`, removal by
  part-of-speech tag (compound tags such as `NNG+VCP+ETM` are matched part by
  part, and a stop tag such as `J` covers its family: `JKO`, `JX`, ...).
- `src/readingform.rs`: `NoriReadingformFilter`, Hanja to Hangul reading.
- `src/stop.rs`: `KoreanStopFilter`, Korean stop words.
- `src/analysis.rs`: the calls into `lindera` and the `Segment` values read
  from its tokens; `src/words.rs`: the `hashbrown` word set; `src/text.rs`:
  character helpers; `src/token.rs`: the token type.
- `app/lib.rs`: the `pizza_engine` trait implementations and `register_all`.

`lindera` finds the dictionary only when it is built with its `embed-ko-dic`
feature. Without it the constructors do not panic: the tokenizer finds no
token and the dictionary-based filters leave every token as it is, and each
component's `dictionary_loaded()` says which case holds. `register_all` in
`app/` checks it and panics where the dictionary is missing.
