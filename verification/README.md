# rag-gate

A proxy that sits between a client and a language-model API, reads the token
log probabilities out of the streamed reply, and decides while it streams
whether the model is confident enough: **ANSWER** (the stream goes on),
**ESCALATE** or **ABSTAIN** (the stream is cut, and a decision frame takes the
place of the rest).

    confidence >= alpha        -> ANSWER
    beta <= confidence < alpha -> ESCALATE
    confidence < beta          -> ABSTAIN

The confidence is the mean log probability of the tokens so far. No stream is
cut before `min_tokens` tokens, nor on a signal that is too perfect to trust.

## Layout

`src/` is the library, written in Verus and proved:

| Module | What it holds |
| --- | --- |
| `rounding`, `binary64` | IEEE 754 binary64 arithmetic on integers, correctly rounded |
| `decimal`, `text`, `wire`, `json` | numbers as text, small text operations, bytes, JSON documents |
| `config` | settings: environment over file over defaults |
| `evaluator` | the running confidence of a stream and its decision |
| `interceptor`, `whole_stream` | frames, log probabilities and gating of a stream; what holds of a whole stream |
| `headers`, `proxy` | what a client's request becomes at the upstream, and its reply |
| `eval`, `eval_laws`, `dataset`, `calibrate` | offline evaluation, threshold search and calibration |

Numbers cross the library's border by their 64 bits (`Binary64::from_bits`,
`Binary64::to_bits`).

`app/` is the program around it: the server, the command line, files, the
environment and the metrics. `tests/` holds the library's tests.
