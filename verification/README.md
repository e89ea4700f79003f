# reflex_intelligence

The state of a search that learns which work is worth doing: a society of small
forecasting models, the causal record of what was decided and what came of it,
knowledge that is compiled, verified and tried in the shadow before it is used,
and the policy in force. Everything is kept in one authenticated checkpoint that
grows by a record per step and can be read back in every format it was ever
written in.

* `types`, `digest`, `codec`, `order`, `search`, `padded`, `resident`, `numbers`:
  values, identities, bytes, and memory.
* `arena`, `market`, `investment`, `forecast`, `model`, `portfolio`, `allocation`:
  what there is to invest in, who bids for it, and what is chosen.
* `ecology`: the models and how they come and go.
* `receipt`, `causal`, `shadow`, `ledger`, `evidence`: the record of decisions,
  settlements, consequences and paired campaigns.
* `challenger`, `consolidation`, `knowledge`, `compiler`, `compiler_steps`,
  `compiler_wire`, `recovery`, `compilation`, `planning`, `workflow`, `promotion`:
  knowledge.
* `policy`: the policy in force and how it is replaced.
* `intelligence`, `transition`, `checkpoint`, `replay`, `restore`, `formats`,
  `migration`, `continuity`, `integrity`, `history`, `imports`, `treatment`,
  `inspection`, `footprint`: the core, its steps, and its checkpoints.

Numbers with a fraction are held as the bit patterns of 32-bit floating-point
numbers. `app` holds what computes on them: the forecasts of a model, and what a
forecast is worth. Proof functions whose names begin with `law_` state what holds
of the library as a whole.
