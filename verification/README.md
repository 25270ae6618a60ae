# autoreview

The verified core of a deterministic-first code review tool. It holds what the
tool decides: which rules hit, how risky a diff is, which findings are kept,
which candidate rules are worth a human's time, and what the history of past
reviews says. What the tool does to the world around it (git, files, command
lines, SQLite) is a thin layer in `app/`.

## Layout

- `src/dataflow`: control-flow graphs, their lowering from syntax trees of Go,
  Java, Kotlin, TypeScript and JavaScript, a worklist solver over lattices, and
  the rules on top of it (taint, call order, nil and null, loop variables, shared
  backing arrays). Hits are stated over the walks of a graph.
- `src/triage`: what is known of a diff, its score, its tier and the planned
  review.
- `src/rule_factory`: mining, drafting, benching and promoting candidate rules.
- `src/skill_evolution`: guidance from false positives, and replays.
- `src/spec_verify`, `src/verify.rs`: checking a change against its acceptance
  criteria, and findings before they are reported.
- `src/storage`: the history of runs, findings, feedback, rules and skills.
- `src/skills.rs`, `src/rule_packs.rs`: which skill files and rule packs count.
- `src/langsupport.rs`, `src/digest.rs`, `src/globs.rs`: the calls into parsers,
  hashes and globs. Their contracts are not proved here; each says what it claims.
- `src/text.rs`, `src/paths.rs`, `src/names.rs`, `src/clusters.rs`,
  `src/report/dedupe.rs`: texts, paths, sets of names, and how alike texts are.
- `tests`: examples and edge cases.
- `app`: files, processes, SQLite, and the JSON and YAML forms of the types.

## Numbers

Costs and scores are whole numbers of millionths, shares are compared by
cross-multiplication, and a similarity is a fraction, so that every threshold is
exact. The one score that divides is rounded up to a whole millionth, which
decides as the exact share does: every limit it is held against is whole.
