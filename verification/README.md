# confaudit

Audits `sshd_config` files, nginx configurations and Dockerfiles for settings
that weaken security, and says for every finding what an attacker gains or what
breaks.

The library under `src/` is verified with Verus: every function states what it
returns, and `src/laws/` proves what holds of audits as a whole, for instance
that nothing inside an sshd `Match` block is reported, that a header set on an
outer nginx block is never reported missing beneath it, and that every finding
with a line shows what is written from that line on: the line of an
`sshd_config` file without its comment, the words of an nginx directive or of
the head of a block, or a Dockerfile instruction with its continuation lines
joined. The program in `app/` reads files and prints.

- `parsers/`: the three formats, each with its grammar and its rules
- `finding.rs`, `order.rs`: findings and the order in which they are reported
- `output/`: text, JSON and SARIF 2.1.0
- `cli.rs`: the list of ignored rules and the exit status
- `text.rs`, `names.rs`: text and sets of names
- `laws/`: the laws

What is taken on trust: `String::push`, `std::path::Path::file_name`, and the
construction and printing of JSON values by `serde_json`
(`output/document.rs`).

Exit codes: `0` no findings at or above the threshold, `1` findings reported,
`2` a file could not be read, parsed or audited.
