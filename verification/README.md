# casr-cluster-map

Clusters the crashes that a fuzzer found, and keeps the mapping of every crash to its cluster: also of
those that were set aside because another crash has the same stack trace. It takes the crash
directories of libFuzzer and of AFL++.

`src/` is the library, verified with Verus:

| module | what is in it |
| --- | --- |
| `text` | functions on text, and the order of texts |
| `fuzzer` | the layouts of crash directories: which fuzzer, which files are crashes, its command line |
| `tool` | the tool that makes reports of a target's crashes |
| `command` | the command line of that tool, and what comes of running it |
| `setup` | jobs, the target's command line, messages |
| `stacktrace` | frames, and when two stack traces are the same |
| `parsers` | the parsers for the lines of stack traces, and the files mapped into memory |
| `limits` | reports that those parsers cannot take |
| `report` | reports and the stack traces in them |
| `log` | reports from the logs of crashes |
| `group` | groups of reports with the same stack trace |
| `cluster` | clusters of reports with similar stack traces |
| `mapping` | the entries for the crashes, their order, the table of clusters |
| `plan` | the steps from the reports to the mapping |
| `laws` | what holds of the mapping as a whole, above all that no crash is lost |

What the library has from `libcasr`, `gdb-command`, `serde_json` and `num_cpus` stands behind the functions marked
`#[verifier::external_body]`; the comment above each says what is taken on trust.

`app/` is the program around it: it reads directories, runs tools and writes files. `tests/` holds the
tests.
