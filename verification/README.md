# Throughline

Every connection a Linux machine has, attributed to the thing that opened it,
and a compiler for per-application routing policies whose guarantees are proved.

The library in `src/` is verified with [Verus](https://github.com/verus-lang/verus):
each function carries a contract over mathematical models of text, sockets,
processes, policies and plans, and the contract says exactly what is returned.
The promises that span several functions stand beside them as proof functions
with names that read as sentences.

## Layout

| Where | What |
| --- | --- |
| `src/text.rs`, `num.rs`, `addr.rs`, `order.rs`, `json.rs`, `shell.rs` | text, numbers, addresses, sorting, documents, words for a shell |
| `src/proc_net.rs`, `procs.rs`, `ports.rs`, `services.rs` | socket tables, processes, port ranges, port names |
| `src/snapshot.rs`, `visibility.rs` | flows and their direction, the document made of them, whether it can be believed |
| `src/scene.rs` | the canvas: nodes, links, and what may be added or removed |
| `src/policy.rs`, `preflight.rs`, `guarantees.rs`, `packets.rs` | compiling a policy, refusing a plan, what holds of every plan, what becomes of a packet |
| `src/apply.rs`, `steps.rs` | the record, the commands, and the tasks that apply, revert and confirm |
| `src/probe.rs` | the facts about a host that a policy depends on |
| `src/args.rs`, `api.rs`, `http.rs`, `gate.rs` | the command line and what a browser is answered |
| `app/` | the programs: reading this machine, running commands, listening on loopback |
| `tests/` | the library from outside |

## Some of what is proved

* An exclusion for the session that administers the machine stands before
  everything that captures traffic, in every chain
  (`exclusions_come_before_redirects`, `exclusions_come_before_marks`).
* A plan compiled for a host strands nobody it was told of, and a plan that
  would is refused (`a_compiled_plan_strands_nobody`,
  `a_plan_that_would_strand_is_refused`).
* Traffic takes the path of the first rule that names its sender, and that of
  everything else only where none does; on the way through Tor it is Tor itself
  that takes the tunnel (`traffic_takes_the_path_of_its_rule`,
  `tor_itself_takes_the_tunnel`).
* A plan is refused exactly where it cannot be applied, and each refusal is
  given exactly where its cause is (`a_plan_without_refusals_can_be_applied`,
  `every_refusal_has_its_cause`).
* DNS is routed with the TCP it belongs to
  (`dns_goes_with_the_tcp_it_belongs_to`).
* Whatever fails while a plan is applied, everything that was done is undone, no
  record is left and no switch keeps counting, or the commands that remain are
  named (`a_failure_takes_everything_back`, `the_stranded_are_told_what_remains`).
* What never left the machine is not shown as coming in or going out, and no row
  of the socket tables is dropped (`loopback_is_neither_in_nor_out`,
  `no_row_is_dropped`).
* A machine that withholds its socket tables never renders like a quiet one
  (`a_blind_reading_never_looks_like_a_quiet_one`).
* The command that the screen shows, as a shell reads it, asks for the policy
  that the screen shows (`what_is_typed_is_what_is_shown`).
* The same topology tidies to the same picture, whatever order the machine
  reports it in (`tidying_does_not_depend_on_the_order`).
* Every document is JSON, whatever names a machine or a request puts into it
  (`every_value_is_written_as_json`).

## What is taken on trust

Four things of Rust's standard library: `String::push` appends a character,
`char::from_u32` gives the character that a number stands for, `u32::to_ne_bytes`
gives the bytes of every number in the machine's one order (which of the two that
is stays open), and the `{:?}` format of a string depends on the string alone.
