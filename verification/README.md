# titanmk

titanmk validates compute schedules before code is generated for them. A
schedule is a list of operations tied together by waits; any node of it can be
a whole schedule of its own. The library is written in Verus: what each
function does is stated in its contract and proved.

## What a certificate means

`validator::validate` certifies a schedule if and only if, at every level,

1. every wait names a node of its level;
2. no node waits on itself, directly or through others;
3. two nodes pinned to one compute unit that touch tensors of one name, in
   whatever memory space, are ordered by the waits;
4. two nodes that the waits leave unordered do not touch a tensor of one name in
   the same memory space, unless neither of the two writes a tensor of that name
   in any space.

A wait on an id is a wait on the last node of the level that has it. Ids need
not be unique for a schedule to be certified, only for code to be generated for
it; nodes that share one are held against each other like any others.

A nested schedule is validated by itself, and then counts as one node that
touches whatever the operations in it touch. A schedule that is not certified
is reported with what is wrong with it first.

The certificate names the schedule, counts its nodes, lists the tensors that it
touches, and carries a fingerprint: the SHA-256 digest of the schedule's
canonical JSON text.

## Layout

- `src/ir.rs`: schedules, their models, flattening and indexing.
- `src/graph.rs`, `src/rules.rs`: what waiting, racing and being certifiable mean.
- `src/search.rs`, `src/validator.rs`: the checks, and `validate`.
- `src/interface.rs`: the tensors that a schedule touches.
- `src/fingerprint.rs`: canonical text and fingerprint.
- `src/order.rs`, `src/cuda_codegen.rs`: launch order and CUDA source.
- `src/adversarial.rs`: schedules that are known to be safe or unsafe.
- `src/driver.rs`: what the command line does with a schedule.
- `src/text.rs`: comparing strings, and writing numbers.
- `src/spots.rs`: where nodes stand in nested levels.
- `src/reports.rs`, `src/safety.rs`, `src/generation.rs`, `src/script.rs`,
  `src/encoding.rs`: what holds of the library as a whole, such as that no two
  operations of a certified schedule race at whatever depth they are nested,
  that source launches every operation once and after all that it waits for, or
  that different schedules have different canonical texts.
- `app/`: the `titanmk` command line around the library.

## What is taken on trust

The proofs rest on the contracts given to a few outside functions:
`serde_json::to_string` on strings, `sha2::Sha256::digest`, `hex::encode`,
`String::from`, `String::push` and `char::is_alphanumeric`. Each is stated with
what is believed of it where it is declared.
