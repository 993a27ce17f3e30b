# raft-kv

A replicated key-value store on Raft: the node as a state machine that is told
messages and the time, a deterministic simulator of a whole cluster, and a checker
that decides whether a recorded history is linearizable. The library does no I/O.
Every function in it is proved, with [Verus](https://github.com/verus-lang/verus),
to do exactly what its contract says.

## Layout

| Path | What stands there |
| --- | --- |
| `src/types.rs`, `src/error.rs` | the values that nodes, clients and files exchange |
| `src/key_order.rs`, `src/kv_map.rs` | the order of keys, and a map that keeps it |
| `src/state_machine.rs` | the replicated state machine, as a trait and in memory |
| `src/codec.rs` | snapshots as bytes |
| `src/node/model.rs` | a node as a mathematical value, and what each event makes of it |
| `src/node.rs`, `src/node/*.rs` | the node itself: elections, replication, snapshots, clients |
| `src/node/laws/` | what holds of every node |
| `src/cluster/model.rs` | a simulated cluster as a mathematical value |
| `src/cluster.rs`, `src/cluster/*.rs` | the simulator: faults, messages, runs, requests |
| `src/cluster/laws.rs`, `src/cluster/calls.rs` | what holds of every simulation, and of every sequence of calls |
| `src/cluster/elections.rs` | a term has at most one leader |
| `src/cluster/tenure.rs` | what a read gives back of a write |
| `src/cluster/majorities.rs`, `src/cluster/terms.rs`, `src/cluster/leads.rs`, `src/cluster/freshness.rs` | an acknowledged write was stored by a majority |
| `src/cluster/ledger.rs`, `src/cluster/growth.rs`, `src/cluster/moves.rs` | a ledger of all that leaders, voters and followers have done, and what nodes and messages owe to it |
| `src/cluster/campaigns.rs`, `src/cluster/offices.rs`, `src/cluster/replies.rs`, `src/cluster/followers.rs`, `src/cluster/commits.rs`, `src/cluster/safety.rs` | every event keeps the ledger in order |
| `src/cluster/vouching.rs` | when a follower commits more than it is vouched for |
| `src/cluster/tracks.rs`, `src/cluster/journeys.rs` | so does every step and every call in which none strays by that |
| `src/cluster/agreement.rs`, `src/cluster/linearity.rs` | what follows for whole simulations: one history, one leader per term, reads that see the writes before them |
| `src/history.rs`, `src/history/*.rs` | histories and the linearizability checker |
| `src/storage.rs` | what is kept of a node, and the files it is kept in |
| `app/` | files, encodings with `serde`, and traits of `std`, around the library |

## How it is specified

Each stateful type has a view: a node is a `NodeModel`, a cluster a `ClusterModel`, a
history a sequence of operations. An operation's contract equates the view after the
call, and the result, with a spec function of the view before.

Where a call could run into a limit of the machine (a term, an index, the clock or a
counter at its end), the contract asks that it does not, and a second function tests
for it: `Node::checked_handle_message`, `Cluster::checked_run_for`,
`Cluster::checked_run_until`, `Cluster::checked_propose_as`.

The laws are public proof functions whose names start with `law_`. Among them:

- terms, votes of followers, what a leader has and what it knows of its peers never go
  backwards (`node::laws::progress`);
- a leader has the votes of a majority, and in a simulated cluster a term has at most
  one leader at a time (`node::laws::elections`, `cluster::elections`,
  `cluster::calls`);
- clusters of one size and one plan, on which the same calls are made, go through the
  same states and give the same answers (`cluster::calls`);
- a read that a leader answers gives back the last write of the key that the leader
  has answered in its term, whatever happens in between (`cluster::tenure`);
- over a whole simulation, a read that is answered, at whichever node, sees the write of
  the key that was answered before it, at whichever node, if no other write of the key is
  asked for in between (`cluster::linearity`); every node stays consistent, any two have
  committed the same as far as both have committed, and a term never has two leaders, not
  even one after the other (`cluster::agreement`). These are stated of simulations in
  which no node strays (`cluster::vouching`). A follower commits as far as its leader
  has, as long as it has entries there, even past the end of the batch that it is sent;
  it strays where an entry that it so commits is one that no node has committed. It takes
  a batch of full length, from a leader that has committed more than the batch reaches,
  to lead a node astray (`cluster::agreement`). Besides, no two snapshots of more than
  one chunk are to have the same id and size, and every snapshot is to be read back from
  its encoding;
- a leader commits only what a majority holds (`node::laws::logs`), and a write that is
  answered was stored by a majority of the nodes (`cluster::majorities`); what that
  asks of the leader holds of every leader of such a simulation (`cluster::agreement`),
  and otherwise of the first leader of a term if it has applied what it has committed
  when it is elected (`cluster::terms`, `cluster::freshness`), and stays true as long as
  it leads (`cluster::leads`);
- a node's state is what the committed part of its log makes of its snapshot, through
  compaction, transfer in chunks, and saving and restoring (`node::laws::states`,
  `node::laws::transfers`);
- a read that is ready sees all that was committed when it began, and is confirmed by
  exactly those who answered its question; one that was finished is never ready again
  (`node::laws::reads`);
- a history that passes the checker is linearizable, and a counterexample is none
  (`history::laws`).

## What is believed

`src/codec.rs` calls `bincode`. Two functions there are believed to do what their
contracts say: that encoding and decoding are functions of their arguments, that
encoding does not fail, and that what is encoded decodes to the same fields.
