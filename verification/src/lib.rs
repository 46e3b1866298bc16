//! What a Linux machine is talking to, and how its traffic could be routed
//! instead.
//!
//! The first half reads: socket tables ([`proc_net`]), the processes that hold
//! the sockets ([`procs`]), which way every connection points ([`snapshot`]),
//! and whether any of it can be believed ([`visibility`]). The claim it has to
//! earn is "everything": a view that silently drops rows is worse than no view,
//! because it is trusted. So every parser skips the row it cannot read rather
//! than the table.
//!
//! The second half plans: a policy is compiled to an nftables ruleset and the
//! routing around it ([`policy`]), checked before anything happens
//! ([`preflight`]), and put in place or taken back one step at a time
//! ([`apply`], [`steps`]). What holds of every plan is stated and proved in
//! [`guarantees`], what its commands and lines say in [`routing`], [`numbering`]
//! and [`wording`], and what a ruleset does to a packet in [`packets`].
//!
//! Around them stand the facts a policy is compiled against ([`probe`]), the
//! canvas it is drawn on ([`scene`]), the command line ([`args`]) and what a
//! browser is answered ([`api`], [`http`], [`gate`]).
//!
//! Nothing here reads a file, opens a socket or runs a command. Every function
//! takes what was read as plain values and says in its contract exactly what it
//! makes of them.

pub mod addr;
pub mod api;
pub mod apply;
pub mod args;
pub mod gate;
pub mod guarantees;
pub mod http;
pub mod json;
pub mod num;
pub mod numbering;
pub mod order;
pub mod packets;
pub mod policy;
pub mod ports;
pub mod preflight;
pub mod probe;
pub mod proc_net;
pub mod procs;
pub mod routing;
pub mod scene;
pub mod services;
pub mod shell;
pub mod snapshot;
pub mod steps;
pub mod text;
pub mod visibility;
pub mod wording;
