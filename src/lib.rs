//! An HTTP load balancer's decision core (upstream selection, health marking, per-client
//! rate limiting and the per-connection state machine), together with the small utilities
//! that ship beside it: a debugger's breakpoint bookkeeping, word count, line diff, a linked
//! list and a few warm-up routines.

pub mod rank_queue;
pub mod routing;
pub mod rate_limit;
pub mod handler;
pub mod health;
pub mod warmup;
pub mod hangman;
pub mod wc;
pub mod grid;
pub mod diff;
pub mod breakpoints;
pub mod inferior;
pub mod process;
pub mod linked_list;
pub mod parallel;
