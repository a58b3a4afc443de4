//! A verified core of an actor framework: vector clocks, cluster
//! reachability tables, actor paths and addresses, supervision restart
//! bookkeeping and the ordering of coordinated-shutdown phases.

pub mod text;
pub mod seq_facts;
pub mod hashing;
pub mod clock_model;
pub mod vector_clock;
pub mod address;
pub mod addr_set;
pub mod reachability;
pub mod reachability_laws;
pub mod reachability_groups;
pub mod fault_handling;
pub mod coordinated_shutdown;
pub mod phase_order;
pub mod decimal;
pub mod actor_path;
pub mod url_paths;
pub mod actor_selection;
pub mod states;
pub mod dead_letters;
pub mod actor_rc;
pub mod config;
pub mod extension;
pub mod patterns;
pub mod provider;
pub mod path_laws;
pub mod stash;
pub mod death_watch;
pub mod routing;
pub mod reachability_text;
pub mod timer_table;
pub mod children;
