pub mod admission;
pub mod allocation;
pub mod arena;
pub mod arrivals;
pub mod bidding;
pub mod bookkeeping;
pub mod causal;
pub mod challenger;
pub mod checkpoint;
pub mod closing;
pub mod codec;
pub mod compilation;
pub mod compiler;
pub mod compiler_steps;
pub mod compiler_wire;
pub mod consolidation;
pub mod continuity;
pub mod demands;
pub mod digest;
pub mod ecology;
pub mod estimates;
pub mod evidence;
pub mod footprint;
pub mod formats;
pub mod forecast;
pub mod history;
pub mod holdout;
pub mod identities;
pub mod imports;
pub mod inspection;
pub mod integrity;
pub mod intelligence;
pub mod investment;
pub mod judgement;
pub mod knowledge;
pub mod ledger;
pub mod lineage;
pub mod market;
pub mod migration;
pub mod model;
pub mod numbers;
pub mod order;
pub mod padded;
pub mod pairing;
pub mod planning;
pub mod policy;
pub mod portfolio;
pub mod promotion;
pub mod ranking;
pub mod receipt;
pub mod recovery;
pub mod replay;
pub mod resident;
pub mod restore;
pub mod search;
pub mod shadow;
pub mod standing;
pub mod tags;
pub mod transition;
pub mod treatment;
pub mod types;
pub mod upkeep;
pub mod workflow;
