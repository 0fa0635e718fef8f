//! A columnar query pipeline over a property graph.
//!
//! A query is a list of clauses ([`query`], [`ast`]). Rewrites bring it into a
//! shape that a planner recognises ([`rewrite`], [`prelude`], [`split`],
//! [`reroot`], [`reorder`], [`ordering`], [`constant`]); [`dispatch`] picks the
//! plan of the first shape that fits. Plans are run over chunks of rows
//! ([`chunk`], [`operators`], [`select`], [`chain_rows`], [`runs`], [`batch`]):
//! one id column per variable. Counts that nobody reads row by row are folded
//! into weights and never expanded ([`fold_plan`], [`fold`], [`fold_run`],
//! [`leg_fold`]). Rows end in groups ([`reduce`], [`group`], [`degree`]), in the
//! first rows of an order ([`topk`], [`ordered`], [`index_topk`]) or as they are.
//! [`precision`] tests what a read would have matched against later commits.
//!
//! Values are opaque here: properties are read and expressions evaluated by the
//! caller, who hands in verdicts, sort keys and values by the id they belong to.

pub mod aggregate;
pub mod answer_law;
pub mod ast;
pub mod batch;
pub mod batched;
pub mod cap_law;
pub mod carry;
pub mod chain;
pub mod chain_rows;
pub mod chunk;
pub mod clause_law;
pub mod cond_law;
pub mod constant;
pub mod counted_rows;
pub mod degree;
pub mod degree_law;
pub mod dispatch;
pub mod distinct;
pub mod edit;
pub mod entry_law;
pub mod fold;
pub mod fold_build;
pub mod fold_law;
pub mod fold_model;
pub mod fold_plan;
pub mod fold_run;
pub mod fuse;
pub mod graph;
pub mod group;
pub mod group_laws;
pub mod hierarchy;
pub mod hop;
pub mod hop_law;
pub mod index_topk;
pub mod join;
pub mod join_plan;
pub mod joins;
pub mod labels;
pub mod layout;
pub mod leg_fold;
pub mod legs;
pub mod levers;
pub mod link_law;
pub mod located;
pub mod located_law;
pub mod match_law;
pub mod meaning;
pub mod member_posts;
pub mod morsels;
pub mod multistage;
pub mod names;
pub mod nest_law;
pub mod operators;
pub mod optional;
pub mod optional_run;
pub mod order_law;
pub mod ordered;
pub mod ordering;
pub mod piece_law;
pub mod plan;
pub mod plan_law;
pub mod planned;
pub mod planned_match;
pub mod precision;
pub mod precision_law;
pub mod preds;
pub mod prelude;
pub mod prelude_law;
pub mod query;
pub mod read_back_law;
pub mod read_law;
pub mod readset;
pub mod ready;
pub mod reduce;
pub mod reduce_law;
pub mod reorder;
pub mod reorder_law;
pub mod reordered_count;
pub mod reroot;
pub mod rewrite;
pub mod rewrite_law;
pub mod row_laws;
pub mod runs;
pub mod seed_law;
pub mod seeds;
pub mod select;
pub mod seqs;
pub mod shape_law;
pub mod side_law;
pub mod sizes;
pub mod split;
pub mod split_law;
pub mod stage_law;
pub mod stages;
pub mod table;
pub mod tail_law;
pub mod tally;
pub mod topk;
pub mod traced;
pub mod trim_law;
pub mod turn_law;
pub mod window;
