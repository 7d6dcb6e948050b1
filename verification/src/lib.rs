//! Reranking of documents against a query with a cross-encoder or an
//! encoder-decoder.
//!
//! A query and documents become token ids ([`tokens`], [`prepare`]), length-sorted and
//! padded sub-batches ([`batch`]), and a tensor program ([`graph`]) that scores them:
//! [`nemotron`] and [`kalm`] build the programs of the two models, [`run`] and
//! [`kalm_score`] plan their runs, and [`rank`] and [`request`] turn scores into
//! answers. What only floating-point arithmetic can compute is left to whoever
//! performs the programs; the `*_shapes` modules show that every operation in them
//! accepts its operands and that there is a score for every document, and
//! [`precision`] which types the elements have.
//!
//! What a program computes from its arrays is [`meaning`], in any arithmetic. A row of
//! a padded batch is a window of it ([`windows`], [`parts`]); the `*_rows` modules,
//! [`kalm_pools`], [`kalm_joined`] and [`kalm_answers`] follow one row through the
//! programs, and [`run_scores`] and [`kalm_scores`] conclude that neither other
//! documents nor their order, sub-batches or cut tokens change a document's score.
//!
//! A program on inputs that differ in places computes arrays that are linked where the
//! difference does not reach ([`links`], [`link_heads`], [`link_attention`]);
//! [`nemotron_links`], [`encoder_links`] and [`decoder_links`] conclude which tokens and
//! pooled states a position, a score and a pooled state depend on.
//!
//! The `*_values` modules say by value what the operations of both models compute, in any
//! arithmetic, from the weights, the rotary frequencies and the tokens that they read;
//! [`kalm_plan_values`] concludes what the score of a document is, from the words yes and
//! no, the query and the document.

pub mod batch;
pub mod cli;
pub mod decoder_links;
pub mod encoder_links;
pub mod graph;
pub mod json;
pub mod kalm;
pub mod kalm_answer_values;
pub mod kalm_answers;
pub mod kalm_config;
pub mod kalm_decoder_values;
pub mod kalm_joined;
pub mod kalm_layer_values;
pub mod kalm_links;
pub mod kalm_plan_values;
pub mod kalm_pools;
pub mod kalm_rows;
pub mod kalm_score;
pub mod kalm_score_values;
pub mod kalm_scores;
pub mod kalm_shapes;
pub mod kalm_values;
pub mod link_attention;
pub mod link_heads;
pub mod links;
pub mod meaning;
pub mod model;
pub mod nemotron;
pub mod nemotron_freq_values;
pub mod nemotron_links;
pub mod nemotron_rows;
pub mod nemotron_shapes;
pub mod nemotron_values;
pub mod order;
pub mod parts;
pub mod plan_shapes;
pub mod precision;
pub mod prepare;
pub mod rank;
pub mod request;
pub mod run;
pub mod run_scores;
pub mod shapes;
pub mod text;
pub mod tokens;
pub mod types;
pub mod values;
pub mod weights;
pub mod window_folds;
pub mod window_moves;
pub mod window_sums;
pub mod windows;
