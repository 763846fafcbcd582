//! A minimal resolution-based logic engine over Horn clauses.
//!
//! Terms are variables, atoms, or compound applications; a program is an
//! ordered list of facts and rules.  The engine computes most-general
//! unifiers, applies ordered substitutions, and enumerates every proof of a
//! query by depth-first, exhaustive backtracking in database order.  The
//! unification walk and the search have no termination guarantee (there is
//! no occurs-check and no bound on recursive rules), so both take an
//! explicit step budget and report when it runs out.

mod parse;
mod render;
mod resolve;
mod subst;
mod terms;
mod tokenize;
mod unify;

pub use parse::Parser;
pub use parse::clause_tokens;
pub use parse::clause_fits;
pub use parse::lemma_clause_fits_parts;
pub use parse::lemma_clause_fits_unique;
pub use parse::lemma_clause_tokens_unique;
pub use parse::lemma_term_fits_unique;
pub use parse::lemma_termlist_body_unique;
pub use parse::lemma_term_tokens_unique;
pub use parse::lemma_termlist_tokens_unique;
pub use parse::parse_clause;
pub use parse::parse_query;
pub use parse::term_tokens;
pub use parse::no_comma_at;
pub use parse::no_lparen_at;
pub use parse::term_at;
pub use parse::term_fits;
pub use parse::termlist_body_at;
pub use parse::termlist_fits;
pub use parse::termlist_tokens;
pub use parse::wf_clause;
pub use parse::wf_term;
pub use parse::wf_term_each;
pub use render::render_clause;
pub use render::render_term;
pub use render::render_token;
pub use resolve::clause_seq_view;
pub use resolve::lemma_solve_rec_mono;
pub use resolve::lemma_solve_spec_of_witness;
pub use resolve::resolution;
pub use resolve::solve;
pub use resolve::solve_rec;
pub use resolve::solve_spec;
pub use resolve::step_goals;
pub use subst::Sub;
pub use subst::SubV;
pub use subst::apply_subs;
pub use subst::lemma_subst_list_absorbs_one;
pub use subst::lemma_subst_list_append;
pub use subst::lemma_subst_list_no_residue;
pub use subst::no_self_occurrence;
pub use subst::occurs;
pub use subst::sub_ident;
pub use subst::sub_seq_view;
pub use subst::subst_list;
pub use subst::subst_one;
pub use terms::Clause;
pub use terms::ClauseV;
pub use terms::Term;
pub use terms::TermV;
pub use terms::Token;
pub use terms::TokenV;
pub use terms::clause_body;
pub use terms::clause_head;
pub use terms::term_seq_view;
pub use tokenize::is_space;
pub use tokenize::lemma_tokenize_rec_spaces;
pub use tokenize::token_seq_view;
pub use tokenize::tokenize_rec;
pub use tokenize::tokenize;
pub use unify::MguOutcome;
pub use unify::lemma_mgu_most_general;
pub use unify::lemma_mgu_rec_general;
pub use unify::lemma_mgu_sound;
pub use unify::lemma_mgu_spec_most_general;
pub use unify::lemma_mgu_spec_symmetric;
pub use unify::mgu;
pub use unify::mgu_rec;
pub use unify::mgu_spec;
pub use unify::name_gt;
pub use unify::var_var_binding;
