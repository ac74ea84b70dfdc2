//! Markdown-to-component rendering core.
//!
//! The crate turns a Markdown document (optionally prefixed with a `---`
//! front-matter block) into a flat stream of structural [`Event`]s, and
//! reconstructs that stream into a nested tree in which registered component
//! names are replaced by deferred renderer invocations.

use vstd::prelude::*;

mod builder;
mod chars;
mod components;
mod events;
mod parser;
mod scan;
mod slug;

pub use builder::BuildState;
pub use builder::MarkupWarning;
pub use builder::OutlineHeading;
pub use builder::SpecHeading;
pub use builder::attr_events;
pub use builder::build_step;
pub use builder::headings_view;
pub use builder::is_heading_name;
pub use builder::lemma_build_balanced;
pub use builder::lemma_self_closing_adjacent;
pub use builder::spec_build;
pub use chars::slug_chars;
pub use chars::spec_trim;
pub use components::ComponentMap;
pub use components::FromMd;
pub use components::MdNode;
pub use components::RecState;
pub use components::SetPropError;
pub use components::SpecCapture;
pub use components::SpecFrame;
pub use components::SpecNode;
pub use components::apply_props;
pub use components::events_to_view;
pub use components::child_events_from;
pub use components::lemma_captured_children_balanced;
pub use components::lemma_component_attr_isolation;
pub use components::lemma_component_capture;
pub use components::own_attrs_from;
pub use components::lemma_parse_then_reconstruct;
pub use components::lemma_reconstruction_balance;
pub use components::node_view;
pub use components::failures_from;
pub use components::node_ok;
pub use components::nodes_ok;
pub use components::nodes_view;
pub use components::rec_run;
pub use components::rec_step;
pub use components::spec_reconstruct;
pub use events::Event;
pub use events::SpecEvent;
pub use events::events_view;
pub use events::excess;
pub use events::is_balanced;
pub use events::prefixes_nonneg;
pub use parser::BodyRes;
pub use parser::ParseError;
pub use parser::ParseRes;
pub use parser::md_html_of;
pub use parser::parse;
pub use parser::parse_md;
pub use parser::parse_res_matches;
pub use parser::spec_parse_md;
pub use scan::RawTok;
pub use scan::SpecTok;
pub use scan::scan_html;
pub use scan::spec_scan;
pub use slug::SlugState;
pub use slug::dec_str;
pub use slug::lemma_same_base_distinct_ids;
pub use slug::lemma_slug_counts_grow;
pub use slug::lemma_slug_ids_distinct;
pub use slug::map_slug;
pub use slug::slug_base;
pub use slug::slug_id;
pub use slug::spec_slugify;

verus! {

} // verus!
