//! The assembled report: per-file statistics, global per-tag totals, and the
//! two top-10 rankings. The whole report is pinned to a function of the
//! input, so two runs over the same files produce the same report.

use vstd::prelude::*;

use crate::analysis::{
    aggregate_tag_counts, file_rank_items, generate_top_tags, global_tags, rank_names,
    tag_rank_items, top_10_filenames_highest_ratio, top_10_tags_highest_ratio, with_top_tags,
};
use crate::file_data::{FileData, FileV};
use crate::tag_counts::{tags_fit, TagCounts};

verus! {

/// The report's totals: the top-10 chattiest files and tags.
pub struct Totals {
    pub chatty_sites: Vec<String>,
    pub chatty_tags: Vec<String>,
}

/// The whole report: an identifier, the per-file statistics, the global
/// per-tag totals, and the rankings.
pub struct ResultJson {
    pub padron: String,
    pub sites: Vec<FileData>,
    pub tags: TagCounts,
    pub totals: Totals,
}

/// Every file's view with its own tag ranking filled in.
pub open spec fn ranked_files(fs: Seq<FileV>) -> Seq<FileV> {
    fs.map_values(|f: FileV| with_top_tags(f))
}

/// Run the ranking and aggregation passes over parsed files and assemble the
/// report: every field is pinned to a function of the inputs, so the pipeline
/// is deterministic and running it twice gives equal reports. `None` exactly
/// when a global per-tag total would not fit in `usize`.
pub fn build_result(padron: String, files_data: Vec<FileData>) -> (r: Option<ResultJson>)
    requires
        forall|i: int| 0 <= i < files_data@.len() ==> (#[trigger] files_data@[i]).wf(),
    ensures
        r is Some <==> tags_fit(global_tags(ranked_files(files_data.deep_view()))),
        r is Some ==> {
            let fv = ranked_files(files_data.deep_view());
            &&& (r->0).padron@ == padron@
            &&& (r->0).sites.deep_view() == fv
            &&& (r->0).tags@ == global_tags(fv)
            &&& (r->0).totals.chatty_sites.deep_view() == rank_names(file_rank_items(fv))
            &&& (r->0).totals.chatty_tags.deep_view() == rank_names(
                tag_rank_items(global_tags(fv)),
            )
        },
{
    let ghost fv0 = files_data.deep_view();
    let mut files = files_data;
    generate_top_tags(&mut files);
    proof {
        assert(files.deep_view() =~= ranked_files(fv0));
        assert(forall|i: int| 0 <= i < files@.len() ==> (#[trigger] files@[i]).wf()) by {
            assert(forall|i: int|
                0 <= i < files@.len() ==> (#[trigger] files@[i])@ == with_top_tags(fv0[i]));
        }
    }
    let agg = match aggregate_tag_counts(&files) {
        Some(t) => t,
        None => {
            return None;
        },
    };
    let chatty_tags = top_10_tags_highest_ratio(&agg);
    let chatty_sites = top_10_filenames_highest_ratio(&files);
    Some(
        ResultJson {
            padron,
            sites: files,
            tags: agg,
            totals: Totals { chatty_sites, chatty_tags },
        },
    )
}

} // verus!
