pub mod analysis;
pub mod file_data;
pub mod result;
pub mod tag_counts;
pub mod utils;

pub use analysis::{
    aggregate_tag_counts, generate_top_tags, top_10_filenames_highest_ratio,
    top_10_tags_highest_ratio, words_questions_ratio, RankItem,
};
pub use file_data::{decode_lines, file_stats_from_records, merge_file_parts, FileData, Record};
pub use result::{build_result, ResultJson, Totals};
pub use tag_counts::{TagCounts, TagEntry};
pub use utils::count_words;
