use tp1::{
    aggregate_tag_counts, decode_lines, file_stats_from_records, generate_top_tags,
    top_10_filenames_highest_ratio, top_10_tags_highest_ratio, FileData,
};

// The single-file fixture: three records, 15 words in all,
// tag1 on two records with 9 words, tag2 on two records with 11 words.
fn testfile_lines() -> Vec<String> {
    vec![
        String::from("{\"texts\":[\"a b c\",\"d e\"],\"tags\":[\"tag1\",\"tag2\"]}"),
        String::from("{\"texts\":[\"f g h i\"],\"tags\":[\"tag1\"]}"),
        String::from("{\"texts\":[\"j k l m n o\"],\"tags\":[\"tag2\"]}"),
    ]
}

fn parse_file(name: &str, lines: &Vec<String>) -> FileData {
    let records = decode_lines(lines).expect("every line should decode");
    file_stats_from_records(String::from(name), &records).expect("counts should fit")
}

fn tag_pair(file_data: &FileData, tag: &str) -> Option<(usize, usize)> {
    file_data.tag_counts.get(&String::from(tag))
}

// Function to compare two FileData structs
pub fn compare_file_data(file_data1: &FileData, file_data2: &FileData) -> bool {
    file_data1.filename == file_data2.filename
        && file_data1.total_word_count == file_data2.total_word_count
        && file_data1.total_line_count == file_data2.total_line_count
        && file_data1.tag_counts.len() == file_data2.tag_counts.len()
        && tag_pair(file_data1, "tag1") == tag_pair(file_data2, "tag1")
        && tag_pair(file_data1, "tag2") == tag_pair(file_data2, "tag2")
        && file_data1.top_tags == file_data2.top_tags
}

fn expected_testfile(top_tags: Vec<String>) -> FileData {
    let mut tag_counts = tp1::TagCounts::new();
    assert!(tag_counts.add_counts(&String::from("tag2"), 2, 11));
    assert!(tag_counts.add_counts(&String::from("tag1"), 2, 9));
    FileData {
        filename: String::from("testfile.jsonl"),
        total_word_count: 15,
        total_line_count: 3,
        tag_counts,
        top_tags,
    }
}

#[test]
fn test01_process_directory_file() {
    let file_data = expected_testfile(Vec::new());

    let processed_file_data = parse_file("testfile.jsonl", &testfile_lines());

    assert_eq!(true, compare_file_data(&processed_file_data, &file_data));
}

#[test]
fn test02_generate_top_tags_for_single_file() {
    let top_tags = vec![String::from("tag2"), String::from("tag1")];
    let file_data = expected_testfile(top_tags);

    let mut processed_file_data = vec![parse_file("testfile.jsonl", &testfile_lines())];
    generate_top_tags(&mut processed_file_data);
    let final_file_data = &processed_file_data[0];

    assert_eq!(true, compare_file_data(final_file_data, &file_data));
}

#[test]
fn test03_aggregated_tag_counts() {
    let mut processed_file_data = vec![parse_file("testfile.jsonl", &testfile_lines())];
    generate_top_tags(&mut processed_file_data);
    let aggregated_tag_counts =
        aggregate_tag_counts(&processed_file_data).expect("counts should fit");

    assert_eq!(true, {
        aggregated_tag_counts.len() == 2
            && aggregated_tag_counts.get(&String::from("tag2")) == Some((2, 11))
            && aggregated_tag_counts.get(&String::from("tag1")) == Some((2, 9))
    });
}

#[test]
fn test04_top_10_tags() {
    let top_tags = vec!["tag2".to_string(), "tag1".to_string()];

    let mut processed_file_data = vec![parse_file("testfile.jsonl", &testfile_lines())];
    generate_top_tags(&mut processed_file_data);
    let aggregated_tag_counts =
        aggregate_tag_counts(&processed_file_data).expect("counts should fit");
    let top_10_tags = top_10_tags_highest_ratio(&aggregated_tag_counts);

    assert_eq!(true, top_10_tags == top_tags);
}

#[test]
fn test05_top_10_filenames() {
    let filenames = vec!["testfile.jsonl".to_string()];

    let mut processed_file_data = vec![parse_file("testfile.jsonl", &testfile_lines())];
    generate_top_tags(&mut processed_file_data);
    let top_10_filenames = top_10_filenames_highest_ratio(&processed_file_data);

    assert_eq!(true, top_10_filenames == filenames);
}
