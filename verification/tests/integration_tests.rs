use tp1::{build_result, decode_lines, file_stats_from_records, FileData, ResultJson};

fn parse_file(name: &str, lines: &Vec<String>) -> FileData {
    let records = decode_lines(lines).expect("every line should decode");
    file_stats_from_records(String::from(name), &records).expect("counts should fit")
}

// The two-file fixture: testfile2.jsonl has three records with 18 words in
// all (tag1 on one record with 9 words, tag2 on one with 4, tag3 on two with
// 9), testfile.jsonl is the single-file fixture.
fn two_files() -> Vec<FileData> {
    let lines2 = vec![
        String::from("{\"texts\":[\"a b c d e f g h i\"],\"tags\":[\"tag1\"]}"),
        String::from("{\"texts\":[\"j k l m\"],\"tags\":[\"tag2\",\"tag3\"]}"),
        String::from("{\"texts\":[\"n o p q r\"],\"tags\":[\"tag3\"]}"),
    ];
    let lines1 = vec![
        String::from("{\"texts\":[\"a b c\",\"d e\"],\"tags\":[\"tag1\",\"tag2\"]}"),
        String::from("{\"texts\":[\"f g h i\"],\"tags\":[\"tag1\"]}"),
        String::from("{\"texts\":[\"j k l m n o\"],\"tags\":[\"tag2\"]}"),
    ];
    vec![parse_file("testfile2.jsonl", &lines2), parse_file("testfile.jsonl", &lines1)]
}

fn are_sites_equal(sites: &Vec<FileData>, expected_names: &Vec<String>) -> bool {
    if sites.len() != expected_names.len() {
        return false;
    }
    let mut names: Vec<String> = sites.iter().map(|site| site.filename.clone()).collect();
    let mut expected = expected_names.clone();
    names.sort();
    expected.sort();
    names == expected
}

fn tags_equal(result: &ResultJson) -> bool {
    result.tags.len() == 3
        && result.tags.get(&String::from("tag2")) == Some((3, 15))
        && result.tags.get(&String::from("tag1")) == Some((3, 18))
        && result.tags.get(&String::from("tag3")) == Some((2, 9))
}

#[test]
fn test01_process_all_directory_files() {
    let site1_top_tags =
        vec![String::from("tag1"), String::from("tag3"), String::from("tag2")];
    let site2_top_tags = vec![String::from("tag2"), String::from("tag1")];

    let files_data = two_files();
    let result = build_result("102676".to_string(), files_data).expect("counts should fit");

    let equal = result.padron == "102676"
        && are_sites_equal(
            &result.sites,
            &vec![String::from("testfile2.jsonl"), String::from("testfile.jsonl")],
        )
        && result.sites[0].filename == "testfile2.jsonl"
        && result.sites[0].total_word_count == 18
        && result.sites[0].total_line_count == 3
        && result.sites[0].tag_counts.get(&String::from("tag1")) == Some((1, 9))
        && result.sites[0].tag_counts.get(&String::from("tag2")) == Some((1, 4))
        && result.sites[0].tag_counts.get(&String::from("tag3")) == Some((2, 9))
        && result.sites[0].top_tags == site1_top_tags
        && result.sites[1].filename == "testfile.jsonl"
        && result.sites[1].total_word_count == 15
        && result.sites[1].total_line_count == 3
        && result.sites[1].tag_counts.get(&String::from("tag1")) == Some((2, 9))
        && result.sites[1].tag_counts.get(&String::from("tag2")) == Some((2, 11))
        && result.sites[1].top_tags == site2_top_tags
        && tags_equal(&result)
        && result.totals.chatty_sites
            == vec![String::from("testfile2.jsonl"), String::from("testfile.jsonl")]
        && result.totals.chatty_tags
            == vec![String::from("tag1"), String::from("tag2"), String::from("tag3")];

    assert_eq!(true, equal);
}
