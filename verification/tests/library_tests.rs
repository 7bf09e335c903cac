use tp1::{
    aggregate_tag_counts, build_result, count_words, decode_lines, file_stats_from_records,
    generate_top_tags, merge_file_parts, top_10_filenames_highest_ratio,
    top_10_tags_highest_ratio, words_questions_ratio, FileData, TagCounts,
};

fn parse_file(name: &str, lines: &Vec<String>) -> FileData {
    let records = decode_lines(lines).expect("every line should decode");
    file_stats_from_records(String::from(name), &records).expect("counts should fit")
}

#[test]
fn count_words_empty_list_is_zero() {
    assert_eq!(count_words(&Vec::new()), Some(0));
}

#[test]
fn count_words_sums_over_strings() {
    let texts = vec![String::from("one two three"), String::from("four"), String::new()];
    assert_eq!(count_words(&texts), Some(4));
}

#[test]
fn count_words_ignores_extra_whitespace() {
    let texts = vec![String::from("  a \t b  \n c  ")];
    assert_eq!(count_words(&texts), Some(3));
}

#[test]
fn decode_rejects_malformed_line() {
    let lines = vec![String::from("{\"texts\":[\"a\"]}"), String::from("not json")];
    assert!(decode_lines(&lines).is_none());
}

#[test]
fn decode_missing_fields_degrade_to_empty() {
    let lines = vec![String::from("{\"other\":1}")];
    let fd = parse_file("x.jsonl", &lines);
    assert_eq!(fd.total_word_count, 0);
    assert_eq!(fd.total_line_count, 1);
    assert_eq!(fd.tag_counts.len(), 0);
}

#[test]
fn decode_drops_non_string_elements() {
    let lines = vec![String::from("{\"texts\":[\"a\",1,\"b c\"],\"tags\":[\"t\",5]}")];
    let fd = parse_file("x.jsonl", &lines);
    assert_eq!(fd.total_word_count, 3);
    assert_eq!(fd.tag_counts.get(&String::from("t")), Some((1, 3)));
    assert_eq!(fd.tag_counts.len(), 1);
}

#[test]
fn tag_word_double_count() {
    // one record, 5 words, two tags: 5 words to each tag, 5 once to the file
    let lines = vec![String::from("{\"texts\":[\"v w x y z\"],\"tags\":[\"a\",\"b\"]}")];
    let fd = parse_file("x.jsonl", &lines);
    assert_eq!(fd.total_word_count, 5);
    assert_eq!(fd.total_line_count, 1);
    assert_eq!(fd.tag_counts.get(&String::from("a")), Some((1, 5)));
    assert_eq!(fd.tag_counts.get(&String::from("b")), Some((1, 5)));
}

#[test]
fn tag_repeated_in_one_record_counts_each_occurrence() {
    let lines = vec![String::from("{\"texts\":[\"a b\"],\"tags\":[\"t\",\"t\"]}")];
    let fd = parse_file("x.jsonl", &lines);
    assert_eq!(fd.total_word_count, 2);
    assert_eq!(fd.tag_counts.get(&String::from("t")), Some((2, 4)));
}

#[test]
fn scenario_two_files() {
    let lines_a = vec![String::from("{\"texts\":[\"x y\"],\"tags\":[\"t1\"]}")];
    let lines_b = vec![String::from("{\"texts\":[\"p q r\"],\"tags\":[\"t1\",\"t2\"]}")];
    let fa = parse_file("a.jsonl", &lines_a);
    let fb = parse_file("b.jsonl", &lines_b);
    assert_eq!(fa.total_word_count, 2);
    assert_eq!(fa.total_line_count, 1);
    assert_eq!(fa.tag_counts.get(&String::from("t1")), Some((1, 2)));
    assert_eq!(fb.total_word_count, 3);
    assert_eq!(fb.total_line_count, 1);
    assert_eq!(fb.tag_counts.get(&String::from("t1")), Some((1, 3)));
    assert_eq!(fb.tag_counts.get(&String::from("t2")), Some((1, 3)));

    let files = vec![fa, fb];
    let global = aggregate_tag_counts(&files).expect("counts fit");
    assert_eq!(global.get(&String::from("t1")), Some((2, 5)));
    assert_eq!(global.get(&String::from("t2")), Some((1, 3)));

    // file ratios: a = 2.0, b = 3.0; tag ratios: t1 = 2.5, t2 = 3.0
    assert_eq!(
        top_10_filenames_highest_ratio(&files),
        vec![String::from("b.jsonl"), String::from("a.jsonl")]
    );
    assert_eq!(
        top_10_tags_highest_ratio(&global),
        vec![String::from("t2"), String::from("t1")]
    );
}

#[test]
fn ranking_keeps_at_most_ten_sorted() {
    let mut tags = TagCounts::new();
    // ratios 1, 2, ..., 12: the ranking keeps 12 down to 3
    for i in 1..13usize {
        assert!(tags.add_counts(&format!("t{:02}", i), 1, i));
    }
    let top = top_10_tags_highest_ratio(&tags);
    assert_eq!(top.len(), 10);
    let expected: Vec<String> = (3..13usize).rev().map(|i| format!("t{:02}", i)).collect();
    assert_eq!(top, expected);
}

#[test]
fn ranking_breaks_ties_by_insertion_order() {
    let mut tags = TagCounts::new();
    assert!(tags.add_counts(&String::from("first"), 2, 6));
    assert!(tags.add_counts(&String::from("second"), 1, 3));
    assert!(tags.add_counts(&String::from("low"), 1, 1));
    let top = top_10_tags_highest_ratio(&tags);
    assert_eq!(
        top,
        vec![String::from("first"), String::from("second"), String::from("low")]
    );
}

#[test]
fn zero_records_means_ratio_zero() {
    // a tag that was never carried and a file with no records both rank last
    let mut tags = TagCounts::new();
    assert!(tags.add_counts(&String::from("untouched"), 0, 7));
    assert!(tags.add_counts(&String::from("seen"), 1, 1));
    assert_eq!(
        top_10_tags_highest_ratio(&tags),
        vec![String::from("seen"), String::from("untouched")]
    );

    let empty = file_stats_from_records(String::from("empty.jsonl"), &Vec::new())
        .expect("counts fit");
    assert_eq!(empty.total_line_count, 0);
    assert_eq!(words_questions_ratio(&empty), (0, 0));
    let busy = parse_file("busy.jsonl", &vec![String::from("{\"texts\":[\"a\"],\"tags\":[]}")]);
    let ranked = top_10_filenames_highest_ratio(&vec![busy, empty]);
    assert_eq!(ranked, vec![String::from("busy.jsonl"), String::from("empty.jsonl")]);
}

#[test]
fn words_questions_ratio_is_exact_pair() {
    let fd = parse_file(
        "x.jsonl",
        &vec![
            String::from("{\"texts\":[\"a b c\"],\"tags\":[]}"),
            String::from("{\"texts\":[\"d\"],\"tags\":[]}"),
        ],
    );
    assert_eq!(words_questions_ratio(&fd), (4, 2));
}

#[test]
fn pipeline_runs_are_identical() {
    let build = || {
        let lines2 = vec![
            String::from("{\"texts\":[\"a b c d e f g h i\"],\"tags\":[\"tag1\"]}"),
            String::from("{\"texts\":[\"j k l m\"],\"tags\":[\"tag2\",\"tag3\"]}"),
            String::from("{\"texts\":[\"n o p q r\"],\"tags\":[\"tag3\"]}"),
        ];
        let lines1 = vec![String::from("{\"texts\":[\"a b c\",\"d e\"],\"tags\":[\"tag1\",\"tag2\"]}")];
        let files = vec![parse_file("f2.jsonl", &lines2), parse_file("f1.jsonl", &lines1)];
        build_result("102676".to_string(), files).expect("counts fit")
    };
    let r1 = build();
    let r2 = build();
    assert_eq!(r1.padron, r2.padron);
    assert_eq!(r1.totals.chatty_sites, r2.totals.chatty_sites);
    assert_eq!(r1.totals.chatty_tags, r2.totals.chatty_tags);
    assert_eq!(r1.tags.len(), r2.tags.len());
    for i in 0..r1.tags.len() {
        assert_eq!(r1.tags.entry_at(i), r2.tags.entry_at(i));
    }
    assert_eq!(r1.sites.len(), r2.sites.len());
    for i in 0..r1.sites.len() {
        assert_eq!(r1.sites[i].filename, r2.sites[i].filename);
        assert_eq!(r1.sites[i].total_word_count, r2.sites[i].total_word_count);
        assert_eq!(r1.sites[i].total_line_count, r2.sites[i].total_line_count);
        assert_eq!(r1.sites[i].top_tags, r2.sites[i].top_tags);
        for k in 0..r1.sites[i].tag_counts.len() {
            assert_eq!(r1.sites[i].tag_counts.entry_at(k), r2.sites[i].tag_counts.entry_at(k));
        }
    }
}

#[test]
fn partitioned_fold_matches_single_pass() {
    let lines = vec![
        String::from("{\"texts\":[\"a b c\"],\"tags\":[\"t1\",\"t2\"]}"),
        String::from("{\"texts\":[\"d e\"],\"tags\":[\"t2\"]}"),
        String::from("{\"texts\":[\"f\"],\"tags\":[\"t3\",\"t1\"]}"),
        String::from("{\"texts\":[\"g h i j\"],\"tags\":[]}"),
    ];
    let whole = parse_file("p.jsonl", &lines);
    for split in 0..lines.len() + 1 {
        let left: Vec<String> = lines[..split].to_vec();
        let right: Vec<String> = lines[split..].to_vec();
        let merged = merge_file_parts(
            parse_file("p.jsonl", &left),
            &parse_file("p.jsonl", &right),
        )
        .expect("counts fit");
        assert_eq!(merged.total_word_count, whole.total_word_count);
        assert_eq!(merged.total_line_count, whole.total_line_count);
        assert_eq!(merged.tag_counts.len(), whole.tag_counts.len());
        for tag in ["t1", "t2", "t3"] {
            assert_eq!(
                merged.tag_counts.get(&String::from(tag)),
                whole.tag_counts.get(&String::from(tag))
            );
        }
    }
}

#[test]
fn generate_top_tags_only_touches_top_tags() {
    let lines = vec![String::from("{\"texts\":[\"a b\"],\"tags\":[\"t1\",\"t2\"]}")];
    let mut files = vec![parse_file("x.jsonl", &lines)];
    generate_top_tags(&mut files);
    assert_eq!(files[0].filename, "x.jsonl");
    assert_eq!(files[0].total_word_count, 2);
    assert_eq!(files[0].total_line_count, 1);
    assert_eq!(files[0].tag_counts.get(&String::from("t1")), Some((1, 2)));
    assert_eq!(files[0].top_tags, vec![String::from("t1"), String::from("t2")]);
}
