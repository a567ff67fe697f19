use lsdups::grouping::group;
use lsdups::model::{FileRecord, Summary};
use lsdups::report::{build_report, filter_groups, summarize};

fn rec(name: &str, size: u64, path: &str) -> FileRecord {
    FileRecord { name: name.to_string(), size, path: path.to_string() }
}

fn scenario_records() -> Vec<FileRecord> {
    vec![
        rec("a.txt", 100, "/x/a.txt"),
        rec("a.txt", 200, "/y/a.txt"),
        rec("b.txt", 50, "/x/b.txt"),
    ]
}

#[test]
fn scenario_two_names() {
    let records = scenario_records();
    let groups = group(&records);
    assert_eq!(groups.len(), 2);
    assert_eq!(groups[0].name, "a.txt");
    assert_eq!(groups[0].total_size, 300);
    assert_eq!(groups[0].members.len(), 2);
    assert_eq!(groups[0].members[0].size, 200);
    assert_eq!(groups[0].members[0].path, "/y/a.txt");
    assert_eq!(groups[0].members[1].size, 100);
    assert_eq!(groups[0].members[1].path, "/x/a.txt");
    assert_eq!(groups[1].name, "b.txt");
    assert_eq!(groups[1].total_size, 50);
    assert_eq!(groups[1].members.len(), 1);
    let summary = summarize(&records, &groups);
    assert_eq!(
        summary,
        Summary { total_records: 3, total_size: 350, duplicated_size: 300 }
    );
}

#[test]
fn empty_records() {
    let records: Vec<FileRecord> = Vec::new();
    let groups = group(&records);
    assert_eq!(groups.len(), 0);
    let summary = summarize(&records, &groups);
    assert_eq!(
        summary,
        Summary { total_records: 0, total_size: 0, duplicated_size: 0 }
    );
}

#[test]
fn unique_names_ranked_by_size() {
    let records = vec![
        rec("small.txt", 10, "/d/small.txt"),
        rec("mid.txt", 20, "/d/mid.txt"),
        rec("big.txt", 30, "/d/big.txt"),
    ];
    let groups = group(&records);
    assert_eq!(groups.len(), 3);
    assert_eq!(groups[0].name, "big.txt");
    assert_eq!(groups[0].total_size, 30);
    assert_eq!(groups[1].name, "mid.txt");
    assert_eq!(groups[1].total_size, 20);
    assert_eq!(groups[2].name, "small.txt");
    assert_eq!(groups[2].total_size, 10);
    for g in &groups {
        assert_eq!(g.members.len(), 1);
    }
    let summary = summarize(&records, &groups);
    assert_eq!(summary.duplicated_size, 0);
    assert_eq!(summary.total_size, 60);
}

#[test]
fn filter_hides_singletons_by_default() {
    let groups = group(&scenario_records());
    let kept = filter_groups(groups, false, 0);
    assert_eq!(kept.len(), 1);
    assert_eq!(kept[0].name, "a.txt");
    assert_eq!(kept[0].members.len(), 2);
}

#[test]
fn filter_verbose_still_applies_threshold() {
    let groups = group(&scenario_records());
    let kept = filter_groups(groups, true, 100);
    assert_eq!(kept.len(), 1);
    assert_eq!(kept[0].name, "a.txt");
    assert_eq!(kept[0].total_size, 300);
}

#[test]
fn filter_verbose_shows_singletons() {
    let groups = group(&scenario_records());
    let kept = filter_groups(groups, true, 0);
    assert_eq!(kept.len(), 2);
    assert_eq!(kept[0].name, "a.txt");
    assert_eq!(kept[1].name, "b.txt");
}

#[test]
fn filter_threshold_hides_small_duplicates() {
    let groups = group(&scenario_records());
    let kept = filter_groups(groups, false, 301);
    assert_eq!(kept.len(), 0);
}

#[test]
fn member_ties_keep_discovery_order() {
    let records = vec![
        rec("dup.bin", 40, "/first/dup.bin"),
        rec("dup.bin", 40, "/second/dup.bin"),
        rec("dup.bin", 90, "/third/dup.bin"),
    ];
    let groups = group(&records);
    assert_eq!(groups.len(), 1);
    assert_eq!(groups[0].total_size, 170);
    assert_eq!(groups[0].members[0].path, "/third/dup.bin");
    assert_eq!(groups[0].members[1].path, "/first/dup.bin");
    assert_eq!(groups[0].members[2].path, "/second/dup.bin");
}

#[test]
fn group_ties_keep_first_seen_order() {
    let records = vec![
        rec("one.log", 70, "/a/one.log"),
        rec("two.log", 70, "/a/two.log"),
    ];
    let groups = group(&records);
    assert_eq!(groups.len(), 2);
    assert_eq!(groups[0].name, "one.log");
    assert_eq!(groups[1].name, "two.log");
}

#[test]
fn grouping_is_input_order_independent() {
    let forward = scenario_records();
    let mut backward = scenario_records();
    backward.reverse();
    let g1 = group(&forward);
    let g2 = group(&backward);
    assert_eq!(g1.len(), g2.len());
    for (a, b) in g1.iter().zip(g2.iter()) {
        assert_eq!(a.name, b.name);
        assert_eq!(a.total_size, b.total_size);
        assert_eq!(a.members.len(), b.members.len());
    }
}

#[test]
fn total_size_is_independent_of_grouping() {
    let records = scenario_records();
    let unrelated = group(&vec![rec("other.txt", 7, "/o/other.txt")]);
    let summary = summarize(&records, &unrelated);
    assert_eq!(summary.total_records, 3);
    assert_eq!(summary.total_size, 350);
    assert_eq!(summary.duplicated_size, 0);
}

#[test]
fn duplicated_size_counts_only_groups_of_two_or_more() {
    let records = vec![
        rec("x.dat", 1, "/p/x.dat"),
        rec("y.dat", 2, "/p/y.dat"),
        rec("y.dat", 3, "/q/y.dat"),
        rec("z.dat", 4, "/p/z.dat"),
        rec("z.dat", 5, "/q/z.dat"),
        rec("z.dat", 6, "/r/z.dat"),
    ];
    let groups = group(&records);
    let summary = summarize(&records, &groups);
    assert_eq!(summary.total_size, 21);
    assert_eq!(summary.duplicated_size, 20);
}

#[test]
fn pipeline_matches_manual_steps() {
    let records = scenario_records();
    let (summary, kept) = build_report(&records, false, 0);
    assert_eq!(
        summary,
        Summary { total_records: 3, total_size: 350, duplicated_size: 300 }
    );
    assert_eq!(kept.len(), 1);
    assert_eq!(kept[0].name, "a.txt");
    assert_eq!(kept[0].total_size, 300);
    assert_eq!(kept[0].members.len(), 2);
}

#[test]
fn pipeline_on_empty_records() {
    let records: Vec<FileRecord> = Vec::new();
    let (summary, kept) = build_report(&records, true, 0);
    assert_eq!(
        summary,
        Summary { total_records: 0, total_size: 0, duplicated_size: 0 }
    );
    assert_eq!(kept.len(), 0);
}

#[test]
fn single_record_is_one_group() {
    let records = vec![rec("only.txt", 12, "/only.txt")];
    let groups = group(&records);
    assert_eq!(groups.len(), 1);
    assert_eq!(groups[0].name, "only.txt");
    assert_eq!(groups[0].total_size, 12);
    assert_eq!(groups[0].members.len(), 1);
    let summary = summarize(&records, &groups);
    assert_eq!(summary.total_size, 12);
    assert_eq!(summary.duplicated_size, 0);
}
