use nextclade_to_maple::{
    aggregate, checked_total_bases, get_column, get_column_usize, has_too_few_real,
    maybe_lookup_name, md_total_bases, nextclade_to_maple, nextclade_to_maple_one_row,
    print_diffs, print_sample, sort_by_start, Column, Config, MapleDiff, MaskIndex,
    NotationError, RowError, RowFailure, TextMap,
};

fn diff(t_start: usize, length: usize, q_base: char) -> MapleDiff {
    MapleDiff { t_start, length, q_base }
}

fn text_map(items: &[(&str, &str)]) -> TextMap {
    let mut map = TextMap::new();
    for (k, v) in items {
        map.insert(k.to_string(), v.to_string());
    }
    map
}

fn row(name: &str, start: &str, end: &str, subs: &str, dels: &str, missing: &str, non: &str) -> TextMap {
    text_map(&[
        ("seqName", name),
        ("alignmentStart", start),
        ("alignmentEnd", end),
        ("substitutions", subs),
        ("deletions", dels),
        ("missing", missing),
        ("nonACGTNs", non),
        ("clade", "20A"),
    ])
}

fn mask(items: &[(usize, usize)]) -> Option<MaskIndex> {
    let recs: Vec<(String, usize, usize)> =
        items.iter().map(|(s, e)| ("chr".to_string(), *s, *e)).collect();
    Some(MaskIndex::build(&recs).unwrap())
}

fn one_row(
    row: &TextMap,
    rename: &Option<TextMap>,
    mask: &Option<MaskIndex>,
    min_real: usize,
    max_substitutions: usize,
    ref_len: usize,
) -> (Result<(), RowError>, String) {
    let mut out = String::new();
    let r = nextclade_to_maple_one_row(row, rename, mask, min_real, max_substitutions, ref_len, &mut out);
    (r, out)
}

#[test]
fn config_default_sets_nothing() {
    let config = Config::default();
    assert_eq!(config.nextclade_file, "");
    assert_eq!(config.maple_file, "");
    assert_eq!(config.mask_bed_file, "");
    assert_eq!(config.rename_or_prune_file, "");
    assert_eq!(config.max_substitutions, 0);
    assert_eq!(config.min_real, 0);
    assert_eq!(config.ref_len, 0);
    assert!(!config.version);
    let config = Config { ref_len: 29903, ..Default::default() };
    assert_eq!(config.ref_len, 29903);
}

#[test]
fn text_map_get_and_insert() {
    let mut map = TextMap::new();
    assert_eq!(map.get("a"), None);
    map.insert("a".to_string(), "1".to_string());
    map.insert("b".to_string(), "2".to_string());
    assert_eq!(map.get("a"), Some("1"));
    assert_eq!(map.get("b"), Some("2"));
    assert_eq!(map.get("c"), None);
    map.insert("a".to_string(), "3".to_string());
    assert_eq!(map.get("a"), Some("3"));
}

#[test]
fn text_map_from_pairs_keeps_the_last_value() {
    let pairs = vec![
        ("old1".to_string(), "new1".to_string()),
        ("old2".to_string(), "new2".to_string()),
        ("old1".to_string(), "newer1".to_string()),
    ];
    let map = TextMap::from_pairs(&pairs);
    assert_eq!(map.get("old1"), Some("newer1"));
    assert_eq!(map.get("old2"), Some("new2"));
    assert_eq!(map.get("new1"), None);
    assert_eq!(TextMap::from_pairs(&vec![]).get("old1"), None);
}

#[test]
fn lookup_without_a_table_keeps_the_name() {
    assert_eq!(maybe_lookup_name(&None, "sample1"), Some("sample1"));
    assert_eq!(maybe_lookup_name(&None, ""), Some(""));
}

#[test]
fn lookup_with_a_table_renames_or_drops() {
    let table = Some(text_map(&[("sample1", "renamed1"), ("sample2", "sample2")]));
    assert_eq!(maybe_lookup_name(&table, "sample1"), Some("renamed1"));
    assert_eq!(maybe_lookup_name(&table, "sample2"), Some("sample2"));
    assert_eq!(maybe_lookup_name(&table, "sample3"), None);
    assert_eq!(maybe_lookup_name(&table, "renamed1"), None);
    assert_eq!(maybe_lookup_name(&Some(TextMap::new()), "sample1"), None);
}

#[test]
fn column_names() {
    assert_eq!(Column::SeqName.as_str(), "seqName");
    assert_eq!(Column::AlignmentStart.as_str(), "alignmentStart");
    assert_eq!(Column::AlignmentEnd.as_str(), "alignmentEnd");
    assert_eq!(Column::Substitutions.as_str(), "substitutions");
    assert_eq!(Column::Deletions.as_str(), "deletions");
    assert_eq!(Column::Missing.as_str(), "missing");
    assert_eq!(Column::NonAcgtns.as_str(), "nonACGTNs");
}

#[test]
fn get_column_finds_or_reports() {
    let r = row("s", "1", "29903", "C241T", "", "", "");
    assert_eq!(get_column(&r, Column::SeqName), Ok("s"));
    assert_eq!(get_column(&r, Column::Substitutions), Ok("C241T"));
    assert_eq!(get_column(&r, Column::Deletions), Ok(""));
    let r = text_map(&[("seqName", "s")]);
    assert_eq!(get_column(&r, Column::Missing), Err(RowError::MissingColumn(Column::Missing)));
}

#[test]
fn get_column_usize_reads_or_reports() {
    let r = row("s", "55", "x", "", "", "", "");
    assert_eq!(get_column_usize(&r, Column::AlignmentStart), Ok(55));
    assert_eq!(
        get_column_usize(&r, Column::AlignmentEnd),
        Err(RowError::InvalidNumber(Column::AlignmentEnd))
    );
    assert_eq!(
        get_column_usize(&r, Column::Deletions),
        Err(RowError::InvalidNumber(Column::Deletions))
    );
    let r = text_map(&[("seqName", "s")]);
    assert_eq!(
        get_column_usize(&r, Column::AlignmentEnd),
        Err(RowError::MissingColumn(Column::AlignmentEnd))
    );
}

#[test]
fn total_bases_adds_the_lengths() {
    assert_eq!(md_total_bases(&[]), 0);
    assert_eq!(md_total_bases(&[diff(7, 209, 'n'), diff(7200, 1, 'n'), diff(26974, 66, 'n')]), 276);
    assert_eq!(checked_total_bases(&[diff(7, 209, 'n'), diff(7200, 1, 'n')]), Some(210));
    assert_eq!(checked_total_bases(&[diff(0, usize::MAX, 'n')]), Some(usize::MAX));
    assert_eq!(checked_total_bases(&[diff(0, usize::MAX, 'n'), diff(0, 1, 'n')]), None);
}

#[test]
fn too_few_real_bases() {
    let missing = [diff(0, 100, 'n'), diff(200, 50, 'n')];
    // 1000 aligned positions, 150 of them unknown: 850 known.
    assert!(!has_too_few_real(1, 1000, &missing, 850));
    assert!(has_too_few_real(1, 1000, &missing, 851));
    assert!(!has_too_few_real(1, 1000, &missing, 1));
    assert!(!has_too_few_real(1, 1000, &missing, 0));
    assert!(!has_too_few_real(101, 1100, &missing, 850));
    assert!(has_too_few_real(102, 1100, &missing, 850));
    // No minimum set: nothing is left out.
    assert!(!has_too_few_real(1, 10, &missing, 0));
    // More unknown than aligned: fewer known bases than any minimum.
    assert!(has_too_few_real(1, 10, &missing, 1));
    assert!(has_too_few_real(10, 1, &[], 1));
    assert!(has_too_few_real(1, 10, &[diff(0, usize::MAX, 'n'), diff(0, 5, 'n')], 1));
    assert!(!has_too_few_real(0, usize::MAX, &[], usize::MAX));
}

#[test]
fn sort_is_by_start_and_stable() {
    let diffs = vec![
        diff(5, 1, 'a'),
        diff(3, 1, 'c'),
        diff(5, 2, '-'),
        diff(1, 1, 'g'),
        diff(3, 4, 'n'),
        diff(5, 3, 'y'),
    ];
    assert_eq!(
        sort_by_start(&diffs),
        vec![
            diff(1, 1, 'g'),
            diff(3, 1, 'c'),
            diff(3, 4, 'n'),
            diff(5, 1, 'a'),
            diff(5, 2, '-'),
            diff(5, 3, 'y'),
        ]
    );
    assert_eq!(sort_by_start(&vec![]), vec![]);
}

#[test]
fn sort_agrees_with_the_standard_stable_sort() {
    let mut diffs: Vec<MapleDiff> = Vec::new();
    let mut seed: usize = 12345;
    for i in 0..200 {
        seed = seed.wrapping_mul(6364136223846793005).wrapping_add(1442695040888963407);
        diffs.push(diff((seed >> 33) % 20, i + 1, 'n'));
    }
    let mut expected = diffs.clone();
    expected.sort_by_key(|d| d.t_start);
    assert_eq!(sort_by_start(&diffs), expected);
}

#[test]
fn aggregate_joins_the_four_lists_in_order() {
    let subs = vec![diff(240, 1, 't'), diff(3000, 1, 'a')];
    let dels = vec![diff(100, 3, '-'), diff(240, 2, '-')];
    let missing = vec![diff(0, 50, 'n'), diff(240, 9, 'n')];
    let non = vec![diff(240, 1, 'y'), diff(99, 1, 'r')];
    assert_eq!(
        aggregate(&subs, &dels, &missing, &non),
        vec![
            diff(0, 50, 'n'),
            diff(99, 1, 'r'),
            diff(100, 3, '-'),
            diff(240, 1, 't'),
            diff(240, 2, '-'),
            diff(240, 9, 'n'),
            diff(240, 1, 'y'),
            diff(3000, 1, 'a'),
        ]
    );
}

#[test]
fn print_diffs_writes_each_diff() {
    let mut out = String::new();
    print_diffs(&mut out, &vec![diff(0, 50, 'n'), diff(240, 1, 't')], &mask(&[(10, 20)]));
    assert_eq!(out, "n\t1\t10\nn\t21\t30\nt\t241\n");
}

#[test]
fn print_sample_writes_header_and_runs() {
    let mut out = String::new();
    print_sample(&mut out, "s1", 56, 29800, 29903, &vec![diff(240, 1, 't')], &None);
    assert_eq!(out, ">s1\nn\t1\t55\nt\t241\nn\t29801\t103\n");
}

#[test]
fn row_fully_aligned_without_diffs_is_header_only() {
    let r = row("sample1", "1", "29903", "", "", "", "");
    let (res, out) = one_row(&r, &None, &None, 0, 0, 29903);
    assert_eq!(res, Ok(()));
    assert_eq!(out, ">sample1\n");
}

#[test]
fn row_with_all_kinds_of_diffs() {
    let r = row(
        "hCoV-19/x",
        "55",
        "29836",
        "C241T,C3037T,A23403G",
        "21765-21770,28271",
        "8000-8100,55-60",
        "Y:4321,R:20055-20056",
    );
    let (res, out) = one_row(&r, &None, &None, 0, 0, 29903);
    assert_eq!(res, Ok(()));
    assert_eq!(
        out,
        ">hCoV-19/x\n\
         n\t1\t54\n\
         n\t55\t6\n\
         t\t241\n\
         t\t3037\n\
         y\t4321\n\
         n\t8000\t101\n\
         r\t20055\n\
         -\t21765\t6\n\
         g\t23403\n\
         -\t28271\t1\n\
         n\t29837\t67\n"
    );
}

#[test]
fn row_without_reference_length_has_no_trailing_run() {
    let r = row("s", "10", "29000", "C241T", "", "", "");
    let (res, out) = one_row(&r, &None, &None, 0, 0, 0);
    assert_eq!(res, Ok(()));
    assert_eq!(out, ">s\nn\t1\t9\nt\t241\n");
}

#[test]
fn row_aligned_past_the_reference_length_has_no_trailing_run() {
    let r = row("s", "1", "30000", "", "", "", "");
    let (res, out) = one_row(&r, &None, &None, 0, 0, 29903);
    assert_eq!(res, Ok(()));
    assert_eq!(out, ">s\n");
}

#[test]
fn row_that_was_not_aligned_is_left_out() {
    let r = row("s", "", "", "", "", "", "");
    assert_eq!(one_row(&r, &None, &None, 0, 0, 29903), (Ok(()), String::new()));
    // Not even the other columns are looked at.
    let r = text_map(&[("alignmentStart", "")]);
    assert_eq!(one_row(&r, &None, &None, 0, 0, 29903), (Ok(()), String::new()));
    let r = row("s", "", "x", "bad", "bad", "bad", "bad");
    assert_eq!(one_row(&r, &None, &None, 0, 0, 29903), (Ok(()), String::new()));
}

#[test]
fn row_over_the_substitution_limit_is_left_out() {
    let subs: Vec<String> = (0..51).map(|i| format!("C{}T", 100 + i)).collect();
    let r = row("s", "1", "29903", &subs.join(","), "", "", "");
    assert_eq!(one_row(&r, &None, &None, 0, 50, 29903), (Ok(()), String::new()));
    let (res, out) = one_row(&r, &None, &None, 0, 51, 29903);
    assert_eq!(res, Ok(()));
    assert_eq!(out.lines().count(), 52);
    let (res, out) = one_row(&r, &None, &None, 0, 0, 29903);
    assert_eq!(res, Ok(()));
    assert_eq!(out.lines().count(), 52);
    let subs: Vec<String> = (0..50).map(|i| format!("C{}T", 100 + i)).collect();
    let r = row("s", "1", "29903", &subs.join(","), "", "", "");
    let (res, out) = one_row(&r, &None, &None, 0, 50, 29903);
    assert_eq!(res, Ok(()));
    assert_eq!(out.lines().count(), 51);
}

#[test]
fn row_missing_from_the_rename_table_is_left_out() {
    let table = Some(text_map(&[("other", "renamed")]));
    let r = row("sample1", "1", "29903", "C241T", "", "", "");
    assert_eq!(one_row(&r, &table, &None, 0, 0, 29903), (Ok(()), String::new()));
    // A sample that is left out is not read any further.
    let r = row("sample1", "x", "y", "bad", "bad", "bad", "bad");
    assert_eq!(one_row(&r, &table, &None, 0, 0, 29903), (Ok(()), String::new()));
}

#[test]
fn row_is_renamed() {
    let table = Some(text_map(&[("sample1", "renamed1")]));
    let r = row("sample1", "1", "29903", "C241T", "", "", "");
    let (res, out) = one_row(&r, &table, &None, 0, 0, 29903);
    assert_eq!(res, Ok(()));
    assert_eq!(out, ">renamed1\nt\t241\n");
}

#[test]
fn row_below_the_minimum_of_known_bases_is_left_out() {
    let r = row("s", "101", "29900", "C241T", "", "1000-1099", "Y:5");
    // 29800 aligned positions, 100 unknown: 29700 known.
    assert_eq!(one_row(&r, &None, &None, 29701, 0, 29903), (Ok(()), String::new()));
    let (res, out) = one_row(&r, &None, &None, 29700, 0, 29903);
    assert_eq!(res, Ok(()));
    assert_eq!(out, ">s\nn\t1\t100\ny\t5\nt\t241\nn\t1000\t100\nn\t29901\t3\n");
}

#[test]
fn row_is_read_whole_before_the_minimum_is_applied() {
    let expected =
        (Err(RowError::Notation(Column::NonAcgtns, NotationError::MissingSeparator)), String::new());
    let r = row("s", "101", "29900", "C241T", "", "1000-1099", "bad");
    assert_eq!(one_row(&r, &None, &None, 29701, 0, 29903), expected);
    assert_eq!(one_row(&r, &None, &None, 29700, 0, 29903), expected);
    let r = row("s1", "1", "100", "", "", "1-50", "Y4321");
    assert_eq!(one_row(&r, &None, &None, 60, 0, 0), expected);
    // With the token mended the row is read, and left out for want of known bases.
    let r = row("s1", "1", "100", "", "", "1-50", "Y:4321");
    assert_eq!(one_row(&r, &None, &None, 60, 0, 0), (Ok(()), String::new()));
    assert_eq!(one_row(&r, &None, &None, 50, 0, 0).0, Ok(()));
}

#[test]
fn row_over_the_substitution_limit_is_not_read_further() {
    let r = row("s", "1", "29903", "C1T,C2T,C3T", "bad", "bad", "bad");
    assert_eq!(one_row(&r, &None, &None, 0, 2, 29903), (Ok(()), String::new()));
    assert_eq!(
        one_row(&r, &None, &None, 0, 3, 29903).0,
        Err(RowError::Notation(Column::Deletions, NotationError::InvalidPosition))
    );
}

#[test]
fn row_with_masked_regions() {
    let m = mask(&[(0, 55), (240, 241), (21766, 21768), (29850, 29903)]);
    let r = row("s", "60", "29836", "C241T,C3037T", "21765-21770", "", "");
    let (res, out) = one_row(&r, &None, &m, 0, 0, 29903);
    assert_eq!(res, Ok(()));
    assert_eq!(out, ">s\nn\t56\t4\nt\t3037\n-\t21765\t2\n-\t21769\t2\nn\t29837\t14\n");
}

#[test]
fn row_errors_name_the_column() {
    let r = text_map(&[("seqName", "s")]);
    assert_eq!(
        one_row(&r, &None, &None, 0, 0, 0),
        (Err(RowError::MissingColumn(Column::AlignmentStart)), String::new())
    );
    let r = text_map(&[("alignmentStart", "1")]);
    assert_eq!(
        one_row(&r, &None, &None, 0, 0, 0).0,
        Err(RowError::MissingColumn(Column::SeqName))
    );
    let r = text_map(&[("alignmentStart", "1"), ("seqName", "s")]);
    assert_eq!(
        one_row(&r, &None, &None, 0, 0, 0).0,
        Err(RowError::MissingColumn(Column::AlignmentEnd))
    );
    let r = row("s", "one", "29903", "", "", "", "");
    assert_eq!(
        one_row(&r, &None, &None, 0, 0, 0).0,
        Err(RowError::InvalidNumber(Column::AlignmentStart))
    );
    let r = row("s", "1", "", "", "", "", "");
    assert_eq!(
        one_row(&r, &None, &None, 0, 0, 0).0,
        Err(RowError::InvalidNumber(Column::AlignmentEnd))
    );
    let r = row("s", "1", "29903", "C241", "5-4", "x", "Y");
    assert_eq!(
        one_row(&r, &None, &None, 0, 0, 0),
        (Err(RowError::Notation(Column::Substitutions, NotationError::InvalidBase)), String::new())
    );
    let r = row("s", "1", "29903", "C241T", "5-4", "x", "Y");
    assert_eq!(
        one_row(&r, &None, &None, 0, 0, 0).0,
        Err(RowError::Notation(Column::Deletions, NotationError::ReversedRange))
    );
    let r = row("s", "1", "29903", "C241T", "4-5", "x", "Y");
    assert_eq!(
        one_row(&r, &None, &None, 0, 0, 0).0,
        Err(RowError::Notation(Column::Missing, NotationError::InvalidPosition))
    );
    let r = row("s", "1", "29903", "C241T", "4-5", "0", ":4");
    assert_eq!(
        one_row(&r, &None, &None, 0, 0, 0).0,
        Err(RowError::Notation(Column::Missing, NotationError::ZeroPosition))
    );
    let r = row("s", "1", "29903", "C241T", "4-5", "7", ":4");
    assert_eq!(
        one_row(&r, &None, &None, 0, 0, 0),
        (Err(RowError::Notation(Column::NonAcgtns, NotationError::MissingBase)), String::new())
    );
}

#[test]
fn row_output_is_appended() {
    let mut out = String::from(">first\n");
    let r = row("second", "1", "29903", "C241T", "", "", "");
    let res = nextclade_to_maple_one_row(&r, &None, &None, 0, 0, 29903, &mut out);
    assert_eq!(res, Ok(()));
    assert_eq!(out, ">first\n>second\nt\t241\n");
}

#[test]
fn rows_are_written_in_turn() {
    let rows = vec![
        row("a", "1", "29903", "C241T", "", "", ""),
        row("b", "", "", "", "", "", ""),
        row("c", "3", "29900", "", "10-12", "", ""),
        row("d", "1", "29903", "C1T,C2T,C3T", "", "", ""),
    ];
    let config = Config { ref_len: 29903, max_substitutions: 2, ..Default::default() };
    let mut out = String::new();
    let res = nextclade_to_maple(&config, &rows, &None, &None, &mut out);
    assert_eq!(res, Ok(()));
    assert_eq!(out, ">a\nt\t241\n>c\nn\t1\t2\n-\t10\t3\nn\t29901\t3\n");
}

#[test]
fn rows_with_mask_and_rename() {
    let rows = vec![
        row("a", "1", "29903", "C241T,C3037T", "", "", ""),
        row("b", "1", "29903", "C241T", "", "", ""),
        row("c", "3", "29900", "", "10-12", "", ""),
    ];
    let table = Some(text_map(&[("a", "A"), ("c", "C")]));
    let m = mask(&[(0, 1), (240, 241), (29900, 29903)]);
    let config = Config { ref_len: 29903, ..Default::default() };
    let mut out = String::new();
    let res = nextclade_to_maple(&config, &rows, &table, &m, &mut out);
    assert_eq!(res, Ok(()));
    assert_eq!(out, ">A\nt\t3037\n>C\nn\t2\t1\n-\t10\t3\n");
}

#[test]
fn rows_stop_at_the_first_that_cannot_be_read() {
    let rows = vec![
        row("a", "1", "29903", "C241T", "", "", ""),
        row("b", "1", "29903", "", "oops", "", ""),
        row("c", "1", "29903", "", "", "", ""),
    ];
    let mut out = String::new();
    let res = nextclade_to_maple(&Config::default(), &rows, &None, &None, &mut out);
    assert_eq!(
        res,
        Err(RowFailure {
            row: 1,
            error: RowError::Notation(Column::Deletions, NotationError::InvalidPosition),
        })
    );
    assert_eq!(out, ">a\nt\t241\n");
}

#[test]
fn rows_name_the_first_row_that_cannot_be_read() {
    let rows = vec![
        row("a", "", "", "", "", "", ""),
        row("b", "1", "29903", "", "", "", ""),
        row("c", "1", "x", "", "", "", ""),
        row("d", "y", "29903", "", "", "", ""),
    ];
    let mut out = String::new();
    let res = nextclade_to_maple(&Config::default(), &rows, &None, &None, &mut out);
    assert_eq!(
        res,
        Err(RowFailure { row: 2, error: RowError::InvalidNumber(Column::AlignmentEnd) })
    );
    assert_eq!(out, ">b\n");
    let rows = vec![text_map(&[("seqName", "s")])];
    let mut out = String::new();
    let res = nextclade_to_maple(&Config::default(), &rows, &None, &None, &mut out);
    assert_eq!(
        res,
        Err(RowFailure { row: 0, error: RowError::MissingColumn(Column::AlignmentStart) })
    );
    assert_eq!(out, "");
}

#[test]
fn no_rows_write_nothing() {
    let mut out = String::from("kept");
    let res = nextclade_to_maple(&Config::default(), &vec![], &None, &None, &mut out);
    assert_eq!(res, Ok(()));
    assert_eq!(out, "kept");
}
