use nextclade_to_maple::{
    print_one_masked, print_parts, split_diff, ConfigurationError, MaskIndex,
};

fn records(items: &[(&str, usize, usize)]) -> Vec<(String, usize, usize)> {
    items.iter().map(|(c, s, e)| (c.to_string(), *s, *e)).collect()
}

fn index(items: &[(usize, usize)]) -> Option<MaskIndex> {
    let recs: Vec<(String, usize, usize)> =
        items.iter().map(|(s, e)| ("chr".to_string(), *s, *e)).collect();
    Some(MaskIndex::build(&recs).unwrap())
}

fn masked(t_start: usize, q_base: char, length: usize, mask: &Option<MaskIndex>) -> String {
    let mut out = String::new();
    print_one_masked(&mut out, t_start, q_base, length, mask);
    out
}

/// The positions of `[t_start, t_start + length)` that lie in none of `masks`,
/// gathered into maximal runs.
fn expected_runs(t_start: usize, length: usize, masks: &[(usize, usize)]) -> Vec<(usize, usize)> {
    let mut runs: Vec<(usize, usize)> = Vec::new();
    let mut open: Option<usize> = None;
    for x in t_start..t_start + length {
        let hidden = masks.iter().any(|(s, e)| *s <= x && x < *e);
        match (hidden, open) {
            (false, None) => open = Some(x),
            (true, Some(s)) => {
                runs.push((s, x - s));
                open = None;
            }
            _ => {}
        }
    }
    if let Some(s) = open {
        runs.push((s, t_start + length - s));
    }
    runs
}

#[test]
fn build_accepts_one_chromosome() {
    let index = MaskIndex::build(&records(&[("chr1", 10, 20), ("chr1", 30, 40)])).unwrap();
    assert_eq!(index.overlaps(0, 100), vec![(10, 20), (30, 40)]);
}

#[test]
fn build_of_nothing_masks_nothing() {
    let index = MaskIndex::build(&Vec::new()).unwrap();
    assert_eq!(index.overlaps(0, 1000), vec![]);
    assert_eq!(MaskIndex::new().overlaps(0, 1000), vec![]);
}

#[test]
fn build_refuses_a_second_chromosome() {
    let r = MaskIndex::build(&records(&[("chr1", 10, 20), ("chr1", 30, 40), ("chr2", 50, 60)]));
    assert_eq!(r.err(), Some(ConfigurationError::MultipleChromosomes { record: 2 }));
    let r = MaskIndex::build(&records(&[("a", 1, 2), ("b", 1, 2), ("c", 1, 2), ("a", 1, 2)]));
    assert_eq!(r.err(), Some(ConfigurationError::MultipleChromosomes { record: 1 }));
}

#[test]
fn overlaps_come_in_ascending_order() {
    let index =
        MaskIndex::build(&records(&[("c", 30, 40), ("c", 5, 8), ("c", 10, 20), ("c", 10, 15)]))
            .unwrap();
    assert_eq!(index.overlaps(0, 100), vec![(5, 8), (10, 15), (10, 20), (30, 40)]);
}

#[test]
fn overlaps_hold_each_interval_once() {
    let index =
        MaskIndex::build(&records(&[("c", 10, 20), ("c", 10, 20), ("c", 10, 20)])).unwrap();
    assert_eq!(index.overlaps(0, 100), vec![(10, 20)]);
}

#[test]
fn overlaps_are_half_open() {
    let index = MaskIndex::build(&records(&[("c", 10, 20), ("c", 30, 40)])).unwrap();
    assert_eq!(index.overlaps(20, 10), vec![]);
    assert_eq!(index.overlaps(19, 1), vec![(10, 20)]);
    assert_eq!(index.overlaps(19, 12), vec![(10, 20), (30, 40)]);
    assert_eq!(index.overlaps(0, 10), vec![]);
    assert_eq!(index.overlaps(0, 11), vec![(10, 20)]);
    assert_eq!(index.overlaps(40, 5), vec![]);
    assert_eq!(index.overlaps(39, 5), vec![(30, 40)]);
}

#[test]
fn overlaps_are_not_clipped_to_the_query() {
    let index = MaskIndex::build(&records(&[("c", 10, 2000)])).unwrap();
    assert_eq!(index.overlaps(100, 5), vec![(10, 2000)]);
}

#[test]
fn overlaps_in_a_deep_tree() {
    let recs: Vec<(String, usize, usize)> =
        (0..500).map(|i| ("c".to_string(), 10 * i, 10 * i + 5)).collect();
    let index = MaskIndex::build(&recs).unwrap();
    assert_eq!(index.overlaps(1003, 20), vec![(1000, 1005), (1010, 1015), (1020, 1025)]);
}

#[test]
fn split_without_masks_keeps_the_diff() {
    assert_eq!(split_diff(5, 10, &vec![]), vec![(5, 10)]);
    assert_eq!(split_diff(0, 1, &vec![]), vec![(0, 1)]);
}

#[test]
fn split_covered_diff_leaves_nothing() {
    assert_eq!(split_diff(5, 10, &vec![(0, 100)]), vec![]);
    assert_eq!(split_diff(5, 10, &vec![(5, 15)]), vec![]);
    assert_eq!(split_diff(5, 10, &vec![(5, 16)]), vec![]);
    assert_eq!(split_diff(5, 10, &vec![(4, 15)]), vec![]);
}

#[test]
fn split_mask_moved_by_one() {
    assert_eq!(split_diff(5, 10, &vec![(6, 16)]), vec![(5, 1)]);
    assert_eq!(split_diff(5, 10, &vec![(4, 14)]), vec![(14, 1)]);
}

#[test]
fn split_mask_at_either_end() {
    assert_eq!(split_diff(5, 10, &vec![(5, 8)]), vec![(8, 7)]);
    assert_eq!(split_diff(5, 10, &vec![(12, 15)]), vec![(5, 7)]);
    assert_eq!(split_diff(5, 10, &vec![(0, 8)]), vec![(8, 7)]);
    assert_eq!(split_diff(5, 10, &vec![(12, 99)]), vec![(5, 7)]);
}

#[test]
fn split_at_several_masks() {
    assert_eq!(split_diff(0, 8, &vec![(2, 4), (6, 9)]), vec![(0, 2), (4, 2)]);
    assert_eq!(
        split_diff(10, 30, &vec![(12, 14), (20, 25), (38, 39)]),
        vec![(10, 2), (14, 6), (25, 13), (39, 1)]
    );
    assert_eq!(split_diff(10, 30, &vec![(5, 12), (12, 20), (30, 50)]), vec![(20, 10)]);
}

#[test]
fn split_at_masks_that_share_positions() {
    assert_eq!(split_diff(0, 20, &vec![(0, 10), (5, 15)]), vec![(15, 5)]);
    assert_eq!(split_diff(0, 20, &vec![(0, 10), (2, 5)]), vec![(10, 10)]);
    assert_eq!(split_diff(0, 20, &vec![(2, 10), (2, 12), (3, 4), (15, 16)]),
        vec![(0, 2), (12, 3), (16, 4)]);
}

#[test]
fn split_at_an_empty_mask_cuts_the_run() {
    assert_eq!(split_diff(3, 5, &vec![(5, 5)]), vec![(3, 2), (5, 3)]);
}

#[test]
fn split_gives_the_unmasked_runs() {
    let mask_sets: Vec<Vec<(usize, usize)>> = vec![
        vec![(3, 5)],
        vec![(0, 2), (4, 6), (8, 30)],
        vec![(1, 2), (2, 3), (3, 4)],
        vec![(0, 7), (3, 9), (9, 11)],
        vec![(2, 20), (3, 4), (5, 6), (19, 25)],
        vec![(6, 7), (6, 8), (6, 9), (12, 13)],
    ];
    for masks in &mask_sets {
        for t_start in 0..12 {
            for length in 1..12 {
                let end = t_start + length;
                let overlaps: Vec<(usize, usize)> = masks
                    .iter()
                    .filter(|(s, e)| *s < end && t_start < *e)
                    .cloned()
                    .collect();
                assert_eq!(
                    split_diff(t_start, length, &overlaps),
                    expected_runs(t_start, length, masks),
                    "diff {t_start}+{length} under {masks:?}"
                );
            }
        }
    }
}

#[test]
fn masked_diff_agrees_with_the_index() {
    let masks = vec![(2, 20), (3, 4), (25, 26), (19, 25), (40, 50)];
    let mask = index(&masks);
    for t_start in 0..45 {
        for length in 1..12 {
            let mut expected = String::new();
            print_parts(&mut expected, 'n', &expected_runs(t_start, length, &masks));
            assert_eq!(masked(t_start, 'n', length, &mask), expected);
        }
    }
}

#[test]
fn print_parts_writes_one_line_each() {
    let mut out = String::new();
    print_parts(&mut out, '-', &vec![(0, 2), (4, 2)]);
    assert_eq!(out, "-\t1\t2\n-\t5\t2\n");
    let mut out = String::from("x");
    print_parts(&mut out, 'g', &vec![]);
    assert_eq!(out, "x");
}

#[test]
fn unmasked_diff_is_one_line() {
    assert_eq!(masked(240, 't', 1, &None), "t\t241\n");
    assert_eq!(masked(122, '-', 3, &None), "-\t123\t3\n");
    assert_eq!(masked(240, 't', 1, &index(&[])), "t\t241\n");
    assert_eq!(masked(240, 't', 1, &index(&[(0, 240), (241, 300)])), "t\t241\n");
    assert_eq!(masked(122, '-', 3, &index(&[(100, 122), (125, 130)])), "-\t123\t3\n");
}

#[test]
fn covered_diff_is_no_line() {
    assert_eq!(masked(240, 't', 1, &index(&[(240, 241)])), "");
    assert_eq!(masked(240, 't', 1, &index(&[(0, 1000)])), "");
    assert_eq!(masked(122, '-', 3, &index(&[(122, 125)])), "");
    assert_eq!(masked(122, '-', 3, &index(&[(100, 124), (124, 200)])), "");
}

#[test]
fn mask_moved_by_one_leaves_one_position() {
    assert_eq!(masked(122, '-', 3, &index(&[(123, 126)])), "-\t123\t1\n");
    assert_eq!(masked(122, '-', 3, &index(&[(121, 124)])), "-\t125\t1\n");
    assert_eq!(masked(240, 't', 1, &index(&[(241, 242)])), "t\t241\n");
    assert_eq!(masked(240, 't', 1, &index(&[(239, 240)])), "t\t241\n");
}

#[test]
fn masked_run_is_split() {
    let mask = index(&[(10, 20), (30, 40)]);
    assert_eq!(masked(0, 'n', 50, &mask), "n\t1\t10\nn\t21\t10\nn\t41\t10\n");
    assert_eq!(masked(15, '-', 20, &mask), "-\t21\t10\n");
    assert_eq!(masked(15, '-', 30, &mask), "-\t21\t10\n-\t41\t5\n");
    assert_eq!(masked(5, 'n', 10, &mask), "n\t6\t5\n");
}

#[test]
fn masked_lines_are_appended() {
    let mask = index(&[(10, 20)]);
    let mut out = String::from(">s\n");
    print_one_masked(&mut out, 5, 'n', 20, &mask);
    print_one_masked(&mut out, 12, 'a', 1, &mask);
    print_one_masked(&mut out, 30, 'a', 1, &mask);
    assert_eq!(out, ">s\nn\t6\t5\nn\t21\t5\na\t31\n");
}
