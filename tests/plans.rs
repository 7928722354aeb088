use t_rex::listing::get_sorted_files_in_dir;
use t_rex::name::NameError;
use t_rex::ops::{fix_renames, plan_insert};
use t_rex::padding::get_padding_digits;
use t_rex::renumber::{rename_files_from_index, Rename};

fn listing(names: &[&str]) -> Vec<String> {
    names.iter().map(|s| s.to_string()).collect()
}

fn pairs(r: &[Rename]) -> Vec<(String, String)> {
    r.iter().map(|x| (x.from.clone(), x.to.clone())).collect()
}

/// Performs the renames one by one, as a directory would, and fails where a
/// rename would replace a name that is still in use.
fn apply(names: &[String], renames: &[Rename]) -> Vec<String> {
    let mut out: Vec<String> = names.to_vec();
    for r in renames {
        assert!(!out.contains(&r.to), "{} would replace {}", r.from, r.to);
        let pos = out.iter().position(|n| *n == r.from).expect("rename source present");
        out[pos] = r.to.clone();
    }
    out
}

#[test]
fn listing_keeps_only_valid_names_in_number_order() {
    let sorted = get_sorted_files_in_dir(listing(&[
        "3-c", "readme.md", "10-z", "0-a", ".git", "-x", "1-b", "2",
    ]));
    let names: Vec<&str> = sorted.iter().map(|e| e.name()).collect();
    assert_eq!(names, vec!["0-a", "1-b", "2", "3-c", "10-z"]);
    let indices: Vec<Option<usize>> = sorted.iter().map(|e| e.index()).collect();
    assert_eq!(indices, vec![Some(0), Some(1), Some(2), Some(3), Some(10)]);
}

#[test]
fn listing_keeps_numbers_of_any_size() {
    let sorted = get_sorted_files_in_dir(listing(&[
        "99999999999999999999999-a",
        "1-b",
        "0100000000000000000000000-c",
        "99999999999999999999998-z",
        "18446744073709551615-m",
    ]));
    let names: Vec<&str> = sorted.iter().map(|e| e.name()).collect();
    assert_eq!(
        names,
        vec![
            "1-b",
            "18446744073709551615-m",
            "99999999999999999999998-z",
            "99999999999999999999999-a",
            "0100000000000000000000000-c",
        ]
    );
    let indices: Vec<Option<usize>> = sorted.iter().map(|e| e.index()).collect();
    assert_eq!(indices, vec![Some(1), Some(usize::MAX), None, None, None]);
}

#[test]
fn fix_renumbers_numbers_of_any_size() {
    let r = fix_renames(listing(&["99999999999999999999999-a", "1-b"]));
    assert_eq!(
        pairs(&r),
        vec![
            ("1-b".to_string(), "00-b".to_string()),
            ("99999999999999999999999-a".to_string(), "01-a".to_string()),
        ]
    );
}

#[test]
fn listing_keeps_listing_order_for_equal_numbers() {
    let sorted = get_sorted_files_in_dir(listing(&["1-b", "01-a", "0-z"]));
    let names: Vec<&str> = sorted.iter().map(|e| e.name()).collect();
    assert_eq!(names, vec!["0-z", "1-b", "01-a"]);
}

#[test]
fn empty_listing() {
    let sorted = get_sorted_files_in_dir(Vec::new());
    assert!(sorted.is_empty());
    assert_eq!(get_padding_digits(&sorted), (0, 2));
    assert!(fix_renames(Vec::new()).is_empty());
}

#[test]
fn padding_width_boundaries() {
    let names = |n: usize| -> Vec<String> { (0..n).map(|i| format!("{}-f", i)).collect() };
    assert_eq!(get_padding_digits(&get_sorted_files_in_dir(names(3))), (1, 2));
    assert_eq!(get_padding_digits(&get_sorted_files_in_dir(names(100))), (1, 2));
    assert_eq!(get_padding_digits(&get_sorted_files_in_dir(names(101))), (1, 3));
    assert_eq!(get_padding_digits(&get_sorted_files_in_dir(names(1000))), (1, 3));
    assert_eq!(get_padding_digits(&get_sorted_files_in_dir(names(1001))), (1, 4));
    let wide = get_sorted_files_in_dir(listing(&["0003-a", "0004-b"]));
    assert_eq!(get_padding_digits(&wide), (4, 2));
}

#[test]
fn renumbering_after_an_insertion_point() {
    let sorted = get_sorted_files_in_dir(listing(&["01-b", "02-c"]));
    let r = rename_files_from_index(&sorted, Some(1), 2);
    assert_eq!(
        pairs(&r),
        vec![
            ("02-c".to_string(), "03-c".to_string()),
            ("01-b".to_string(), "02-b".to_string()),
        ]
    );
}

#[test]
fn renumbering_leaves_unchanged_names_out() {
    let sorted = get_sorted_files_in_dir(listing(&["00-a", "01-b", "05-c"]));
    let r = rename_files_from_index(&sorted, None, 2);
    assert_eq!(pairs(&r), vec![("05-c".to_string(), "02-c".to_string())]);
}

#[test]
fn fix_pads_and_closes_gaps() {
    let r = fix_renames(listing(&["0-a", "1-b", "3-c"]));
    assert_eq!(
        pairs(&r),
        vec![
            ("0-a".to_string(), "00-a".to_string()),
            ("1-b".to_string(), "01-b".to_string()),
            ("3-c".to_string(), "02-c".to_string()),
        ]
    );
    assert_eq!(r.len(), 3);
}

#[test]
fn fix_twice_renames_nothing() {
    let first = listing(&["notes.txt", "4-d", "0-a", "1-b", "3-c", "12"]);
    let r = fix_renames(first.clone());
    assert_eq!(r.len(), 5);
    let second = apply(&first, &r);
    assert!(fix_renames(second).is_empty());
}

#[test]
fn insert_shifts_entries_at_and_after_the_new_number() {
    let plan = plan_insert("01-x.md", listing(&["00-a", "01-b", "02-c"])).unwrap();
    assert_eq!(
        pairs(&plan.renames),
        vec![
            ("02-c".to_string(), "03-c".to_string()),
            ("01-b".to_string(), "02-b".to_string()),
        ]
    );
    assert_eq!(plan.renames.len(), 2);
    assert!(!plan.create_dir);
}

#[test]
fn insert_without_extension_makes_a_directory() {
    let plan = plan_insert("05-chapter", listing(&["00-a", "01-b"])).unwrap();
    assert!(plan.renames.is_empty());
    assert!(plan.create_dir);
    let dotted = plan_insert("05-.hidden", listing(&[])).unwrap();
    assert!(dotted.create_dir == false);
}

#[test]
fn insert_repads_the_head_when_width_grows() {
    let names: Vec<String> = (0..10).map(|i| format!("{}-p", i)).collect();
    let plan = plan_insert("8-new.md", names).unwrap();
    let got = pairs(&plan.renames);
    assert_eq!(got[0], ("9-p".to_string(), "10-p".to_string()));
    assert_eq!(got[1], ("8-p".to_string(), "09-p".to_string()));
    assert_eq!(got[2], ("7-p".to_string(), "07-p".to_string()));
    assert_eq!(got.len(), 10);
    assert_eq!(got[9], ("0-p".to_string(), "00-p".to_string()));
}

#[test]
fn insert_with_an_invalid_name_fails() {
    assert_eq!(
        plan_insert("readme.md", listing(&["00-a"])).err(),
        Some(NameError::InvalidName)
    );
}

#[test]
fn insert_fails_where_a_shifted_number_does_not_fit() {
    assert_eq!(
        plan_insert(
            "18446744073709551615-x",
            listing(&["18446744073709551615-a"])
        )
        .err(),
        Some(NameError::PrefixTooLarge)
    );
    assert_eq!(
        plan_insert("99999999999999999999999-x", listing(&[])).err(),
        Some(NameError::PrefixTooLarge)
    );
}

#[test]
fn fix_moving_down_never_replaces_a_waiting_name() {
    let first = listing(&["01-x", "05-x"]);
    let r = fix_renames(first.clone());
    assert_eq!(
        pairs(&r),
        vec![
            ("01-x".to_string(), "00-x".to_string()),
            ("05-x".to_string(), "01-x".to_string()),
        ]
    );
    let mut after = apply(&first, &r);
    after.sort();
    assert_eq!(after, listing(&["00-x", "01-x"]));
}

#[test]
fn insert_into_gaps_never_replaces_a_waiting_name() {
    let first = listing(&["03-x", "05-x"]);
    let plan = plan_insert("01-new", first.clone()).unwrap();
    assert_eq!(
        pairs(&plan.renames),
        vec![
            ("03-x".to_string(), "02-x".to_string()),
            ("05-x".to_string(), "03-x".to_string()),
        ]
    );
    let mut after = apply(&first, &plan.renames);
    after.sort();
    assert_eq!(after, listing(&["02-x", "03-x"]));
}

#[test]
fn insert_widens_to_the_highest_shifted_number() {
    let first: Vec<String> = (0..100).map(|i| format!("{:02}-f", i)).collect();
    let plan = plan_insert("50-x.md", first.clone()).unwrap();
    assert_eq!(plan.renames.len(), 100);
    assert_eq!(pairs(&plan.renames[..1]), vec![("99-f".to_string(), "100-f".to_string())]);
    assert_eq!(pairs(&plan.renames[50..51]), vec![("49-f".to_string(), "049-f".to_string())]);
    assert_eq!(pairs(&plan.renames[99..]), vec![("00-f".to_string(), "000-f".to_string())]);
    let after = apply(&first, &plan.renames);
    assert!(after.contains(&"051-f".to_string()));
    assert!(after.contains(&"049-f".to_string()));
    assert!(!after.iter().any(|n| n.starts_with("050-")));
}

#[test]
fn insert_keeps_width_when_the_highest_number_fits() {
    let first: Vec<String> = (0..99).map(|i| format!("{:02}-f", i)).collect();
    let plan = plan_insert("98-x.md", first).unwrap();
    assert_eq!(pairs(&plan.renames), vec![("98-f".to_string(), "99-f".to_string())]);
}

#[test]
fn padding_only_renames_come_highest_first() {
    let first = listing(&["1-a", "2-b"]);
    let plan = plan_insert("0-x", first.clone()).unwrap();
    assert_eq!(
        pairs(&plan.renames),
        vec![
            ("2-b".to_string(), "02-b".to_string()),
            ("1-a".to_string(), "01-a".to_string()),
        ]
    );
    let mut after = apply(&first, &plan.renames);
    after.sort();
    assert_eq!(after, listing(&["01-a", "02-b"]));
}
