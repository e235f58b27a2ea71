use string_matching::run::{judge, mismatched_patterns, Verdict};

#[test]
fn negative_count_ends_the_run() {
    assert_eq!(judge(-1, Some(3)), Verdict::Failed(-1));
    assert_eq!(judge(-7, None), Verdict::Failed(-7));
    assert_eq!(judge(i32::MIN, Some(0)), Verdict::Failed(i32::MIN));
}

#[test]
fn count_is_held_against_the_expected_one() {
    assert_eq!(judge(3, Some(3)), Verdict::Agrees);
    assert_eq!(judge(0, Some(0)), Verdict::Agrees);
    assert_eq!(judge(3, Some(4)), Verdict::Differs);
    assert_eq!(judge(0, Some(u32::MAX)), Verdict::Differs);
    assert_eq!(judge(i32::MAX, Some(i32::MAX as u32)), Verdict::Agrees);
}

#[test]
fn count_agrees_where_nothing_is_expected() {
    assert_eq!(judge(5, None), Verdict::Agrees);
}

#[test]
fn mismatched_patterns_are_listed_in_order() {
    let answers = vec![vec![1, 2], vec![0, 0], vec![5, 7], vec![9, 9]];
    assert_eq!(mismatched_patterns(&[1, 0, 5, 9], &answers, 0), Vec::<usize>::new());
    assert_eq!(mismatched_patterns(&[1, 0, 5, 9], &answers, 1), vec![0, 2]);
    assert_eq!(mismatched_patterns(&[2, 0, 7, 8], &answers, 1), vec![3]);
    assert_eq!(mismatched_patterns(&[], &answers, 1), Vec::<usize>::new());
    assert_eq!(mismatched_patterns(&[3, 3], &answers, 0), vec![0, 1]);
}
