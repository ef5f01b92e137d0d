use mangashelf::heuristic::episode_number;

#[test]
fn chapter_titles_order_numerically() {
    assert_eq!(episode_number("Chapter 1"), 1);
    assert_eq!(episode_number("Chapter 2"), 2);
    assert_eq!(episode_number("Chapter 10"), 10);
}

#[test]
fn season_episode_marker() {
    assert_eq!(episode_number("S01E03"), 3);
    assert_eq!(episode_number("s1e7"), 7);
}

#[test]
fn cjk_counter_marker() {
    assert_eq!(episode_number("第3話"), 3);
    assert_eq!(episode_number("第12巻"), 12);
}

#[test]
fn volume_and_hash_markers() {
    assert_eq!(episode_number("Vol. 4"), 4);
    assert_eq!(episode_number("Volume 21"), 21);
    assert_eq!(episode_number("#5"), 5);
}

#[test]
fn episode_markers() {
    assert_eq!(episode_number("EP 12"), 12);
    assert_eq!(episode_number("Episode 7"), 7);
    assert_eq!(episode_number("E9 "), 9);
}

#[test]
fn plain_digits_and_file_names() {
    assert_eq!(episode_number("12.jpg"), 12);
    assert_eq!(episode_number("007 "), 7);
    assert_eq!(episode_number("page 3"), 3);
}

#[test]
fn no_match_degrades_to_zero() {
    assert_eq!(episode_number("cover"), 0);
    assert_eq!(episode_number(""), 0);
    assert_eq!(episode_number("a.jpg"), 0);
}

#[test]
fn long_digit_runs_match_later_suffix() {
    assert_eq!(episode_number("1234"), 234);
}

#[test]
fn case_insensitive_markers() {
    assert_eq!(episode_number("chapter 4"), 4);
    assert_eq!(episode_number("CHAPTER 8"), 8);
}

#[test]
fn marker_preference_and_backtracking() {
    // a one-digit season backtracks from the two-digit form
    assert_eq!(episode_number("S1E2"), 2);
    // a marker without a following number does not match at its position
    assert_eq!(episode_number("S12E"), 0);
    assert_eq!(episode_number("Chapter"), 0);
    // a short marker falls through to the longer word
    assert_eq!(episode_number("Ch12"), 12);
    assert_eq!(episode_number("E12"), 12);
}

#[test]
fn digits_need_a_closing_terminator() {
    assert_eq!(episode_number("12x"), 0);
    assert_eq!(episode_number("12-b"), 12);
    assert_eq!(episode_number("12_b"), 12);
    assert_eq!(episode_number("no12 here34x"), 12);
}
