use wordle::engine::{check_difficult, make_green, make_yellow, update_keyboard_status};

fn chars(s: &str) -> Vec<char> {
    s.chars().collect()
}

fn letter_counts(word: &str) -> Vec<i32> {
    let mut c = vec![0; 26];
    for ch in word.chars() {
        c[ch as usize - 'a' as usize] += 1;
    }
    c
}

fn colour(guess: &str, answer: &str) -> (String, Vec<i32>) {
    let mut status = vec!['X'; 5];
    let mut colored = vec![0; 26];
    make_green(&mut status, &mut colored, &chars(guess), &chars(answer));
    make_yellow(&mut status, &mut colored, &chars(guess), &letter_counts(answer));
    (status.iter().collect(), colored)
}

fn scores() -> Vec<(char, i32)> {
    vec![('G', 10), ('Y', 5), ('R', 2), ('X', 1)]
}

#[test]
fn green_marks_matching_positions() {
    let mut status = vec!['X'; 5];
    let mut colored = vec![0; 26];
    make_green(&mut status, &mut colored, &chars("crane"), &chars("react"));
    assert_eq!(status, chars("RRGRR"));
    assert_eq!(colored[0], 1);
    assert_eq!(colored.iter().sum::<i32>(), 1);
}

#[test]
fn yellow_marks_letters_elsewhere() {
    let (status, colored) = colour("crane", "react");
    assert_eq!(status, "YYGRY");
    assert_eq!(colored[2], 1);
    assert_eq!(colored[17], 1);
    assert_eq!(colored[4], 1);
    assert_eq!(colored[13], 0);
}

#[test]
fn repeated_letters_are_found_at_most_as_often_as_in_answer() {
    let (status, colored) = colour("eerie", "there");
    assert_eq!(status, "YRYRG");
    assert_eq!(colored[4], 2);
}

#[test]
fn guessing_the_answer_is_all_green() {
    let (status, _) = colour("apple", "apple");
    assert_eq!(status, "GGGGG");
}

#[test]
fn yellow_respects_existing_counts() {
    let mut status = chars("RRRRR");
    let mut colored = vec![0; 26];
    colored[0] = 1;
    make_yellow(&mut status, &mut colored, &chars("aaxyz"), &letter_counts("abcde"));
    assert_eq!(status, chars("RRRRR"));
    assert_eq!(colored[0], 1);
}

#[test]
fn keyboard_takes_higher_scores_only() {
    let mut keyboard = vec!['X'; 26];
    keyboard[2] = 'G';
    update_keyboard_status(&mut keyboard, &chars("YYGRY"), &chars("crane"), &scores());
    assert_eq!(keyboard[2], 'G');
    assert_eq!(keyboard[17], 'Y');
    assert_eq!(keyboard[0], 'G');
    assert_eq!(keyboard[13], 'R');
    assert_eq!(keyboard[4], 'Y');
    assert_eq!(keyboard[1], 'X');
}

#[test]
fn keyboard_same_letter_keeps_best() {
    let mut keyboard = vec!['X'; 26];
    update_keyboard_status(&mut keyboard, &chars("GRYRR"), &chars("eexyz"), &scores());
    assert_eq!(keyboard[4], 'G');
}

#[test]
fn keyboard_unknown_status_is_lowest() {
    let mut keyboard = vec!['?'; 26];
    update_keyboard_status(&mut keyboard, &chars("XXXXX"), &chars("abcde"), &scores());
    assert_eq!(keyboard[0], 'X');
    let mut keyboard2 = vec!['X'; 26];
    update_keyboard_status(&mut keyboard2, &chars("?????"), &chars("abcde"), &scores());
    assert_eq!(keyboard2[0], 'X');
}

#[test]
fn hard_mode_off_never_fails() {
    let mut fail = 0;
    check_difficult(&false, &mut fail, &1, &chars("GGGGG"), &chars("apple"), &chars("RRRRR"), &chars("bcdfg"));
    assert_eq!(fail, 0);
}

#[test]
fn hard_mode_green_must_stay() {
    let mut fail = 0;
    check_difficult(&true, &mut fail, &0, &chars("GRRRR"), &chars("crane"), &chars("RRRRR"), &chars("slate"));
    assert_eq!(fail, 1);
}

#[test]
fn hard_mode_found_letters_must_be_reused() {
    let mut fail = 0;
    check_difficult(&true, &mut fail, &1, &chars("RYRRR"), &chars("crane"), &chars("RRRRR"), &chars("slate"));
    assert_eq!(fail, 1);
    let mut fail2 = 0;
    check_difficult(&true, &mut fail2, &1, &chars("RYRRR"), &chars("crane"), &chars("YRRRR"), &chars("rusty"));
    assert_eq!(fail2, 0);
}

#[test]
fn hard_mode_yellow_check_needs_a_previous_guess() {
    let mut fail = 0;
    check_difficult(&true, &mut fail, &0, &chars("RYRRR"), &chars("crane"), &chars("RRRRR"), &chars("slate"));
    assert_eq!(fail, 0);
}

#[test]
fn hard_mode_same_guess_is_fine() {
    let mut fail = 0;
    check_difficult(&true, &mut fail, &3, &chars("GYRRY"), &chars("crane"), &chars("GYRRY"), &chars("crane"));
    assert_eq!(fail, 0);
}

#[test]
fn hard_mode_keeps_earlier_failure() {
    let mut fail = 1;
    check_difficult(&true, &mut fail, &3, &chars("GYRRY"), &chars("crane"), &chars("GYRRY"), &chars("crane"));
    assert_eq!(fail, 1);
}
