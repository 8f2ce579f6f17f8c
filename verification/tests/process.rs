use solver_core::native_api::cvc5_executable;
use solver_core::process::{executable, frame_line, ExecutableChoice, ResponseLine};

#[test]
fn an_override_wins_even_when_candidates_exist() {
    assert_eq!(executable(true, &vec![true, true]), ExecutableChoice::Override);
    assert_eq!(executable(true, &Vec::new()), ExecutableChoice::Override);
}

#[test]
fn the_first_existing_candidate_is_chosen() {
    assert_eq!(executable(false, &vec![false, true, true]), ExecutableChoice::Candidate(1));
    assert_eq!(executable(false, &vec![true, false]), ExecutableChoice::Candidate(0));
}

#[test]
fn the_bare_command_name_is_the_last_resort() {
    assert_eq!(executable(false, &vec![false, false]), ExecutableChoice::Fallback);
    assert_eq!(executable(false, &Vec::new()), ExecutableChoice::Fallback);
}

#[test]
fn the_native_entry_point_follows_the_same_order() {
    assert_eq!(cvc5_executable(false, &vec![false, false, true]), ExecutableChoice::Candidate(2));
    assert_eq!(cvc5_executable(true, &vec![true]), ExecutableChoice::Override);
}


#[test]
fn reply_lines_are_framed_by_parenthesis_depth() {
    assert_eq!(frame_line(0, b""), ResponseLine::Blank);
    assert_eq!(frame_line(0, b"(error \"bad\")"), ResponseLine::Error);
    assert_eq!(frame_line(0, b"sat"), ResponseLine::Closed);
    assert_eq!(frame_line(0, b"((x 1)"), ResponseLine::Open { depth: 1 });
    assert_eq!(frame_line(1, b"(y 2))"), ResponseLine::Closed);
    assert_eq!(frame_line(2, b")"), ResponseLine::Open { depth: 1 });
}
