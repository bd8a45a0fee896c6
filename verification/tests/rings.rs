use puzzles::rings::State;

#[test]
fn test_increment() {
    let mut state = State::new();
    state.increment(3);
    assert_eq!(state.zones[state.pointer], 'C');
}

#[test]
fn test_decrement() {
    let mut state = State::new();
    state.zones[state.pointer] = 'D';
    state.decrement(3);
    assert_eq!(state.zones[state.pointer], 'A');
}

#[test]
fn test_optimize_movement() {
    let mut state = State::new();
    state.optimize_movement('D');
    assert_eq!(state.created_text, "D");

    assert!(state.instructions.len() <= 5, "Instructions should be optimized");
}

#[test]
fn test_full_text() {
    let mut state = State::new();
    let input_text = "HELLO WORLD";
    for char in input_text.chars() {
        state.optimize_movement(char);
    }

    println!("{}", state.instructions);
    println!("{}", state.instructions.len());
    assert_eq!(state.created_text, input_text);
    assert!(state.instructions.len() <= 52, "Instructions should be optimized");
}

#[test]
fn test_long_spell() {
    let mut state = State::new();
    let input_text = "THREE RINGS FOR THE ELVEN KINGS UNDER THE SKY SEVEN FOR THE DWARF LORDS IN THEIR HALLS OF STONE NINE FOR MORTAL MEN DOOMED TO DIE ONE FOR THE DARK LORD ON HIS DARK THRONEIN THE LAND OF MORDOR WHERE THE SHADOWS LIE ONE RING TO RULE THEM ALL ONE RING TO FIND THEM ONE RING TO BRING THEM ALL AND IN THE DARKNESS BIND THEM IN THE LAND OF MORDOR WHERE THE SHADOWS LIE";
    for char in input_text.chars() {
        state.optimize_movement(char);
    }

    println!("{}", state.instructions);
    println!("{}", state.instructions.len());
    assert_eq!(state.created_text, input_text);
    assert!(state.instructions.len() <= 1479, "Instructions should be optimized");
}

#[test]
fn left_and_right_wrap_around_the_ring() {
    let mut state = State::new();
    state.left(1);
    assert_eq!(state.pointer, 29);
    state.right(2);
    assert_eq!(state.pointer, 1);
    assert_eq!(state.instructions, "<>>");
}

#[test]
fn trigger_speaks_the_rune_under_the_pointer() {
    let mut state = State::new();
    state.increment(1);
    state.trigger();
    state.trigger();
    assert_eq!(state.created_text, "AA");
    assert_eq!(state.instructions, "+..");
}

#[test]
fn decrement_wraps_blank_to_z() {
    let mut state = State::new();
    state.decrement(1);
    assert_eq!(state.zones[state.pointer], 'Z');
}
