use picolv2::voices::choose_voice;

#[test]
fn takes_the_first_free_voice() {
    assert_eq!(choose_voice(&[(true, 5), (false, 9), (false, 1)]), 1);
}

#[test]
fn steals_the_oldest_voice_when_all_sound() {
    assert_eq!(choose_voice(&[(true, 5), (true, 2), (true, 7), (true, 2)]), 1);
    assert_eq!(choose_voice(&[(true, 3)]), 0);
}

#[test]
fn falls_back_to_voice_zero() {
    assert_eq!(choose_voice(&[]), 0);
}
