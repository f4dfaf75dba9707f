use lichen::print::letter_name;

#[test]
fn class_names_cycle_the_alphabet_with_a_round() {
    assert_eq!(letter_name(0), "?a");
    assert_eq!(letter_name(1), "?b");
    assert_eq!(letter_name(25), "?z");
    assert_eq!(letter_name(26), "?a1");
    assert_eq!(letter_name(27), "?b1");
    assert_eq!(letter_name(26 * 12 + 3), "?d12");
}

#[test]
fn distinct_classes_get_distinct_names() {
    let names: Vec<String> = (0..200).map(letter_name).collect();
    for i in 0..names.len() {
        for j in 0..i {
            assert_ne!(names[i], names[j]);
        }
    }
}
