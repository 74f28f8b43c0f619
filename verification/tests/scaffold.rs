use deuterium_orm::migration::scaffold::{
    file_name_of, full_name_from, gen_full_name, gen_timecode,
};

#[test]
fn full_name_puts_the_timecode_between_underscores() {
    assert_eq!(
        full_name_from("150101120000", "create_users"),
        "_150101120000_create_users"
    );
}

#[test]
fn full_name_of_empty_parts_is_two_underscores() {
    assert_eq!(full_name_from("", ""), "__");
    assert_eq!(full_name_from("", "x"), "__x");
    assert_eq!(full_name_from("7", ""), "_7_");
}

#[test]
fn timecode_is_twelve_digits_today() {
    let timecode = gen_timecode();
    assert_eq!(timecode.len(), 12);
    assert!(timecode.chars().all(|c| c.is_ascii_digit()));
    let month: u32 = timecode[2..4].parse().unwrap();
    let day: u32 = timecode[4..6].parse().unwrap();
    let hour: u32 = timecode[6..8].parse().unwrap();
    let minute: u32 = timecode[8..10].parse().unwrap();
    let second: u32 = timecode[10..12].parse().unwrap();
    assert!((1..=12).contains(&month));
    assert!((1..=31).contains(&day));
    assert!(hour < 24);
    assert!(minute < 60);
    assert!(second <= 60);
}

#[test]
fn generated_full_name_wraps_a_timecode_round_the_name() {
    let full = gen_full_name("add_index");
    assert!(full.starts_with('_'));
    assert!(full.ends_with("_add_index"));
    let timecode = &full[1..full.len() - "_add_index".len()];
    assert_eq!(timecode.len(), 12);
    assert!(timecode.chars().all(|c| c.is_ascii_digit()));
    assert_eq!(full, full_name_from(timecode, "add_index"));
}

#[test]
fn generated_full_names_do_not_go_back_in_time() {
    let earlier = gen_full_name("a");
    let later = gen_full_name("a");
    let year_rolled_over = earlier.starts_with("_991231") && later.starts_with("_000101");
    assert!(earlier <= later || year_rolled_over);
}

#[test]
fn file_name_adds_the_source_extension() {
    assert_eq!(
        file_name_of("_150101120000_create_users"),
        "_150101120000_create_users.rs"
    );
    assert_eq!(file_name_of(""), ".rs");
}
