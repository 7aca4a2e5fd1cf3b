use sheng::prior::{member_count, Class, Prior, CLASSES};

#[test]
fn prior_every_class_holds_at_least_one_byte_and_they_partition_256() {
    let members: Vec<u16> = Class::all().iter().map(|&c| member_count(c)).collect();
    assert_eq!(members.iter().map(|&n| u32::from(n)).sum::<u32>(), 256);
    assert!(members.iter().all(|&n| n > 0));
}

#[test]
fn mod_every_class_holds_at_least_one_byte_and_they_partition_256() {
    let total: f64 = Class::all().iter().map(|&c| f64::from(member_count(c))).sum();
    assert_eq!(total, 256.0);
    assert!(Class::all().iter().all(|&c| member_count(c) > 0));
}

#[test]
fn the_classifier_sorts_bytes_into_the_documented_classes() {
    assert_eq!(Class::of(b' '), Class::Space);
    assert_eq!(Class::of(b'\t'), Class::Space);
    assert_eq!(Class::of(b'\n'), Class::Break);
    assert_eq!(Class::of(b'\r'), Class::Break);
    assert_eq!(Class::of(b'q'), Class::Lower);
    assert_eq!(Class::of(b'Q'), Class::Upper);
    assert_eq!(Class::of(b'7'), Class::Digit);
    assert_eq!(Class::of(b'~'), Class::Punct);
    assert_eq!(Class::of(b'@'), Class::Punct);
    assert_eq!(Class::of(0x7F), Class::High);
    assert_eq!(Class::of(0x00), Class::High);
    assert_eq!(Class::of(0xE9), Class::High);
    let counts: Vec<u16> = Class::all().iter().map(|&c| member_count(c)).collect();
    assert_eq!(counts, vec![2, 2, 26, 26, 10, 32, 158]);
    for (i, c) in Class::all().into_iter().enumerate() {
        assert_eq!(c.index(), i);
    }
    assert_eq!(Class::all().len(), CLASSES);
}

#[test]
fn the_priors_are_listed_in_sweep_order() {
    assert_eq!(
        Prior::all(),
        [Prior::Uniform, Prior::Text, Prior::Source, Prior::Prose, Prior::Json, Prior::Log]
    );
}
