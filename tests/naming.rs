use relay_dedup::naming::NameGenerator;

#[test]
fn test_next_generates_short_name() {
    let mut gen = NameGenerator::new();
    let name = gen.next("abcd1234");
    assert_eq!(name, "x_abc");
}

#[test]
fn test_next_handles_collision() {
    let mut gen = NameGenerator::new();

    let name1 = gen.next("abcd1234");
    assert_eq!(name1, "x_abc");

    let name2 = gen.next("abce5678");
    assert_eq!(name2, "x_abce");
}

#[test]
fn test_next_extends_on_multiple_collisions() {
    let mut gen = NameGenerator::new();

    gen.next("abc12345");
    gen.next("abcd1234");
    gen.next("abcde123");

    let name = gen.next("abcdf789");
    assert_eq!(name, "x_abcdf");
}

#[test]
fn names_differ_for_same_fingerprint() {
    let mut gen = NameGenerator::new();
    let a = gen.next("abcdef");
    let b = gen.next("abcdef");
    let c = gen.next("abcdef");
    assert_eq!(a, "x_abc");
    assert_eq!(b, "x_abcd");
    assert_eq!(c, "x_abcde");
}

#[test]
fn name_falls_back_to_whole_fingerprint() {
    let mut gen = NameGenerator::new();
    assert_eq!(gen.next("abc"), "x_abc");
    assert_eq!(gen.next("abc"), "x_abc");
    assert_eq!(gen.next("ab"), "x_ab");
}
