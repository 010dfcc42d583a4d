use layout_oracle::random_color::RandomColor;

#[test]
fn colors_are_gone_through_again_and_again() {
    let colors = RandomColor::new();
    assert_eq!(colors.colors_list.len(), 51);
    assert_eq!(colors.get_a_color(0), (0xff, 0, 0));
    assert_eq!(colors.get_a_color(7), (0xb8, 0x86, 0x0b));
    assert_eq!(colors.get_a_color(50), (0x8b, 0x89, 0x89));
    assert_eq!(colors.get_a_color(51), (0xff, 0, 0));
    assert_eq!(colors.get_a_color(51 * 4 + 2), (0, 0, 0xff));
    assert_eq!(colors.color_at(2), (0, 0, 0xff));
}

#[test]
fn a_random_color_is_one_of_the_list() {
    let colors = RandomColor::new();
    let mut seen = Vec::new();
    for _ in 0..2000 {
        let c = colors.get_random_color();
        assert!(colors.colors_list.contains(&c));
        if !seen.contains(&c) {
            seen.push(c);
        }
    }
    assert!(seen.len() > 1);
    let one = RandomColor { colors_list: vec![(1, 2, 3)] };
    assert_eq!(one.get_random_color(), (1, 2, 3));
}
