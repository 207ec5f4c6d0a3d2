use shadow_deploy::text::{copy_strings, find_double, push_decimal, push_range, push_str, to_chars};

#[test]
fn to_chars_gives_the_characters() {
    assert_eq!(to_chars("aé✓"), vec!['a', 'é', '✓']);
    assert_eq!(to_chars(""), Vec::<char>::new());
}

#[test]
fn push_range_and_push_str_append() {
    let source = to_chars("abcdef");
    let mut out = vec!['x'];
    push_range(&mut out, &source, 2, 4);
    assert_eq!(out, vec!['x', 'c', 'd']);
    push_range(&mut out, &source, 3, 3);
    assert_eq!(out, vec!['x', 'c', 'd']);
    push_str(&mut out, "yz");
    assert_eq!(out, vec!['x', 'c', 'd', 'y', 'z']);
}

#[test]
fn push_decimal_renders_numerals() {
    for (n, text) in [(0usize, "0"), (7, "7"), (10, "10"), (909, "909"), (123456789, "123456789")] {
        let mut out = Vec::new();
        push_decimal(&mut out, n);
        assert_eq!(out.iter().collect::<String>(), text);
    }
    let mut out = Vec::new();
    push_decimal(&mut out, usize::MAX);
    assert_eq!(out.iter().collect::<String>(), usize::MAX.to_string());
}

#[test]
fn find_double_gives_the_first_pair() {
    let chars = to_chars("a{b{{c{{");
    assert_eq!(find_double(&chars, '{', 0), 3);
    assert_eq!(find_double(&chars, '{', 3), 3);
    assert_eq!(find_double(&chars, '{', 4), 6);
    assert_eq!(find_double(&chars, '{', 7), 8);
    assert_eq!(find_double(&chars, '}', 0), 8);
    assert_eq!(find_double(&chars, '{', 100), 8);
    assert_eq!(find_double(&to_chars("{{{"), '{', 1), 1);
}

#[test]
fn copy_strings_copies() {
    let strings = vec!["a".to_string(), "".to_string()];
    assert_eq!(copy_strings(&strings), strings);
}
