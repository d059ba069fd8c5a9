use filetree::Snipe;

fn pair(k: &str, v: &str) -> (String, String) {
    (k.to_string(), v.to_string())
}

#[test]
fn an_empty_body_gives_one_row_as_wide_as_the_title() {
    let s = Snipe::new("Title", &[]);
    assert_eq!(s.title, "Title");
    assert_eq!(s.height, 1);
    assert_eq!(s.width, 5);
    assert!(s.items.is_empty());
}

#[test]
fn an_empty_body_counts_the_bytes_of_the_title() {
    let s = Snipe::new("é", &[]);
    assert_eq!(s.width, 2);
    assert_eq!(Snipe::new("", &[]).width, 0);
}

#[test]
fn a_body_is_as_wide_as_its_widest_key_and_text_and_four_more() {
    let body = vec![pair("a", "first"), pair("bcd", "x"), pair("ef", "second one")];
    let s = Snipe::new("Jump", &body);
    assert_eq!(s.title, "Jump");
    assert_eq!(s.width, 3 + 10 + 4);
    assert_eq!(s.height, 3);
    assert_eq!(s.items, body);
}

#[test]
fn widths_count_columns_not_characters_or_bytes() {
    let body = vec![pair("你好", "e\u{301}"), pair("a", "ｗｉｄｅ")];
    let s = Snipe::new("t", &body);
    assert_eq!(s.width, 4 + 8 + 4);
    assert_eq!(s.height, 2);
}

#[test]
fn a_body_of_empty_strings_is_four_columns_wide() {
    let s = Snipe::new("t", &[pair("", "")]);
    assert_eq!(s.width, 4);
    assert_eq!(s.height, 1);
}

#[test]
fn try_new_gives_what_new_gives() {
    let body = vec![pair("k", "text")];
    let s = Snipe::try_new("T", &body).unwrap();
    assert_eq!(s.width, 1 + 4 + 4);
    assert_eq!(s.height, 1);
    assert_eq!(s.items, body);
    assert_eq!(s.title, "T");
    let e = Snipe::try_new("Title", &[]).unwrap();
    assert_eq!((e.width, e.height), (5, 1));
}

#[test]
fn try_new_refuses_a_body_too_wide_for_sixteen_bits() {
    let body = vec![pair(&"k".repeat(40000), &"v".repeat(30000))];
    assert!(Snipe::try_new("T", &body).is_none());
    let fits = vec![pair(&"k".repeat(40000), &"v".repeat(25531))];
    assert_eq!(Snipe::try_new("T", &fits).unwrap().width, 65535);
    let over = vec![pair(&"k".repeat(40000), &"v".repeat(25532))];
    assert!(Snipe::try_new("T", &over).is_none());
}

#[test]
fn with_widths_adds_the_two_widths_and_four() {
    let body = vec![pair("k", "text"), pair("kk", "t")];
    let s = Snipe::with_widths("T", &body, 2, 4);
    assert_eq!(s.width, 2 + 4 + 4);
    assert_eq!(s.height, 2);
    assert_eq!(s.items, body);
    assert_eq!(s.title, "T");
    assert_eq!(Snipe::with_widths("T", &body, 0, 0).width, 4);
    assert_eq!(Snipe::with_widths("T", &body, 65531, 0).width, 65535);
    assert_eq!(Snipe::with_widths("T", &body, 30000, 35531).width, 65535);
}

#[test]
fn with_widths_takes_the_widths_as_sixteen_bits_hold_them() {
    let body = vec![pair("k", "text")];
    assert_eq!(Snipe::with_widths("T", &body, 65536 + 3, 65536 * 2 + 5).width, 3 + 5 + 4);
}

#[test]
fn with_widths_of_an_empty_body_goes_by_the_title() {
    let s = Snipe::with_widths("Title", &[], 70000, 70000);
    assert_eq!((s.width, s.height), (5, 1));
    assert!(s.items.is_empty());
}
