use gameserver::files::served_name;

#[test]
fn named_file_is_served() {
    assert_eq!(served_name(Some("style.css")), "style.css");
    assert_eq!(served_name(Some("index.html")), "index.html");
    assert_eq!(served_name(Some("a")), "a");
    assert_eq!(served_name(Some("\u{e9}t\u{e9}.png")), "\u{e9}t\u{e9}.png");
}

#[test]
fn index_is_served_where_no_file_is_named() {
    assert_eq!(served_name(None), "index.html");
    assert_eq!(served_name(Some("")), "index.html");
}
