use colorize::{ColorTable, Colorize};

fn expect(c: &Colorize, src: &str, expected: &str) {
    let colored = c.color(src);
    assert_eq!(expected, colored, "{:?}, {:?}, {:?}", expected, colored, src);
}

#[test]
fn it_works() {
    let ref c = Colorize::new();
    expect(c, "foo", "foo");
    expect(c, "[blue]foo", "\x1B[34mfoo\x1B[0m");
    expect(c, "foo[blue]foo", "foo\x1B[34mfoo\x1B[0m");
    expect(c, "foo[what]foo", "foo[what]foo");
    expect(c, "foo[_blue_]foo", "foo\x1B[44mfoo\x1B[0m");
    expect(c, "foo[bold]foo", "foo\x1B[1mfoo\x1B[0m");
    expect(c, "[blue]foo[bold]bar", "\x1B[34mfoo\x1B[1mbar\x1B[0m");
    expect(c, "[underline]foo[reset]bar", "\x1B[4mfoo\x1B[0mbar\x1B[0m");
}

#[test]
fn empty_text_stays_empty() {
    let c = Colorize::new();
    assert_eq!(c.color(""), "");
    assert_eq!(c.color_prefix(""), None);
}

#[test]
fn text_without_tags_is_unchanged() {
    let c = Colorize::new();
    for s in ["foo", "a [ b ] c", "[]", "[a b]", "[red", "red]", "[[", "]][", "[r\u{e9}d]"] {
        assert_eq!(c.color(s), s);
    }
    let off = Colorize::with_settings(ColorTable::builtin(), true, false);
    assert_eq!(off.color("a [ b ] c"), "a [ b ] c");
}

#[test]
fn unknown_tag_passes_through_without_reset() {
    let c = Colorize::new();
    assert_eq!(c.color("foo[what]foo"), "foo[what]foo");
    assert_eq!(c.color("[what]"), "[what]");
    assert_eq!(c.color("[a-b_9]"), "[a-b_9]");
}

#[test]
fn unknown_tag_after_known_tag_keeps_reset() {
    let c = Colorize::new();
    assert_eq!(c.color("[red]a[what]"), "\x1B[31ma[what]\x1B[0m");
    assert_eq!(c.color("[what]a[red]"), "[what]a\x1B[31m\x1B[0m");
}

#[test]
fn tags_in_a_row_have_no_separator() {
    let c = Colorize::new();
    assert_eq!(c.color("[red][bold][_white_]x"), "\x1B[31m\x1B[1m\x1B[107mx\x1B[0m");
}

#[test]
fn every_length_of_code_is_written_in_decimal() {
    let c = Colorize::new();
    assert_eq!(c.color("[reset]"), "\x1B[0m\x1B[0m");
    assert_eq!(c.color("[hidden]"), "\x1B[8m\x1B[0m");
    assert_eq!(c.color("[reset_bold]"), "\x1B[21m\x1B[0m");
    assert_eq!(c.color("[white]"), "\x1B[97m\x1B[0m");
    assert_eq!(c.color("[_dark_gray_]"), "\x1B[100m\x1B[0m");
    assert_eq!(c.color("[_white_]"), "\x1B[107m\x1B[0m");
    let mut table = ColorTable::new();
    table.insert("top", 255);
    table.insert("ten", 10);
    table.insert("nine", 9);
    table.insert("two-hundred", 200);
    let c = Colorize::with_settings(table, false, false);
    assert_eq!(c.color("[top][ten][nine][two-hundred]"), "\x1B[255m\x1B[10m\x1B[9m\x1B[200m");
}

#[test]
fn the_built_in_table_is_complete() {
    let names = [
        ("default", 39), ("_default_", 49), ("black", 30), ("red", 31), ("green", 32),
        ("yellow", 33), ("blue", 34), ("magenta", 35), ("cyan", 36), ("light_gray", 37),
        ("dark_gray", 90), ("light_red", 91), ("light_green", 92), ("light_yellow", 93),
        ("light_blue", 94), ("light_magenta", 95), ("light_cyan", 96), ("white", 97),
        ("_black_", 40), ("_red_", 41), ("_green_", 42), ("_yellow_", 43), ("_blue_", 44),
        ("_magenta_", 45), ("_cyan_", 46), ("_light_gray_", 47), ("_dark_gray_", 100),
        ("_light_red_", 101), ("_light_green_", 102), ("_light_yellow_", 103),
        ("_light_blue_", 104), ("_light_magenta_", 105), ("_light_cyan_", 106),
        ("_white_", 107), ("bold", 1), ("dim", 2), ("underline", 4), ("blink_slow", 5),
        ("blink_fast", 6), ("invert", 7), ("hidden", 8), ("reset", 0), ("reset_bold", 21),
    ];
    assert_eq!(names.len(), 43);
    let table = ColorTable::builtin();
    let c = Colorize::with_settings(ColorTable::builtin(), false, false);
    for (name, code) in names {
        assert_eq!(table.get(name), Some(code));
        assert_eq!(c.color(&format!("[{}]", name)), format!("\x1B[{}m", code));
    }
    assert_eq!(table.get("what"), None);
    assert_eq!(table.get(""), None);
}

#[test]
fn tag_names_ignore_ascii_case() {
    let c = Colorize::new();
    assert_eq!(c.color("[BLUE]foo"), "\x1B[34mfoo\x1B[0m");
    assert_eq!(c.color("[Blue]foo"), c.color("[blue]foo"));
    assert_eq!(c.color("[_Light_GRAY_]"), "\x1B[47m\x1B[0m");
    let mut table = ColorTable::new();
    table.insert("Alarm", 5);
    assert_eq!(table.get("alarm"), Some(5));
    assert_eq!(table.get("ALARM"), Some(5));
    let c = Colorize::with_settings(table, false, true);
    assert_eq!(c.color("[aLaRm]!"), "\x1B[5m!\x1B[0m");
}

#[test]
fn letters_that_fold_to_ascii_make_a_tag_but_no_known_name() {
    let c = Colorize::new();
    assert_eq!(c.color("[blac\u{212A}]x"), "[blac\u{212A}]x");
    assert_eq!(c.color_prefix("[blac\u{212A}]x"), Some(String::from("[blac\u{212A}]")));
    assert_eq!(c.color_prefix("[\u{17F}]"), Some(String::from("[\u{17F}]")));
    assert_eq!(c.color_prefix("[\u{e9}]"), None);
    let mut table = ColorTable::new();
    table.insert("\u{17F}", 3);
    let c = Colorize::with_settings(table, false, false);
    assert_eq!(c.color("a[\u{17F}]b[s]"), "a\x1B[3mb[s]");
}

#[test]
fn text_beyond_ascii_is_kept() {
    let c = Colorize::new();
    assert_eq!(c.color("h\u{e9}llo[red]w\u{f6}rld\u{1F600}"), "h\u{e9}llo\x1B[31mw\u{f6}rld\u{1F600}\x1B[0m");
    assert_eq!(c.color("\u{1F600}[what]\u{1F600}[bold]"), "\u{1F600}[what]\u{1F600}\x1B[1m\x1B[0m");
}

#[test]
fn disabled_colours_drop_known_tags() {
    let c = Colorize::with_settings(ColorTable::builtin(), true, true);
    assert_eq!(c.color("[blue]foo"), "foo");
    assert_eq!(c.color("a[red]b[what]c[bold]"), "ab[what]c");
    assert_eq!(c.color("[bl[bold]ue]"), "[blue]");
}

#[test]
fn no_reset_where_none_is_wanted() {
    let c = Colorize::with_settings(ColorTable::builtin(), false, false);
    assert_eq!(c.color("[blue]foo"), "\x1B[34mfoo");
    assert_eq!(c.color("foo"), "foo");
}

#[test]
fn a_later_entry_replaces_an_earlier_one() {
    let mut table = ColorTable::builtin();
    assert_eq!(table.get("red"), Some(31));
    table.insert("RED", 91);
    table.insert("mine", 7);
    assert_eq!(table.get("red"), Some(91));
    assert_eq!(table.get("mine"), Some(7));
    assert_eq!(table.get("blue"), Some(34));
    let c = Colorize::with_settings(table, false, true);
    assert_eq!(c.color("[red]x[mine]"), "\x1B[91mx\x1B[7m\x1B[0m");
}

#[test]
fn an_empty_table_knows_no_tag() {
    let c = Colorize::with_settings(ColorTable::new(), false, true);
    assert_eq!(c.color("[red]x"), "[red]x");
    assert_eq!(ColorTable::new().get("red"), None);
}

#[test]
fn prefix_is_the_first_tag_only() {
    let c = Colorize::new();
    assert_eq!(c.color_prefix("[red][bold]x"), Some(String::from("[red]")));
    assert_eq!(c.color_prefix("[red]"), Some(String::from("[red]")));
    assert_eq!(c.color_prefix("[what]x"), Some(String::from("[what]")));
    assert_eq!(c.color_prefix("[RED]x[blue]"), Some(String::from("[RED]")));
}

#[test]
fn prefix_must_stand_at_the_start() {
    let c = Colorize::new();
    assert_eq!(c.color_prefix("x[red]"), None);
    assert_eq!(c.color_prefix(" [red]"), None);
    assert_eq!(c.color_prefix("[[red]"), None);
    assert_eq!(c.color_prefix("[]"), None);
    assert_eq!(c.color_prefix("[red"), None);
    assert_eq!(c.color_prefix("foo"), None);
    assert_eq!(c.color_prefix("\u{e9}[red]"), None);
}

#[test]
fn brackets_without_a_tag_between_them_are_text() {
    let c = Colorize::new();
    assert_eq!(c.color("[][red]x[]"), "[]\x1B[31mx[]\x1B[0m");
    assert_eq!(c.color("[[red]]"), "[\x1B[31m]\x1B[0m");
    assert_eq!(c.color("[re[bold]d]"), "[re\x1B[1md]\x1B[0m");
}

#[test]
fn coloured_text_is_its_own_coloured_form() {
    let c = Colorize::new();
    for s in ["", "foo", "[blue]foo", "foo[what]foo", "[blue]x]", "[[red]]", "[re[bold]d]",
              "[underline]foo[reset]bar", "[red]1m]", "[[bold]bold]"] {
        let once = c.color(s);
        assert_eq!(c.color(&once), once);
    }
}

#[test]
fn the_tag_pattern_is_a_bracketed_name() {
    assert_eq!(colorize::finder::tag_pattern(), r"(?i)\[[a-z0-9_-]+\]");
}
