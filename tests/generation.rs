use enum_dir::args::{get_suffix_from_cli, read_user_agent, word_list_lines, AppArgs};
use enum_dir::dict::{expand_line, expand_line_checked, get_line_part, placeholder_of_token, Placeholder};
use enum_dir::enumerate::EnumCursor;
use std::collections::HashSet;

fn strings(v: &[&str]) -> Vec<String> {
    v.iter().map(|s| s.to_string()).collect()
}

fn drain(mut c: EnumCursor) -> Vec<String> {
    let mut out = Vec::new();
    while let Some(s) = c.next() {
        out.push(s);
    }
    out
}

#[test]
fn suffix_set_with_empty_suffix() {
    let args = AppArgs { suffix: "html,htm".to_string(), empty_suffix: true, ..Default::default() };
    assert_eq!(get_suffix_from_cli(&args), strings(&["", "/", ".html", ".htm"]));
}

#[test]
fn suffix_set_trims_tokens() {
    let args = AppArgs { suffix: " php , tar.gz".to_string(), empty_suffix: false, ..Default::default() };
    assert_eq!(get_suffix_from_cli(&args), strings(&[".php", ".tar.gz"]));
}

#[test]
fn suffix_set_of_empty_string_adds_nothing() {
    let args = AppArgs { suffix: "".to_string(), empty_suffix: false, ..Default::default() };
    assert_eq!(get_suffix_from_cli(&args), strings(&[""]));
    let with_head = AppArgs { suffix: "".to_string(), empty_suffix: true, ..Default::default() };
    assert_eq!(get_suffix_from_cli(&with_head), strings(&["", "/", ""]));
}

#[test]
fn blank_suffix_token_is_a_dot() {
    let blank = AppArgs { suffix: "php, ,zip".to_string(), empty_suffix: false, ..Default::default() };
    assert_eq!(get_suffix_from_cli(&blank), strings(&[".php", ".", ".zip"]));
    let gap = AppArgs { suffix: "a,,b".to_string(), empty_suffix: false, ..Default::default() };
    assert_eq!(get_suffix_from_cli(&gap), strings(&[".a", ".", ".b"]));
}

#[test]
fn tokens_of_ext_line() {
    assert_eq!(get_line_part("admin%EXT%"), strings(&["admin", "%EXT%"]));
}

#[test]
fn ext_line_expands_over_suffixes() {
    let sfx = strings(&[".php", ""]);
    assert_eq!(expand_line("admin%EXT%", &sfx), strings(&["admin.php", "admin"]));
}

#[test]
fn plain_line_is_one_token() {
    assert_eq!(get_line_part("admin.php"), strings(&["admin.php"]));
    assert_eq!(get_line_part("a b/c"), strings(&["a b/c"]));
}

#[test]
fn empty_line_has_no_tokens() {
    assert!(get_line_part("").is_empty());
}

#[test]
fn unclosed_placeholder_is_trailing_text() {
    assert_eq!(get_line_part("a%EXT"), strings(&["a", "%EXT"]));
    assert_eq!(get_line_part("%%x"), strings(&["%%", "x"]));
}

#[test]
fn two_numbers_give_hundred_candidates() {
    let out = expand_line("%NUMBER%x%NUMBER%", &strings(&[".php"]));
    assert_eq!(out.len(), 100);
    assert_eq!(out[0], "0x0");
    assert_eq!(out[1], "0x1");
    assert_eq!(out[10], "1x0");
    assert_eq!(out[99], "9x9");
    for s in &out {
        let b = s.as_bytes();
        assert_eq!(b.len(), 3);
        assert!(b[0].is_ascii_digit() && b[1] == b'x' && b[2].is_ascii_digit());
    }
}

#[test]
fn pools_have_their_sizes() {
    let sfx = strings(&[".php"]);
    let alpha = expand_line("%ALPHA%", &sfx);
    assert_eq!(alpha.len(), 52);
    assert_eq!(alpha[0], "a");
    assert_eq!(alpha[26], "A");
    let alnum = expand_line("%ALPHANUM%", &sfx);
    assert_eq!(alnum.len(), 62);
    assert_eq!(alnum[61], "9");
}

#[test]
fn unknown_placeholder_is_literal() {
    assert_eq!(placeholder_of_token("%FOO%"), None);
    assert_eq!(placeholder_of_token("%EXT%"), Some(Placeholder::Ext));
    assert_eq!(expand_line("%FOO%bar", &strings(&[".php"])), strings(&["%FOO%bar"]));
}

#[test]
fn one_leading_slash_is_dropped() {
    let sfx = strings(&[".php"]);
    assert_eq!(expand_line("/admin", &sfx), strings(&["admin"]));
    assert_eq!(expand_line("//admin", &sfx), strings(&["/admin"]));
}

#[test]
fn checked_expansion_agrees() {
    let sfx = strings(&[".php", ".zip"]);
    assert_eq!(expand_line_checked("a%EXT%", &sfx), Some(strings(&["a.php", "a.zip"])));
}

#[test]
fn word_list_lines_are_trimmed_and_filtered() {
    let content = "# agents\n\nMozilla/5.0 (X11) \r\n  curl/8.0\n#x\n";
    assert_eq!(read_user_agent(content), strings(&["Mozilla/5.0 (X11)", "curl/8.0"]));
    assert!(read_user_agent("").is_empty());
}

#[test]
fn enumeration_of_length_one() {
    let out = drain(EnumCursor::new(1, false, strings(&[""])));
    assert_eq!(out.len(), 62);
    assert_eq!(out[0], "a");
    assert_eq!(out[25], "z");
    assert_eq!(out[26], "A");
    assert_eq!(out[61], "9");
}

#[test]
fn enumeration_count_all_lengths() {
    let sfx = strings(&["", ".php"]);
    let out = drain(EnumCursor::new(2, false, sfx));
    assert_eq!(out.len(), (62 + 62 * 62) * 2);
    assert_eq!(out[0], "a");
    assert_eq!(out[1], "a.php");
    assert_eq!(out[124], "aa");
    assert_eq!(out[126], "ab");
    assert_eq!(out[out.len() - 1], "99.php");
    let distinct: HashSet<&String> = out.iter().collect();
    assert_eq!(distinct.len(), out.len());
    assert!(out.contains(&"aa".to_string()));
}

#[test]
fn enumeration_count_fixed_length() {
    let out = drain(EnumCursor::new(2, true, strings(&[".html", ".htm", "/"])));
    assert_eq!(out.len(), 62 * 62 * 3);
    assert_eq!(out[0], "aa.html");
    assert_eq!(out[2], "aa/");
}

#[test]
fn enumeration_of_nothing() {
    assert!(drain(EnumCursor::new(0, false, strings(&[""]))).is_empty());
    assert!(drain(EnumCursor::new(3, false, Vec::new())).is_empty());
}

#[test]
fn cursor_stays_done() {
    let mut c = EnumCursor::new(1, true, strings(&["x"]));
    for _ in 0..62 {
        assert!(c.next().is_some());
    }
    assert_eq!(c.next(), None);
    assert_eq!(c.next(), None);
}

#[test]
fn dictionary_lines_follow_word_list_rules() {
    let content = "admin\n# comment\n\n  /login%EXT%  \n";
    assert_eq!(word_list_lines(content), strings(&["admin", "/login%EXT%"]));
}

#[test]
fn long_fixed_length_starts_at_first_string() {
    let mut c = EnumCursor::new(11, true, strings(&["", ".php"]));
    assert_eq!(c.next(), Some("aaaaaaaaaaa".to_string()));
    assert_eq!(c.next(), Some("aaaaaaaaaaa.php".to_string()));
    assert_eq!(c.next(), Some("aaaaaaaaaab".to_string()));
}

#[test]
fn fixed_length_zero_gives_bare_suffixes() {
    let out = drain(EnumCursor::new(0, true, strings(&["", "/"])));
    assert_eq!(out, strings(&["", "/"]));
}
