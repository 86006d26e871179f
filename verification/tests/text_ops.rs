use fsexedit::text::{dec, dec_signed, hex, lines, parse_i32, parse_u32, parse_usize, split, trim};

fn chars(s: &str) -> Vec<char> {
    s.chars().collect()
}

fn string(v: &[char]) -> String {
    v.iter().collect()
}

#[test]
fn number_formats() {
    assert_eq!(string(&dec(0)), "0");
    assert_eq!(string(&dec(1234)), "1234");
    assert_eq!(string(&dec_signed(-30)), "-30");
    assert_eq!(string(&dec_signed(i64::MIN)), "-9223372036854775808");
    assert_eq!(string(&hex(0x41, true, 4)), "0041");
    assert_eq!(string(&hex(0x1f600, true, 4)), "1F600");
    assert_eq!(string(&hex(0xab, false, 4)), "00ab");
}

#[test]
fn number_parses_follow_from_str() {
    assert_eq!(parse_i32(&chars("-30")), Some(-30));
    assert_eq!(parse_i32(&chars("+7")), Some(7));
    assert_eq!(parse_i32(&chars("2147483648")), None);
    assert_eq!(parse_i32(&chars("-2147483648")), Some(i32::MIN));
    assert_eq!(parse_i32(&chars("")), None);
    assert_eq!(parse_i32(&chars("1 2")), None);
    assert_eq!(parse_u32(&chars("4294967295")), Some(u32::MAX));
    assert_eq!(parse_u32(&chars("4294967296")), None);
    assert_eq!(parse_usize(&chars("12")), Some(12));
    assert_eq!(parse_usize(&chars("-1")), None);
}

#[test]
fn lines_like_str_lines() {
    for s in ["", "a", "a\n", "a\r\nb", "a\n\nb\n", "x\r", "\n"] {
        let ours: Vec<String> = lines(&chars(s)).iter().map(|l| string(l)).collect();
        let std_lines: Vec<String> = s.lines().map(|l| l.to_string()).collect();
        assert_eq!(ours, std_lines, "lines of {s:?}");
    }
}

#[test]
fn split_and_trim() {
    let parts: Vec<String> = split(&chars("a, b,,c"), ',').iter().map(|p| string(&trim(p))).collect();
    assert_eq!(parts, vec!["a", "b", "", "c"]);
}
