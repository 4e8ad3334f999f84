use pico2w_shell::number::{parse_i32_chars, parse_usize_chars, push_dec, push_dec_pad, push_dec_signed};
use pico2w_shell::text::{
    bpush_exec, chars_of, count_char_exec, decode_chars, encode_chars, find_chars, fit_chars,
    fmt_concat, is_whitespace, last_bytes_of, starts_with_chars, string_of, suffix_on_boundary_exec,
    tokens_exec, trim_chars, trim_ws, utf8_len_of,
};

fn s(v: &[char]) -> String {
    v.iter().collect()
}

fn c(t: &str) -> Vec<char> {
    t.chars().collect()
}

#[test]
fn chars_and_string_round_trip() {
    let v = chars_of("héllo");
    assert_eq!(v, vec!['h', 'é', 'l', 'l', 'o']);
    assert_eq!(string_of(&v), "héllo");
}

#[test]
fn utf8_length_counts_bytes() {
    assert_eq!(utf8_len_of(&c("aé€😀")), 10);
    assert_eq!(utf8_len_of(&[]), 0);
}

#[test]
fn unicode_whitespace_is_recognised() {
    assert!(is_whitespace(' '));
    assert!(is_whitespace('\t'));
    assert!(is_whitespace('\u{3000}'));
    assert!(!is_whitespace('a'));
    assert!(!is_whitespace('\0'));
}

#[test]
fn trimming_whitespace_and_nul() {
    assert_eq!(s(&trim_ws(&c("  \tab c \n"))), "ab c");
    assert_eq!(s(&trim_ws(&c("   "))), "");
    assert_eq!(s(&trim_chars(&c("\0\0x \0"), true)), "x ");
    assert_eq!(s(&trim_chars(&c(" \0x"), true)), " \0x");
}

#[test]
fn finding_and_prefixes() {
    assert_eq!(find_chars(&c("hello world"), &c("o")), Some(4));
    assert_eq!(find_chars(&c("hello world"), &c("world")), Some(6));
    assert_eq!(find_chars(&c("xyz"), &c("q")), None);
    assert_eq!(find_chars(&c("ab"), &c("abc")), None);
    assert!(starts_with_chars(&c("GET / HTTP"), &c("GET ")));
    assert!(!starts_with_chars(&c("GE"), &c("GET ")));
}

#[test]
fn counting_a_character() {
    assert_eq!(count_char_exec(&c("a\nb\nc"), '\n'), 2);
    assert_eq!(count_char_exec(&c(""), '\n'), 0);
}

#[test]
fn words_of_a_line() {
    let t = tokens_exec(&c("  led  on \t"));
    assert_eq!(t, vec![c("led"), c("on")]);
    assert!(tokens_exec(&c("   ")).is_empty());
}

#[test]
fn bounded_append_is_all_or_nothing() {
    let mut acc = c("abc");
    assert!(bpush_exec(&mut acc, &c("de"), 5));
    assert_eq!(s(&acc), "abcde");
    let mut acc = c("abc");
    assert!(!bpush_exec(&mut acc, &c("def"), 5));
    assert_eq!(s(&acc), "abc");
    let mut acc = c("ab");
    assert!(!bpush_exec(&mut acc, &c("é"), 3));
    assert_eq!(s(&acc), "ab");
    assert_eq!(s(&fit_chars(&c("toolong"), 3)), "");
    assert_eq!(s(&fit_chars(&c("ok"), 3)), "ok");
}

#[test]
fn formatting_stops_at_first_piece_that_does_not_fit() {
    let pieces = vec![c("ab"), c("cdef"), c("g")];
    assert_eq!(s(&fmt_concat(&pieces, 4)), "ab");
    assert_eq!(s(&fmt_concat(&pieces, 7)), "abcdefg");
    assert_eq!(s(&fmt_concat(&pieces, 6)), "abcdef");
}

#[test]
fn last_bytes_and_boundaries() {
    assert_eq!(s(&last_bytes_of(&c("0123456789ABCDEF"), 6)), "ABCDEF");
    assert_eq!(s(&last_bytes_of(&c("abc"), 6)), "abc");
    assert!(!suffix_on_boundary_exec(&c("aé"), 1));
    assert!(suffix_on_boundary_exec(&c("aé"), 2));
    assert!(suffix_on_boundary_exec(&c("aé"), 5));
}

#[test]
fn utf8_decoding_and_encoding() {
    assert_eq!(decode_chars("ü!".as_bytes()), Some(vec!['ü', '!']));
    assert_eq!(decode_chars(&[0xff, 0x41]), None);
    assert_eq!(encode_chars(&c("ü!")), "ü!".as_bytes().to_vec());
}

#[test]
fn decimal_numerals() {
    let mut out = Vec::new();
    push_dec(&mut out, 0);
    assert_eq!(s(&out), "0");
    let mut out = Vec::new();
    push_dec(&mut out, 18446744073709551615);
    assert_eq!(s(&out), "18446744073709551615");
    let mut out = Vec::new();
    push_dec_pad(&mut out, 7, 2);
    assert_eq!(s(&out), "07");
    let mut out = Vec::new();
    push_dec_pad(&mut out, 12345, 4);
    assert_eq!(s(&out), "12345");
    let mut out = Vec::new();
    push_dec_signed(&mut out, -42);
    assert_eq!(s(&out), "-42");
    let mut out = Vec::new();
    push_dec_signed(&mut out, i64::MIN);
    assert_eq!(s(&out), "-9223372036854775808");
}

#[test]
fn parsing_signed_numbers() {
    assert_eq!(parse_i32_chars(&c("+12")), Some(12));
    assert_eq!(parse_i32_chars(&c("-540")), Some(-540));
    assert_eq!(parse_i32_chars(&c("-2147483648")), Some(i32::MIN));
    assert_eq!(parse_i32_chars(&c("2147483647")), Some(i32::MAX));
    assert_eq!(parse_i32_chars(&c("2147483648")), None);
    assert_eq!(parse_i32_chars(&c("")), None);
    assert_eq!(parse_i32_chars(&c("-")), None);
    assert_eq!(parse_i32_chars(&c("1a")), None);
    assert_eq!(parse_i32_chars(&c(" 1")), None);
}

#[test]
fn parsing_unsigned_numbers() {
    assert_eq!(parse_usize_chars(&c("42")), Some(42));
    assert_eq!(parse_usize_chars(&c("+7")), Some(7));
    assert_eq!(parse_usize_chars(&c("-1")), None);
    assert_eq!(parse_usize_chars(&c("")), None);
}

#[test]
fn last_bytes_beyond_sixteen() {
    let u = c("abcdefghijklmnopqrstuvwxyz");
    assert_eq!(s(&last_bytes_of(&u, 20)), "ghijklmnopqrstuvwxyz");
}
