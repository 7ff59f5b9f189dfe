use vsb::http::{HttpResponse, JsonErrorReader};
use vsb::paths::message_with_path;
use vsb::text::{
    chars_eq, chars_le_exec, chars_of, copy_string, find_char, lines, parse_i128, parse_u64, push_decimal,
    push_signed_decimal, slash_join, split, splitn, str_eq, string_of, sub_vec, u64_to_string,
};

fn cs(s: &str) -> Vec<char> {
    s.chars().collect()
}

fn strings(v: Vec<Vec<char>>) -> Vec<String> {
    v.into_iter().map(|c| c.into_iter().collect()).collect()
}

#[test]
fn chars_and_strings_round_trip() {
    assert_eq!(chars_of("añb"), vec!['a', 'ñ', 'b']);
    assert_eq!(string_of(&['x', 'y']), "xy");
    assert_eq!(copy_string("text"), "text");
}

#[test]
fn decimal_numbers_are_written_like_std() {
    assert_eq!(u64_to_string(0), "0");
    assert_eq!(u64_to_string(1234567890), "1234567890");
    assert_eq!(u64_to_string(u64::MAX), u64::MAX.to_string());

    let mut out = cs("n=");
    push_decimal(u128::MAX, &mut out);
    assert_eq!(out.into_iter().collect::<String>(), format!("n={}", u128::MAX));

    for v in [0i128, -1, 42, i128::MIN, i128::MAX] {
        let mut out = Vec::new();
        push_signed_decimal(v, &mut out);
        assert_eq!(out.into_iter().collect::<String>(), v.to_string());
    }
}

#[test]
fn numbers_are_parsed_like_std() {
    for s in ["0", "+7", "18446744073709551615", "18446744073709551616", "", "+", "-1", "1a", "007"] {
        assert_eq!(parse_u64(&cs(s)), s.parse::<u64>().ok(), "{:?}", s);
    }
    for s in ["-170141183460469231731687303715884105728", "170141183460469231731687303715884105727",
              "170141183460469231731687303715884105728", "-", "-0", "+12", "x"] {
        assert_eq!(parse_i128(&cs(s)), s.parse::<i128>().ok(), "{:?}", s);
    }
}

#[test]
fn debug_form_matches_std() {
    assert_eq!(message_with_path("at ", "a\"b\n"), format!("at {:?}", "a\"b\n"));
    assert_eq!(message_with_path("at ", ""), "at \"\"");
}

#[test]
fn splitting_matches_std() {
    for s in ["", "a", "a:b", "a::b:", ":x"] {
        let expected: Vec<String> = s.split(':').map(str::to_owned).collect();
        assert_eq!(strings(split(&cs(s), ':')), expected, "{:?}", s);
        for n in 1..4 {
            let expected: Vec<String> = s.splitn(n, ':').map(str::to_owned).collect();
            assert_eq!(strings(splitn(&cs(s), ':', n)), expected, "{:?} {}", s, n);
        }
    }
}

#[test]
fn lines_match_std() {
    for s in ["", "a", "a\n", "a\r\nb", "a\n\nb\n", "\n", "x\r", "a\r\r\n"] {
        let expected: Vec<String> = s.lines().map(str::to_owned).collect();
        assert_eq!(strings(lines(&cs(s))), expected, "{:?}", s);
    }
}

#[test]
fn find_char_and_sub_vec() {
    let s = cs("ab/cd/ef");
    assert_eq!(find_char(&s, 0, '/'), 2);
    assert_eq!(find_char(&s, 3, '/'), 5);
    assert_eq!(find_char(&s, 6, '/'), 8);
    assert_eq!(sub_vec(&s, 3, 5), cs("cd"));
}

#[test]
fn string_order_matches_std() {
    let words = ["", "a", "ab", "b", "B", "aa", "ä"];
    for a in words {
        for b in words {
            assert_eq!(chars_le_exec(&cs(a), &cs(b)), a <= b, "{:?} {:?}", a, b);
            assert_eq!(chars_eq(&cs(a), &cs(b)), a == b);
            assert_eq!(str_eq(a, b), a == b);
        }
    }
}

#[test]
fn utf8_text_accepts_only_valid_utf8() {
    let reader = JsonErrorReader::<()>::new();
    let reply = |body: Vec<u8>| HttpResponse { status: 500, headers: vec![], body };
    assert_eq!(reader.read_plain_text_error(reply("héllo".as_bytes().to_vec())), "héllo");
    assert_eq!(reader.read_plain_text_error(reply(vec![0xff, 0x00])), "500 Internal Server Error");
}

#[test]
fn slash_join_joins_with_one_slash() {
    assert_eq!(slash_join("a", "b"), "a/b");
    assert_eq!(slash_join("/root", "group"), "/root/group");
}
