use disk_doctor::text::{
    chars_of, find_exec, last_piece_exec, split_lines, split_words, string_of, trim_char_exec,
    trim_end_matches_exec, trim_exec, trim_start_matches_exec,
};

fn chars(s: &str) -> Vec<char> {
    chars_of(s)
}

fn text(v: &[char]) -> String {
    v.iter().collect()
}

const SAMPLES: &[&str] = &[
    "",
    "\n",
    "a",
    "a\n",
    "a\r\n",
    "a\r",
    "a\nb",
    "a\r\nb\r\n",
    "\r\n\r\n",
    "  x  y\tz \n\n  w",
    "line\rwith\rcr\n",
    "\u{3000}wide\u{2003}spaces\u{85}",
    "tail\r\r\n",
];

#[test]
fn lines_match_str_lines() {
    for s in SAMPLES {
        let got: Vec<String> = split_lines(&chars(s)).iter().map(|l| text(l)).collect();
        let want: Vec<String> = s.lines().map(|l| l.to_string()).collect();
        assert_eq!(got, want, "input {:?}", s);
    }
}

#[test]
fn words_match_split_whitespace() {
    for s in SAMPLES {
        let got: Vec<String> = split_words(&chars(s)).iter().map(|w| text(w)).collect();
        let want: Vec<String> = s.split_whitespace().map(|w| w.to_string()).collect();
        assert_eq!(got, want, "input {:?}", s);
    }
}

#[test]
fn trim_matches_str_trim() {
    for s in SAMPLES {
        assert_eq!(text(&trim_exec(&chars(s))), s.trim(), "input {:?}", s);
    }
}

#[test]
fn pattern_trims_match_std() {
    let cases = ["/dev//dev/disk0", "repo.git.git", ".git", "abc", "", "x/.git/config"];
    for s in cases {
        assert_eq!(text(&trim_start_matches_exec(&chars(s), &chars("/dev/"))), s.trim_start_matches("/dev/"));
        assert_eq!(text(&trim_end_matches_exec(&chars(s), &chars(".git"))), s.trim_end_matches(".git"));
    }
    for s in ["''x''", "\"q\"", "'", "''", "a'b"] {
        assert_eq!(text(&trim_char_exec(&chars(s), '\'')), s.trim_matches('\''));
    }
}

#[test]
fn last_piece_matches_rsplit() {
    for s in ["a/b/c", "abc", "a/", "/", "", "git@github.com:me/repo.git"] {
        assert_eq!(text(&last_piece_exec(&chars(s), '/')), s.rsplit('/').next().unwrap());
    }
}

#[test]
fn find_matches_str_find() {
    for (s, p) in [("xx git clone y", "git clone "), ("abc", "bc"), ("abc", "abcd"), ("aaa", "aa"), ("", "a")] {
        assert_eq!(find_exec(&chars(s), &chars(p)), s.find(p).map(|b| s[..b].chars().count()));
    }
}

#[test]
fn strings_round_trip() {
    assert_eq!(string_of(&chars("héllo ✓")), "héllo ✓");
}
