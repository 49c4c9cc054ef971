use rustbuster::text::{contains_str, decimal_string, replace_str, split_csv, trim_newline};
use rustbuster::wordlist::{count_lines, line_permutations, Wordlist};

fn strings(xs: &[&str]) -> Vec<String> {
    xs.iter().map(|s| s.to_string()).collect()
}

fn drain(wl: &mut Wordlist, lines: &[&str]) -> Vec<String> {
    let mut out = Vec::new();
    let mut rest = lines.iter();
    loop {
        if wl.needs_line() {
            match rest.next() {
                Some(l) => wl.push_line(l.to_string()),
                None => break,
            }
        }
        match wl.next() {
            Some(c) => out.push(c),
            None => break,
        }
    }
    out
}

#[test]
fn default_lists_yield_six_per_line() {
    let mut wl = Wordlist::new("w.txt".to_string(), 2, None, None, None, None);
    let out = drain(&mut wl, &["admin\n", "login\n"]);
    assert_eq!(out.len(), 12);
    assert!(out[..6].iter().all(|c| c == "admin"));
    assert!(out[6..].iter().all(|c| c == "login"));
    assert_eq!(wl.total_count, 2);
}

#[test]
fn extensions_give_suffixed_and_bare_words() {
    let mut wl = Wordlist::new("w.txt".to_string(), 1, None, None, None, Some(".php,".to_string()));
    let out = drain(&mut wl, &["index\n"]);
    assert!(out.contains(&"index.php".to_string()));
    assert!(out.contains(&"index".to_string()));
    assert_eq!(
        out,
        strings(&[
            "index", "index", "index", "index.php", "index", "index.php", "index", "index.php",
            "index"
        ])
    );
}

#[test]
fn swap_values_replace_the_marker() {
    let p = strings(&[""]);
    let a = strings(&[""]);
    let s = strings(&["a", "b"]);
    let e = strings(&[""]);
    let out = line_permutations("x{SWAP}y", &p, &a, &s, &e);
    assert_eq!(out, strings(&["xay", "xay", "xby", "xby", "xay", "xay", "xby", "xby"]));
    assert!(out.iter().all(|c| !c.contains("{SWAP}")));
    assert!(out.iter().all(|c| c.contains("xay") || c.contains("xby")));
}

#[test]
fn prepend_and_append_combine() {
    let p = strings(&["old_", "new_"]);
    let a = strings(&["1"]);
    let s = strings(&[""]);
    let e = strings(&[]);
    let out = line_permutations("db", &p, &a, &s, &e);
    assert_eq!(out, strings(&["db", "old_db", "old_db1", "new_db", "new_db1"]));
}

#[test]
fn crlf_lines_yield_no_line_breaks() {
    let mut wl = Wordlist::new(
        "w.txt".to_string(),
        3,
        Some("a,b".to_string()),
        None,
        Some("1".to_string()),
        Some(".txt".to_string()),
    );
    let out = drain(&mut wl, &["one\r\n", "t{SWAP}o\n", "last"]);
    assert!(!out.is_empty());
    assert!(out.iter().all(|c| !c.contains('\n') && !c.contains('\r')));
    assert!(out.contains(&"last".to_string()));
    assert!(out.contains(&"bt1o.txt".to_string()));
}

#[test]
fn total_count_is_the_product_estimate() {
    let wl = Wordlist::new(
        "w.txt".to_string(),
        4,
        Some("a,b".to_string()),
        Some("x,y,z".to_string()),
        None,
        Some(".php,.html".to_string()),
    );
    assert_eq!(wl.total_count, 4 * 2 * 3 * 1 * 2);
    assert_eq!(wl.base_count, 4);
    assert_eq!(wl.prepend, strings(&["a", "b"]));
    assert_eq!(wl.swap, strings(&[""]));
}

#[test]
fn total_count_differs_from_yield_on_plain_lines() {
    let mut wl = Wordlist::new("w.txt".to_string(), 1, None, None, None, None);
    let out = drain(&mut wl, &["a\n"]);
    assert_eq!(wl.total_count, 1);
    assert_eq!(out.len(), 6);
}

#[test]
fn count_lines_counts_terminated_lines() {
    assert_eq!(count_lines(b"a\nb\nc"), 2);
    assert_eq!(count_lines(b"a\r\nb\n"), 2);
    assert_eq!(count_lines(b""), 0);
}

#[test]
fn trim_newline_strips_lf_and_crlf() {
    let mut s = "word\r\n".to_string();
    trim_newline(&mut s);
    assert_eq!(s, "word");
    let mut s = "word\n".to_string();
    trim_newline(&mut s);
    assert_eq!(s, "word");
    let mut s = "word\r".to_string();
    trim_newline(&mut s);
    assert_eq!(s, "word\r");
    let mut s = String::new();
    trim_newline(&mut s);
    assert_eq!(s, "");
}

#[test]
fn split_csv_keeps_empty_fields() {
    assert_eq!(split_csv(""), strings(&[""]));
    assert_eq!(split_csv(".php,"), strings(&[".php", ""]));
    assert_eq!(split_csv("a,,b"), strings(&["a", "", "b"]));
}

#[test]
fn string_helpers() {
    assert!(contains_str("ab{SWAP}", "{SWAP}"));
    assert!(!contains_str("ab{SWA", "{SWAP}"));
    assert_eq!(replace_str("{SWAP}-{SWAP}", "{SWAP}", "v"), "v-v");
    assert_eq!(replace_str("aaa", "aa", "b"), "ba");
    assert_eq!(decimal_string(0), "0");
    assert_eq!(decimal_string(404), "404");
    assert_eq!(decimal_string(1234567), "1234567");
}
