use rustbuster::dispatch::{form_url, Dispatcher, Step};
use rustbuster::report::{is_discarded, render, DisplayOptions};

fn plain() -> DisplayOptions {
    DisplayOptions {
        verbose: false,
        expand: false,
        add_slash: false,
        hide_status: false,
        show_len: false,
        show_redirect: false,
    }
}

#[test]
fn discarded_status_is_dropped_unless_verbose() {
    let discard = vec![404u16];
    let mut lines = Vec::new();
    for (word, status) in [("admin", 200u16), ("login", 404u16)] {
        let url = form_url("http://x/", word, false);
        if let Some(l) = render(&plain(), &discard, word, status, &url, 0) {
            lines.push(l);
        }
    }
    assert_eq!(lines, vec!["/admin (200)".to_string()]);
    assert!(lines.iter().all(|l| !l.contains("login")));
}

#[test]
fn verbose_labels_keep_and_drop() {
    let discard = vec![404u16];
    let o = DisplayOptions { verbose: true, ..plain() };
    assert_eq!(render(&o, &discard, "a", 404, "http://x/a", 0), Some("Drop: /a (404)".to_string()));
    assert_eq!(render(&o, &discard, "a", 200, "http://x/a", 0), Some("Keep: /a (200)".to_string()));
}

#[test]
fn redirect_target_only_when_asked() {
    let discard = vec![404u16];
    let url = "http://x/old";
    assert_eq!(render(&plain(), &discard, "old", 301, url, 0), Some("/old (301)".to_string()));
    let o = DisplayOptions { show_redirect: true, ..plain() };
    assert_eq!(
        render(&o, &discard, "old", 301, url, 0),
        Some("/old (301) => http://x/old".to_string())
    );
    assert_eq!(render(&o, &discard, "old", 302, url, 0), Some("/old (302)".to_string()));
    let discard301 = vec![301u16];
    assert_eq!(render(&o, &discard301, "old", 301, url, 0), None);
}

#[test]
fn all_display_switches() {
    let discard = vec![404u16];
    let o = DisplayOptions {
        verbose: false,
        expand: true,
        add_slash: true,
        hide_status: true,
        show_len: true,
        show_redirect: false,
    };
    assert_eq!(
        render(&o, &discard, "img", 200, "http://x/img/", 1234),
        Some("http://x/img// [1234]".to_string())
    );
}

#[test]
fn discard_membership() {
    assert!(is_discarded(&vec![404, 500], 500));
    assert!(!is_discarded(&vec![404], 200));
    assert!(!is_discarded(&vec![], 404));
}

#[test]
fn urls_join_with_one_slash() {
    assert_eq!(form_url("http://x/", "admin", false), "http://x/admin");
    assert_eq!(form_url("http://x", "admin", false), "http://x/admin");
    assert_eq!(form_url("http://x", "admin", true), "http://x/admin/");
    assert_eq!(form_url("http://x/", "admin", true), "http://x/admin/");
}

#[test]
fn dispatcher_never_exceeds_the_limit() {
    let mut d = Dispatcher::new(3);
    let mut remaining = 10;
    let mut in_flight = 0;
    let mut max_seen = 0;
    let mut completed = 0;
    loop {
        match d.next_step() {
            Step::Admit => {
                if remaining == 0 {
                    d.source_done();
                } else {
                    remaining -= 1;
                    in_flight += 1;
                    d.admitted();
                }
            }
            Step::Await => {
                in_flight -= 1;
                completed += 1;
                d.completed();
            }
            Step::Finish => break,
        }
        max_seen = max_seen.max(in_flight);
        assert!(in_flight <= 3);
    }
    assert_eq!(max_seen, 3);
    assert_eq!(completed, 10);
    assert_eq!(in_flight, 0);
}

#[test]
fn dispatcher_with_empty_source_finishes() {
    let mut d = Dispatcher::new(2);
    assert_eq!(d.next_step(), Step::Admit);
    d.source_done();
    assert_eq!(d.next_step(), Step::Finish);
}

#[test]
fn dispatcher_with_zero_limit_admits_nothing() {
    let d = Dispatcher::new(0);
    assert_eq!(d.next_step(), Step::Finish);
}
