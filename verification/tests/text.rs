use current_location::status::status_name;
use current_location::tosubstr::ToSubStr;
use current_location::{known_procs, pid_text, BSF_HEAP_CAPACITY};

#[test]
fn process_ids_in_decimal() {
    assert_eq!(pid_text(0), "0");
    assert_eq!(pid_text(7), "7");
    assert_eq!(pid_text(10), "10");
    assert_eq!(pid_text(52), "52");
    assert_eq!(pid_text(4194304), "4194304");
    assert_eq!(pid_text(-1), "-1");
    assert_eq!(pid_text(-120), "-120");
    assert_eq!(pid_text(i32::MAX), "2147483647");
    assert_eq!(pid_text(i32::MIN), "-2147483648");
    for pid in [-1000, -999, -11, 9, 99, 100, 101, 65535, 1234567890] {
        assert_eq!(pid_text(pid), pid.to_string());
    }
}

#[test]
fn names_of_known_programs() {
    assert_eq!(known_procs(), vec!["zsh".to_string(), "nvim".to_string()]);
    assert_eq!(BSF_HEAP_CAPACITY, 1024);
}

#[test]
fn name_line_of_a_status_file() {
    assert_eq!(status_name("Name:\tzsh\n"), Some("zsh".to_string()));
    assert_eq!(status_name("Name:zsh"), Some("zsh".to_string()));
    assert_eq!(status_name("Name:  \t Web Content \r\n"), Some("Web Content".to_string()));
    assert_eq!(status_name("Name:"), Some(String::new()));
    assert_eq!(status_name("Name: \t\n"), Some(String::new()));
    assert_eq!(status_name("Name:\u{a0}\u{3000}gr\u{fc}n\u{2003}\n"), Some("gr\u{fc}n".to_string()));
    assert_eq!(status_name("Name:\tName:\n"), Some("Name:".to_string()));
}

#[test]
fn other_lines_of_a_status_file() {
    assert_eq!(status_name(""), None);
    assert_eq!(status_name("Name"), None);
    assert_eq!(status_name("name:\tzsh\n"), None);
    assert_eq!(status_name(" Name:\tzsh\n"), None);
    assert_eq!(status_name("Umask:\t0022\n"), None);
    assert_eq!(status_name("State:\tS (sleeping)\n"), None);
    assert_eq!(status_name("N\u{e4}me:\tzsh\n"), None);
}

#[test]
fn name_is_what_trim_leaves() {
    for line in ["Name:\tzsh\n", "Name: a b ", "Name:\u{2028}x\u{85}", "Name:\u{200b}x"] {
        let rest = line.strip_prefix("Name:").unwrap();
        assert_eq!(status_name(line), Some(rest.trim().to_string()));
    }
}

#[test]
fn text_cut_to_a_part() {
    let mut text = "Name:\tzsh\n".to_string();
    text.to_substr(6..9);
    assert_eq!(text, "zsh");

    let mut text = "abc".to_string();
    text.to_substr(0..3);
    assert_eq!(text, "abc");
    text.to_substr(1..1);
    assert_eq!(text, "");
    text.to_substr(0..0);
    assert_eq!(text, "");

    let mut text = "gr\u{fc}n und bl\u{e4}u".to_string();
    text.to_substr(2..5);
    assert_eq!(text, "\u{fc}n");
}
