use rustlabs::char_checks::{
    char_to_number, char_to_number_hex, check_printable, error_message, to_lowercase, to_uppercase,
    CharError,
};
use rustlabs::prime_cache::Cache;
use rustlabs::students::{oldest, parse_student_line, parse_u32, youngest, IntErrorKind, Student, StudentLine};
use rustlabs::terminal::{Command, CountCommand, PingCommand, Terminal, TimesCommand};
use rustlabs::text::chars_of;
use rustlabs::word_freq::{frequency_report, max_word_length, word_frequencies, word_report};

fn student(name: &str, age: u32) -> Student {
    Student { name: String::from(name), phone: String::from("0700"), age }
}

fn demo_terminal() -> Terminal {
    let mut t = Terminal::new();
    t.register(Command::Ping(PingCommand));
    t.register(Command::Count(CountCommand));
    t.register(Command::Times(TimesCommand { count: 0 }));
    t
}

#[test]
fn case_conversions() {
    assert_eq!(to_uppercase('d'), Ok('D'));
    assert_eq!(to_lowercase('A'), Ok('a'));
    assert_eq!(to_uppercase('&'), Err(CharError::NotALetter));
    assert_eq!(to_lowercase('3'), Err(CharError::NotALetter));
    assert_eq!(to_uppercase('é'), Ok('é'));
    assert_eq!(to_uppercase('Q'), Ok('Q'));
}

#[test]
fn printable_characters() {
    assert_eq!(check_printable('X'), Ok('X'));
    assert_eq!(check_printable('~'), Ok('~'));
    assert_eq!(check_printable(' '), Err(CharError::NotAPrintableChar));
    assert_eq!(check_printable('é'), Err(CharError::NotAPrintableChar));
}

#[test]
fn digit_values() {
    assert_eq!(char_to_number('7'), Ok(7));
    assert_eq!(char_to_number('}'), Err(CharError::NotASCIIDigit));
    assert_eq!(char_to_number('a'), Err(CharError::NotASCIIDigit));
    assert_eq!(char_to_number_hex('C'), Ok(12));
    assert_eq!(char_to_number_hex('f'), Ok(15));
    assert_eq!(char_to_number_hex('9'), Ok(9));
    assert_eq!(char_to_number_hex('K'), Err(CharError::NotHexDigit));
}

#[test]
fn error_messages() {
    assert_eq!(error_message(&CharError::NotALetter), "Error: Character is not a letter.");
    assert_eq!(error_message(&CharError::NotAPrintableChar), "Error: Character is no printable.");
    assert_eq!(error_message(&CharError::NotASCIIDigit), "Error: Character is not an ASCII digit.");
    assert_eq!(error_message(&CharError::NotHexDigit), "Error: Character is not a hexadecimal-digit.");
}

#[test]
fn parse_u32_cases() {
    assert_eq!(parse_u32(&chars_of("21")), Ok(21));
    assert_eq!(parse_u32(&chars_of("+7")), Ok(7));
    assert_eq!(parse_u32(&chars_of("4294967295")), Ok(u32::MAX));
    assert_eq!(parse_u32(&chars_of("4294967296")), Err(IntErrorKind::PosOverflow));
    assert_eq!(parse_u32(&chars_of("")), Err(IntErrorKind::Empty));
    assert_eq!(parse_u32(&chars_of("+")), Err(IntErrorKind::InvalidDigit));
    assert_eq!(parse_u32(&chars_of("-3")), Err(IntErrorKind::InvalidDigit));
    assert_eq!(parse_u32(&chars_of(" 3")), Err(IntErrorKind::InvalidDigit));
}

#[test]
fn parse_u32_agrees_with_std() {
    for s in ["0", "007", "99999999999", "12a", "+0", "-", "4294967295", "429496729a"] {
        let expected = s.parse::<u32>().map_err(|e| match e.kind() {
            std::num::IntErrorKind::Empty => IntErrorKind::Empty,
            std::num::IntErrorKind::InvalidDigit => IntErrorKind::InvalidDigit,
            std::num::IntErrorKind::PosOverflow => IntErrorKind::PosOverflow,
            _ => panic!("unexpected kind"),
        });
        assert_eq!(parse_u32(&chars_of(s)), expected, "{}", s);
    }
}

#[test]
fn student_lines() {
    match parse_student_line("Ana,0722111222,21") {
        StudentLine::Record(s) => {
            assert_eq!(s.name, "Ana");
            assert_eq!(s.phone, "0722111222");
            assert_eq!(s.age, 21);
        }
        other => panic!("unexpected {:?}", other),
    }
    assert!(matches!(parse_student_line("Ana,0722,x"), StudentLine::BadAge(IntErrorKind::InvalidDigit)));
    assert!(matches!(parse_student_line("Ana,0722"), StudentLine::InvalidFormat));
    assert!(matches!(parse_student_line("a,b,c,d"), StudentLine::InvalidFormat));
    assert!(matches!(parse_student_line("Ana,0722, 21"), StudentLine::BadAge(IntErrorKind::InvalidDigit)));
}

#[test]
fn oldest_is_last_of_the_eldest() {
    let students = vec![student("a", 20), student("b", 30), student("c", 18), student("d", 30)];
    assert_eq!(oldest(&students), Some(3));
    assert_eq!(oldest(&[]), None);
}

#[test]
fn youngest_is_first_of_the_youngest() {
    let students = vec![student("a", 20), student("b", 18), student("c", 30), student("d", 18)];
    assert_eq!(youngest(&students), Some(1));
    assert_eq!(youngest(&[]), None);
}

#[test]
fn picks_match_std_iterators() {
    let students = vec![student("a", 5), student("b", 9), student("c", 9), student("d", 1), student("e", 1)];
    let max_pos = students.iter().enumerate().max_by_key(|(_, s)| s.age).map(|(i, _)| i);
    let min_pos = students.iter().enumerate().min_by_key(|(_, s)| s.age).map(|(i, _)| i);
    assert_eq!(oldest(&students), max_pos);
    assert_eq!(youngest(&students), min_pos);
}

#[test]
fn terminal_runs_commands() {
    let mut t = demo_terminal();
    let out = t.run("ping\ncount a b c\n\n   \ntimes\ntimes x\nfoo bar\n");
    assert_eq!(
        out,
        vec![
            "pong!",
            "counted 3 args",
            "This command was called: 1 time/times!",
            "This command was called: 2 time/times!",
            "Unknown command: foo",
        ]
    );
}

#[test]
fn terminal_stops_at_stop() {
    let mut t = demo_terminal();
    let out = t.run("  ping  \nSTOP now\nping\n");
    assert_eq!(out, vec!["pong!"]);
    let out = t.run("times\nStop\ntimes\n");
    assert_eq!(out, vec!["This command was called: 1 time/times!"]);
}

#[test]
fn terminal_keeps_counter_between_runs() {
    let mut t = demo_terminal();
    t.run("times\n");
    let out = t.run("times\ncount\n");
    assert_eq!(out, vec!["This command was called: 2 time/times!", "counted 0 args"]);
}

#[test]
fn commands_by_themselves() {
    assert_eq!(PingCommand.get_name(), "ping");
    assert_eq!(CountCommand.get_name(), "count");
    let mut times = TimesCommand { count: 4 };
    assert_eq!(times.get_name(), "times");
    assert_eq!(times.exec(&[]), Ok(String::from("This command was called: 5 time/times!")));
    assert_eq!(times.count, 5);
    let args = vec![String::from("x"), String::from("y")];
    assert_eq!(CountCommand.exec(&args), Ok(String::from("counted 2 args")));
    assert_eq!(PingCommand.exec(&args), Ok(String::from("pong!")));
}

#[test]
fn word_frequencies_sorted() {
    let report = word_frequencies("The cat and the hat. THE end!");
    assert_eq!(
        report,
        vec![
            (String::from("the"), 3),
            (String::from("and"), 1),
            (String::from("cat"), 1),
            (String::from("end"), 1),
            (String::from("hat"), 1),
        ]
    );
    assert_eq!(max_word_length(&report), 3);
}

#[test]
fn word_frequencies_edge_cases() {
    assert_eq!(word_frequencies(""), Vec::<(String, i32)>::new());
    assert_eq!(word_frequencies("!!  ,,"), Vec::<(String, i32)>::new());
    assert_eq!(
        word_frequencies("b2 a1 B2 Émile émile"),
        vec![(String::from("b2"), 2), (String::from("émile"), 2), (String::from("a1"), 1)]
    );
    assert_eq!(max_word_length(&[]), 0);
    assert_eq!(max_word_length(&[(String::from("émile"), 1), (String::from("ab"), 3)]), 6);
}

#[test]
fn cache_answers_primality() {
    let mut cache = Cache::new(2);
    assert!(cache.get_or_insert(7));
    assert!(!cache.get_or_insert(8));
    assert!(cache.get_or_insert(7));
    assert!(cache.get_or_insert(13));
    assert!(!cache.get_or_insert(8));
    assert!(!cache.get_or_insert(1));
    assert!(!cache.get_or_insert(-5));
    assert!(cache.get_or_insert(2));
}

#[test]
fn cache_is_prime_direct() {
    let cache = Cache::new(10);
    assert!(cache.is_prime(2));
    assert!(cache.is_prime(97));
    assert!(!cache.is_prime(91));
    assert!(!cache.is_prime(0));
    assert!(!cache.is_prime(i32::MIN));
}

#[test]
fn cache_same_number_twice() {
    let mut cache = Cache::new(1);
    assert!(cache.get_or_insert(11));
    assert!(cache.get_or_insert(11));
    assert!(!cache.get_or_insert(12));
    assert!(cache.get_or_insert(11));
}

#[test]
fn frequency_report_counts_given_words() {
    let words: Vec<String> = ["b", "a", "b", "c", "a", "b"].iter().map(|w| String::from(*w)).collect();
    assert_eq!(
        frequency_report(&words),
        vec![(String::from("b"), 3), (String::from("a"), 2), (String::from("c"), 1)]
    );
    assert_eq!(frequency_report(&[]), Vec::<(String, i32)>::new());
    let mixed = vec![String::from("The"), String::from("the")];
    assert_eq!(frequency_report(&mixed), vec![(String::from("The"), 1), (String::from("the"), 1)]);
}

#[test]
fn word_report_on_short_texts() {
    assert_eq!(
        word_report("a b A"),
        Some(vec![(String::from("a"), 2), (String::from("b"), 1)])
    );
    assert_eq!(word_report(""), Some(Vec::new()));
}
