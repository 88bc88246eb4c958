use syracuse::align::needleman_wunsch_traceback;
use syracuse::animation::Animation;
use syracuse::config::{Config, UNIT};
use syracuse::error::Error;
use syracuse::syrtime::{ns_to_pretty_string, TimeFormatting, Weekday, WeekdayFormatting};

#[test]
fn pretty_nanoseconds() {
    assert_eq!(ns_to_pretty_string(0), "00:00:00.000");
    assert_eq!(ns_to_pretty_string(3_723_004_005_006), "01:02:03.004");
    assert_eq!(ns_to_pretty_string(59_999_999_999), "00:00:59.999");
    assert_eq!(ns_to_pretty_string(360_000_000_000_000), "100:00:00.000");
}

#[test]
fn clock_strings_from_milliseconds() {
    assert_eq!(3_723_004u64.s_str(), "01:02:03");
    assert_eq!(3_723_004u64.ms_str(), "01:02:03.004");
    assert_eq!(0u64.ms_str(), "00:00:00.000");
    assert_eq!(999u64.s_str(), "00:00:00");
    assert_eq!(86_399_999u64.ms_str(), "23:59:59.999");
}

#[test]
fn weekday_names() {
    assert_eq!(Weekday::Monday.to_string(), "Monday");
    assert_eq!(Weekday::Wednesday.to_string(), "Wednesday");
    assert_eq!(Weekday::Sunday.to_string(), "Sunday");
}

#[test]
fn animation_frames_are_padded_and_cycle() {
    let builder = vec![
        ("|  ".to_string(), "  |".to_string()),
        ("/  ".to_string(), "  /".to_string()),
    ];
    let mut a = Animation::construct(builder, 5, 3);
    assert_eq!(a.index, 0);
    assert_eq!(a.frames[0], ("\r|  ".to_string(), "  |  ".to_string()));
    assert_eq!(a.next_frame("abc"), Some("\r|  abc  |  ".to_string()));
    assert_eq!(a.index, 1);
    assert_eq!(a.next_frame("abc"), Some("\r/  abc  /  ".to_string()));
    assert_eq!(a.index, 0);
    let mut empty = Animation::construct(vec![], 4, 0);
    assert_eq!(empty.next_frame("x"), None);
}

#[test]
fn error_texts() {
    let e = Error {};
    assert_eq!(e.message(), "syracuse error");
    assert_eq!(e.description(), "");
}

#[test]
fn default_parameters() {
    let c = Config::default_params();
    assert_eq!((c.match_score, c.mismatch_penalty, c.gap_penalty), (2, -1, -1));
    assert_eq!(c.sw_nw_ratio, UNIT / 2);
    assert_eq!(c.search_threshold, 0);
}

#[test]
fn traceback_walks_to_the_border() {
    let c = Config::default_params();
    assert_eq!(needleman_wunsch_traceback("AB", "AB", &c), vec![(1, 1), (0, 0)]);
    assert_eq!(needleman_wunsch_traceback("AB", "XAB", &c), vec![(1, 2), (0, 1)]);
    assert_eq!(needleman_wunsch_traceback("ABC", "Z", &c), vec![(2, 1), (1, 1), (0, 1)]);
    assert_eq!(
        needleman_wunsch_traceback("MATH-201", "MATH201", &c),
        vec![(7, 6), (6, 5), (5, 4), (4, 4), (3, 3), (2, 2), (1, 1), (0, 0)]
    );
    assert_eq!(needleman_wunsch_traceback("", "MATH", &c), vec![]);
}
