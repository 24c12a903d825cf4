use lxr::args::Args;
use lxr::parse::is_white_space;
use lxr::parse::parse_hex;
use lxr::parse::parse_number;
use lxr::parse::rc_trace_init_from_env;
use lxr::parse::rc_undercount_init_from_env;
use lxr::parse::split_at_commas;
use lxr::parse::trim;
use lxr::parse::NumberError;
use lxr::plan::Lxr;
use lxr::state::Event;
use lxr::state::Phase;
use lxr::text::append_decimal;
use lxr::text::append_hexadecimal;

fn collector() -> Lxr {
    let args = Args {
        buffer_size: 4,
        max_ref_count: 7,
        max_young_evac_size: 1024,
        max_pause_millis: None,
        lazy_decrements: false,
        rc_nursery_evacuation: false,
        rc_mature_evacuation: false,
        inc_max_copy_depth: false,
        compressed_pointers: false,
        sanity: false,
        poison_dead_objects: false,
        heap_start: 0x10000,
        heap_end: 0x20000,
        unlog_base: 0x100_0000,
        block_bytes: 0x1000,
    };
    let phase = Phase {
        current_pause: None,
        previous_pause: None,
        cm_enabled: false,
        cm_in_progress: false,
        in_sanity: false,
        used_pages: 0,
        collection_reserved_pages: 0,
        total_pages: 0,
        lazy_jobs_cycle: 0,
    };
    Lxr::new(args, phase)
}

fn chars(text: &str) -> Vec<char> {
    text.chars().collect()
}

#[test]
fn white_space_is_that_of_char() {
    for n in 0u32..0x11_0000 {
        if let Some(c) = char::from_u32(n) {
            assert_eq!(is_white_space(c), c.is_whitespace(), "{:x}", n);
        }
    }
}

#[test]
fn trimming_is_that_of_str() {
    for text in ["", " ", "a", " a b ", "\t\u{a0}x\u{3000}\n", "\u{200b} y"] {
        assert_eq!(trim(&chars(text)), chars(text.trim()));
    }
}

#[test]
fn splitting_is_that_of_str() {
    for text in ["", ",", "a", "a,b", ",a,,b,", "0x1 , 0x2"] {
        let expected: Vec<Vec<char>> = text.split(',').map(chars).collect();
        assert_eq!(split_at_commas(&chars(text)), expected);
    }
}

#[test]
fn numbers_are_those_of_usize() {
    let largest = format!("{}", usize::MAX);
    let too_large = format!("{}0", usize::MAX);
    for text in [
        "", "0", "7", "007", "+7", "+", "-", "-7", "++7", "7a", "a7", " 7", "12 ", "\u{661}",
        &largest, &too_large, "18446744073709551616", "99999999999999999999x",
    ] {
        for radix in [2u32, 10, 16, 36] {
            let expected = usize::from_str_radix(text, radix);
            let found = parse_number(&chars(text), radix);
            assert_eq!(found.ok(), expected.clone().ok(), "{} {}", text, radix);
            if let Err(e) = found {
                let message = match e {
                    NumberError::Empty => "cannot parse integer from empty string",
                    NumberError::InvalidDigit => "invalid digit found in string",
                    NumberError::Overflow => "number too large to fit in target type",
                };
                assert_eq!(expected.unwrap_err().to_string(), message, "{} {}", text, radix);
            }
        }
    }
}

#[test]
fn hexadecimal_numbers_may_have_a_prefix() {
    assert_eq!(parse_hex(&chars("0x200ffc01000")), Ok(0x200ffc01000));
    assert_eq!(parse_hex(&chars("0X1f")), Ok(0x1f));
    assert_eq!(parse_hex(&chars("1F")), Ok(0x1f));
    assert_eq!(parse_hex(&chars("0x")), Err(NumberError::Empty));
    assert_eq!(parse_hex(&chars("0x0x1")), Err(NumberError::InvalidDigit));
    assert_eq!(parse_hex(&chars("x1")), Err(NumberError::InvalidDigit));
    assert_eq!(parse_hex(&chars("0x+1")), Ok(1));
    assert_eq!(parse_hex(&chars("+0x1")), Err(NumberError::InvalidDigit));
    assert_eq!(parse_hex(&chars("ffffffffffffffff0")), Err(NumberError::Overflow));
}

#[test]
fn numbers_that_are_written_are_read_back() {
    for n in [0usize, 1, 9, 10, 15, 16, 255, 0x200ffc01000, usize::MAX] {
        let mut hex = String::new();
        append_hexadecimal(&mut hex, n);
        assert_eq!(hex, format!("{:#x}", n));
        assert_eq!(parse_hex(&chars(&hex)), Ok(n));
        let mut dec = String::from("n=");
        append_decimal(&mut dec, n);
        assert_eq!(dec, format!("n={}", n));
        assert_eq!(parse_number(&chars(&dec[2..]), 10), Ok(n));
    }
}

#[test]
fn a_list_of_addresses_is_traced() {
    let mut lxr = collector();
    rc_trace_init_from_env(&mut lxr, Some("0x200ffc01000, 0X200ffc02000 ,,zz,ff"), None);
    assert_eq!(lxr.diag.addresses, vec![0x200ffc01000, 0x200ffc02000, 0xff]);
    assert_eq!(
        lxr.diag.log,
        vec![
            Event::TracingAddress { address: 0x200ffc01000, index: 0 },
            Event::TracingAddress { address: 0x200ffc02000, index: 1 },
            Event::BadAddress { part: 3, error: NumberError::InvalidDigit },
            Event::TracingAddress { address: 0xff, index: 2 },
        ]
    );
}

#[test]
fn errors_in_a_list_are_told_apart() {
    let mut lxr = collector();
    rc_trace_init_from_env(&mut lxr, Some("0x,10000000000000000,+"), None);
    assert_eq!(
        lxr.diag.log,
        vec![
            Event::BadAddress { part: 0, error: NumberError::Empty },
            Event::BadAddress { part: 1, error: NumberError::Overflow },
            Event::BadAddress { part: 2, error: NumberError::InvalidDigit },
        ]
    );
}

#[test]
fn a_tag_is_traced_without_its_low_bits() {
    let mut lxr = collector();
    rc_trace_init_from_env(&mut lxr, None, Some(" 0x200ffc01c0f\n"));
    assert_eq!(lxr.diag.tag, 0x200ffc01c00);
    assert_eq!(lxr.diag.log, vec![Event::TracingTag { tag: 0x200ffc01c00 }]);
    rc_trace_init_from_env(&mut lxr, None, Some(""));
    assert_eq!(lxr.diag.log[1], Event::BadTag { error: NumberError::Empty });
    assert_eq!(lxr.diag.tag, 0x200ffc01c00);
}

#[test]
fn nothing_is_traced_unless_asked_for() {
    let mut lxr = collector();
    rc_trace_init_from_env(&mut lxr, None, None);
    rc_trace_init_from_env(&mut lxr, Some(" , "), None);
    assert!(lxr.diag.log.is_empty());
    assert!(lxr.diag.addresses.is_empty());
    assert_eq!(lxr.diag.tag, 0);
}

#[test]
fn either_setting_enables_the_detector() {
    for (budget, from_gc, enabled, expected) in [
        (None, None, false, (200, 0)),
        (Some("50"), None, true, (50, 0)),
        (None, Some(" 27 "), true, (200, 27)),
        (Some("5"), Some("6"), true, (5, 6)),
        (Some("x"), None, false, (200, 0)),
        (Some("x"), Some("6"), true, (200, 6)),
        (Some("7"), Some("-1"), true, (7, 0)),
        (None, Some(""), false, (200, 0)),
    ] {
        let mut lxr = collector();
        rc_undercount_init_from_env(&mut lxr, budget, from_gc);
        assert_eq!(lxr.diag.undercount_enabled, enabled);
        assert_eq!((lxr.diag.undercount_budget, lxr.diag.undercount_from_gc), expected);
        if enabled {
            let (budget, from_gc) = expected;
            assert_eq!(lxr.diag.log, vec![Event::UndercountEnabled { budget, from_gc }]);
        } else {
            assert!(lxr.diag.log.is_empty());
        }
    }
}

#[test]
fn configurations_are_checked() {
    let good = collector().args;
    assert!(good.is_valid());
    assert!(!Args { buffer_size: 0, ..good }.is_valid());
    assert!(!Args { max_ref_count: 1, ..good }.is_valid());
    assert!(!Args { block_bytes: 0, ..good }.is_valid());
    assert!(!Args { unlog_base: usize::MAX, ..good }.is_valid());
}
