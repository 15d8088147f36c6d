use ip_sniffer::config::{
    classify_arguments, contains_subslice, parse_u16, ArgsForm, ConfigError, IpAddress,
    IpSnifferArguments,
};
use ip_sniffer::partition::{all_worker_ports, worker_ports};
use ip_sniffer::report::{decimal_digits, finalize_scan_result, open_ports_of, port_report_line};

const LOOPBACK: IpAddress = IpAddress::V4(0x7f000001);

#[test]
fn coverage_union_is_full_range() {
    for &w in &[1u16, 2, 3, 7, 64, 1000, 1024] {
        let mut seen = vec![0u32; 65536];
        for i in 0..w {
            for p in worker_ports(i, w) {
                seen[p as usize] += 1;
            }
        }
        assert_eq!(seen[0], 0);
        for p in 1..=65535usize {
            assert_eq!(seen[p], 1, "port {} under {} workers", p, w);
        }
    }
}

#[test]
fn single_worker_gets_every_port() {
    let ports = worker_ports(0, 1);
    assert_eq!(ports.len(), 65535);
    for (k, &p) in ports.iter().enumerate() {
        assert_eq!(p as usize, k + 1);
    }
}

#[test]
fn max_pool_shares_are_bounded() {
    let mut total = 0usize;
    for i in 0..1024u16 {
        let share = worker_ports(i, 1024).len();
        assert!(share <= 64);
        total += share;
    }
    assert_eq!(total, 65535);
}

#[test]
fn shares_differ_by_at_most_one() {
    for &w in &[2u16, 3, 100, 1023] {
        let mut smallest = usize::MAX;
        let mut largest = 0usize;
        for i in 0..w {
            let share = worker_ports(i, w).len();
            smallest = smallest.min(share);
            largest = largest.max(share);
        }
        assert!(largest - smallest <= 1);
    }
}

#[test]
fn partitioning_is_idempotent() {
    assert_eq!(worker_ports(3, 7), worker_ports(3, 7));
    assert_eq!(worker_ports(0, 1024), worker_ports(0, 1024));
    assert_eq!(all_worker_ports(4), all_worker_ports(4));
}

#[test]
fn plan_lists_every_worker_in_order() {
    let plan = all_worker_ports(4);
    assert_eq!(plan.len(), 4);
    for i in 0..4u16 {
        assert_eq!(plan[i as usize], worker_ports(i, 4));
    }
}

#[test]
fn stride_is_strictly_increasing() {
    let ports = worker_ports(2, 5);
    assert_eq!(ports[0], 3);
    for k in 1..ports.len() {
        assert_eq!(ports[k], ports[k - 1] + 5);
    }
    assert!(*ports.last().unwrap() <= 65535);
    assert!(*ports.last().unwrap() as u32 + 5 > 65535);
}

#[test]
fn finalize_sorts_ascending() {
    let r = finalize_scan_result(&vec![9000, 8000, 22]);
    assert_eq!(r, vec![22, 8000, 9000]);
}

#[test]
fn finalize_empty_report() {
    let r = finalize_scan_result(&vec![]);
    assert!(r.is_empty());
}

#[test]
fn finalize_keeps_multiplicity() {
    let r = finalize_scan_result(&vec![5, 3, 5]);
    assert_eq!(r, vec![3, 5, 5]);
}

#[test]
fn finalize_of_distinct_reports_is_strictly_ascending() {
    let r = finalize_scan_result(&vec![443, 80, 65535, 1, 8080]);
    assert_eq!(r, vec![1, 80, 443, 8080, 65535]);
    for k in 1..r.len() {
        assert!(r[k - 1] < r[k]);
    }
}

#[test]
fn worker_reports_exactly_the_open_ports() {
    let assigned = vec![1u16, 2, 3, 4];
    let outcomes = vec![false, true, false, true];
    assert_eq!(open_ports_of(&assigned, &outcomes), vec![2, 4]);
}

#[test]
fn scan_scenario_two_listeners() {
    // A scan of a host listening on ports 8000 and 9000 only, with 4 workers.
    let mut reports: Vec<u16> = Vec::new();
    for i in 0..4u16 {
        let assigned = worker_ports(i, 4);
        let outcomes: Vec<bool> = assigned.iter().map(|&p| p == 8000 || p == 9000).collect();
        for p in open_ports_of(&assigned, &outcomes) {
            reports.push(p);
        }
    }
    assert_eq!(finalize_scan_result(&reports), vec![8000, 9000]);
}

#[test]
fn scan_scenario_no_listeners() {
    let mut reports: Vec<u16> = Vec::new();
    for i in 0..4u16 {
        let assigned = worker_ports(i, 4);
        let outcomes: Vec<bool> = assigned.iter().map(|_| false).collect();
        for p in open_ports_of(&assigned, &outcomes) {
            reports.push(p);
        }
    }
    assert!(finalize_scan_result(&reports).is_empty());
}

#[test]
fn report_lines_show_the_port() {
    assert_eq!(port_report_line(8000), b"8000 is opened".to_vec());
    assert_eq!(port_report_line(1), b"1 is opened".to_vec());
    assert_eq!(port_report_line(65535), b"65535 is opened".to_vec());
}

#[test]
fn decimal_rendering() {
    assert_eq!(decimal_digits(0), b"0".to_vec());
    assert_eq!(decimal_digits(7), b"7".to_vec());
    assert_eq!(decimal_digits(100), b"100".to_vec());
    assert_eq!(decimal_digits(65535), b"65535".to_vec());
    // rendering and parsing are inverses
    for &n in &[0u16, 1, 9, 10, 99, 1024, 65535] {
        assert_eq!(parse_u16(&decimal_digits(n)), Some(n));
    }
}

#[test]
fn parse_u16_accepts_plain_numerals() {
    assert_eq!(parse_u16(b"0"), Some(0));
    assert_eq!(parse_u16(b"4"), Some(4));
    assert_eq!(parse_u16(b"1024"), Some(1024));
    assert_eq!(parse_u16(b"65535"), Some(65535));
    assert_eq!(parse_u16(b"070"), Some(70));
}

#[test]
fn parse_u16_rejects_bad_numerals() {
    assert_eq!(parse_u16(b""), None);
    assert_eq!(parse_u16(b"abc"), None);
    assert_eq!(parse_u16(b"12a"), None);
    assert_eq!(parse_u16(b"-4"), None);
    assert_eq!(parse_u16(b"65536"), None);
    assert_eq!(parse_u16(b"999999999"), None);
}

#[test]
fn flag_detection() {
    assert!(contains_subslice(b"-t", b"-t"));
    assert!(contains_subslice(b"--threads", b"-t"));
    assert!(contains_subslice(b"--help", b"-h"));
    assert!(!contains_subslice(b"10.0.0.1", b"-t"));
    assert!(!contains_subslice(b"-t", b"--threads"));
    assert!(contains_subslice(b"anything", b""));
}

#[test]
fn classify_command_lines() {
    assert_eq!(classify_arguments(1, b"", false), ArgsForm::NotEnoughArguments);
    assert_eq!(classify_arguments(5, b"-t", false), ArgsForm::TooManyArguments);
    assert_eq!(classify_arguments(2, b"127.0.0.1", true), ArgsForm::AddressOnly);
    assert_eq!(classify_arguments(2, b"-h", false), ArgsForm::HelpRequested);
    assert_eq!(classify_arguments(2, b"--help", false), ArgsForm::HelpRequested);
    assert_eq!(classify_arguments(4, b"-t", false), ArgsForm::ThreadsOption);
    assert_eq!(classify_arguments(4, b"--threads", false), ArgsForm::ThreadsOption);
    // A help flag beside further arguments is not a help request.
    assert_eq!(classify_arguments(3, b"-h", false), ArgsForm::InvalidSyntax);
    assert_eq!(classify_arguments(2, b"banana", false), ArgsForm::InvalidSyntax);
}

#[test]
fn worker_count_limits() {
    assert!(matches!(IpSnifferArguments::new(LOOPBACK, 1024), Ok(c) if c.threads_no == 1024));
    assert!(matches!(IpSnifferArguments::new(LOOPBACK, 1), Ok(c) if c.threads_no == 1));
    assert_eq!(
        IpSnifferArguments::new(LOOPBACK, 1025).unwrap_err(),
        ConfigError::ThreadsNoTooBig
    );
    assert_eq!(
        IpSnifferArguments::new(LOOPBACK, 0).unwrap_err(),
        ConfigError::InvalidThreadsNo
    );
}

#[test]
fn default_pool_is_1024() {
    let c = IpSnifferArguments::with_default_threads(LOOPBACK);
    assert_eq!(c.threads_no, 1024);
    assert_eq!(c.ip_addr, LOOPBACK);
}

#[test]
fn threads_option_form() {
    let ok = IpSnifferArguments::from_threads_option(Some(LOOPBACK), b"4").unwrap();
    assert_eq!(ok.threads_no, 4);
    assert_eq!(ok.ip_addr, LOOPBACK);
    // A malformed address is rejected before any scanning occurs.
    assert_eq!(
        IpSnifferArguments::from_threads_option(None, b"4").unwrap_err(),
        ConfigError::InvalidIpAddress
    );
    assert_eq!(
        IpSnifferArguments::from_threads_option(Some(LOOPBACK), b"abc").unwrap_err(),
        ConfigError::InvalidThreadsNo
    );
    assert_eq!(
        IpSnifferArguments::from_threads_option(Some(LOOPBACK), b"1025").unwrap_err(),
        ConfigError::ThreadsNoTooBig
    );
    assert_eq!(
        IpSnifferArguments::from_threads_option(Some(LOOPBACK), b"0").unwrap_err(),
        ConfigError::InvalidThreadsNo
    );
}

#[test]
fn ipv6_addresses_are_carried_through() {
    let v6 = IpAddress::V6(1);
    let c = IpSnifferArguments::new(v6, 8).unwrap();
    assert_eq!(c.ip_addr, v6);
}
