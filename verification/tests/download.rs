use hibp_downloader::consts::{BEGIN, END, HIBP_ROOT, LENGTH};
use hibp_downloader::download::{
    after_attempt, annotate_lines, concurrent_requests, download_prefix, first_failure,
    is_cache_hit, key_hex, request_url, NextStep, MAX_RETRIES,
};
use hibp_downloader::stats::{get_pct, updated_average, Stats};

#[test]
fn key_is_written_in_five_upper_case_digits() {
    assert_eq!(key_hex(0), b"00000".to_vec());
    assert_eq!(key_hex(0x1F), b"0001F".to_vec());
    assert_eq!(key_hex(0xABCDE), b"ABCDE".to_vec());
    assert_eq!(key_hex(END), b"FFFFF".to_vec());
    assert_eq!(key_hex(0x100000), b"100000".to_vec());
    assert_eq!(key_hex(u32::MAX), b"FFFFFFFF".to_vec());
}

#[test]
fn key_space_has_two_to_the_twenty_keys() {
    assert_eq!(BEGIN, 0);
    assert_eq!(END, 0xFFFFF);
    assert_eq!(LENGTH, 1_048_576);
}

#[test]
fn request_address_names_key_and_mode() {
    assert_eq!(
        request_url(0x2A, false),
        b"https://api.pwnedpasswords.com/range/0002A".to_vec()
    );
    assert_eq!(
        request_url(0xFFFFF, true),
        b"https://api.pwnedpasswords.com/range/FFFFF?mode=ntlm".to_vec()
    );
    assert!(request_url(1, false).starts_with(HIBP_ROOT.as_bytes()));
}

#[test]
fn cache_hit_is_exactly_hit() {
    assert!(is_cache_hit(Some(b"HIT")));
    assert!(!is_cache_hit(Some(b"MISS")));
    assert!(!is_cache_hit(Some(b"hit")));
    assert!(!is_cache_hit(Some(b"HITS")));
    assert!(!is_cache_hit(Some(b"")));
    assert!(!is_cache_hit(None));
}

#[test]
fn failed_attempt_is_retried_five_times() {
    assert_eq!(after_attempt(5, true), NextStep::Finish);
    assert_eq!(after_attempt(0, true), NextStep::Finish);
    assert_eq!(
        after_attempt(5, false),
        NextStep::RetryAfter { delay_ms: 100, retries_left: 4 }
    );
    assert_eq!(
        after_attempt(1, false),
        NextStep::RetryAfter { delay_ms: 100, retries_left: 0 }
    );
    assert_eq!(after_attempt(0, false), NextStep::GiveUp);
    // A request that always fails is attempted six times in all.
    let mut retries = MAX_RETRIES;
    let mut attempts = 0;
    loop {
        attempts += 1;
        match after_attempt(retries, false) {
            NextStep::RetryAfter { retries_left, .. } => retries = retries_left,
            NextStep::GiveUp => break,
            NextStep::Finish => panic!("a failure does not finish"),
        }
    }
    assert_eq!(attempts, 6);
}

#[test]
fn keys_that_fail_twice_still_arrive() {
    let mut stats = Stats::new();
    let mut done: Vec<u32> = Vec::new();
    for key in 0u32..4 {
        stats.request_started();
        let failures_before_success = if key == 1 || key == 3 { 2 } else { 0 };
        let mut retries = MAX_RETRIES;
        let mut attempt = 0;
        loop {
            let ok = attempt >= failures_before_success;
            attempt += 1;
            match after_attempt(retries, ok) {
                NextStep::Finish => {
                    stats.request_finished(20 + 100 * (attempt as u64 - 1), key == 0);
                    done.push(key);
                    break;
                }
                NextStep::RetryAfter { delay_ms, retries_left } => {
                    assert_eq!(delay_ms, 100);
                    retries = retries_left;
                }
                NextStep::GiveUp => panic!("retries were left"),
            }
        }
    }
    assert_eq!(done, vec![0, 1, 2, 3]);
    assert_eq!(stats.downloaded, 4);
    assert_eq!(stats.in_route, 0);
    assert_eq!(stats.cache_hits, 1);
    // 20, then (20*1+220)/2 = 120, then (120*2+20)/3 = 86, then (86*3+220)/4 = 119
    assert_eq!(stats.avg_time_ms, 119);
    assert!(stats.avg_time_ms > 0);
}

#[test]
fn running_mean_follows_the_formula() {
    assert_eq!(updated_average(0, 1, 37), 37);
    assert_eq!(updated_average(10, 2, 20), 15);
    assert_eq!(updated_average(10, 3, 11), 10);
    assert_eq!(updated_average(u64::MAX, u64::MAX, u64::MAX), u64::MAX);
    assert_eq!(updated_average(u64::MAX, 1, 5), 5);
}

#[test]
fn counters_move_one_at_a_time() {
    let mut s = Stats::new();
    s.request_started();
    s.request_started();
    assert_eq!(s.in_route, 2);
    s.request_failed(true);
    assert_eq!((s.in_route, s.cache_hits, s.downloaded), (1, 1, 0));
    s.request_finished(8, false);
    assert_eq!((s.in_route, s.cache_hits, s.downloaded, s.avg_time_ms), (0, 1, 1, 8));
    s.entry_written();
    assert_eq!(s.written_to_file, 1);
}

#[test]
fn share_is_given_in_millionths_of_a_percent() {
    assert_eq!(get_pct(1, 3), 33_333_333);
    assert_eq!(get_pct(1, 2), 50_000_000);
    assert_eq!(get_pct(5, 0), 0);
    assert_eq!(get_pct(u64::MAX, 1), u64::MAX as u128 * 100_000_000);
}

#[test]
fn first_failed_task_decides() {
    assert_eq!(first_failure(&[true, true, true]), None);
    assert_eq!(first_failure(&[]), None);
    assert_eq!(first_failure(&[true, false, true, false]), Some(1));
}

#[test]
fn concurrency_is_workers_times_multiplier() {
    assert_eq!(concurrent_requests(2, 2), Some(4));
    assert_eq!(concurrent_requests(16, 8), Some(128));
    assert_eq!(concurrent_requests(0, 9), Some(0));
    assert_eq!(concurrent_requests(9, 0), Some(0));
    assert_eq!(concurrent_requests(usize::MAX, 2), None);
    assert_eq!(concurrent_requests(usize::MAX, 1), Some(usize::MAX));
}

#[test]
fn every_line_gets_the_prefix() {
    assert_eq!(annotate_lines(b"0001F", b"AA:1\nBB:2\n"), b"0001FAA:1\n0001FBB:2\n".to_vec());
    assert_eq!(annotate_lines(b"0001F", b"AA:1\r\nBB:2"), b"0001FAA:1\n0001FBB:2\n".to_vec());
    assert_eq!(annotate_lines(b"K", b""), b"".to_vec());
    assert_eq!(annotate_lines(b"K", b"\n"), b"K\n".to_vec());
    assert_eq!(annotate_lines(b"K", b"a\n\nb"), b"Ka\nK\nKb\n".to_vec());
    assert_eq!(annotate_lines(b"K", b"a\r"), b"Ka\r\n".to_vec());
    assert_eq!(annotate_lines(b"K", b"a\r\r\n"), b"Ka\r\n".to_vec());
    assert_eq!(annotate_lines(b"K", b"\r\n"), b"K\n".to_vec());
}

#[test]
fn annotation_agrees_with_the_lines_of_a_string() {
    for text in ["x:1\ny:2", "x:1\r\ny:2\r\n", "\n\nq", "a\rb\n", "", "one"] {
        let expected: String = text.lines().map(|l| format!("AB{l}\n")).collect();
        assert_eq!(annotate_lines(b"AB", text.as_bytes()), expected.into_bytes());
    }
}

#[test]
fn body_is_read_as_text_the_lossy_way() {
    let (key, text) = download_prefix(0xA, b"AB\xFFCD:3\n", true);
    assert_eq!(key, 0xA);
    assert_eq!(text, "0000AAB\u{FFFD}CD:3\n".as_bytes().to_vec());
    let (_, raw) = download_prefix(0xA, b"AB\xFFCD:3\n", false);
    assert_eq!(raw, b"AB\xFFCD:3\n".to_vec());
}

#[test]
fn counters_wrap_like_the_machine_word() {
    let mut s = Stats::new();
    s.request_failed(false);
    assert_eq!(s.in_route, u64::MAX);
    s.request_started();
    assert_eq!(s.in_route, 0);
    s.written_to_file = u64::MAX;
    s.entry_written();
    assert_eq!(s.written_to_file, 0);
}
