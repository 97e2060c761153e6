use sentinel::config::{
    assemble_config, assemble_pacing, check_network_id, read_config, verify_network_id,
    ConfigError, NetworkError, PacingError, PacingInput, SchedulerConfig,
};

fn pacing() -> SchedulerConfig {
    SchedulerConfig {
        tick_interval: 5,
        lease_ttl: 30,
        max_concurrent_workers: 4,
        retry_backoff_base: 10,
        retry_backoff_cap: 60,
        initial_due_offset: 0,
        max_attempts: 5,
    }
}

#[test]
fn settings_are_read_from_their_texts() {
    let config = read_config(
        "sqlite:data/sentinel.db".to_string(),
        "http://localhost:8545".to_string(),
        "0x00000000000000000000000000000000000000ff",
        "1337",
    )
    .unwrap();
    let mut address = [0u8; 20];
    address[19] = 0xff;
    assert_eq!(config.smart_contract_address, address);
    assert_eq!(config.network_id, 1337);
    assert_eq!(config.db_url, "sqlite:data/sentinel.db");
    assert_eq!(config.ethereum_node_url, "http://localhost:8545");
}

#[test]
fn an_address_may_come_without_prefix() {
    let config = read_config(
        String::new(),
        String::new(),
        "0102030405060708090a0b0c0d0e0f1011121314",
        "1",
    )
    .unwrap();
    let expected: Vec<u8> = (1u8..=20).collect();
    assert_eq!(config.smart_contract_address.to_vec(), expected);
}

#[test]
fn a_bad_address_is_reported_first() {
    let bad = read_config(String::new(), String::new(), "0x1234", "not a number");
    assert_eq!(bad.unwrap_err(), ConfigError::BadAddress);
    let worse = read_config(String::new(), String::new(), "", "1");
    assert_eq!(worse.unwrap_err(), ConfigError::BadAddress);
}

#[test]
fn a_bad_network_id_is_reported() {
    let address = "0x00000000000000000000000000000000000000ff";
    for text in ["", "-1", "1.5", "mainnet", "18446744073709551616"] {
        let bad = read_config(String::new(), String::new(), address, text);
        assert_eq!(bad.unwrap_err(), ConfigError::BadNetworkId);
    }
    let largest = read_config(String::new(), String::new(), address, "18446744073709551615");
    assert_eq!(largest.unwrap().network_id, u64::MAX);
}

#[test]
fn settings_are_assembled_from_what_was_read() {
    let config = assemble_config("db".to_string(), "node".to_string(), Some([9; 20]), Some(3));
    let config = config.unwrap();
    assert_eq!(config.smart_contract_address, [9; 20]);
    assert_eq!(config.network_id, 3);
    assert_eq!(config.db_url, "db");
    assert_eq!(config.ethereum_node_url, "node");
    let no_address = assemble_config(String::new(), String::new(), None, None);
    assert_eq!(no_address.unwrap_err(), ConfigError::BadAddress);
    let no_network = assemble_config(String::new(), String::new(), Some([9; 20]), None);
    assert_eq!(no_network.unwrap_err(), ConfigError::BadNetworkId);
}

#[test]
fn the_network_of_the_node_is_checked() {
    assert_eq!(check_network_id(5, Some(5)), Ok(()));
    assert_eq!(
        check_network_id(5, Some(1)),
        Err(NetworkError::Mismatch { expected: 5, actual: 1 })
    );
    assert_eq!(check_network_id(5, None), Err(NetworkError::Unreadable));
}

#[test]
fn the_version_text_of_the_node_is_checked() {
    let config = assemble_config(String::new(), String::new(), Some([9; 20]), Some(5)).unwrap();
    assert_eq!(verify_network_id(&config, "5"), Ok(()));
    assert_eq!(
        verify_network_id(&config, "11155111"),
        Err(NetworkError::Mismatch { expected: 5, actual: 11155111 })
    );
    assert_eq!(verify_network_id(&config, "five"), Err(NetworkError::Unreadable));
}

#[test]
fn a_sound_pacing_is_accepted() {
    assert_eq!(pacing().validate(), Ok(()));
    let tight = SchedulerConfig { retry_backoff_cap: 10, ..pacing() };
    assert_eq!(tight.validate(), Ok(()));
}

#[test]
fn each_fault_of_a_pacing_is_named() {
    let no_tick = SchedulerConfig { tick_interval: 0, lease_ttl: 0, ..pacing() };
    assert_eq!(no_tick.validate(), Err(PacingError::NoTickInterval));
    let no_ttl = SchedulerConfig { lease_ttl: 0, max_concurrent_workers: 0, ..pacing() };
    assert_eq!(no_ttl.validate(), Err(PacingError::NoLeaseTtl));
    let no_workers = SchedulerConfig { max_concurrent_workers: 0, ..pacing() };
    assert_eq!(no_workers.validate(), Err(PacingError::NoWorkers));
    let no_backoff = SchedulerConfig { retry_backoff_base: 0, ..pacing() };
    assert_eq!(no_backoff.validate(), Err(PacingError::NoBackoff));
    let low_cap = SchedulerConfig { retry_backoff_cap: 9, ..pacing() };
    assert_eq!(low_cap.validate(), Err(PacingError::CapBelowBase));
    let no_attempts = SchedulerConfig { max_attempts: 0, ..pacing() };
    assert_eq!(no_attempts.validate(), Err(PacingError::NoAttempts));
}

#[test]
fn a_number_is_digits_with_or_without_a_plus() {
    let config = assemble_config(String::new(), String::new(), Some([9; 20]), Some(7)).unwrap();
    for text in ["7", "+7", "007", "+0007"] {
        assert_eq!(verify_network_id(&config, text), Ok(()));
    }
    let other = ["0", "+0", "70", "18446744073709551615", "+18446744073709551615"];
    let values = [0u64, 0, 70, u64::MAX, u64::MAX];
    for (text, actual) in other.iter().zip(values) {
        assert_eq!(
            verify_network_id(&config, text),
            Err(NetworkError::Mismatch { expected: 7, actual })
        );
    }
}

#[test]
fn anything_but_digits_is_no_number() {
    let config = assemble_config(String::new(), String::new(), Some([9; 20]), Some(7)).unwrap();
    let texts = [
        "", "+", "-7", "++7", "7+", " 7", "7 ", "7\n", "0x7", "7_0", "7.0", "seven",
        "\u{0667}", "18446744073709551616", "99999999999999999999999",
    ];
    for text in texts {
        assert_eq!(verify_network_id(&config, text), Err(NetworkError::Unreadable));
    }
}

#[test]
fn an_address_may_hold_blanks() {
    let config = read_config(
        String::new(),
        String::new(),
        "0x0102030405 060708090a\t0b0c0d0e0f 1011121314",
        "1",
    )
    .unwrap();
    let expected: Vec<u8> = (1u8..=20).collect();
    assert_eq!(config.smart_contract_address.to_vec(), expected);
}

fn unset() -> PacingInput {
    PacingInput {
        tick_interval: None,
        lease_ttl: None,
        max_concurrent_workers: None,
        retry_backoff_base: None,
        retry_backoff_cap: None,
        initial_due_offset: None,
        max_attempts: None,
    }
}

#[test]
fn a_pacing_that_is_not_set_is_the_default() {
    let expected = SchedulerConfig {
        tick_interval: 5,
        lease_ttl: 120,
        max_concurrent_workers: 8,
        retry_backoff_base: 10,
        retry_backoff_cap: 600,
        initial_due_offset: 0,
        max_attempts: 10,
    };
    assert_eq!(assemble_pacing(unset()), Ok(expected));
}

#[test]
fn what_is_set_of_a_pacing_is_taken() {
    let input = PacingInput {
        tick_interval: Some(1),
        lease_ttl: Some(2),
        max_concurrent_workers: Some(3),
        retry_backoff_base: Some(4),
        retry_backoff_cap: Some(5),
        initial_due_offset: Some(6),
        max_attempts: Some(7),
    };
    let expected = SchedulerConfig {
        tick_interval: 1,
        lease_ttl: 2,
        max_concurrent_workers: 3,
        retry_backoff_base: 4,
        retry_backoff_cap: 5,
        initial_due_offset: 6,
        max_attempts: 7,
    };
    assert_eq!(assemble_pacing(input), Ok(expected));
    let partly = PacingInput { lease_ttl: Some(30), ..unset() };
    assert_eq!(assemble_pacing(partly).unwrap().lease_ttl, 30);
    assert_eq!(assemble_pacing(partly).unwrap().tick_interval, 5);
}

#[test]
fn a_pacing_with_a_fault_is_refused() {
    let no_tick = PacingInput { tick_interval: Some(0), ..unset() };
    assert_eq!(assemble_pacing(no_tick), Err(PacingError::NoTickInterval));
    let low_cap = PacingInput { retry_backoff_cap: Some(9), ..unset() };
    assert_eq!(assemble_pacing(low_cap), Err(PacingError::CapBelowBase));
    let no_workers = PacingInput { max_concurrent_workers: Some(0), ..unset() };
    assert_eq!(assemble_pacing(no_workers), Err(PacingError::NoWorkers));
    let many = PacingInput { max_attempts: Some(u64::from(u32::MAX) + 1), ..unset() };
    assert_eq!(assemble_pacing(many), Err(PacingError::TooLarge));
    let most = PacingInput { max_attempts: Some(u64::from(u32::MAX)), ..unset() };
    assert_eq!(assemble_pacing(most).unwrap().max_attempts, u32::MAX);
    let both = PacingInput { tick_interval: Some(0), max_attempts: Some(u64::MAX), ..unset() };
    assert_eq!(assemble_pacing(both), Err(PacingError::TooLarge));
}
