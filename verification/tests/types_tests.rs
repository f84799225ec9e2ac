use hetero_infer::{GenerationParams, MemoryStats, Request, RequestState, ValidationError};

#[test]
fn test_request_state_is_active() {
    assert!(!RequestState::Pending.is_active());
    assert!(RequestState::Prefill.is_active());
    assert!(RequestState::Decode.is_active());
    assert!(!RequestState::Completed.is_active());
    assert!(!RequestState::Failed("error".to_string()).is_active());
}

#[test]
fn test_generation_params_validation() {
    // Temperature and top-p are in millionths.
    let valid = GenerationParams {
        max_tokens: 100,
        temperature: 1_000_000,
        top_p: 900_000,
    };
    assert!(valid.validate().is_ok());
    assert!(valid.is_valid());

    let invalid_max_tokens = GenerationParams {
        max_tokens: 0,
        temperature: 1_000_000,
        top_p: 900_000,
    };
    assert!(invalid_max_tokens.validate().is_err());
    assert!(!invalid_max_tokens.is_valid());

    let invalid_temp = GenerationParams {
        max_tokens: 100,
        temperature: 0,
        top_p: 900_000,
    };
    assert!(invalid_temp.validate().is_err());

    let invalid_top_p = GenerationParams {
        max_tokens: 100,
        temperature: 1_000_000,
        top_p: 1_500_000,
    };
    assert!(invalid_top_p.validate().is_err());
}

#[test]
fn test_request_is_complete() {
    let mut request = Request::new(
        1,
        vec![1, 2, 3],
        GenerationParams {
            max_tokens: 5,
            temperature: 1_000_000,
            top_p: 1_000_000,
        },
    );

    let eos_token = 0;

    assert!(!request.is_complete(eos_token));

    request.output_tokens = vec![10, 11, 12];
    assert!(!request.is_complete(eos_token));

    request.output_tokens.push(eos_token);
    assert!(request.is_complete(eos_token));

    request.output_tokens = vec![10, 11, 12, 13, 14];
    assert!(request.is_complete(eos_token));
}

#[test]
fn test_memory_stats_utilization() {
    let stats = MemoryStats {
        total_blocks: 100,
        used_blocks: 25,
        free_blocks: 75,
        num_sequences: 5,
    };
    // 0.25, in millionths.
    assert_eq!(stats.utilization(), 250_000);

    let empty = MemoryStats::default();
    assert_eq!(empty.utilization(), 0);
}

#[test]
fn types_terminal_states() {
    assert!(RequestState::Completed.is_terminal());
    assert!(RequestState::Failed("x".to_string()).is_terminal());
    assert!(!RequestState::Pending.is_terminal());
    assert!(!RequestState::Decode.is_terminal());
}

#[test]
fn types_params_errors_name_the_first_broken_rule() {
    let p = GenerationParams {
        max_tokens: 0,
        temperature: 0,
        top_p: 0,
    };
    assert_eq!(p.validate(), Err(ValidationError::InvalidMaxTokens(0)));
    let p = GenerationParams {
        max_tokens: 1,
        temperature: 2_000_001,
        top_p: 0,
    };
    assert_eq!(p.validate(), Err(ValidationError::InvalidTemperature(2_000_001)));
    let p = GenerationParams {
        max_tokens: 1,
        temperature: 2_000_000,
        top_p: 0,
    };
    assert_eq!(p.validate(), Err(ValidationError::InvalidTopP(0)));
    let p = GenerationParams {
        max_tokens: 1,
        temperature: 2_000_000,
        top_p: 1_000_000,
    };
    assert!(p.validate().is_ok());
}

#[test]
fn types_utilization_rounds_down() {
    let stats = MemoryStats {
        total_blocks: 3,
        used_blocks: 1,
        free_blocks: 2,
        num_sequences: 1,
    };
    assert_eq!(stats.utilization(), 333_333);
}

#[test]
fn types_request_total_tokens() {
    let mut request = Request::new(7, vec![1, 2, 3], GenerationParams::default());
    assert_eq!(request.total_tokens(), 3);
    request.output_tokens.push(9);
    assert_eq!(request.total_tokens(), 4);
    assert_eq!(request.state, RequestState::Pending);
    assert_eq!(request.id, 7);
}
