use hetero_infer::config::{
    CommandBridgeConfig, ServingBackendConfig, ServingBackendKind, ServingConfig, TokenizerConfig,
    TokenizerKind,
};
use hetero_infer::{ConfigError, EngineConfig};

#[test]
fn test_default_config_is_valid() {
    let config = EngineConfig::default();
    assert!(config.validate().is_ok());
    assert!(config.is_valid());
}

#[test]
fn test_invalid_block_size() {
    let config = EngineConfig {
        block_size: 0,
        ..Default::default()
    };
    assert!(matches!(
        config.validate(),
        Err(ConfigError::InvalidBlockSize(0))
    ));
    assert!(!config.is_valid());
}

#[test]
fn test_invalid_max_num_blocks() {
    let config = EngineConfig {
        max_num_blocks: 0,
        ..Default::default()
    };
    assert!(matches!(
        config.validate(),
        Err(ConfigError::InvalidMaxNumBlocks(0))
    ));
}

#[test]
fn test_invalid_max_batch_size() {
    let config = EngineConfig {
        max_batch_size: 0,
        ..Default::default()
    };
    assert!(matches!(
        config.validate(),
        Err(ConfigError::InvalidMaxBatchSize(0))
    ));
}

#[test]
fn test_invalid_max_num_seqs() {
    let config = EngineConfig {
        max_num_seqs: 0,
        ..Default::default()
    };
    assert!(matches!(
        config.validate(),
        Err(ConfigError::InvalidMaxNumSeqs(0))
    ));
}

#[test]
fn test_invalid_memory_threshold() {
    // Thresholds are in millionths: 0.0 and 1.5.
    let config = EngineConfig {
        memory_threshold: 0,
        ..Default::default()
    };
    assert!(matches!(
        config.validate(),
        Err(ConfigError::InvalidMemoryThreshold(_))
    ));

    let config2 = EngineConfig {
        memory_threshold: 1_500_000,
        ..Default::default()
    };
    assert!(matches!(
        config2.validate(),
        Err(ConfigError::InvalidMemoryThreshold(_))
    ));
}

#[test]
fn config_test_blocks_for_tokens() {
    let config = EngineConfig {
        block_size: 16,
        ..Default::default()
    };

    assert_eq!(config.blocks_for_tokens(0), 0);
    assert_eq!(config.blocks_for_tokens(1), 1);
    assert_eq!(config.blocks_for_tokens(16), 1);
    assert_eq!(config.blocks_for_tokens(17), 2);
    assert_eq!(config.blocks_for_tokens(32), 2);
    assert_eq!(config.blocks_for_tokens(33), 3);
}

#[test]
fn test_tokens_in_blocks() {
    let config = EngineConfig {
        block_size: 16,
        ..Default::default()
    };

    assert_eq!(config.tokens_in_blocks(0), 0);
    assert_eq!(config.tokens_in_blocks(1), 16);
    assert_eq!(config.tokens_in_blocks(2), 32);
    assert_eq!(config.tokens_in_blocks(3), 48);
}

#[test]
fn test_default_config_includes_serving_and_tokenizer_defaults() {
    let config = EngineConfig::default();

    assert_eq!(config.tokenizer.kind, TokenizerKind::Simple);
    assert_eq!(config.tokenizer.path, None);
    assert_eq!(config.serving.host, "127.0.0.1");
    assert_eq!(config.serving.port, 3000);
    assert_eq!(config.serving.model_name, "hetero-infer");
    assert_eq!(config.serving.backend.kind, ServingBackendKind::LocalEngine);
    assert_eq!(config.serving.backend.command, None);
}

#[test]
fn test_huggingface_tokenizer_requires_path() {
    let config = EngineConfig {
        tokenizer: TokenizerConfig {
            kind: TokenizerKind::HuggingFace,
            path: None,
        },
        ..Default::default()
    };

    assert!(matches!(
        config.validate(),
        Err(ConfigError::MissingTokenizerPath)
    ));
}

#[test]
fn test_command_bridge_requires_program() {
    let config = EngineConfig {
        serving: ServingConfig {
            backend: ServingBackendConfig {
                kind: ServingBackendKind::CommandBridge,
                command: Some(CommandBridgeConfig {
                    program: String::new(),
                    args: Vec::new(),
                }),
            },
            ..Default::default()
        },
        ..Default::default()
    };

    assert!(matches!(
        config.validate(),
        Err(ConfigError::InvalidCommandProgram)
    ));
}

#[test]
fn config_blank_program_and_model_name_are_rejected() {
    let config = EngineConfig {
        serving: ServingConfig {
            backend: ServingBackendConfig {
                kind: ServingBackendKind::CommandBridge,
                command: Some(CommandBridgeConfig {
                    program: " \t\n".to_string(),
                    args: Vec::new(),
                }),
            },
            ..Default::default()
        },
        ..Default::default()
    };
    assert!(matches!(
        config.validate(),
        Err(ConfigError::InvalidCommandProgram)
    ));

    let config = EngineConfig {
        serving: ServingConfig {
            model_name: "   ".to_string(),
            ..Default::default()
        },
        ..Default::default()
    };
    assert!(matches!(config.validate(), Err(ConfigError::InvalidModelName)));

    let config = EngineConfig {
        serving: ServingConfig {
            port: 0,
            ..Default::default()
        },
        ..Default::default()
    };
    assert!(matches!(config.validate(), Err(ConfigError::InvalidServerPort(0))));
}

#[test]
fn config_threshold_bounds_are_inclusive_at_one() {
    let at_one = EngineConfig {
        memory_threshold: 1_000_000,
        ..Default::default()
    };
    assert!(at_one.is_valid());
    let negative = EngineConfig {
        memory_threshold: -1,
        ..Default::default()
    };
    assert!(matches!(
        negative.validate(),
        Err(ConfigError::InvalidMemoryThreshold(-1))
    ));
}

#[test]
fn config_validation_checks_in_order() {
    // Several rules broken: the first one in order is reported.
    let config = EngineConfig {
        max_num_seqs: 0,
        max_model_len: 0,
        max_total_tokens: 0,
        ..Default::default()
    };
    assert!(matches!(
        config.validate(),
        Err(ConfigError::InvalidMaxNumSeqs(0))
    ));
    let config = EngineConfig {
        max_model_len: 0,
        ..Default::default()
    };
    assert!(matches!(
        config.validate(),
        Err(ConfigError::InvalidMaxModelLen(0))
    ));
    let config = EngineConfig {
        max_total_tokens: 0,
        ..Default::default()
    };
    assert!(matches!(
        config.validate(),
        Err(ConfigError::InvalidMaxTotalTokens(0))
    ));
}

#[test]
fn config_error_messages() {
    assert_eq!(
        ConfigError::InvalidBlockSize(0).message(),
        "无效的 block_size: 必须大于 0，实际值为 0"
    );
    assert_eq!(
        ConfigError::InvalidMemoryThreshold(-25).message(),
        "无效的 memory_threshold: 必须在 (0, 1000000] 百万分之一范围内，实际值为 -25"
    );
    assert_eq!(
        ConfigError::MissingTokenizerPath.message(),
        "缺少 HuggingFace tokenizer 路径"
    );
}
