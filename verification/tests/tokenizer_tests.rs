use std::path::PathBuf;
use std::str::FromStr;

use hetero_infer::config::{TokenizerConfig, TokenizerKind};
use hetero_infer::tokenizer::{build_tokenizer, split_tail, HuggingFaceTokenizer};
use hetero_infer::{
    EngineConfig, EngineError, SimpleTokenizer, SpecialTokenIds, TokenId, TokenizerTrait,
};
use tokenizers::Tokenizer;

const TEST_TOKENIZER_JSON: &str = r###"{
  "version": "1.0",
  "truncation": null,
  "padding": null,
  "added_tokens": [],
  "normalizer": null,
  "pre_tokenizer": { "type": "Whitespace" },
  "post_processor": null,
  "decoder": { "type": "WordPiece", "prefix": "##", "cleanup": false },
  "model": {
    "type": "WordLevel",
    "vocab": { "[UNK]": 0, "hello": 1, "world": 2 },
    "unk_token": "[UNK]"
  }
}"###;

const SPECIAL_TOKENIZER_JSON: &str = r###"{
  "version": "1.0",
  "truncation": null,
  "padding": null,
  "added_tokens": [
    {"id": 151643, "content": "<|endoftext|>", "single_word": false, "lstrip": false, "rstrip": false, "normalized": false, "special": true},
    {"id": 151644, "content": "<|im_start|>", "single_word": false, "lstrip": false, "rstrip": false, "normalized": false, "special": true},
    {"id": 151645, "content": "<|im_end|>", "single_word": false, "lstrip": false, "rstrip": false, "normalized": false, "special": true}
  ],
  "normalizer": null,
  "pre_tokenizer": { "type": "Whitespace" },
  "post_processor": null,
  "decoder": { "type": "WordPiece", "prefix": "##", "cleanup": false },
  "model": {
    "type": "WordLevel",
    "vocab": {
      "[UNK]": 0,
      "hi": 1,
      "<|endoftext|>": 151643,
      "<|im_start|>": 151644,
      "<|im_end|>": 151645
    },
    "unk_token": "[UNK]"
  }
}"###;

fn test_tokenizer() -> Tokenizer {
    Tokenizer::from_str(TEST_TOKENIZER_JSON).unwrap()
}

fn stream(tokenizer: &dyn TokenizerTrait, tokens: &[TokenId]) -> String {
    let mut decoder = tokenizer.create_decoder();
    let mut streamed = String::new();
    for &token in tokens {
        if let Some(chunk) = decoder.push(token).unwrap() {
            streamed.push_str(&chunk);
        }
    }
    if let Some(tail) = decoder.finish().unwrap() {
        streamed.push_str(&tail);
    }
    streamed
}

#[test]
fn test_simple_tokenizer_encode() {
    let tokenizer = SimpleTokenizer::new();
    let special_tokens = *tokenizer.special_tokens();

    let tokens = tokenizer.encode("Hi");

    assert_eq!(tokens.len(), 4);
    assert_eq!(tokens[0], special_tokens.bos);
    assert_eq!(tokens[tokens.len() - 1], special_tokens.eos);
}

#[test]
fn test_simple_tokenizer_decode() {
    let tokenizer = SimpleTokenizer::new();

    let tokens = tokenizer.encode("Hello");
    let decoded = tokenizer.decode(&tokens);

    assert_eq!(decoded, "Hello");
}

#[test]
fn test_empty_string() {
    let tokenizer = SimpleTokenizer::new();

    let tokens = tokenizer.encode("");
    assert_eq!(tokens.len(), 2);

    let decoded = tokenizer.decode(&tokens);
    assert_eq!(decoded, "");
}

#[test]
fn test_special_characters() {
    let tokenizer = SimpleTokenizer::new();

    let text = "Hello, World!\n";
    let tokens = tokenizer.encode(text);
    let decoded = tokenizer.decode(&tokens);

    assert_eq!(decoded, text);
}

#[test]
fn test_round_trip_tokenizer() {
    let tokenizer = SimpleTokenizer::without_special_tokens();

    let text = "Hello World 123!";
    let tokens = tokenizer.encode(text);
    let decoded = tokenizer.decode(&tokens);

    assert_eq!(decoded, text);
}

#[test]
fn test_vocab_size() {
    let tokenizer = SimpleTokenizer::new();
    assert!(tokenizer.vocab_size() > 100);
}

#[test]
fn test_custom_special_tokens() {
    let custom_tokens = SpecialTokenIds {
        bos: 100,
        eos: 101,
        pad: 102,
        unk: 103,
    };
    let tokenizer = SimpleTokenizer::with_special_tokens(custom_tokens);

    assert_eq!(tokenizer.bos_token_id(), 100);
    assert_eq!(tokenizer.eos_token_id(), 101);
    assert_eq!(tokenizer.pad_token_id(), 102);

    let tokens = tokenizer.encode("Hi");
    assert_eq!(tokens[0], 100);
    assert_eq!(tokens[tokens.len() - 1], 101);
}

#[test]
fn test_huggingface_tokenizer_loads_and_round_trips() {
    let tokenizer = HuggingFaceTokenizer::from_tokenizer(test_tokenizer());

    let tokens = tokenizer.encode("hello world");
    let decoded = tokenizer.decode(&tokens);

    assert!(!tokens.is_empty());
    assert_eq!(tokens, vec![1, 2]);
    assert_eq!(decoded, "hello world");
}

#[test]
fn test_build_tokenizer_uses_huggingface_when_configured() {
    let config = EngineConfig {
        tokenizer: TokenizerConfig {
            kind: TokenizerKind::HuggingFace,
            path: Some(PathBuf::from("tokenizer.json")),
        },
        ..Default::default()
    };

    let tokenizer = build_tokenizer(&config, Some(test_tokenizer())).unwrap();
    let decoded = tokenizer.decode(&tokenizer.encode("hello world"));

    assert_eq!(decoded, "hello world");
}

#[test]
fn test_simple_decoder_streaming_equivalence() {
    let tokenizer = SimpleTokenizer::new();
    let tokens = tokenizer.encode("Hello, World!\n");

    let streamed = stream(&tokenizer, &tokens);

    assert_eq!(streamed, tokenizer.decode(&tokens));
    assert_eq!(streamed, "Hello, World!\n");
}

#[test]
fn test_simple_decoder_without_special_tokens_round_trip() {
    let tokenizer = SimpleTokenizer::without_special_tokens();
    let tokens = tokenizer.encode("abc 123");

    let streamed = stream(&tokenizer, &tokens);

    assert_eq!(streamed, "abc 123");
}

#[test]
fn test_simple_decoder_skips_special_tokens_like_one_shot() {
    let tokenizer = SimpleTokenizer::new();
    let specials = *tokenizer.special_tokens();
    let h = tokenizer.encode("H")[1];
    let i = tokenizer.encode("i")[1];
    let tokens = vec![h, specials.eos, i, specials.pad];

    let streamed = stream(&tokenizer, &tokens);

    assert_eq!(streamed, tokenizer.decode(&tokens));
    assert_eq!(streamed, "Hi");
}

#[test]
fn test_simple_decoder_utf8_equivalence() {
    let tokenizer = SimpleTokenizer::new();
    let tokens = tokenizer.encode("hi 你好");

    let streamed = stream(&tokenizer, &tokens);

    assert_eq!(streamed, tokenizer.decode(&tokens));
    assert_eq!(streamed, "hi ");
}

#[test]
fn test_huggingface_decoder_streams_before_finish() {
    let tokenizer = HuggingFaceTokenizer::from_tokenizer(test_tokenizer());
    let tokens = tokenizer.encode("hello world");

    let mut decoder = tokenizer.create_decoder();
    let mut streamed = String::new();
    let mut chunks_before_finish = 0;
    for &token in &tokens {
        if let Some(chunk) = decoder.push(token).unwrap() {
            chunks_before_finish += 1;
            streamed.push_str(&chunk);
        }
    }
    if let Some(tail) = decoder.finish().unwrap() {
        streamed.push_str(&tail);
    }

    assert!(
        chunks_before_finish > 0,
        "streaming decoder must emit before finish"
    );
    assert_eq!(streamed, tokenizer.decode(&tokens));
    assert_eq!(streamed, "hello world");
}

#[test]
fn test_huggingface_tokenizer_detects_real_special_tokens() {
    let inner = Tokenizer::from_str(SPECIAL_TOKENIZER_JSON).unwrap();
    let tokenizer =
        HuggingFaceTokenizer::with_special_tokens_from_tokenizer(inner, SpecialTokenIds::default());

    assert_eq!(tokenizer.bos_token_id(), 151643);
    assert_eq!(tokenizer.eos_token_id(), 151645);
    assert_eq!(tokenizer.pad_token_id(), 151643);
    assert_eq!(tokenizer.encode("hi"), vec![1]);

    let tokens = vec![1, tokenizer.eos_token_id(), 1];
    let streamed = stream(&tokenizer, &tokens);
    assert_eq!(streamed, tokenizer.decode(&tokens));
}

#[test]
fn test_huggingface_decoder_finish_on_empty_is_none() {
    let tokenizer = HuggingFaceTokenizer::from_tokenizer(test_tokenizer());

    let mut decoder = tokenizer.create_decoder();
    assert_eq!(decoder.finish().unwrap(), None);
}

// ---- further scenarios ----

#[test]
fn huggingface_keeps_configured_ids_absent_from_vocabulary() {
    let ids = SpecialTokenIds {
        bos: 7,
        eos: 8,
        pad: 9,
        unk: 10,
    };
    let tokenizer = HuggingFaceTokenizer::with_special_tokens_from_tokenizer(test_tokenizer(), ids);
    assert_eq!(tokenizer.bos_token_id(), 7);
    assert_eq!(tokenizer.eos_token_id(), 8);
    assert_eq!(tokenizer.pad_token_id(), 9);
    assert_eq!(tokenizer.vocab_size(), 3);
}

#[test]
fn build_tokenizer_simple_uses_configured_specials() {
    let config = EngineConfig {
        special_tokens: SpecialTokenIds {
            bos: 200,
            eos: 201,
            pad: 202,
            unk: 203,
        },
        ..Default::default()
    };
    let tokenizer = build_tokenizer(&config, None).unwrap();
    assert_eq!(tokenizer.bos_token_id(), 200);
    assert_eq!(tokenizer.eos_token_id(), 201);
    assert_eq!(tokenizer.decode(&tokenizer.encode("ok")), "ok");
}

#[test]
fn build_tokenizer_huggingface_errors() {
    let missing_path = EngineConfig {
        tokenizer: TokenizerConfig {
            kind: TokenizerKind::HuggingFace,
            path: None,
        },
        ..Default::default()
    };
    assert!(matches!(
        build_tokenizer(&missing_path, None),
        Err(EngineError::Config(_))
    ));
    let not_loaded = EngineConfig {
        tokenizer: TokenizerConfig {
            kind: TokenizerKind::HuggingFace,
            path: Some(PathBuf::from("tokenizer.json")),
        },
        ..Default::default()
    };
    match build_tokenizer(&not_loaded, None) {
        Err(EngineError::Tokenization(m)) => assert_eq!(m, "tokenizer file was not loaded"),
        _ => panic!("expected a tokenization error"),
    }
}

#[test]
fn simple_tokenizer_unknown_char_is_unk() {
    let tokenizer = SimpleTokenizer::without_special_tokens();
    let tokens = tokenizer.encode("a\u{e9}b");
    assert_eq!(tokens.len(), 3);
    assert_eq!(tokens[1], tokenizer.special_tokens().unk);
    assert_eq!(tokenizer.decode(&tokens), "ab");
}

#[test]
fn split_tail_cases() {
    assert_eq!(split_tail("hello world", "hello"), Ok(Some(" world".to_string())));
    assert_eq!(split_tail("hello", "hello"), Ok(None));
    assert!(split_tail("hello", "help").is_err());
    assert!(split_tail("he", "hello").is_err());
}

#[test]
fn simple_decoder_emits_each_piece_and_holds_nothing_back() {
    let tokenizer = SimpleTokenizer::new();
    let tokens = tokenizer.encode("Hi\n");
    let mut decoder = tokenizer.create_decoder();
    let mut streamed = String::new();
    for i in 0..tokens.len() {
        match decoder.push(tokens[i]).unwrap() {
            Some(chunk) => {
                assert_eq!(chunk.chars().count(), 1);
                streamed.push_str(&chunk);
            }
            None => assert!(tokenizer.decode(&[tokens[i]]).is_empty()),
        }
        assert_eq!(streamed, tokenizer.decode(&tokens[..=i]));
    }
    assert_eq!(decoder.finish().unwrap(), None);
    assert_eq!(streamed, "Hi\n");
}
