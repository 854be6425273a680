use hypno::commands::{
    convert_mode, dtype_named, files_to_download, hf_download_url, hf_list_url, is_downloaded, is_of_model, name_stem, parse_dtype,
    read_line, sanitize_name, trim, ChatLine, ConvertMode,
};
use hypno::dtype::DType;
use hypno::format::MetaKV;
use hypno::generate::finish_reason;
use hypno::json::{Json, JsonNumber};
use hypno::order::{less, TextMap};
use hypno::serve::{
    answering_model, build_prompt, default_max_tokens, default_temperature, default_top_k, default_top_p, delta_of, hypno_stems, make_completion_id,
    model_ids, resolve_seed, usage, ChatMessage, StreamChunk,
};
use hypno::text::{contains, decimal, ends_with, hexadecimal, join, parse_usize, starts_with, strip_prefix, strip_suffix};
use hypno::tokenizer::{byte_symbol, token_to_text, tokenize_words, HypnoTokenizer, TokenizerError};

const MINIMAL: &str = r#"{
    "model": {
        "vocab": {"<s>": 0, "</s>": 1, "<unk>": 2, "<pad>": 3, "hello": 4, "world": 5, "!": 6},
        "merges": []
    },
    "added_tokens": [
        {"id": 0, "content": "<s>", "special": true},
        {"id": 1, "content": "</s>", "special": true},
        {"id": 2, "content": "<unk>", "special": true},
        {"id": 3, "content": "<pad>", "special": true}
    ]
}"#;

fn tokenizer(json: &str) -> HypnoTokenizer {
    HypnoTokenizer::from_json(json).unwrap_or_else(|e| panic!("{:?}", e))
}

#[test]
fn test_tokenizer_from_minimal_json() {
    let tok = tokenizer(MINIMAL);
    assert_eq!(tok.bos_token_id, Some(0));
    assert_eq!(tok.eos_token_id, Some(1));
    assert_eq!(tok.vocab_size(), 7);
    let ids = tok.encode("hello world !");
    assert!(ids.contains(&4));
    assert!(ids.contains(&5));
    assert!(ids.contains(&6));
    assert_eq!(ids[0], 0);
    assert_eq!(tok.pad_token_id(), Some(3));
}

#[test]
fn test_decode() {
    let json = r#"{"model": {"vocab": {"<s>": 0, "</s>": 1, "hello": 2, "Ġworld": 3}, "merges": []}}"#;
    let tok = tokenizer(json);
    let text = tok.decode(&[2, 3]);
    assert_eq!(text, "hello world");
    assert_eq!(tok.decode(&[2]) + &tok.decode(&[3]), text);
    assert_eq!(tok.decode(&[99]), "");
}

#[test]
fn pairs_are_merged_by_rank() {
    // Symbols are the tokens of bytes; "ab" is merged before "bc".
    let json = r#"{"model": {
        "vocab": {"<0x61>": 0, "<0x62>": 1, "<0x63>": 2, "<0x61><0x62>": 3, "<0x62><0x63>": 4},
        "merges": ["<0x61> <0x62>", "<0x62> <0x63>"]}}"#;
    let tok = tokenizer(json);
    assert_eq!(tok.encode("abc"), vec![3, 2]);
    assert_eq!(tok.encode("bc"), vec![4]);
    assert_eq!(tok.encode("ba"), vec![1, 0]);
}

#[test]
fn tokenizers_need_their_parts() {
    assert!(matches!(HypnoTokenizer::from_json("{"), Err(TokenizerError::Json(_))));
    assert!(matches!(HypnoTokenizer::from_json("{}"), Err(TokenizerError::MissingModel)));
    assert!(matches!(HypnoTokenizer::from_json(r#"{"model": {}}"#), Err(TokenizerError::MissingVocab)));
    let json = r#"{"model": {"vocab": {"a": "b"}}}"#;
    assert!(matches!(HypnoTokenizer::from_json(json), Err(TokenizerError::NonIntegerId)));
    assert!(matches!(HypnoTokenizer::from_hypno_metadata(&[]), Err(TokenizerError::MissingMetadata)));
    let metadata = vec![MetaKV { key: "tokenizer_json".to_string(), value: MINIMAL.to_string() }];
    let tok = HypnoTokenizer::from_hypno_metadata(&metadata).unwrap_or_else(|e| panic!("{:?}", e));
    assert_eq!(tok.eos_token_id(), Some(1));
}

#[test]
fn words_and_bytes() {
    assert_eq!(tokenize_words("hello, world"), vec!["hello", ",", "world"]);
    assert_eq!(byte_symbol(0x0A), "<0x0A>");
    assert_eq!(token_to_text("<0x41>"), vec!['A']);
    assert_eq!(token_to_text("<s>"), Vec::<char>::new());
}

#[test]
fn test_build_prompt() {
    let msgs = vec![
        ChatMessage { role: "system".to_string(), content: "be nice".to_string() },
        ChatMessage { role: "user".to_string(), content: "hi".to_string() },
    ];
    let p = build_prompt(&msgs);
    assert_eq!(p, "system: be nice\nuser: hi\nassistant:");
    assert_eq!(build_prompt(&[]), "assistant:");
}

#[test]
fn requests_have_defaults() {
    assert_eq!(default_max_tokens(), 128);
    assert_eq!(default_top_k(), 40);
    assert_eq!(f32::from_bits(default_temperature()), 0.8);
    assert_eq!(f32::from_bits(default_top_p()), 0.9);
    assert_eq!(answering_model("", "loaded"), "loaded");
    assert_eq!(answering_model("asked", "loaded"), "asked");
    assert_eq!(resolve_seed(Some(0), 5), 0);
    assert_eq!(resolve_seed(None, 5), 5);
    assert_eq!(make_completion_id(0xAB12), "chatcmpl-ab12");
    let u = usage(3, 4);
    assert_eq!((u.prompt_tokens, u.completion_tokens, u.total_tokens), (3, 4, 7));
    assert_eq!(finish_reason(4, 4), "length");
    assert_eq!(finish_reason(3, 4), "stop");
    assert_eq!(finish_reason(0, 0), "stop");
}

#[test]
fn models_are_listed_once_in_order() {
    let found = vec!["b".to_string(), "a".to_string(), "b".to_string()];
    assert_eq!(model_ids(&found, "c"), vec!["a", "b", "c"]);
    assert_eq!(model_ids(&found, "a"), vec!["a", "b"]);
    assert_eq!(model_ids(&[], "x"), vec!["x"]);
}

#[test]
fn model_files_are_listed_by_stem() {
    let names: Vec<String> = ["b.hypno", "notes.txt", ".hypno", "a.b.hypno", "b.gguf", "hypno", "c.hypno.bak"].iter().map(|s| s.to_string()).collect();
    assert_eq!(hypno_stems(&names), vec!["b", "a.b"]);
    assert!(hypno_stems(&[]).is_empty());
}

#[test]
fn streamed_parts_add_one_thing() {
    let d = delta_of(&StreamChunk::Role).unwrap();
    assert_eq!((d.role.as_deref(), d.content, d.finish_reason), (Some("assistant"), None, None));
    let d = delta_of(&StreamChunk::Content("x".to_string())).unwrap();
    assert_eq!((d.role, d.content.as_deref(), d.finish_reason), (None, Some("x"), None));
    let d = delta_of(&StreamChunk::Finish("stop".to_string())).unwrap();
    assert_eq!((d.role, d.content, d.finish_reason.as_deref()), (None, None, Some("stop")));
    assert!(delta_of(&StreamChunk::End).is_none());
}

#[test]
fn element_types_are_named_in_any_case() {
    assert_eq!(parse_dtype("q4_0"), Some(DType::Q4_0));
    assert_eq!(parse_dtype("Fp16"), Some(DType::FP16));
    assert_eq!(parse_dtype("FP32"), Some(DType::FP32));
    assert_eq!(parse_dtype("q8_0"), Some(DType::Q8_0));
    assert_eq!(parse_dtype("int4"), None);
    assert_eq!(dtype_named("q4_0"), None);
    for d in [DType::FP32, DType::FP16, DType::Q8_0, DType::Q4_0] {
        assert_eq!(dtype_named(d.name()), Some(d));
    }
}

#[test]
fn models_get_names_and_addresses() {
    assert_eq!(sanitize_name("Qwen/Qwen2.5-3B"), "qwen2-5-3b");
    assert_eq!(name_stem("a/b/My Model.v1"), "My-Model-v1");
    assert_eq!(name_stem("plain"), "plain");
    assert_eq!(name_stem("ends/"), "");
    assert_eq!(hf_download_url("a/b", "main", "config.json"), "https://huggingface.co/a/b/resolve/main/config.json");
    assert_eq!(hf_list_url("a/b", "main"), "https://huggingface.co/api/models/a/b/tree/main");
}

#[test]
fn files_are_chosen() {
    for name in ["config.json", "tokenizer.json", "tokenizer_config.json", "special_tokens_map.json", "generation_config.json", "model-1.safetensors", "x/tokenizer.model"] {
        assert!(is_downloaded(name), "{}", name);
    }
    for name in ["README.md", "adapter_model.safetensors", "pytorch_model.bin", "my_config.json"] {
        assert!(!is_downloaded(name), "{}", name);
    }
    let all = vec!["README.md".to_string(), "b.safetensors".to_string(), "config.json".to_string()];
    assert_eq!(files_to_download(&all), vec!["b.safetensors", "config.json"]);
    assert!(is_of_model("adapter.safetensors") && is_of_model("tokenizer.model") && !is_of_model("README.md"));
    assert_eq!(convert_mode(true, true, true), ConvertMode::AdapterOnly);
    assert_eq!(convert_mode(false, true, true), ConvertMode::Merged);
    assert_eq!(convert_mode(false, false, true), ConvertMode::Gguf);
    assert_eq!(convert_mode(false, false, false), ConvertMode::Model);
}

#[test]
fn lines_of_a_chat() {
    assert!(matches!(read_line(" exit \n"), ChatLine::Quit));
    assert!(matches!(read_line("quit"), ChatLine::Quit));
    assert!(matches!(read_line("clear\n"), ChatLine::Clear));
    assert!(matches!(read_line(" \t\n"), ChatLine::Nothing));
    assert!(matches!(read_line(" exit now\n"), ChatLine::Prompt(p) if p == "exit now"));
    assert_eq!(trim("\u{a0} a b \u{3000}"), "a b");
}

#[test]
fn numbers_and_texts() {
    assert_eq!(decimal(0), "0");
    assert_eq!(decimal(u64::MAX), "18446744073709551615");
    assert_eq!(hexadecimal(255), "ff");
    assert_eq!(parse_usize("+12"), Some(12));
    assert_eq!(parse_usize("12a"), None);
    assert_eq!(parse_usize(""), None);
    assert_eq!(parse_usize("99999999999999999999"), None);
    assert!(starts_with("abc", "ab") && ends_with("abc", "bc") && contains("abcd", "bc") && !contains("abc", "ac"));
    assert_eq!(strip_prefix("abc", "a").as_deref(), Some("bc"));
    assert_eq!(strip_suffix("abc", "x"), None);
    assert_eq!(join(&["a".to_string(), "b".to_string()], ", "), "a, b");
    assert!(less("a", "b") && less("a", "ab") && !less("b", "a") && less("Z", "a"));
    let mut map: TextMap<u32> = TextMap::new();
    map.insert("b".to_string(), 1);
    map.insert("a".to_string(), 2);
    map.insert("b".to_string(), 3);
    assert_eq!(map.get("b"), Some(&3));
    assert_eq!(map.entries.len(), 2);
    assert_eq!(map.entries[0].0, "a");
}

#[test]
fn documents_are_read() {
    let number = |whole: Option<u64>, v: f64| {
        Json::Number(JsonNumber { whole, bits: Some(v.to_bits()), text: Some(v.to_string()) })
    };
    let j = Json::Object(vec![
        ("a".to_string(), Json::Array(vec![number(Some(1), 1.0), Json::Text("x".to_string())])),
        ("b".to_string(), Json::Bool(true)),
        ("c".to_string(), number(None, 2.5)),
    ]);
    assert_eq!(j.get("a").unwrap().at(0).unwrap().as_u64(), Some(1));
    assert_eq!(j.get("a").unwrap().at(1).unwrap().as_str(), Some("x"));
    assert!(j.get("a").unwrap().at(2).is_none());
    assert_eq!(j.member_bool("b"), Some(true));
    assert_eq!(j.member_float_text("c").as_deref(), Some("2.5"));
    assert_eq!(j.member_u64("c"), None);
    assert_eq!(j.member_str("b"), None);
    assert!(j.get("d").is_none());
}

/// A tokenizer with a token for each byte of ASCII, and one merge.
fn byte_tokenizer() -> HypnoTokenizer {
    let mut vocab = r#""<s>": 0, "<unk>": 1"#.to_string();
    for b in 0..128u8 {
        vocab.push_str(&format!(", \"{}\": {}", byte_symbol(b), b as u32 + 2));
    }
    let json = format!(r#"{{"model": {{"vocab": {{{vocab}}}, "merges": ["<0x71> <0x75>"]}}}}"#);
    HypnoTokenizer::from_json(&json).unwrap_or_else(|e| panic!("{:?}", e))
}

#[test]
fn text_of_bytes_reads_back() {
    let t = byte_tokenizer();
    let text = "a, B\n\tc~ 0x7F <s>";
    let ids = t.encode(text);
    assert_eq!(ids.len(), text.len() + 1);
    assert_eq!(&ids[..3], &[0, 'a' as u32 + 2, ',' as u32 + 2]);
    assert_eq!(t.decode(&ids), text);
    // Two bytes that merge have no token of their own here.
    assert_eq!(t.encode("qu"), vec![0, 1]);
    assert_eq!(t.encode("q"), vec![0, 'q' as u32 + 2]);
}

#[test]
fn numbers_of_a_text_are_of_the_vocabulary() {
    let t = byte_tokenizer();
    assert_eq!(t.encode(""), vec![0]);
    // Two bytes beyond ASCII, each unknown.
    assert_eq!(t.encode("\u{e9}"), vec![0, 1, 1]);
    let words = HypnoTokenizer::from_json(MINIMAL).unwrap_or_else(|e| panic!("{:?}", e));
    assert_eq!(words.encode(""), vec![0]);
    assert_eq!(words.encode("hello xyz"), vec![0, 4, 2, 2, 2]);
    let bare = HypnoTokenizer::from_json(r#"{"model": {"vocab": {"a": 0}}}"#).unwrap_or_else(|e| panic!("{:?}", e));
    assert!(bare.encode("").is_empty());
    assert_eq!(bare.encode("a b a"), vec![0, 0]);
}

#[test]
fn white_space_only_separates_words() {
    let t = HypnoTokenizer::from_json(MINIMAL).unwrap_or_else(|e| panic!("{:?}", e));
    let ids = vec![0, 4, 6, 5];
    for text in ["hello!world", "  hello ! world\n", "hello\t!\u{3000}\u{a0}world", "hello!\r\nworld "] {
        assert_eq!(t.encode(text), ids);
    }
    assert_ne!(t.encode("hello world"), t.encode("helloworld"));
}
