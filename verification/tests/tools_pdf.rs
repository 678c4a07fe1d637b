use cki::tools::pdf_translator::{chunk_prompt, generate_url, system_prompt};
use cki::tools::pdf_translator::{chunk_cache_key, end_block, push_cached_block, push_response, reply_lines};
use cki::tools::pdf_translator::{chunk_text, hex_decode, pdf_text_of, split_text, cache_key, gpu_label, gpu_options, parse_u32};

#[test]
fn pdf_text_from_literals_and_hex() {
    let pdf = b"%PDF-1.4\nBT (Hello) Tj ET\nBT <48656c6c6f> Tj (W\\(o\\)rld\\n) ET";
    assert_eq!(pdf_text_of(pdf), Ok("Hello \nHello W(o)rld".to_string()));
}

#[test]
fn pdf_text_errors() {
    assert_eq!(
        pdf_text_of(b"not a pdf"),
        Err("Arquivo informado não possui cabeçalho PDF válido.".to_string())
    );
    assert!(pdf_text_of(b"%PDF-1.7\n<< /Type /Page >> ABT (x) ET").unwrap_err().starts_with("Nenhum texto"));
}

#[test]
fn hex_pairs_and_lone_digit() {
    assert_eq!(hex_decode(b"4a6"), vec![0x4a, 0x60]);
    assert_eq!(hex_decode(b"4 A"), vec![0x4a]);
    assert_eq!(hex_decode(b""), Vec::<u8>::new());
}

#[test]
fn chunks_by_paragraph_size() {
    assert_eq!(chunk_text("a\n\nb"), vec!["a\n\nb\n\n".to_string()]);
    let big = "x".repeat(2000);
    let text = format!("{big}\n\n{big}");
    let chunks = chunk_text(&text);
    assert_eq!(chunks.len(), 2);
    assert_eq!(chunks[0], format!("{big}\n\n"));
    assert_eq!(chunk_text(""), vec![String::new()]);
    assert_eq!(split_text("a--b----c", "--"), vec!["a", "b", "", "c"]);
}

#[test]
fn gpu_choices_map_to_labels_and_options() {
    assert_eq!(gpu_label(Some("cpu")), "🖥️ CPU Puro (0 layers GPU)");
    assert_eq!(gpu_label(Some("3")), "3");
    assert_eq!(gpu_label(None), "⚡ GPU Auto");
    assert_eq!(gpu_options(Some("cpu")), (Some(0), None));
    assert_eq!(gpu_options(Some("1")), (Some(99), Some(1)));
    assert_eq!(gpu_options(Some("+7")), (Some(99), Some(7)));
    assert_eq!(gpu_options(Some("x")), (Some(99), None));
    assert_eq!(gpu_options(None), (Some(99), None));
}

#[test]
fn u32_parsing_matches_std() {
    for s in ["0", "42", "+5", "4294967295", "4294967296", "", "+", "-1", " 1", "1a"] {
        assert_eq!(parse_u32(s), s.parse::<u32>().ok(), "{s}");
    }
}

#[test]
fn cache_keys_use_unpadded_hex() {
    assert_eq!(cache_key("m", "pt", 0xbeef), "m:pt:beef");
    assert_eq!(cache_key("m", "pt", 0), "m:pt:0");
    assert_eq!(cache_key("a", "b", u64::MAX), format!("a:b:{:x}", u64::MAX));
}

#[test]
fn translated_blocks_are_joined_and_cached_when_not_blank() {
    let mut all = String::new();
    push_cached_block(&mut all, "Olá");
    assert_eq!(all, "Olá\n\n---\n\n");
    let mut block = String::new();
    push_response(&mut all, &mut block, "Bom ");
    push_response(&mut all, &mut block, "dia");
    assert_eq!(block, "Bom dia");
    assert!(end_block(&mut all, &block));
    assert_eq!(all, "Olá\n\n---\n\nBom dia\n\n---\n\n");
    assert!(!end_block(&mut all, "  \n"));
    assert_eq!(reply_lines("{\"a\":1}\n\n  \n{\"b\":2}"), vec!["{\"a\":1}", "{\"b\":2}"]);
    let k = chunk_cache_key("m", "pt", "chunk");
    assert!(k.starts_with("m:pt:"));
    assert_eq!(k, chunk_cache_key("m", "pt", "chunk"));
    let mut hasher = std::collections::hash_map::DefaultHasher::new();
    std::hash::Hash::hash("chunk", &mut hasher);
    assert_eq!(k, cache_key("m", "pt", std::hash::Hasher::finish(&hasher)));
}

#[test]
fn requests_are_built_from_the_settings() {
    assert_eq!(generate_url("http://localhost:11434//"), "http://localhost:11434/api/generate");
    assert_eq!(generate_url("http://h"), "http://h/api/generate");
    assert_eq!(chunk_prompt("Português", "  Hello\n\n"), "Traduza o seguinte trecho para Português:\n\n\"\"\"\nHello\n\"\"\"");
    let p = system_prompt("Português");
    assert!(p.starts_with("Você é um tradutor técnico"));
    assert!(p.contains("para o idioma: \"Português\".\nRegras:\n1. Retorne APENAS"));
    assert!(p.ends_with("formatação intactos."));
}

#[test]
fn chunk_keys_hash_the_chunk_text() {
    assert_ne!(chunk_cache_key("m", "pt", "one"), chunk_cache_key("m", "pt", "two"));
}
