use cki::repo::chrono_context::{is_task_document, ChronoContextEngine, ChronoDoc, Frontmatter};

#[test]
fn test_frontmatter_parser_std() {
    let raw = r#"---
title: Relatorio Executivo
type: relatorio
status: vigente
tags: [marketing, leads, manaus]
---

# Titulo Principal
Corpo do documento aqui.
"#;
    let (fm, body) = Frontmatter::parse(raw);
    assert!(fm.is_some());
    let fm = fm.unwrap();
    assert_eq!(fm.title.as_deref(), Some("Relatorio Executivo"));
    assert_eq!(fm.status.as_deref(), Some("vigente"));
    assert_eq!(fm.tags, vec!["marketing", "leads", "manaus"]);
    assert!(body.starts_with("# Titulo Principal"));
}

#[test]
fn test_wikilinks_extraction() {
    let text = "Ver [[marketing/relatorios/diagnostico|Diagnóstico]] e também [[comercial/propostas/modelo]].";
    let links = ChronoDoc::extract_wikilinks(text);
    assert_eq!(links, vec!["marketing/relatorios/diagnostico", "comercial/propostas/modelo"]);
}

#[test]
fn test_callouts_extraction() {
    let text = r#"
> [!IMPORTANT] Atualização operacional
> Para setembro, usar nova grade.

Outro texto aqui.

> [!TIP]
> Use o tom B2B.
"#;
    let callouts = ChronoDoc::extract_callouts(text);
    assert_eq!(callouts.len(), 2);
    assert!(callouts[0].contains("[!IMPORTANT]"));
    assert!(callouts[1].contains("[!TIP]"));
}

#[test]
fn block_tags_extra_keys_and_missing_block() {
    let raw = "---\r\nTitle: \"Quoted\"\r\ntags:\r\n  - one\r\n  - two\r\nOwner: 'me'\r\nowner: you\r\n---\r\n\r\nBody";
    let (fm, body) = Frontmatter::parse(raw);
    let fm = fm.unwrap();
    assert_eq!(fm.title.as_deref(), Some("Quoted"));
    assert_eq!(fm.tags, vec!["one", "two"]);
    assert_eq!(fm.extra, vec![("owner".to_string(), "you".to_string())]);
    assert_eq!(body, "Body");
    let (none, all) = Frontmatter::parse("no frontmatter here");
    assert!(none.is_none());
    assert_eq!(all, "no frontmatter here");
    let (unclosed, all2) = Frontmatter::parse("---\ntitle: x\n");
    assert!(unclosed.is_none());
    assert_eq!(all2, "---\ntitle: x\n");
    let (open, rest) = Frontmatter::parse("---\ntags: [\n  - a\n---\nbody");
    assert_eq!(open.unwrap().tags, vec!["a"]);
    assert_eq!(rest, "body");
}

#[test]
fn guidelines_section_runs_to_the_next_heading() {
    let text = "intro\n## System Guidelines\nDo this.\n\n## Other\nno";
    assert_eq!(ChronoDoc::extract_guidelines(text).as_deref(), Some("## System Guidelines\nDo this."));
    assert!(ChronoDoc::extract_guidelines("nothing").is_none());
}

#[test]
fn doc_summary_is_cut_at_a_boundary() {
    let long = "é".repeat(800);
    let doc = ChronoDoc::from_content("notes\\a.md", &long);
    assert_eq!(doc.rel_path, "notes/a.md");
    assert!(doc.body_summary.starts_with(&"é".repeat(750)));
    assert!(doc.body_summary.ends_with("...\n[Truncated for token efficiency]"));
    let short = ChronoDoc::from_content("b.md", "  hi  ");
    assert_eq!(short.body_summary, "hi");
}

#[test]
fn task_documents_match_long_query_words() {
    assert!(is_task_document("Revise o Marketing", "marketing.md", "docs/marketing.md"));
    assert!(!is_task_document("a de", "a.md", "a.md"));
    assert!(!is_task_document("agents", "AGENTS.md", "AGENTS.md"));
    assert!(is_task_document("leads", "x.md", "crm/leads/x.md"));
}

#[test]
fn context_pack_layout_and_budget() {
    let agents = ChronoDoc::from_content(
        "AGENTS.md",
        "---\ntitle: Regras\nstatus: ativo\n---\n> [!NOTE] cuidado\n\n## System Guidelines\nseja breve",
    );
    let doc = ChronoDoc::from_content("docs/leads.md", "conteudo");
    let pack = ChronoContextEngine::assemble_context_pack(Some(&agents), &vec![doc], 10_000);
    assert_eq!(
        pack,
        "# ChronoKairo Curated Context Pack (Zero-Lib Engine)\n\n## Master Instructions (AGENTS.md)\n\n**Title:** Regras\n\n**Status:** ativo\n\n### Active Operational Directives:\n\n> [!NOTE] cuidado\n\n## System Guidelines\nseja breve\n\n\n## Relevant Task Domain Documents:\n\n### Document: docs/leads.md\n\nconteudo"
    );
    let capped = ChronoContextEngine::assemble_context_pack(None, &Vec::new(), 9);
    assert_eq!(capped, "# ChronoK");
    let noted = ChronoContextEngine::assemble_context_pack(None, &Vec::new(), 45);
    assert_eq!(noted, "# Chrono\n\n[Context budget capped at 45 chars]");
    assert_eq!(noted.len(), 45);
    assert_eq!(ChronoContextEngine::assemble_context_pack(None, &Vec::new(), 0), "");
}
