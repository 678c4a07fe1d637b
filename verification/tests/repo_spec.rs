use cki::repo::contract::{ParamSpec, TaskContract};
use cki::repo::spec::{
    extract_rust_block, file_matches, package_name_of, parse_scoped_signatures, try_parse_scoped_signatures,
    AcceptanceOracle,
    BaselineEntry, FnSignature, SelfKind, TaskSpec,
};
use cki::repo::baseline::Baseline;

#[test]
fn parses_single_line_signatures() {
    let code = r#"
impl Pool {
    pub fn checkout(&mut self) -> Result<Buffer, String> { Ok(todo!()) }
}
"#;
    let sigs = parse_scoped_signatures(code);
    assert_eq!(sigs.len(), 1);
    assert_eq!(sigs[0].owner.as_deref(), Some("Pool"));
    assert_eq!(sigs[0].sig.name, "checkout");
    assert_eq!(sigs[0].sig.self_kind, Some(SelfKind::ByMutRef));
    assert_eq!(sigs[0].sig.return_type.as_deref(), Some("Result<Buffer, String>"));
}

#[test]
fn splits_generic_types_with_commas() {
    let code = "fn index(&self, map: HashMap<u64, Vec<f64>>, limit: usize) -> Option<f64> { None }";
    let sigs = parse_scoped_signatures(code);
    assert_eq!(sigs.len(), 1);
    let p = &sigs[0].sig.params;
    assert_eq!(p.len(), 2);
    assert_eq!(p[0].param_type, "HashMap<u64, Vec<f64>>");
    assert_eq!(p[1].param_type, "usize");
    assert_eq!(sigs[0].sig.self_kind, Some(SelfKind::ByRef));
}

#[test]
fn multiline_signature_parsed_with_owner_and_raw() {
    let code = r#"
impl Big {
    pub fn transfer(
        &mut self,
        from_id: u64,
        to_id: u64,
        amount: f64,
    ) -> Result<(), String> {
        Ok(())
    }
}
"#;
    let sigs = parse_scoped_signatures(code);
    assert_eq!(sigs.len(), 1);
    assert_eq!(sigs[0].owner.as_deref(), Some("Big"));
    assert_eq!(sigs[0].sig.params.len(), 3);
    assert_eq!(sigs[0].sig.params[2].param_type, "f64");
    assert!(sigs[0].raw.contains("transfer"));
}

#[test]
fn h3_return_and_param_drift_rejected() {
    let spec = TaskSpec::from_task(
        "Em pool.rs adicione metodo checkout(&mut self) -> Result<Buffer, String> que retorna erro quando vazio.",
    );
    let patch = r#"
impl BufferPool {
    pub fn checkout(&mut self, index: usize) -> &Buffer { todo!() }
}
"#;
    let err = spec.check_patch(patch, "src/pool.rs").unwrap_err();
    assert!(err.contains("CONTRACT VIOLATION"), "{err}");
    assert!(err.contains("return type"), "{err}");
    assert!(err.contains("- parameters: expected ["), "{err}");
}

#[test]
fn h3_exact_match_passes() {
    let spec = TaskSpec::from_task(
        "Em pool.rs adicione metodo checkout(&mut self) -> Result<Buffer, String> que retorna erro quando vazio.",
    );
    let patch = r#"
impl BufferPool {
    pub fn checkout(&mut self) -> Result<Buffer, String> { Ok(todo!()) }
}
"#;
    assert!(spec.check_patch(patch, "src/pool.rs").is_ok());
}

#[test]
fn h1_return_type_simplification_rejected() {
    let spec = TaskSpec::from_task(
        "Em order_manager.rs adicione metodo cancel_order(&mut self, id: u64) -> Result<(), String>. Somente pedidos Pending podem ser cancelados e o pedido deve permanecer presente.",
    );
    let patch = r#"
impl OrderManager {
    pub fn cancel_order(&mut self, id: u64) -> Option<Order> { self.orders.remove(&id) }
}
"#;
    let err = spec.check_patch(patch, "src/order_manager.rs").unwrap_err();
    assert!(err.contains("return type"), "{err}");
}

#[test]
fn h2_parameter_placement_and_baseline_drift_rejected() {
    let task = r#"
Em src/user.rs atualize o construtor: User::new(name: String, age: u32) -> User.
Em src/service.rs UserService mantem new(); adicione register(&mut self, user: User) -> Result<(), String>.
"#;
    let mut spec = TaskSpec::from_task(task);
    spec.baseline.insert(
        "UserService::new".to_string(),
        BaselineEntry {
            sig: FnSignature {
                name: "new".into(),
                self_kind: None,
                params: vec![],
                return_type: Some("Self".into()),
            },
            raw: "pub fn new() -> Self".into(),
        },
    );
    let patch = r#"
impl UserService {
    pub fn new(age: u8) -> Self { todo!() }
}
"#;
    let err = spec.check_patch(patch, "src/service.rs").unwrap_err();
    assert!(err.contains("API DRIFT"), "{err}");
    assert!(err.contains("age: u8"), "{err}");
    assert!(err.contains("age: u32"), "{err}");
    assert!(err.contains("User::new(name: String, age: u32)"), "{err}");
}

#[test]
fn untouched_unrelated_same_name_is_exempt_from_rule_one() {
    let mut spec = TaskSpec::from_task("adicione metodo new(name: String) -> User em src/user.rs");
    spec.baseline.insert(
        "Legacy::new".to_string(),
        BaselineEntry {
            sig: FnSignature {
                name: "new".into(),
                self_kind: None,
                params: vec![],
                return_type: Some("Legacy".into()),
            },
            raw: "pub fn new() -> Legacy".into(),
        },
    );
    let patch = r#"
impl Legacy {
    pub fn new() -> Legacy { Legacy {} }
}

impl User {
    pub fn new(name: String) -> User { User { name } }
}
"#;
    assert!(spec.check_patch(patch, "src/user.rs").is_ok());
}

#[test]
fn baseline_change_requires_explicit_redefinition() {
    let mut spec = TaskSpec::from_task("melhore o registro de usuarios");
    spec.baseline.insert(
        "Service::register".to_string(),
        BaselineEntry {
            sig: FnSignature {
                name: "register".into(),
                self_kind: Some(SelfKind::ByMutRef),
                params: vec![ParamSpec { name: "id".into(), param_type: "u64".into() }],
                return_type: None,
            },
            raw: "pub fn register(&mut self, id: u64)".into(),
        },
    );
    let patch = "impl Service { pub fn register(&mut self, uid: u64) { } }";
    let err = spec.check_patch(patch, "src/service.rs").unwrap_err();
    assert!(err.contains("API DRIFT"), "{err}");
}

#[test]
fn behavior_notes_rendered_in_prompt() {
    let spec = TaskSpec::from_task(
        "metodo cancel_order(&mut self, id: u64) -> Result<(), String>. Somente Pending pode ser cancelado. O pedido nunca deve ser removido.",
    );
    assert!(!spec.contract.behavior_notes.is_empty(), "behavioral lines should be captured");
    let prompt = spec.to_prompt_string();
    assert!(prompt.contains("Somente Pending pode ser cancelado"));
}

#[test]
fn oracle_directive_mentions_lock() {
    let mut spec = TaskSpec::from_task("tarefa");
    spec.oracle = Some(AcceptanceOracle {
        path: "tests/anamnesic_oracle_1.rs".into(),
        content: "#[test] fn t() {}".into(),
    });
    assert!(spec.locks_path("tests\\anamnesic_oracle_1.rs"));
    assert!(!spec.locks_path("src/lib.rs"));
    let d = spec.oracle_repair_directive();
    assert!(d.contains("tests/anamnesic_oracle_1.rs"));
    assert!(d.to_lowercase().contains("locked"));
}

#[test]
fn rust_block_extraction() {
    let reply = "Sure!\n```rust\n#[test]\nfn a() {}\n```\ndone";
    assert_eq!(extract_rust_block(reply).unwrap(), "#[test]\nfn a() {}");
    assert!(extract_rust_block("no block here").is_none());
}

#[test]
fn detects_signature_drift_via_spec_gate() {
    let task = "Em src/storage.rs adicione metodo transfer(&mut self, from_id: u64, to_id: u64, amount: f64) -> Result<(), String>";
    let spec = TaskSpec::from_task(task);
    let invalid_code = r#"
impl AccountStore {
    pub fn transfer(&mut self, from_id: u64, to_id: u64, amount: u64) -> Result<(), String> {
        Ok(())
    }
}
"#;
    let err = spec.check_patch(invalid_code, "src/storage.rs").unwrap_err();
    assert!(err.contains("parameter 3 (`amount`): expected type `f64`, found `u64`"), "{err}");
    let valid_code = r#"
impl AccountStore {
    pub fn transfer(&mut self, from_id: u64, to_id: u64, amount: f64) -> Result<(), String> {
        Ok(())
    }
}
"#;
    assert!(spec.check_patch(valid_code, "src/storage.rs").is_ok());
}

#[test]
fn baseline_insert_then_get_and_replace() {
    let mut b = Baseline::new();
    let entry = |raw: &str| BaselineEntry {
        sig: FnSignature { name: "f".into(), self_kind: None, params: vec![], return_type: None },
        raw: raw.into(),
    };
    b.insert("b".to_string(), entry("one"));
    b.insert("a".to_string(), entry("two"));
    b.insert("b".to_string(), entry("three"));
    assert_eq!(b.len(), 2);
    assert_eq!(b.keys(), vec!["a".to_string(), "b".to_string()]);
    assert_eq!(b.get("b").unwrap().raw, "three");
    assert_eq!(b.get("a").unwrap().raw, "two");
    assert!(b.get("c").is_none());
}

#[test]
fn file_matches_either_suffix_with_normalized_separators() {
    assert!(file_matches("src\\pool.rs", "pool.rs"));
    assert!(file_matches("pool.rs", "/work/src/pool.rs"));
    assert!(!file_matches("src/pool.rs", "src/user.rs"));
}

#[test]
fn package_name_reads_first_name_assignment() {
    let manifest = "[package]\nnamespace = \"x\"\nname = \"bank_demo\"\nversion = \"0.1.0\"\n";
    assert_eq!(package_name_of(manifest).as_deref(), Some("bank_demo"));
    assert_eq!(package_name_of("[package]\nversion = \"1\"\n"), None);
    assert_eq!(package_name_of("name = 'quoted'"), Some("quoted".to_string()));
}

#[test]
fn lifetimes_strings_and_comments_do_not_confuse_the_scan() {
    let code = "// fn hidden() {}\nimpl<'a> Reader<'a> { fn next(&mut self, s: &'a str) -> Option<char> { let q = \"fn fake()\"; None } }\n/* fn gone() */ fn free(_) {}";
    let sigs = parse_scoped_signatures(code);
    assert_eq!(sigs.len(), 2);
    assert_eq!(sigs[0].owner.as_deref(), Some("Reader"));
    assert_eq!(sigs[0].sig.params[0].param_type, "&'a str");
    assert_eq!(sigs[1].owner, None);
    assert_eq!(sigs[1].sig.name, "free");
    assert_eq!(sigs[1].sig.params[0].name, "_");
    assert_eq!(sigs[1].sig.params[0].param_type, "()");
}

#[test]
fn trait_impl_owner_is_the_implementing_type() {
    let code = "impl std::fmt::Display for crate::model::Order { fn fmt(&self, f: &mut Formatter) -> Result { Ok(()) } }";
    let sigs = parse_scoped_signatures(code);
    assert_eq!(sigs.len(), 1);
    assert_eq!(sigs[0].owner.as_deref(), Some("Order"));
    assert_eq!(sigs[0].key(), "Order::fmt");
}

#[test]
fn contract_is_what_from_task_extracts() {
    let task = "Em src/a.rs adicione metodo run(&self) -> u32";
    let spec = TaskSpec::from_task(task);
    assert_eq!(spec.contract, TaskContract::extract(task));
    assert_eq!(spec.raw_task, task);
    assert!(spec.oracle.is_none());
    assert_eq!(spec.baseline.len(), 0);
}

#[test]
fn unterminated_return_type_is_reported_not_parsed() {
    assert!(try_parse_scoped_signatures("fn f() -> \"x").is_none());
    let sigs = try_parse_scoped_signatures("fn f() -> u8 { 1 }").unwrap();
    assert_eq!(sigs.len(), 1);
    let spec = TaskSpec::from_task(
        "Em pool.rs adicione metodo checkout(&mut self) -> Result<Buffer, String> que retorna erro quando vazio.",
    );
    assert!(spec.try_check_patch("fn f() -> \"x", "src/pool.rs").is_none());
    let patch = "impl BufferPool {\n    pub fn checkout(&mut self, index: usize) -> &Buffer { todo!() }\n}\n";
    assert!(spec.try_check_patch(patch, "src/pool.rs").unwrap().is_err());
}
