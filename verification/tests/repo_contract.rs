use cki::repo::contract::TaskContract;

#[test]
fn extracts_task_contract_correctly() {
    let task = r#"
1) Em src/storage.rs adicione metodo transfer(&mut self, from_id: u64, to_id: u64, amount: f64) -> Result<(), String> que valida existencia.
2) Em src/service.rs adicione transfer_funds(&mut self, from_id: u64, to_id: u64, amount: f64) -> Result<(), String> validando amount > 0.0.
"#;
    let contract = TaskContract::extract(task);
    assert_eq!(contract.methods.len(), 2);
    assert_eq!(contract.methods[0].fn_name, "transfer");
    assert_eq!(contract.methods[0].file.as_deref(), Some("src/storage.rs"));
    assert_eq!(contract.methods[0].self_kind.as_deref(), Some("&mut self"));
    assert_eq!(contract.methods[0].params.len(), 3);
    assert_eq!(contract.methods[0].params[2].name, "amount");
    assert_eq!(contract.methods[0].params[2].param_type, "f64");

    let prompt_str = contract.to_prompt_string();
    assert!(prompt_str.contains("fn transfer(&mut self, from_id: u64, to_id: u64, amount: f64) -> Result<(), String>"));
    assert!(prompt_str.contains("`amount` must be type `f64`"));
}

#[test]
fn extracts_associated_functions() {
    let task = "Em src/user.rs atualize o construtor: User::new(name: String, age: u32) -> User.";
    let contract = TaskContract::extract(task);
    assert_eq!(contract.methods.len(), 1);
    let m = &contract.methods[0];
    assert_eq!(m.fn_name, "new");
    assert_eq!(m.self_kind, None);
    assert_eq!(m.params.len(), 2);
    assert_eq!(m.params[1].param_type, "u32");
    assert_eq!(m.return_type.as_deref(), Some("User"));
}

#[test]
fn probe_h2_task_text_extraction() {
    let task = "Em user.rs adicione o campo age: u32 ao struct User e atualize o construtor para User::new(name: String, age: u32), nesta ordem. Em service.rs propague: register(&mut self, name: String, age: u32) -> u64 deve repassar o valor ao User criado via User::new.";
    let contract = TaskContract::extract(task);
    assert_eq!(contract.methods.len(), 2);
    let new_m = contract.methods.iter().find(|m| m.fn_name == "new").expect("User::new must be extracted");
    assert_eq!(new_m.params.len(), 2);
    assert_eq!(new_m.return_type.as_deref(), None);
    let reg = contract.methods.iter().find(|m| m.fn_name == "register").expect("register must be extracted");
    assert_eq!(reg.params.len(), 2);
    assert_eq!(reg.return_type.as_deref(), Some("u64"), "return tail must stop at first token after '->'");
}

#[test]
fn captures_behavior_notes_from_sentences() {
    let task = "metodo cancel_order(&mut self, id: u64) -> Result<(), String>; Somente pedidos Pending podem ser cancelados. O pedido nunca deve ser removido do mapa.";
    let contract = TaskContract::extract(task);
    assert!(contract.behavior_notes.iter().any(|b| b.starts_with("Somente")), "{:?}", contract.behavior_notes);
    assert!(contract.behavior_notes.iter().any(|b| b.contains("nunca")), "{:?}", contract.behavior_notes);
    assert!(!contract.behavior_notes.iter().any(|b| b.contains('(')));
}

#[test]
fn conflicting_parameter_types_give_no_invariant_and_duplicates_are_dropped() {
    let task = "a(x: u32) e b(x: u64) e a(x: u32) e c(y: bool)";
    let contract = TaskContract::extract(task);
    assert_eq!(contract.methods.len(), 3);
    assert_eq!(contract.type_constraints.len(), 1);
    assert!(contract.type_constraints[0].starts_with("`y` must be type `bool`"));
    assert_eq!(TaskContract::extract("nada aqui (LIFO) ou ()").to_prompt_string(), "");
    let kw = TaskContract::extract("if (x: u32) ou 9abc(x: u32)");
    assert!(kw.methods.is_empty());
}
