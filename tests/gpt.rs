use translate_comments::gpt::{QueryRequest, Translator, ENDPOINT};

#[test]
fn key_file_is_trimmed() {
    let t = Translator::new("  SECRET-REDACTED\n");
    assert_eq!(t.authorization(), "Bearer SECRET-REDACTED");
    assert_eq!(t.model(), "gpt-3.5-turbo");
}

#[test]
fn prompt_names_the_language() {
    let t = Translator::new("k");
    assert_eq!(
        t.system_prompt("es"),
        "You are a Language Translator. Detect the source language and translate it to \"es\". Always just return the translation of the prompt. If there is nothing to translate, just return the original prompt."
    );
    assert!(ENDPOINT.starts_with("https://"));
}

#[test]
fn answer_is_trimmed() {
    let t = Translator::new("k");
    let req = QueryRequest { language: "es".to_string(), text: "Hello".to_string(), text_checksum: 3 };
    let r = t.query(req, Some("  Hola \n".to_string()));
    assert_eq!(r.text, "Hello");
    assert_eq!(r.text_translation, "Hola");
    assert_eq!(r.text_checksum, 3);
}

#[test]
fn missing_answer_is_empty() {
    let t = Translator::new("k");
    let req = QueryRequest { language: "es".to_string(), text: "Hello".to_string(), text_checksum: 3 };
    assert_eq!(t.query(req, None).text_translation, "");
}
