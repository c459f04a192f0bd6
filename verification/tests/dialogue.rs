use gemma_trading::double::Double;
use gemma_trading::json::quoted;
use gemma_trading::llm::{
    asks_for_token, attempts_left, completions_url, json_part, message_content,
    parse_gemma_response, read_reply, read_response, refusal_text, request_body, request_with,
    worth_showing, worth_showing_live,
    ReplyError, ATTEMPTS,
};
use gemma_trading::prompts::system_prompt;
use gemma_trading::types::{BoxAction, GemmaResponse};

fn f(x: Option<Double>) -> Option<f64> {
    x.map(|x| f64::from_bits(x.bits))
}

fn flat() -> BoxAction {
    BoxAction { accion: "FLAT".to_string(), cerrar: false, apalancamiento: None, stop_loss: None }
}

#[test]
fn document_is_found_in_the_noise() {
    assert_eq!(json_part("noise {\"a\":{}} end"), Some("{\"a\":{}}".to_string()));
    assert_eq!(json_part("```json\n{}\n```"), Some("{}".to_string()));
    assert_eq!(json_part("{}"), Some("{}".to_string()));
    assert_eq!(json_part("ñ{é}ü"), Some("{é}".to_string()));
    assert_eq!(json_part("} {"), None);
    assert_eq!(json_part("{"), None);
    assert_eq!(json_part("}"), None);
    assert_eq!(json_part(""), None);
    for s in ["{\"a\":{}}", "a {b} c", "} {", "{", "}", "no document", ""] {
        assert_eq!(json_part(&format!("}} before {} behind {{", s)), json_part(s));
    }
}

#[test]
fn complete_answer_is_taken_as_it_is() {
    let direct = GemmaResponse { analisis: Some("x".to_string()), lt_box: flat(), st_box: flat() };
    let answer = parse_gemma_response("{}", Some(direct)).unwrap();
    assert_eq!(answer.analisis, Some("x".to_string()));
    let direct = GemmaResponse { analisis: None, lt_box: flat(), st_box: flat() };
    assert!(parse_gemma_response("no document", Some(direct)).is_none());
}

#[test]
fn incomplete_answer_is_read_box_by_box() {
    let answer = parse_gemma_response(
        "Sure: {\"analisis\":\"sube\",\"st_box\":{\"accion\":\"LONG\",\"cerrar\":\"TRUE\",\"apalancamiento\":7,\"stop_loss\":19000.5}} done",
        None,
    )
    .unwrap();
    assert_eq!(answer.analisis, Some("sube".to_string()));
    assert_eq!(answer.st_box.accion, "LONG");
    assert!(answer.st_box.cerrar);
    assert_eq!(f(answer.st_box.apalancamiento), Some(7.0));
    assert_eq!(f(answer.st_box.stop_loss), Some(19000.5));
    assert_eq!(answer.lt_box.accion, "FLAT");
    assert!(!answer.lt_box.cerrar);
    assert_eq!(f(answer.lt_box.apalancamiento), None);
    assert!(parse_gemma_response("{broken}", None).is_none());
}

#[test]
fn boxes_are_found_under_three_names() {
    let answer = parse_gemma_response(
        "{\"LT_BOX\":{\"accion\":\"SHORT\"},\"stbox\":{\"accion\":\"HOLD\"}}",
        None,
    )
    .unwrap();
    assert_eq!(answer.lt_box.accion, "SHORT");
    assert_eq!(answer.st_box.accion, "HOLD");
    let answer =
        parse_gemma_response("{\"lt_box\":{\"accion\":\"A\"},\"LT_BOX\":{\"accion\":\"B\"}}", None).unwrap();
    assert_eq!(answer.lt_box.accion, "A");
}

#[test]
fn closing_is_read_in_many_shapes() {
    for (value, expected) in [
        ("true", true), ("false", false), ("\"true\"", true), ("\"True\"", true), ("\"1\"", true),
        ("\"yes\"", false), ("1", true), ("0", false), ("2", false), ("1.0", false), ("null", false),
        ("[]", false),
    ] {
        let document: serde_json::Value =
            serde_json::from_str(&format!("{{\"st_box\":{{\"cerrar\":{}}}}}", value)).unwrap();
        assert_eq!(read_response(&document).st_box.cerrar, expected, "{}", value);
    }
}

#[test]
fn missing_fields_have_defaults() {
    let document: serde_json::Value = serde_json::from_str(
        "{\"analisis\":5,\"st_box\":{\"accion\":1,\"apalancamiento\":\"7\",\"stop_loss\":null}}",
    )
    .unwrap();
    let answer = read_response(&document);
    assert_eq!(answer.analisis, None);
    assert_eq!(answer.st_box.accion, "FLAT");
    assert_eq!(f(answer.st_box.apalancamiento), None);
    assert_eq!(f(answer.st_box.stop_loss), None);
}

#[test]
fn address_of_the_server_is_completed() {
    let full = "http://127.0.0.1:5508/v1/chat/completions";
    assert_eq!(completions_url(full), full);
    assert_eq!(completions_url("  http://127.0.0.1:5508/ \n"), full);
    assert_eq!(completions_url("http://127.0.0.1:5508"), full);
    assert_eq!(completions_url(&completions_url("http://h")), "http://h/v1/chat/completions");
    assert_eq!(completions_url(""), "/v1/chat/completions");
}

#[test]
fn request_holds_the_prompts() {
    let body = request_body("say \"hi\"\n", "now");
    let document: serde_json::Value = serde_json::from_str(&body).unwrap();
    assert_eq!(document["model"], "local-model");
    assert_eq!(document["messages"][0]["role"], "system");
    assert_eq!(document["messages"][0]["content"], "say \"hi\"\n");
    assert_eq!(document["messages"][1]["role"], "user");
    assert_eq!(document["messages"][1]["content"], "now");
    assert_eq!(document["temperature"], 0.1);
    assert_eq!(document["max_tokens"], 1000);
    assert_eq!(document["frequency_penalty"], 0.5);
    assert_eq!(document["presence_penalty"], 0.5);
    assert_eq!(document["thinking_budget"], 150);
    assert_eq!(document["stop"][0], "<think>");
    assert_eq!(document["stop"][1], "\n*");
    assert_eq!(document.to_string(), body);
    assert_eq!(request_with("\"s\"", "\"u\""), request_body("s", "u"));
    assert_eq!(quoted("a\"b"), "\"a\\\"b\"");
    assert_eq!(quoted(""), "\"\"");
    assert_eq!(
        quoted("\\/\u{8}\t\n\u{c}\r\u{1}\u{1f}\u{7f}ñ🛒"),
        "\"\\\\/\\b\\t\\n\\f\\r\\u0001\\u001f\u{7f}ñ🛒\""
    );
}

#[test]
fn reply_holds_a_message() {
    assert_eq!(
        read_reply("{\"choices\":[{\"message\":{\"content\":\"hola\"}}]}"),
        Ok("hola".to_string())
    );
    for text in [
        "{}",
        "{\"choices\":[]}",
        "{\"choices\":{}}",
        "{\"choices\":[{}]}",
        "{\"choices\":[{\"message\":{\"content\":null}}]}",
    ] {
        assert_eq!(read_reply(text), Err(ReplyError::NoContent));
    }
    assert_eq!(read_reply("<html>"), Err(ReplyError::NotJson));
    let reply: serde_json::Value =
        serde_json::from_str("{\"choices\":[{\"message\":{\"content\":\"x\"}}]}").unwrap();
    assert_eq!(message_content(&reply), Some("x".to_string()));
    assert_eq!(refusal_text("u", "e"), "Error en respuesta de LM Studio (u): e");
}

#[test]
fn errors_may_ask_for_a_token() {
    assert!(asks_for_token("invalid_api_key"));
    assert!(asks_for_token("Malformed LM Studio API token provided"));
    assert!(asks_for_token("a token, please"));
    assert!(!asks_for_token("connection refused"));
}

#[test]
fn model_is_asked_three_times() {
    assert_eq!(ATTEMPTS, 3);
    assert_eq!(attempts_left(3, false), 2);
    assert_eq!(attempts_left(1, false), 0);
    assert_eq!(attempts_left(3, true), 0);
}

#[test]
fn only_real_remarks_are_shown() {
    assert!(worth_showing("sube"));
    assert!(!worth_showing("Sin análisis"));
    assert!(worth_showing("Error al obtener respuesta"));
    assert!(!worth_showing_live("Error al obtener respuesta"));
    assert!(!worth_showing_live("Sin análisis"));
    assert!(worth_showing_live("sube"));
    assert!(!worth_showing(" \n"));
}

#[test]
fn instructions_name_the_leverage() {
    let live = system_prompt("7", false);
    assert!(live.starts_with("CRITICAL: DO NOT use any <think> tags."));
    assert!(live.contains("(Base Leverage: 7X):\n- Two boxes: 80 percent Long-Term (LT) and 20 percent Short-Term (ST)"));
    assert!(live.contains("\"stop_loss\": null"));
    assert!(live.ends_with('}'));
    assert!(!live.contains("Scoring System"));
    let scored = system_prompt("12.5", true);
    assert!(scored.contains("(Base Leverage: 12.5X)"));
    assert!(scored.contains("Scoring System (Directional Accuracy):"));
}
