//! The dialogue with the local model: the request, and the reading of its answer.

use crate::decimal_reader;
use crate::decimal_reader::spells_word;
use crate::double::Double;
use crate::json;
use crate::json::{
    as_boolean, as_double, as_integer, as_text, elements, member, parse_json, quoted, text_member,
    Json,
};
use crate::text;
use crate::text::{chars_of, ends_with, same_text, text_between, trim};
use crate::types::{BoxAction, GemmaResponse};
use vstd::prelude::*;
use vstd::string::*;

verus! {

/// What an action for one box says.
#[verifier::ext_equal]
pub struct BoxOrder {
    pub accion: Seq<char>,
    pub cerrar: bool,
    pub apalancamiento: Option<Double>,
    pub stop_loss: Option<Double>,
}

/// What an answer of the model says.
#[verifier::ext_equal]
pub struct Answer {
    pub analisis: Option<Seq<char>>,
    pub lt_box: BoxOrder,
    pub st_box: BoxOrder,
}

impl View for BoxAction {
    type V = BoxOrder;

    open spec fn view(&self) -> BoxOrder {
        BoxOrder {
            accion: self.accion@,
            cerrar: self.cerrar,
            apalancamiento: self.apalancamiento,
            stop_loss: self.stop_loss,
        }
    }
}

impl View for GemmaResponse {
    type V = Answer;

    open spec fn view(&self) -> Answer {
        Answer {
            analisis: match self.analisis {
                Some(s) => Some(s@),
                None => None,
            },
            lt_box: self.lt_box@,
            st_box: self.st_box@,
        }
    }
}

/// The position of the first `c` at or behind `from`.
pub open spec fn first_at(s: Seq<char>, c: char, from: nat) -> Option<int>
    decreases s.len() - from,
{
    if from >= s.len() {
        None
    } else if s[from as int] == c {
        Some(from as int)
    } else {
        first_at(s, c, from + 1)
    }
}

/// The position of the last `c` among the first `n` characters.
pub open spec fn last_at(s: Seq<char>, c: char, n: nat) -> Option<int>
    decreases n,
{
    if n == 0 {
        None
    } else if s[n - 1] == c {
        Some(n - 1)
    } else {
        last_at(s, c, (n - 1) as nat)
    }
}

/// The part of a text from its first opening brace to its last closing one.
pub open spec fn braced(s: Seq<char>) -> Option<Seq<char>> {
    match (first_at(s, '{', 0), last_at(s, '}', s.len())) {
        (Some(start), Some(end)) => if end > start {
            Some(s.subrange(start, end + 1))
        } else {
            None
        },
        _ => None,
    }
}

proof fn lemma_first_at(s: Seq<char>, c: char, from: nat, k: nat)
    requires
        from <= k < s.len(),
        s[k as int] == c,
        forall|i: int| from <= i < k ==> s[i] != c,
    ensures
        first_at(s, c, from) == Some(k as int),
    decreases k - from,
{
    if from < k {
        lemma_first_at(s, c, from + 1, k);
    }
}

proof fn lemma_last_at(s: Seq<char>, c: char, n: nat, k: nat)
    requires
        k < n <= s.len(),
        s[k as int] == c,
        forall|i: int| k < i < n ==> s[i] != c,
    ensures
        last_at(s, c, n) == Some(k as int),
    decreases n,
{
    if k < n - 1 {
        lemma_last_at(s, c, (n - 1) as nat, k);
    }
}

proof fn lemma_first_found(s: Seq<char>, c: char, from: nat)
    ensures
        match first_at(s, c, from) {
            Some(k) => from <= k < s.len() && s[k] == c && (forall|i: int| from <= i < k ==> s[i] != c),
            None => forall|i: int| from <= i < s.len() ==> s[i] != c,
        },
    decreases s.len() - from,
{
    if from < s.len() && s[from as int] != c {
        lemma_first_found(s, c, from + 1);
    }
}

proof fn lemma_last_found(s: Seq<char>, c: char, n: nat)
    requires
        n <= s.len(),
    ensures
        match last_at(s, c, n) {
            Some(k) => 0 <= k < n && s[k] == c && (forall|i: int| k < i < n ==> s[i] != c),
            None => forall|i: int| 0 <= i < n ==> s[i] != c,
        },
    decreases n,
{
    if n > 0 && s[n - 1] != c {
        lemma_last_found(s, c, (n - 1) as nat);
    }
}

/// Whatever surrounds a text is passed over, as long as no opening brace comes before it and no
/// closing one behind it.
pub proof fn noise_is_passed_over(before: Seq<char>, s: Seq<char>, behind: Seq<char>)
    requires
        !before.contains('{'),
        !behind.contains('}'),
    ensures
        braced(before + s + behind) == braced(s),
{
    let all = before + s + behind;
    let shift = before.len() as int;
    assert forall|i: int| 0 <= i < before.len() implies all[i] != '{' by {
        assert(before.contains(before[i]));
    }
    assert forall|i: int| shift + s.len() <= i < all.len() implies all[i] != '}' by {
        assert(all[i] == behind[i - shift - s.len()]);
        assert(behind.contains(behind[i - shift - s.len()]));
    }
    assert forall|i: int| 0 <= i < s.len() implies all[shift + i] == s[i] by {}
    lemma_first_found(s, '{', 0);
    lemma_last_found(s, '}', s.len());
    lemma_first_found(all, '{', 0);
    lemma_last_found(all, '}', all.len());
    match (first_at(s, '{', 0), last_at(s, '}', s.len())) {
        (Some(start), Some(end)) => {
            assert forall|i: int| 0 <= i < shift + start implies all[i] != '{' by {
                if i >= shift {
                    assert(all[i] == s[i - shift]);
                }
            }
            lemma_first_at(all, '{', 0, (shift + start) as nat);
            assert forall|i: int| shift + end < i < all.len() implies all[i] != '}' by {
                if i < shift + s.len() {
                    assert(all[i] == s[i - shift]);
                }
            }
            lemma_last_at(all, '}', all.len(), (shift + end) as nat);
            if end > start {
                assert(all.subrange(shift + start, shift + end + 1) =~= s.subrange(start, end + 1));
            }
        },
        (Some(start), None) => {
            assert forall|i: int| 0 <= i < shift + start implies all[i] != '{' by {
                if i >= shift {
                    assert(all[i] == s[i - shift]);
                }
            }
            lemma_first_at(all, '{', 0, (shift + start) as nat);
            assert forall|i: int| shift <= i < all.len() implies all[i] != '}' by {
                if i < shift + s.len() {
                    assert(all[i] == s[i - shift]);
                }
            }
        },
        (None, _) => {
            assert forall|i: int| 0 <= i < shift + s.len() implies all[i] != '{' by {
                if i >= shift {
                    assert(all[i] == s[i - shift]);
                }
            }
        },
    }
}

/// A document in braces is found in whatever surrounds it, as long as no opening brace comes before
/// it and no closing one behind it.
pub proof fn documents_are_found(before: Seq<char>, document: Seq<char>, behind: Seq<char>)
    requires
        !before.contains('{'),
        !behind.contains('}'),
        document.len() >= 2,
        document[0] == '{',
        document.last() == '}',
    ensures
        braced(before + document + behind) == Some(document),
{
    noise_is_passed_over(before, document, behind);
    lemma_first_at(document, '{', 0, 0);
    lemma_last_at(document, '}', document.len(), (document.len() - 1) as nat);
    assert(document.subrange(0, document.len() as int) =~= document);
}

/// The part of an answer that holds its JSON document.
pub fn json_part(text: &str) -> (r: Option<String>)
    ensures
        match r {
            Some(part) => braced(text@) == Some(part@),
            None => braced(text@) is None,
        },
{
    let s = chars_of(text);
    let mut start: usize = 0;
    while start < s.len() && s[start] != '{'
        invariant
            start <= s@.len(),
            first_at(s@, '{', start as nat) == first_at(s@, '{', 0),
        decreases s@.len() - start,
    {
        start = start + 1;
    }
    let mut end: usize = s.len();
    while end > 0 && s[end - 1] != '}'
        invariant
            end <= s@.len(),
            last_at(s@, '}', end as nat) == last_at(s@, '}', s@.len()),
        decreases end,
    {
        end = end - 1;
    }
    if start < s.len() && end > 0 && end - 1 > start {
        Some(text_between(&s, start, end))
    } else {
        None
    }
}

/// The box under its key, in small letters, in capitals, or without its underscore.
pub open spec fn box_member(
    document: Json,
    key: Seq<char>,
    capitals: Seq<char>,
    bare: Seq<char>,
) -> Option<Json> {
    match document.at(key) {
        Some(b) => Some(b),
        None => match document.at(capitals) {
            Some(b) => Some(b),
            None => document.at(bare),
        },
    }
}

/// Whether a value stands for "yes": true, the text "true" in any case, the text "1", or one.
pub open spec fn affirmed(v: Json) -> bool {
    match v {
        Json::Bool(b) => b,
        Json::Text(s) => decimal_reader::spells(s, "true"@) || s == "1"@,
        Json::Number { integer, double } => integer == Some(1i64),
        _ => false,
    }
}

/// The order that a box of an answer holds; without a box, nothing is done.
pub open spec fn order_in(found: Option<Json>) -> BoxOrder {
    match found {
        Some(b) => BoxOrder {
            accion: match b.text_at("accion"@) {
                Some(s) => s,
                None => "FLAT"@,
            },
            cerrar: match b.at("cerrar"@) {
                Some(v) => affirmed(v),
                None => false,
            },
            apalancamiento: match b.at("apalancamiento"@) {
                Some(v) => v.double(),
                None => None,
            },
            stop_loss: match b.at("stop_loss"@) {
                Some(v) => v.double(),
                None => None,
            },
        },
        None => BoxOrder {
            accion: "FLAT"@,
            cerrar: false,
            apalancamiento: None,
            stop_loss: None,
        },
    }
}

/// What a document says, box by box, whatever its shape.
pub open spec fn answer_in(document: Json) -> Answer {
    Answer {
        analisis: document.text_at("analisis"@),
        lt_box: order_in(box_member(document, "lt_box"@, "LT_BOX"@, "ltbox"@)),
        st_box: order_in(box_member(document, "st_box"@, "ST_BOX"@, "stbox"@)),
    }
}

fn is_affirmed(v: &serde_json::Value) -> (r: bool)
    ensures
        r == affirmed(json::json_tree(*v)),
{
    match as_boolean(v) {
        Some(b) => {
            return b;
        },
        None => {},
    }
    match as_text(v) {
        Some(s) => {
            let chars = chars_of(s);
            return spells_word(&chars, "true") || same_text(s, "1");
        },
        None => {},
    }
    match as_integer(v) {
        Some(n) => n == 1,
        None => false,
    }
}

fn double_member(v: &serde_json::Value, key: &str) -> (r: Option<Double>)
    ensures
        r == (match json::json_tree(*v).at(key@) {
            Some(m) => m.double(),
            None => None,
        }),
{
    match member(v, key) {
        Some(m) => as_double(m),
        None => None,
    }
}

fn read_box(v: &serde_json::Value, key: &str, capitals: &str, bare: &str) -> (r: BoxAction)
    ensures
        r@ == order_in(box_member(json::json_tree(*v), key@, capitals@, bare@)),
{
    let found = match member(v, key) {
        Some(b) => Some(b),
        None => match member(v, capitals) {
            Some(b) => Some(b),
            None => member(v, bare),
        },
    };
    match found {
        Some(b) => {
            let accion = match text_member(b, "accion") {
                Some(s) => s.to_owned(),
                None => "FLAT".to_owned(),
            };
            let cerrar = match member(b, "cerrar") {
                Some(c) => is_affirmed(c),
                None => false,
            };
            BoxAction {
                accion,
                cerrar,
                apalancamiento: double_member(b, "apalancamiento"),
                stop_loss: double_member(b, "stop_loss"),
            }
        },
        None => BoxAction {
            accion: "FLAT".to_owned(),
            cerrar: false,
            apalancamiento: None,
            stop_loss: None,
        },
    }
}

/// What a document says, box by box, whatever its shape.
pub fn read_response(document: &serde_json::Value) -> (r: GemmaResponse)
    ensures
        r@ == answer_in(json::json_tree(*document)),
{
    let analisis = match text_member(document, "analisis") {
        Some(s) => Some(s.to_owned()),
        None => None,
    };
    GemmaResponse {
        analisis,
        lt_box: read_box(document, "lt_box", "LT_BOX", "ltbox"),
        st_box: read_box(document, "st_box", "ST_BOX", "stbox"),
    }
}

/// Reads the answer of the model. `direct` is what the part in braces gives when it is read as a
/// complete answer with every field in its place; where it is none, the boxes are read one by one.
pub fn parse_gemma_response(text: &str, direct: Option<GemmaResponse>) -> (r: Option<GemmaResponse>)
    ensures
        match braced(text@) {
            None => r is None,
            Some(part) => if direct is Some {
                r == direct
            } else {
                match json::json_of_text(part) {
                    Some(document) => r matches Some(answer) && answer@ == answer_in(document),
                    None => r is None,
                }
            },
        },
{
    let part = match json_part(text) {
        Some(part) => part,
        None => {
            return None;
        },
    };
    if direct.is_some() {
        return direct;
    }
    match parse_json(part.as_str()) {
        Ok(document) => Some(read_response(&document)),
        Err(_) => None,
    }
}

/// The address of the completions of a server: the path is added where it is missing.
pub open spec fn completions_address(api_url: Seq<char>) -> Seq<char> {
    let address = text::trimmed(api_url);
    if text::ends_in(address, "/v1/chat/completions"@) {
        address
    } else if text::ends_in(address, "/"@) {
        address + "v1/chat/completions"@
    } else {
        address + "/v1/chat/completions"@
    }
}

/// The address of the completions of a server.
pub fn completions_url(api_url: &str) -> (r: String)
    ensures
        r@ == completions_address(api_url@),
{
    let mut address = trim(api_url);
    if !ends_with(address.as_str(), "/v1/chat/completions") {
        if ends_with(address.as_str(), "/") {
            address.append("v1/chat/completions");
        } else {
            address.append("/v1/chat/completions");
        }
    }
    address
}

/// An address that is complete is left as it is: completing twice is completing once.
pub proof fn completing_once_is_enough(api_url: Seq<char>)
    ensures
        completions_address(completions_address(api_url)) == completions_address(api_url),
        text::ends_in(completions_address(api_url), "/v1/chat/completions"@),
{
    reveal_strlit("/v1/chat/completions");
    reveal_strlit("v1/chat/completions");
    reveal_strlit("/");
    let path = "/v1/chat/completions"@;
    let short = "v1/chat/completions"@;
    assert(path =~= "/"@ + short);
    let trimmed = text::trimmed(api_url);
    let address = completions_address(api_url);
    text::trimming_trims(api_url);
    if text::ends_in(trimmed, path) {
        text::trimming_leaves_trimmed(address);
    } else {
        assert(address.subrange(address.len() - path.len(), address.len() as int) =~= path) by {
            if text::ends_in(trimmed, "/"@) {
                let slash = trimmed.subrange(trimmed.len() - 1, trimmed.len() as int);
                assert(slash[0] == '/');
                assert(trimmed[trimmed.len() - 1] == '/');
            }
        }
        assert(address.last() == 's');
        if trimmed.len() > 0 {
            assert(address[0] == trimmed[0]);
        } else {
            assert(address[0] == '/');
        }
        text::trimming_leaves_trimmed(address);
    }
}

/// The body of a request to the model, from the prompts as JSON strings.
pub open spec fn request(system_json: Seq<char>, user_json: Seq<char>) -> Seq<char> {
    "{\"frequency_penalty\":0.5,\"max_tokens\":1000,\"messages\":[{\"content\":"@ + system_json
        + ",\"role\":\"system\"},{\"content\":"@ + user_json
        + ",\"role\":\"user\"}],\"model\":\"local-model\",\"presence_penalty\":0.5,\"stop\":[\"<think>\",\"\\n*\"],\"temperature\":0.1,\"thinking_budget\":150}"@
}

/// The body of a request to the model, from the prompts as JSON strings.
pub fn request_with(system_json: &str, user_json: &str) -> (r: String)
    ensures
        r@ == request(system_json@, user_json@),
{
    let mut body =
        "{\"frequency_penalty\":0.5,\"max_tokens\":1000,\"messages\":[{\"content\":".to_owned();
    body.append(system_json);
    body.append(",\"role\":\"system\"},{\"content\":");
    body.append(user_json);
    body.append(
        ",\"role\":\"user\"}],\"model\":\"local-model\",\"presence_penalty\":0.5,\"stop\":[\"<think>\",\"\\n*\"],\"temperature\":0.1,\"thinking_budget\":150}",
    );
    body
}

/// The body of a request to the model.
pub fn request_body(system_prompt: &str, user_prompt: &str) -> (r: String)
    ensures
        r@ == request(json::json_quoted(system_prompt@), json::json_quoted(user_prompt@)),
{
    let system = quoted(system_prompt);
    let user = quoted(user_prompt);
    request_with(system.as_str(), user.as_str())
}

/// Why a reply of the model server holds no answer.
#[derive(Debug, Clone, Copy, PartialEq, Eq, Structural)]
pub enum ReplyError {
    /// The reply is no JSON document.
    NotJson,
    /// The reply holds no message.
    NoContent,
}

/// The text of the first message in a reply.
pub open spec fn content_in(reply: Json) -> Option<Seq<char>> {
    match reply.at("choices"@) {
        Some(choices) => match choices.nth(0) {
            Some(choice) => match choice.at("message"@) {
                Some(message) => message.text_at("content"@),
                None => None,
            },
            None => None,
        },
        None => None,
    }
}

/// The text of the first message in a reply.
pub fn message_content(reply: &serde_json::Value) -> (r: Option<String>)
    ensures
        match r {
            Some(s) => content_in(json::json_tree(*reply)) == Some(s@),
            None => content_in(json::json_tree(*reply)) is None,
        },
{
    let choices = match member(reply, "choices") {
        Some(v) => match elements(v) {
            Some(list) => list,
            None => {
                return None;
            },
        },
        None => {
            return None;
        },
    };
    if choices.len() == 0 {
        return None;
    }
    match member(&choices[0], "message") {
        Some(message) => match text_member(message, "content") {
            Some(s) => Some(s.to_owned()),
            None => None,
        },
        None => None,
    }
}

/// Reads the reply of the model server.
pub fn read_reply(text: &str) -> (r: Result<String, ReplyError>)
    ensures
        match json::json_of_text(text@) {
            None => r == Err::<String, ReplyError>(ReplyError::NotJson),
            Some(reply) => match content_in(reply) {
                None => r == Err::<String, ReplyError>(ReplyError::NoContent),
                Some(content) => r matches Ok(s) && s@ == content,
            },
        },
{
    match parse_json(text) {
        Ok(reply) => match message_content(&reply) {
            Some(content) => Ok(content),
            None => Err(ReplyError::NoContent),
        },
        Err(_) => Err(ReplyError::NotJson),
    }
}

/// What the server says of a request that it refused.
pub fn refusal_text(url: &str, answer: &str) -> (r: String)
    ensures
        r@ == "Error en respuesta de LM Studio ("@ + url@ + "): "@ + answer@,
{
    let mut out = "Error en respuesta de LM Studio (".to_owned();
    out.append(url);
    out.append("): ");
    out.append(answer);
    out
}

/// Whether an error of the model server asks for another token.
pub fn asks_for_token(message: &str) -> (r: bool)
    ensures
        r == (text::holds(message@, "invalid_api_key"@) || text::holds(
            message@,
            "Malformed LM Studio API token"@,
        ) || text::holds(message@, "token"@)),
{
    text::contains_text(message, "invalid_api_key") || text::contains_text(
        message,
        "Malformed LM Studio API token",
    ) || text::contains_text(message, "token")
}

/// How often the model is asked in one step.
pub const ATTEMPTS: u32 = 3;

/// The attempts that are left after one: none once the model has answered.
pub fn attempts_left(left: u32, answered: bool) -> (r: u32)
    requires
        left > 0,
    ensures
        r == (if answered {
            0
        } else {
            left - 1
        }),
{
    if answered {
        0
    } else {
        left - 1
    }
}

/// Whether the remark of the model is worth showing: neither blank nor the text that stands for no
/// remark.
pub fn worth_showing(remark: &str) -> (r: bool)
    ensures
        r == (remark@ != "Sin análisis"@ && text::trimmed(remark@).len() > 0),
{
    let body = trim(remark);
    !same_text(remark, "Sin análisis") && chars_of(body.as_str()).len() > 0
}

/// The same in live trading, where another text stands for no answer at all.
pub fn worth_showing_live(remark: &str) -> (r: bool)
    ensures
        r == (remark@ != "Sin análisis"@ && remark@ != "Error al obtener respuesta"@
            && text::trimmed(remark@).len() > 0),
{
    worth_showing(remark) && !same_text(remark, "Error al obtener respuesta")
}

} // verus!
