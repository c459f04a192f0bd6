//! Reading the answers of the exchange.

use crate::decimal;
use crate::decimal::{fixed_text, integer_text};
use crate::decimal_reader;
use crate::decimal_reader::{parse_double, parse_double_or};
use crate::double::Double;
use crate::json;
use crate::json::{as_integer, elements, member, parse_json, text_member, Json};
use crate::types::BingXAccountInfo;
use vstd::prelude::*;
use vstd::string::*;

verus! {

/// Why an answer of the exchange gives no result.
#[derive(Debug, Clone)]
pub enum ApiError {
    /// The answer is no JSON document.
    NotJson,
    /// The answer holds a text where a number belongs.
    NotANumber,
    /// The exchange refused the request, or its answer lacks what was asked for.
    Failed { message: String },
}

/// What an error says.
pub enum Fault {
    NotJson,
    NotANumber,
    Failed { message: Seq<char> },
}

impl View for ApiError {
    type V = Fault;

    open spec fn view(&self) -> Fault {
        match self {
            ApiError::NotJson => Fault::NotJson,
            ApiError::NotANumber => Fault::NotANumber,
            ApiError::Failed { message } => Fault::Failed { message: message@ },
        }
    }
}

fn failed(message: &str) -> (r: ApiError)
    ensures
        r@ == (Fault::Failed { message: message@ }),
{
    ApiError::Failed { message: message.to_owned() }
}

fn failed_with(lead: &str, detail: &str) -> (r: ApiError)
    ensures
        r@ == (Fault::Failed { message: lead@ + detail@ }),
{
    let mut message = lead.to_owned();
    message.append(detail);
    ApiError::Failed { message }
}

/// What is said of the kinds of requests that the exchange acknowledges with a code.
#[derive(Debug, Clone, Copy, PartialEq, Eq, Structural)]
pub enum Request {
    Connection,
    Leverage,
    Order,
    Positions,
}

impl Request {
    /// What leads an error code of the exchange.
    pub open spec fn code_lead(self) -> Seq<char> {
        match self {
            Request::Connection => "Error BingX (código "@,
            Request::Leverage => "Error BingX (código "@,
            Request::Order => "Error BingX al colocar orden (código "@,
            Request::Positions => "Error BingX al consultar posiciones (código "@,
        }
    }

    /// What stands for an error without a message.
    pub open spec fn unnamed(self) -> Seq<char> {
        match self {
            Request::Connection => "Error desconocido"@,
            _ => "Error"@,
        }
    }

    /// What is said of an answer without a code.
    pub open spec fn malformed(self) -> Seq<char> {
        match self {
            Request::Connection => "Formato de respuesta de BingX no válido"@,
            Request::Leverage => "Respuesta no válida"@,
            Request::Order => "Respuesta no válida de BingX"@,
            Request::Positions => "Respuesta no válida de BingX"@,
        }
    }

    /// What leads the text of a request that failed at the transport.
    pub open spec fn transport_lead(self) -> Seq<char> {
        match self {
            Request::Connection => "Error HTTP en BingX: "@,
            Request::Leverage => "Error HTTP: "@,
            Request::Order => "Error HTTP: "@,
            Request::Positions => "Error HTTP al obtener posiciones: "@,
        }
    }

    fn code_lead_text(self) -> (r: &'static str)
        ensures
            r@ == self.code_lead(),
    {
        match self {
            Request::Connection => "Error BingX (código ",
            Request::Leverage => "Error BingX (código ",
            Request::Order => "Error BingX al colocar orden (código ",
            Request::Positions => "Error BingX al consultar posiciones (código ",
        }
    }

    fn unnamed_text(self) -> (r: &'static str)
        ensures
            r@ == self.unnamed(),
    {
        match self {
            Request::Connection => "Error desconocido",
            _ => "Error",
        }
    }

    fn malformed_text(self) -> (r: &'static str)
        ensures
            r@ == self.malformed(),
    {
        match self {
            Request::Connection => "Formato de respuesta de BingX no válido",
            Request::Leverage => "Respuesta no válida",
            Request::Order => "Respuesta no válida de BingX",
            Request::Positions => "Respuesta no válida de BingX",
        }
    }

    fn transport_lead_text(self) -> (r: &'static str)
        ensures
            r@ == self.transport_lead(),
    {
        match self {
            Request::Connection => "Error HTTP en BingX: ",
            Request::Leverage => "Error HTTP: ",
            Request::Order => "Error HTTP: ",
            Request::Positions => "Error HTTP al obtener posiciones: ",
        }
    }
}

/// The code of an answer.
pub open spec fn code_in(answer: Json) -> Option<i64> {
    match answer.at("code"@) {
        Some(v) => v.integer(),
        None => None,
    }
}

/// The fault of an answer: none where its code is zero.
pub open spec fn fault_in(answer: Json, request: Request) -> Option<Fault> {
    match code_in(answer) {
        Some(code) => if code == 0 {
            None
        } else {
            let said = match answer.text_at("msg"@) {
                Some(msg) => msg,
                None => request.unnamed(),
            };
            Some(
                Fault::Failed {
                    message: request.code_lead() + decimal::signed_numeral(code as int) + "): "@
                        + said,
                },
            )
        },
        None => Some(Fault::Failed { message: request.malformed() }),
    }
}

/// Accepts an answer whose code is zero.
pub fn check_code(answer: &serde_json::Value, request: Request) -> (r: Result<(), ApiError>)
    ensures
        match r {
            Ok(_) => fault_in(json::json_tree(*answer), request) is None,
            Err(e) => fault_in(json::json_tree(*answer), request) == Some(e@),
        },
{
    let code = match member(answer, "code") {
        Some(v) => as_integer(v),
        None => None,
    };
    match code {
        Some(code) => {
            if code == 0 {
                return Ok(());
            }
            let mut message = request.code_lead_text().to_owned();
            let number = integer_text(code as i128);
            message.append(number.as_str());
            message.append("): ");
            match text_member(answer, "msg") {
                Some(msg) => {
                    message.append(msg);
                },
                None => {
                    message.append(request.unnamed_text());
                },
            }
            Err(ApiError::Failed { message })
        },
        None => Err(failed(request.malformed_text())),
    }
}

/// The fault of an answer from its text: the transport comes first, then the document, then its
/// code.
pub open spec fn acknowledgement(success: bool, text: Seq<char>, request: Request) -> Option<Fault> {
    if !success {
        Some(Fault::Failed { message: request.transport_lead() + text })
    } else {
        match json::json_of_text(text) {
            None => Some(Fault::NotJson),
            Some(answer) => fault_in(answer, request),
        }
    }
}

/// Reads the answer to a request that is only acknowledged: the test of the connection, or the
/// setting of a leverage.
pub fn read_acknowledgement(success: bool, text: &str, request: Request) -> (r: Result<
    (),
    ApiError,
>)
    ensures
        match r {
            Ok(_) => acknowledgement(success, text@, request) is None,
            Err(e) => acknowledgement(success, text@, request) == Some(e@),
        },
{
    if !success {
        return Err(failed_with(request.transport_lead_text(), text));
    }
    match parse_json(text) {
        Ok(answer) => check_code(&answer, request),
        Err(_) => Err(ApiError::NotJson),
    }
}

/// The average price that an accepted order reports, in its data or beside them.
pub open spec fn average_price(answer: Json) -> Option<Seq<char>> {
    match answer.at("data"@) {
        Some(data) => data.text_at("avgPrice"@),
        None => answer.text_at("avgPrice"@),
    }
}

/// The average price that an accepted order reports.
pub fn average_price_in(answer: &serde_json::Value) -> (r: Option<String>)
    ensures
        match r {
            Some(s) => average_price(json::json_tree(*answer)) == Some(s@),
            None => average_price(json::json_tree(*answer)) is None,
        },
{
    let place = match member(answer, "data") {
        Some(data) => data,
        None => answer,
    };
    match text_member(place, "avgPrice") {
        Some(s) => Some(s.to_owned()),
        None => None,
    }
}

/// Reads the answer to a market order: the average price, where it reports one.
pub fn read_order(success: bool, text: &str) -> (r: Result<Option<String>, ApiError>)
    ensures
        match r {
            Err(e) => acknowledgement(success, text@, Request::Order) == Some(e@),
            Ok(price) => {
                &&& acknowledgement(success, text@, Request::Order) is None
                &&& match price {
                    Some(s) => average_price(json::json_of_text(text@)->Some_0) == Some(s@),
                    None => average_price(json::json_of_text(text@)->Some_0) is None,
                }
            },
        },
{
    if !success {
        return Err(failed_with(Request::Order.transport_lead_text(), text));
    }
    match parse_json(text) {
        Ok(answer) => match check_code(&answer, Request::Order) {
            Ok(_) => Ok(average_price_in(&answer)),
            Err(e) => Err(e),
        },
        Err(_) => Err(ApiError::NotJson),
    }
}

/// The text of the price in an answer.
pub open spec fn price_text(answer: Json) -> Option<Seq<char>> {
    match answer.at("data"@) {
        Some(data) => data.text_at("price"@),
        None => None,
    }
}

/// The price in an answer, or the fault.
pub open spec fn price_in(answer: Json) -> Result<Double, Fault> {
    match price_text(answer) {
        Some(s) => match decimal_reader::read_double(s) {
            Some(x) => Ok(x),
            None => Err(Fault::NotANumber),
        },
        None => Err(Fault::Failed { message: "Formato de precio no encontrado en BingX"@ }),
    }
}

/// The result that a contract speaks of.
pub open spec fn result_view<T>(r: Result<T, ApiError>) -> Result<T, Fault> {
    match r {
        Ok(x) => Ok(x),
        Err(e) => Err(e@),
    }
}

/// The price in an answer.
pub fn price_of(answer: &serde_json::Value) -> (r: Result<Double, ApiError>)
    ensures
        result_view(r) == price_in(json::json_tree(*answer)),
{
    let found = match member(answer, "data") {
        Some(data) => text_member(data, "price"),
        None => None,
    };
    match found {
        Some(s) => match parse_double(s) {
            Some(x) => Ok(x),
            None => Err(ApiError::NotANumber),
        },
        None => Err(failed("Formato de precio no encontrado en BingX")),
    }
}

/// The price from the text of an answer.
pub open spec fn price_answer(success: bool, text: Seq<char>) -> Result<Double, Fault> {
    if !success {
        Err(Fault::Failed { message: "Error obteniendo precio: "@ + text })
    } else {
        match json::json_of_text(text) {
            None => Err(Fault::NotJson),
            Some(answer) => price_in(answer),
        }
    }
}

/// Reads the answer to the question for a price.
pub fn read_price(success: bool, text: &str) -> (r: Result<Double, ApiError>)
    ensures
        result_view(r) == price_answer(success, text@),
{
    if !success {
        return Err(failed_with("Error obteniendo precio: ", text));
    }
    match parse_json(text) {
        Ok(answer) => price_of(&answer),
        Err(_) => Err(ApiError::NotJson),
    }
}

/// The number that a text stands for, or `other` where it is none.
pub open spec fn number_or(s: Seq<char>, other: Double) -> Double {
    match decimal_reader::read_double(s) {
        Some(x) => x,
        None => other,
    }
}

/// A number that is written as a text under a key, zero where it is missing or unreadable.
pub open spec fn amount_at(v: Json, key: Seq<char>) -> Double {
    match v.text_at(key) {
        Some(s) => number_or(s, Double::zero()),
        None => Double::zero(),
    }
}

fn amount_member(v: &serde_json::Value, key: &str) -> (r: Double)
    ensures
        r == amount_at(json::json_tree(*v), key@),
{
    match text_member(v, key) {
        Some(s) => parse_double_or(s, Double { bits: 0 }),
        None => Double { bits: 0 },
    }
}

/// What the account holds.
#[verifier::ext_equal]
pub struct Account {
    pub wallet_balance: Double,
    pub available_margin: Double,
    pub user_id: Seq<char>,
}

impl View for BingXAccountInfo {
    type V = Account;

    open spec fn view(&self) -> Account {
        Account {
            wallet_balance: self.wallet_balance,
            available_margin: self.available_margin,
            user_id: self.user_id@,
        }
    }
}

/// The account in an answer, or the fault.
pub open spec fn account_in(answer: Json) -> Result<Account, Fault> {
    let found = match answer.at("data"@) {
        Some(data) => data.at("balance"@),
        None => None,
    };
    match found {
        Some(balance) => Ok(
            Account {
                wallet_balance: amount_at(balance, "balance"@),
                available_margin: amount_at(balance, "availableMargin"@),
                user_id: match balance.text_at("userId"@) {
                    Some(s) => s,
                    None => ""@,
                },
            },
        ),
        None => Err(
            Fault::Failed {
                message: "No se pudo obtener la información de balance/userId en la respuesta de BingX"@,
            },
        ),
    }
}

/// The account in an answer.
pub fn account_of(answer: &serde_json::Value) -> (r: Result<BingXAccountInfo, ApiError>)
    ensures
        match r {
            Ok(account) => account_in(json::json_tree(*answer)) == Ok::<Account, Fault>(account@),
            Err(e) => account_in(json::json_tree(*answer)) == Err::<Account, Fault>(e@),
        },
{
    let found = match member(answer, "data") {
        Some(data) => member(data, "balance"),
        None => None,
    };
    match found {
        Some(balance) => {
            let user_id = match text_member(balance, "userId") {
                Some(s) => s.to_owned(),
                None => "".to_owned(),
            };
            Ok(
                BingXAccountInfo {
                    wallet_balance: amount_member(balance, "balance"),
                    available_margin: amount_member(balance, "availableMargin"),
                    user_id,
                },
            )
        },
        None => Err(
            failed(
                "No se pudo obtener la información de balance/userId en la respuesta de BingX",
            ),
        ),
    }
}

/// The account from the text of an answer.
pub open spec fn account_answer(success: bool, text: Seq<char>) -> Result<Account, Fault> {
    if !success {
        Err(Fault::Failed { message: "Error HTTP al obtener balances: "@ + text })
    } else {
        match json::json_of_text(text) {
            None => Err(Fault::NotJson),
            Some(answer) => account_in(answer),
        }
    }
}

/// Reads the answer to the question for the balance.
pub fn read_account(success: bool, text: &str) -> (r: Result<BingXAccountInfo, ApiError>)
    ensures
        match r {
            Ok(account) => account_answer(success, text@) == Ok::<Account, Fault>(account@),
            Err(e) => account_answer(success, text@) == Err::<Account, Fault>(e@),
        },
{
    if !success {
        return Err(failed_with("Error HTTP al obtener balances: ", text));
    }
    match parse_json(text) {
        Ok(answer) => account_of(&answer),
        Err(_) => Err(ApiError::NotJson),
    }
}

/// A position as the exchange reports it, in its own words.
#[derive(Debug, Clone)]
pub struct ReportedPosition {
    pub amount: String,
    pub side: String,
    pub entry_price: String,
    pub unrealized_profit: String,
    pub leverage: String,
}

/// What a reported position says.
#[verifier::ext_equal]
pub struct Report {
    pub amount: Seq<char>,
    pub side: Seq<char>,
    pub entry_price: Seq<char>,
    pub unrealized_profit: Seq<char>,
    pub leverage: Seq<char>,
}

impl View for ReportedPosition {
    type V = Report;

    open spec fn view(&self) -> Report {
        Report {
            amount: self.amount@,
            side: self.side@,
            entry_price: self.entry_price@,
            unrealized_profit: self.unrealized_profit@,
            leverage: self.leverage@,
        }
    }
}

impl Report {
    /// How much the position holds, whatever its sign; zero where the amount is unreadable.
    pub open spec fn size(self) -> Double {
        number_or(self.amount, Double::zero()).absolute()
    }

    /// Whether the position holds anything.
    pub open spec fn is_open(self) -> bool {
        Double::zero().below(self.size())
    }

    /// The margin behind the position: its value at the entry price by its leverage, ten where
    /// that is unreadable, and nothing without a leverage.
    pub open spec fn bound_margin(self) -> Option<Double> {
        let leverage = number_or(self.leverage, Double::of(10));
        if self.is_open() && Double::zero().below(leverage) {
            Some(self.size().times(number_or(self.entry_price, Double::zero())).over(leverage))
        } else {
            None
        }
    }
}

impl ReportedPosition {
    /// How much the position holds, whatever its sign.
    pub fn held(&self) -> (r: Double)
        ensures
            r == self@.size(),
    {
        parse_double_or(self.amount.as_str(), Double { bits: 0 }).abs()
    }

    /// Whether the position holds anything.
    pub fn holds_any(&self) -> (r: bool)
        ensures
            r == self@.is_open(),
    {
        let zero = Double { bits: 0 };
        zero.lt(self.held())
    }

    /// The margin behind the position.
    pub fn margin_bound(&self) -> (r: Option<Double>)
        ensures
            r == self@.bound_margin(),
    {
        let zero = Double { bits: 0 };
        let leverage = parse_double_or(self.leverage.as_str(), Double::from_u64(10));
        if self.holds_any() && zero.lt(leverage) {
            Some(self.held().mul(parse_double_or(self.entry_price.as_str(), zero)).div(leverage))
        } else {
            None
        }
    }
}

impl Report {
    /// The line of the position in a list.
    pub open spec fn line(self) -> Seq<char> {
        "• Lado: "@ + self.side + " | Cantidad: "@ + decimal::fixed(
            number_or(self.amount, Double::zero()),
            4,
        ) + " | Entrada: $"@ + self.entry_price + " | PnL No Realizado: $"@
            + self.unrealized_profit + " | Apalancamiento: "@ + self.leverage + "x"@
    }
}

impl ReportedPosition {
    /// The line of the position in a list.
    pub fn line_text(&self) -> (r: String)
        ensures
            r@ == self@.line(),
    {
        let mut out = "• Lado: ".to_owned();
        out.append(self.side.as_str());
        out.append(" | Cantidad: ");
        let amount = fixed_text(parse_double_or(self.amount.as_str(), Double { bits: 0 }), 4);
        out.append(amount.as_str());
        out.append(" | Entrada: $");
        out.append(self.entry_price.as_str());
        out.append(" | PnL No Realizado: $");
        out.append(self.unrealized_profit.as_str());
        out.append(" | Apalancamiento: ");
        out.append(self.leverage.as_str());
        out.append("x");
        out
    }
}

/// A text under a key, or `other` where there is none.
pub open spec fn text_or(v: Json, key: Seq<char>, other: Seq<char>) -> Seq<char> {
    match v.text_at(key) {
        Some(s) => s,
        None => other,
    }
}

fn text_member_or(v: &serde_json::Value, key: &str, other: &str) -> (r: String)
    ensures
        r@ == text_or(json::json_tree(*v), key@, other@),
{
    match text_member(v, key) {
        Some(s) => s.to_owned(),
        None => other.to_owned(),
    }
}

/// What one entry of an answer says of a position.
pub open spec fn report_in(v: Json) -> Report {
    Report {
        amount: text_or(v, "positionAmt"@, "0"@),
        side: text_or(v, "positionSide"@, "LONG"@),
        entry_price: text_or(v, "entryPrice"@, "0"@),
        unrealized_profit: text_or(v, "unrealizedProfit"@, "0"@),
        leverage: text_or(v, "leverage"@, "10"@),
    }
}

/// What one entry of an answer says of a position.
pub fn report_of(v: &serde_json::Value) -> (r: ReportedPosition)
    ensures
        r@ == report_in(json::json_tree(*v)),
{
    ReportedPosition {
        amount: text_member_or(v, "positionAmt", "0"),
        side: text_member_or(v, "positionSide", "LONG"),
        entry_price: text_member_or(v, "entryPrice", "0"),
        unrealized_profit: text_member_or(v, "unrealizedProfit", "0"),
        leverage: text_member_or(v, "leverage", "10"),
    }
}

/// The positions of a list.
pub open spec fn reports(list: Seq<ReportedPosition>) -> Seq<Report> {
    list.map_values(|p: ReportedPosition| p@)
}

/// The positions in an accepted answer.
pub open spec fn positions_in(answer: Json) -> Seq<Report> {
    match answer.at("data"@) {
        Some(Json::List(list)) => list.map_values(|v: Json| report_in(v)),
        _ => Seq::empty(),
    }
}

/// The positions in an accepted answer.
pub fn positions_of(answer: &serde_json::Value) -> (r: Vec<ReportedPosition>)
    ensures
        reports(r@) == positions_in(json::json_tree(*answer)),
{
    let mut out: Vec<ReportedPosition> = Vec::new();
    let list = match member(answer, "data") {
        Some(data) => match elements(data) {
            Some(list) => list,
            None => {
                assert(reports(out@) =~= Seq::empty());
                return out;
            },
        },
        None => {
            assert(reports(out@) =~= Seq::empty());
            return out;
        },
    };
    let ghost trees = list@.map_values(|x: serde_json::Value| json::json_tree(x));
    let ghost all = trees.map_values(|v: Json| report_in(v));
    let mut i: usize = 0;
    while i < list.len()
        invariant
            i <= list@.len(),
            trees == list@.map_values(|x: serde_json::Value| json::json_tree(x)),
            all == trees.map_values(|v: Json| report_in(v)),
            reports(out@) =~= all.take(i as int),
        decreases list@.len() - i,
    {
        let report = report_of(&list[i]);
        let ghost before = out@;
        out.push(report);
        proof {
            assert(trees[i as int] == json::json_tree(list@[i as int]));
            assert(all[i as int] == report@);
            assert(reports(out@) =~= reports(before).push(report@));
            assert(all.take(i + 1) =~= all.take(i as int).push(all[i as int]));
        }
        i = i + 1;
    }
    assert(all.take(list@.len() as int) =~= all);
    out
}

/// Reads the answer to the question for the open positions.
pub fn read_positions(success: bool, text: &str) -> (r: Result<Vec<ReportedPosition>, ApiError>)
    ensures
        match r {
            Err(e) => acknowledgement(success, text@, Request::Positions) == Some(e@),
            Ok(list) => {
                &&& acknowledgement(success, text@, Request::Positions) is None
                &&& reports(list@) == positions_in(json::json_of_text(text@)->Some_0)
            },
        },
{
    if !success {
        return Err(failed_with(Request::Positions.transport_lead_text(), text));
    }
    match parse_json(text) {
        Ok(answer) => match check_code(&answer, Request::Positions) {
            Ok(_) => Ok(positions_of(&answer)),
            Err(e) => Err(e),
        },
        Err(_) => Err(ApiError::NotJson),
    }
}

/// The margin behind the first `n` positions.
pub open spec fn bound_margins(list: Seq<Report>, n: nat) -> Double
    decreases n,
{
    if n == 0 {
        Double::zero()
    } else {
        let rest = bound_margins(list, (n - 1) as nat);
        match list[n - 1].bound_margin() {
            Some(margin) => rest.plus(margin),
            None => rest,
        }
    }
}

/// The capital that does not move with the price: what is available and the margin behind the
/// positions.
pub fn stable_balance(available_margin: Double, positions: &Vec<ReportedPosition>) -> (r: Double)
    ensures
        r == available_margin.plus(bound_margins(reports(positions@), positions@.len())),
{
    let mut total = Double { bits: 0 };
    let mut n: usize = 0;
    while n < positions.len()
        invariant
            n <= positions@.len(),
            total == bound_margins(reports(positions@), n as nat),
        decreases positions@.len() - n,
    {
        match positions[n].margin_bound() {
            Some(margin) => {
                total = total.add(margin);
            },
            None => {},
        }
        n = n + 1;
    }
    available_margin.add(total)
}

} // verus!
