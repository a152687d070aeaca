//! The GTP engine client: build protocol commands, send them to the engine
//! process, and read the responses back. The transport calls of the `gtp`
//! crate are trusted; the retry loop, command assembly and response-number
//! parsing are verified.

use vstd::prelude::*;

use gtp::controller::{Engine, Error};
use gtp::{Command, Entity, EntityParser, Response};

use vstd::string::StringSliceAdditionalSpecFns;

use crate::grid::Stone;

verus! {

#[verifier::external_type_specification]
#[verifier::external_body]
pub struct ExEngine(Engine);

#[verifier::external_type_specification]
#[verifier::external_body]
pub struct ExControllerError(Error);

#[verifier::external_type_specification]
#[verifier::external_body]
pub struct ExCommand(Command);

#[verifier::external_type_specification]
#[verifier::external_body]
pub struct ExEntity(Entity);

#[verifier::external_type_specification]
#[verifier::external_body]
pub struct ExEntityParser(EntityParser);

#[verifier::external_type_specification]
#[verifier::external_body]
pub struct ExResponse(Response);

/// Relies on gtp::controller::Engine::send: assigns the command an id and
/// writes its line to the engine process.
pub assume_specification[ Engine::send ](e: &mut Engine, cmd: Command) -> (id: u32);

/// Relies on gtp::controller::Engine::wait_response: polls the engine for up
/// to the given time; `Error::PollAgain` means no response arrived yet.
pub assume_specification[ Engine::wait_response ](
    e: &mut Engine,
    timeout: core::time::Duration,
) -> (r: Result<Response, Error>);

/// Relies on gtp::Response::text: the response's text, without its status
/// prefix.
pub assume_specification[ Response::text ](r: &Response) -> (t: String);

/// Relies on gtp::Command::new: a command with the given name and no
/// arguments yet.
pub assume_specification[ Command::new ](name: &str) -> (c: Command);

/// Relies on gtp::Command::set_args: attaches the argument entity.
pub assume_specification[ Command::set_args ](c: &mut Command, args: &Entity);

/// Relies on gtp::EntityParser::new: a parser over the response text.
pub assume_specification[ EntityParser::new ](s: &str) -> (p: EntityParser);

/// Relies on gtp::EntityParser::is_eof: whether all input was consumed.
pub assume_specification[ EntityParser::is_eof ](p: &EntityParser) -> (b: bool);

/// Relies on gtp::EntityParser::had_parse_error: whether any step failed.
pub assume_specification[ EntityParser::had_parse_error ](p: &EntityParser) -> (b: bool);

/// Relies on gtp::EntityParser::result: the entities parsed so far.
pub assume_specification[ EntityParser::result ](p: &EntityParser) -> (r: Option<Vec<Entity>>);

/// Relies on core::time::Duration::from_secs: the one-second poll timeout.
#[verifier::external_body]
fn one_second() -> (d: core::time::Duration) {
    core::time::Duration::from_secs(1)
}

/// Relies on gtp::EntityParser::vertex: consumes one vertex token.
#[verifier::external_body]
fn parser_vertex(p: &mut EntityParser) {
    p.vertex();
}

/// Relies on gtp::Entity::Int: an integer argument.
#[verifier::external_body]
fn entity_int(i: u32) -> (e: Entity) {
    Entity::Int(i)
}

/// Relies on gtp::Entity::String: a word argument.
#[verifier::external_body]
pub(crate) fn entity_str(s: &str) -> (e: Entity) {
    Entity::String(s.to_string())
}

/// Relies on gtp::Entity::Vertex: a board-vertex argument, 1-based.
#[verifier::external_body]
fn entity_vertex(x: i32, y: i32) -> (e: Entity) {
    Entity::Vertex((x, y))
}

/// Relies on gtp::Entity::List: the arguments joined in order.
#[verifier::external_body]
fn entity_list(items: Vec<Entity>) -> (e: Entity) {
    Entity::List(items)
}

/// Relies on gtp::controller::Error's variants: whether this is the
/// poll-again case rather than a real failure.
#[verifier::external_body]
fn error_is_poll_again(e: &Error) -> (b: bool) {
    matches!(e, Error::PollAgain)
}

/// How a call to the engine process failed.
#[derive(Clone, Copy, Debug, PartialEq, Eq, Structural)]
pub enum EngineError {
    /// The engine produced no response within the retry budget.
    Unresponsive,
    /// The engine process or the protocol layer reported an error.
    Failed,
    /// The engine answered, but not in the form the command expects.
    BadReply,
}

/// How many one-second polls to give the engine before giving up.
pub const RESPONSE_RETRIES: usize = 600;

/// Poll the engine until a whole response arrives, a second per poll, up to
/// the retry budget.
pub fn get_response(ctrl: &mut Engine) -> (r: Result<Response, EngineError>) {
    let mut tries: usize = 0;
    while tries < RESPONSE_RETRIES
        decreases RESPONSE_RETRIES - tries,
    {
        match ctrl.wait_response(one_second()) {
            Ok(resp) => {
                return Ok(resp);
            },
            Err(e) => {
                if !error_is_poll_again(&e) {
                    return Err(EngineError::Failed);
                }
            },
        }
        tries += 1;
    }
    Err(EngineError::Unresponsive)
}

/// Send one command, with arguments when given, and wait for its response.
pub(crate) fn exchange(ctrl: &mut Engine, name: &str, args: Option<Entity>) -> (r: Result<
    Response,
    EngineError,
>) {
    let mut cmd = Command::new(name);
    match args {
        Some(e) => {
            cmd.set_args(&e);
        },
        None => {},
    }
    ctrl.send(cmd);
    get_response(ctrl)
}

/// Tell the engine the board size.
pub fn set_board_size(ctrl: &mut Engine, board_size: u8) -> (r: Result<(), EngineError>) {
    match exchange(ctrl, "boardsize", Some(entity_int(board_size as u32))) {
        Ok(_) => Ok(()),
        Err(e) => Err(e),
    }
}

/// Ask the engine for every stone of one colour, as vertex entities.
pub fn list_stones(ctrl: &mut Engine, colour: &str) -> (r: Result<Vec<Entity>, EngineError>) {
    let resp = match exchange(ctrl, "list_stones", Some(entity_str(colour))) {
        Ok(resp) => resp,
        Err(e) => {
            return Err(e);
        },
    };
    let text = resp.text();
    let mut parser = EntityParser::new(text.as_str());
    let mut fuel = text.as_str().unicode_len();
    while fuel > 0 && !parser.is_eof()
        decreases fuel,
    {
        parser_vertex(&mut parser);
        fuel -= 1;
    }
    if !parser.is_eof() || parser.had_parse_error() {
        return Err(EngineError::BadReply);
    }
    match parser.result() {
        Some(entities) => Ok(entities),
        None => Err(EngineError::BadReply),
    }
}

/// Play a human move for one colour; the reply is empty exactly when the
/// engine accepted the move.
pub fn do_human_move(ctrl: &mut Engine, pos: Stone, colour: &str) -> (r: Result<
    bool,
    EngineError,
>) {
    let mut args: Vec<Entity> = Vec::new();
    args.push(entity_str(colour));
    args.push(entity_vertex(pos.x as i32 + 1, pos.y as i32 + 1));
    match exchange(ctrl, "play", Some(entity_list(args))) {
        Ok(resp) => Ok(resp.text().as_str().is_empty()),
        Err(e) => Err(e),
    }
}

/// Ask how many stones one colour has captured.
pub fn count_captures(ctrl: &mut Engine, colour: &str) -> (r: Result<usize, EngineError>) {
    let resp = match exchange(ctrl, "captures", Some(entity_str(colour))) {
        Ok(resp) => resp,
        Err(e) => {
            return Err(e);
        },
    };
    let text = resp.text();
    match parse_decimal(text.as_str()) {
        Some(n) => Ok(n),
        None => Err(EngineError::BadReply),
    }
}

/// Clear the engine's board.
pub fn clear_board(ctrl: &mut Engine) -> (r: Result<(), EngineError>) {
    match exchange(ctrl, "clear_board", None) {
        Ok(_) => Ok(()),
        Err(e) => Err(e),
    }
}

/// Take the last move back; the reply is empty exactly when the engine
/// agreed to undo.
pub fn undo_move(ctrl: &mut Engine) -> (r: Result<bool, EngineError>) {
    match exchange(ctrl, "undo", None) {
        Ok(resp) => Ok(resp.text().as_str().is_empty()),
        Err(e) => Err(e),
    }
}

/// The bytes are ASCII digits only.
pub open spec fn all_digits(bs: Seq<u8>) -> bool {
    forall|i: int| 0 <= i < bs.len() ==> 48 <= #[trigger] bs[i] <= 57
}

/// The number a digit string denotes, most significant digit first.
pub open spec fn decimal_value(bs: Seq<u8>) -> nat
    decreases bs.len(),
{
    if bs.len() == 0 {
        0
    } else {
        decimal_value(bs.drop_last()) * 10 + (bs.last() - 48) as nat
    }
}

/// Read a decimal numeral: the value when the text is one or more ASCII
/// digits denoting a number that fits, nothing otherwise.
pub fn parse_decimal(s: &str) -> (r: Option<usize>)
    ensures
        r == if s.spec_bytes().len() > 0 && all_digits(s.spec_bytes()) && decimal_value(
            s.spec_bytes(),
        ) <= usize::MAX {
            Some(decimal_value(s.spec_bytes()) as usize)
        } else {
            None::<usize>
        },
{
    let bs = s.as_bytes();
    if bs.len() == 0 {
        return None;
    }
    let mut acc: usize = 0;
    let mut i: usize = 0;
    while i < bs.len()
        invariant
            i <= bs@.len(),
            bs@ == s.spec_bytes(),
            all_digits(bs@.take(i as int)),
            acc == decimal_value(bs@.take(i as int)),
        decreases bs@.len() - i,
    {
        let b = bs[i];
        if b < 48 || b > 57 {
            proof {
                assert(bs@.take(i as int + 1)[i as int] == b);
                assert(!all_digits(bs@));
            }
            return None;
        }
        let d = (b - 48) as usize;
        if acc > (usize::MAX - d) / 10 {
            proof {
                assert(bs@.take(i as int + 1).drop_last() =~= bs@.take(i as int));
                assert(bs@.take(i as int + 1).last() == b);
                assert(decimal_value(bs@.take(i as int + 1)) > usize::MAX);
                lemma_decimal_value_grows(bs@, i as int + 1);
            }
            return None;
        }
        acc = acc * 10 + d;
        proof {
            assert(bs@.take(i as int + 1).drop_last() =~= bs@.take(i as int));
            assert(bs@.take(i as int + 1).last() == b);
        }
        i += 1;
    }
    proof {
        assert(bs@.take(bs@.len() as int) =~= bs@);
    }
    Some(acc)
}

/// A longer digit prefix never denotes a smaller number.
proof fn lemma_decimal_value_grows(bs: Seq<u8>, k: int)
    requires
        0 <= k <= bs.len(),
    ensures
        decimal_value(bs.take(k)) <= decimal_value(bs),
    decreases bs.len() - k,
{
    if k == bs.len() {
        assert(bs.take(k) =~= bs);
    } else {
        assert(bs.take(k + 1).drop_last() =~= bs.take(k));
        assert(decimal_value(bs.take(k)) <= decimal_value(bs.take(k + 1)));
        lemma_decimal_value_grows(bs, k + 1);
    }
}

} // verus!
