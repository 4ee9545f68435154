//! Commands, and how a protocol value is read as one.

use vstd::prelude::*;
use vstd::slice::{slice_subrange, slice_to_vec};
use crate::error::{ErrorView, SerirError, SerirResult};
use crate::resp::{view_each, Resp, RespView};

verus! {

/// What a client asks of the store.
#[derive(Debug, PartialEq, Eq)]
pub enum Command {
    /// Read the value of a key.
    Get(Vec<u8>),
    /// Bind a key to a value.
    SetValue((Vec<u8>, Vec<u8>)),
    /// List the commands; answered with nothing.
    Command,
    /// Read a parameter of the configuration, by its name.
    Config(String),
}

/// The mathematical content of a command.
pub enum CommandView {
    Get(Seq<u8>),
    SetValue(Seq<u8>, Seq<u8>),
    Command,
    Config(Seq<char>),
}

impl View for Command {
    type V = CommandView;

    open spec fn view(&self) -> CommandView {
        match self {
            Command::Get(key) => CommandView::Get(key@),
            Command::SetValue((key, value)) => CommandView::SetValue(key@, value@),
            Command::Command => CommandView::Command,
            Command::Config(name) => CommandView::Config(name@),
        }
    }
}

/// The text that `String::from_utf8_lossy` makes of `bytes`.
pub uninterp spec fn utf8_lossy(bytes: Seq<u8>) -> Seq<char>;

/// Tells whether every byte of `bytes` is an ASCII character.
pub open spec fn is_ascii_bytes(bytes: Seq<u8>) -> bool {
    forall|i: int| 0 <= i < bytes.len() ==> #[trigger] bytes[i] < 128
}

/// The text whose characters are the bytes of `bytes`, one for one.
pub open spec fn ascii_text(bytes: Seq<u8>) -> Seq<char> {
    Seq::new(bytes.len(), |i: int| bytes[i] as char)
}

/// The text that bytes spell when read as UTF-8: the same characters for
/// ASCII bytes, and for others what `String::from_utf8_lossy` makes of
/// them.
pub open spec fn text_of(bytes: Seq<u8>) -> Seq<char> {
    if is_ascii_bytes(bytes) {
        ascii_text(bytes)
    } else {
        utf8_lossy(bytes)
    }
}

/// `String::from_utf8_lossy`, with its result as an owned string: the text
/// that the bytes spell, read as UTF-8. Claimed of it: bytes that are all
/// ASCII give the text of the same characters; of any other bytes the text
/// is a function of the bytes alone.
#[verifier::external_body]
fn lossy_text(bytes: &[u8]) -> (text: String)
    ensures
        text@ == utf8_lossy(bytes@),
        is_ascii_bytes(bytes@) ==> text@ == ascii_text(bytes@),
{
    String::from_utf8_lossy(bytes).into_owned()
}

/// The lower-case form of an ASCII letter; any other byte is left as it is.
pub open spec fn lower(b: u8) -> u8 {
    if 65 <= b <= 90 {
        (b + 32) as u8
    } else {
        b
    }
}

/// Tells whether `word` spells `keyword`, which is in lower case, in
/// letters of either case.
pub open spec fn is_keyword(word: Seq<u8>, keyword: Seq<u8>) -> bool {
    &&& word.len() == keyword.len()
    &&& forall|i: int| 0 <= i < word.len() ==> lower(#[trigger] word[i]) == keyword[i]
}

/// The command word `get`.
pub open spec fn word_get() -> Seq<u8> {
    seq![103u8, 101u8, 116u8]
}

/// The command word `set`.
pub open spec fn word_set() -> Seq<u8> {
    seq![115u8, 101u8, 116u8]
}

/// The command word `command`.
pub open spec fn word_command() -> Seq<u8> {
    seq![99u8, 111u8, 109u8, 109u8, 97u8, 110u8, 100u8]
}

/// The command word `config`.
pub open spec fn word_config() -> Seq<u8> {
    seq![99u8, 111u8, 110u8, 102u8, 105u8, 103u8]
}

/// Tells whether every value of `elements` is a bulk string, nil or not.
pub open spec fn all_bulk(elements: Seq<RespView>) -> bool {
    forall|i: int| 0 <= i < elements.len() ==> (#[trigger] elements[i]) is BulkString
}

/// The bytes of the argument `arguments[at]`, which stands at `at + 1` in
/// the command.
pub open spec fn argument(arguments: Seq<RespView>, at: int) -> Result<Seq<u8>, ErrorView> {
    match arguments[at] {
        RespView::BulkString(Some(bytes)) => Ok(bytes),
        RespView::BulkString(None) => Err(ErrorView::NilArgument { index: at + 1 }),
        _ => Err(ErrorView::MalformedCommand),
    }
}

/// `GET` with the arguments `arguments`: exactly one, the key.
pub open spec fn get_of(arguments: Seq<RespView>) -> Result<CommandView, ErrorView> {
    if arguments.len() != 1 {
        Err(ErrorView::WrongArity { expected: 1, actual: arguments.len() as int })
    } else {
        match argument(arguments, 0) {
            Err(e) => Err(e),
            Ok(key) => Ok(CommandView::Get(key)),
        }
    }
}

/// `SET` with the arguments `arguments`: exactly two, the key and the value.
pub open spec fn set_of(arguments: Seq<RespView>) -> Result<CommandView, ErrorView> {
    if arguments.len() != 2 {
        Err(ErrorView::WrongArity { expected: 2, actual: arguments.len() as int })
    } else {
        match argument(arguments, 0) {
            Err(e) => Err(e),
            Ok(key) => match argument(arguments, 1) {
                Err(e) => Err(e),
                Ok(value) => Ok(CommandView::SetValue(key, value)),
            },
        }
    }
}

/// `COMMAND`, whatever its arguments.
pub open spec fn command_listing_of(arguments: Seq<RespView>) -> Result<CommandView, ErrorView> {
    Ok(CommandView::Command)
}

/// `CONFIG` with the arguments `arguments`: at least two, of which the
/// second names the parameter.
pub open spec fn config_of(arguments: Seq<RespView>) -> Result<CommandView, ErrorView> {
    if arguments.len() < 2 {
        Err(ErrorView::WrongArity { expected: 2, actual: arguments.len() as int })
    } else {
        match argument(arguments, 1) {
            Err(e) => Err(e),
            Ok(name) => Ok(CommandView::Config(text_of(name))),
        }
    }
}

/// The command that the elements of an array spell: all of them bulk
/// strings, the first the command word, the others its arguments.
pub open spec fn command_from(elements: Seq<RespView>) -> Result<CommandView, ErrorView> {
    if elements.len() == 0 || !all_bulk(elements) {
        Err(ErrorView::MalformedCommand)
    } else {
        let arguments = elements.subrange(1, elements.len() as int);
        match elements[0] {
            RespView::BulkString(Some(word)) => if is_keyword(word, word_get()) {
                get_of(arguments)
            } else if is_keyword(word, word_set()) {
                set_of(arguments)
            } else if is_keyword(word, word_command()) {
                command_listing_of(arguments)
            } else if is_keyword(word, word_config()) {
                config_of(arguments)
            } else {
                Err(ErrorView::UnknownCommand { name: word })
            },
            RespView::BulkString(None) => Err(ErrorView::NilArgument { index: 0 }),
            _ => Err(ErrorView::MalformedCommand),
        }
    }
}

/// The command that a protocol value spells. Only an array that is not nil
/// can spell one.
pub open spec fn command_of(v: RespView) -> Result<CommandView, ErrorView> {
    match v {
        RespView::Array(Some(elements)) => command_from(elements),
        _ => Err(ErrorView::MalformedCommand),
    }
}

/// The mathematical content of what reading a command gave.
pub open spec fn outcome(r: SerirResult<Command>) -> Result<CommandView, ErrorView> {
    match r {
        Ok(command) => Ok(command@),
        Err(e) => Err(e@),
    }
}

/// The lower-case form of an ASCII letter; any other byte as it is.
fn to_lower(b: u8) -> (l: u8)
    ensures
        l == lower(b),
{
    if 65 <= b && b <= 90 {
        b + 32
    } else {
        b
    }
}

/// Tells whether `word` spells the lower-case `keyword` in either case.
fn spells(word: &[u8], keyword: &[u8]) -> (same: bool)
    ensures
        same == is_keyword(word@, keyword@),
{
    if word.len() != keyword.len() {
        return false;
    }
    let mut i: usize = 0;
    while i < word.len()
        invariant
            i <= word@.len() == keyword@.len(),
            forall|k: int| 0 <= k < i ==> lower(#[trigger] word@[k]) == keyword@[k],
        decreases word.len() - i,
    {
        if to_lower(word[i]) != keyword[i] {
            return false;
        }
        i = i + 1;
    }
    true
}

/// The bytes that the argument `arguments[at]` carries.
fn argument_bytes(arguments: &[Resp], at: usize) -> (r: SerirResult<Vec<u8>>)
    requires
        at < arguments@.len(),
    ensures
        match r {
            Ok(bytes) => argument(view_each(arguments@), at as int) matches Ok(b) && b == bytes@,
            Err(e) => argument(view_each(arguments@), at as int) matches Err(f) && f == e@,
        },
{
    match &arguments[at] {
        Resp::BulkString(Some(bytes)) => Ok(slice_to_vec(bytes.as_slice())),
        Resp::BulkString(None) => Err(SerirError::NilArgument { index: at + 1 }),
        _ => Err(SerirError::MalformedCommand),
    }
}

/// Reads the arguments of `GET`.
pub fn parse_get(arguments: &[Resp]) -> (r: SerirResult<Command>)
    ensures
        outcome(r) == get_of(view_each(arguments@)),
{
    if arguments.len() != 1 {
        return Err(SerirError::WrongArity { expected: 1, actual: arguments.len() });
    }
    match argument_bytes(arguments, 0) {
        Err(e) => Err(e),
        Ok(key) => Ok(Command::Get(key)),
    }
}

/// Reads the arguments of `SET`.
pub fn parse_set(arguments: &[Resp]) -> (r: SerirResult<Command>)
    ensures
        outcome(r) == set_of(view_each(arguments@)),
{
    if arguments.len() != 2 {
        return Err(SerirError::WrongArity { expected: 2, actual: arguments.len() });
    }
    let key = match argument_bytes(arguments, 0) {
        Err(e) => {
            return Err(e);
        },
        Ok(key) => key,
    };
    match argument_bytes(arguments, 1) {
        Err(e) => Err(e),
        Ok(value) => Ok(Command::SetValue((key, value))),
    }
}

/// Reads the arguments of `COMMAND`: none of them matters.
pub fn parse_command(_arguments: &[Resp]) -> (r: SerirResult<Command>)
    ensures
        outcome(r) == command_listing_of(view_each(_arguments@)),
{
    Ok(Command::Command)
}

/// Reads the arguments of `CONFIG`.
pub fn parse_config(arguments: &[Resp]) -> (r: SerirResult<Command>)
    ensures
        outcome(r) == config_of(view_each(arguments@)),
{
    if arguments.len() < 2 {
        return Err(SerirError::WrongArity { expected: 2, actual: arguments.len() });
    }
    match argument_bytes(arguments, 1) {
        Err(e) => Err(e),
        Ok(name) => Ok(Command::Config(lossy_text(name.as_slice()))),
    }
}

/// Tells whether every value of `elements` is a bulk string.
fn only_bulk_strings(elements: &[Resp]) -> (all: bool)
    ensures
        all == all_bulk(view_each(elements@)),
{
    let mut i: usize = 0;
    while i < elements.len()
        invariant
            i <= elements@.len(),
            forall|k: int| 0 <= k < i ==> (#[trigger] view_each(elements@)[k]) is BulkString,
        decreases elements.len() - i,
    {
        match &elements[i] {
            Resp::BulkString(_) => {},
            _ => {
                assert(!(view_each(elements@)[i as int] is BulkString));
                return false;
            },
        }
        i = i + 1;
    }
    true
}

/// Reads the elements of an array as a command.
pub fn parse_redis_command(elements: Vec<Resp>) -> (r: SerirResult<Command>)
    ensures
        outcome(r) == command_from(view_each(elements@)),
{
    let all = elements.as_slice();
    if all.len() == 0 || !only_bulk_strings(all) {
        return Err(SerirError::MalformedCommand);
    }
    let arguments = slice_subrange(all, 1, all.len());
    proof {
        assert(view_each(arguments@) =~= view_each(elements@).subrange(
            1,
            elements@.len() as int,
        ));
    }
    match &all[0] {
        Resp::BulkString(Some(word)) => {
            let get: [u8; 3] = [103, 101, 116];
            let set: [u8; 3] = [115, 101, 116];
            let command: [u8; 7] = [99, 111, 109, 109, 97, 110, 100];
            let config: [u8; 6] = [99, 111, 110, 102, 105, 103];
            proof {
                assert(get@ =~= word_get());
                assert(set@ =~= word_set());
                assert(command@ =~= word_command());
                assert(config@ =~= word_config());
            }
            if spells(word.as_slice(), get.as_slice()) {
                parse_get(arguments)
            } else if spells(word.as_slice(), set.as_slice()) {
                parse_set(arguments)
            } else if spells(word.as_slice(), command.as_slice()) {
                parse_command(arguments)
            } else if spells(word.as_slice(), config.as_slice()) {
                parse_config(arguments)
            } else {
                Err(SerirError::UnknownCommand { name: slice_to_vec(word.as_slice()) })
            }
        },
        Resp::BulkString(None) => Err(SerirError::NilArgument { index: 0 }),
        _ => Err(SerirError::MalformedCommand),
    }
}

impl Command {
    /// Reads a protocol value as a command.
    ///
    /// The value has to be an array of bulk strings. Its first element is
    /// the command word, in letters of either case; the others are the
    /// arguments, whose number the word decides.
    pub fn from(object: Resp) -> (r: SerirResult<Command>)
        ensures
            outcome(r) == command_of(object@),
    {
        match object {
            Resp::Array(Some(elements)) => parse_redis_command(elements),
            _ => Err(SerirError::MalformedCommand),
        }
    }
}

/// The bulk strings that carry the byte strings of `texts`, in order.
pub open spec fn bulk_strings(texts: Seq<Seq<u8>>) -> Seq<RespView> {
    Seq::new(texts.len(), |i: int| RespView::BulkString(Some(texts[i])))
}

/// The value that a client sends for a command: the array of the command
/// word and the arguments, each as a bulk string.
pub open spec fn request(word: Seq<u8>, arguments: Seq<Seq<u8>>) -> RespView {
    RespView::Array(Some(seq![RespView::BulkString(Some(word))] + bulk_strings(arguments)))
}

/// The elements of a request are bulk strings, and its arguments are those
/// it was made of.
proof fn lemma_request_shape(word: Seq<u8>, arguments: Seq<Seq<u8>>)
    ensures
        request(word, arguments) matches RespView::Array(Some(elements)) && {
            &&& elements.len() == arguments.len() + 1
            &&& all_bulk(elements)
            &&& elements[0] == RespView::BulkString(Some(word))
            &&& elements.subrange(1, elements.len() as int) == bulk_strings(arguments)
        },
{
    let elements = seq![RespView::BulkString(Some(word))] + bulk_strings(arguments);
    assert(elements.subrange(1, elements.len() as int) =~= bulk_strings(arguments));
    assert forall|i: int| 0 <= i < elements.len() implies (#[trigger] elements[i])
        is BulkString by {
        if i > 0 {
            assert(elements[i] == bulk_strings(arguments)[i - 1]);
        }
    }
}

/// `GET`, in letters of either case, is a command with one argument and
/// with no other number of arguments.
pub proof fn lemma_get_arity(word: Seq<u8>, arguments: Seq<Seq<u8>>)
    requires
        is_keyword(word, word_get()),
    ensures
        arguments.len() == 1 ==> command_of(request(word, arguments)) == Ok::<
            CommandView,
            ErrorView,
        >(CommandView::Get(arguments[0])),
        arguments.len() != 1 ==> command_of(request(word, arguments)) == Err::<
            CommandView,
            ErrorView,
        >(ErrorView::WrongArity { expected: 1, actual: arguments.len() as int }),
{
    lemma_request_shape(word, arguments);
}

/// `SET`, in letters of either case, is a command with two arguments and
/// with no other number of arguments.
pub proof fn lemma_set_arity(word: Seq<u8>, arguments: Seq<Seq<u8>>)
    requires
        is_keyword(word, word_set()),
    ensures
        arguments.len() == 2 ==> command_of(request(word, arguments)) == Ok::<
            CommandView,
            ErrorView,
        >(CommandView::SetValue(arguments[0], arguments[1])),
        arguments.len() != 2 ==> command_of(request(word, arguments)) == Err::<
            CommandView,
            ErrorView,
        >(ErrorView::WrongArity { expected: 2, actual: arguments.len() as int }),
{
    lemma_request_shape(word, arguments);
    assert(lower(word[0]) == word_set()[0]);
    assert(!is_keyword(word, word_get()));
}

/// `CONFIG`, in letters of either case, is a command with two arguments or
/// more, and its parameter is the second of them.
pub proof fn lemma_config_arity(word: Seq<u8>, arguments: Seq<Seq<u8>>)
    requires
        is_keyword(word, word_config()),
    ensures
        arguments.len() >= 2 ==> command_of(request(word, arguments)) == Ok::<
            CommandView,
            ErrorView,
        >(CommandView::Config(text_of(arguments[1]))),
        arguments.len() < 2 ==> command_of(request(word, arguments)) == Err::<
            CommandView,
            ErrorView,
        >(ErrorView::WrongArity { expected: 2, actual: arguments.len() as int }),
{
    lemma_request_shape(word, arguments);
    assert(lower(word[0]) == word_config()[0]);
    assert(lower(word[2]) == word_config()[2]);
    assert(!is_keyword(word, word_get()));
    assert(!is_keyword(word, word_set()));
    assert(!is_keyword(word, word_command()));
}

} // verus!
