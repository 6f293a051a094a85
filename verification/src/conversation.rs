//! The rules by which front ends ask a user for a variable: ask with the
//! variable's name and type, accept the first valid answer, and answer an
//! invalid one by saying so and asking again.
use vstd::prelude::*;
use crate::value::{
    raw_is_valid, raw_to_value, spec_var_type_name, var_type_name, RawVariableValue, Value,
    VarType, Variable, VariableDesciption,
};

verus! {

/// What a front end wants the user to do.
#[derive(Debug)]
pub enum DesiredAction {
    Tell(VariableDesciption),
    Listen(String),
    Quit,
}

/// What the user did.
#[derive(Debug)]
pub enum Action {
    Told(RawVariableValue),
    Quit,
    Ping,
    Pong,
    Ignorable,
}

/// The type a variable is asked for with: its own, or string when it has none.
pub open spec fn asked_type(t: Option<VarType>) -> VarType {
    match t {
        Some(x) => x,
        None => VarType::String,
    }
}

/// A variable with no declared type is asked for as a string, and one with a
/// declared type as that type.
pub proof fn lemma_asked_type(t: VarType)
    ensures
        asked_type(None) == VarType::String,
        asked_type(Some(t)) == t,
{
}

/// The description a variable is asked for with.
pub fn describe(variable: &Variable) -> (r: VariableDesciption)
    ensures
        r.name@ == variable.name@,
        r.data_type == asked_type(variable.data_type),
        variable.data_type is None ==> r.data_type == VarType::String,
        variable.data_type matches Some(t) ==> r.data_type == t,
{
    VariableDesciption {
        name: variable.name.clone(),
        data_type: match variable.data_type {
            None => VarType::String,
            Some(dt) => dt,
        },
    }
}

pub open spec fn not_valid_text(t: VarType) -> Seq<char> {
    "Not Valid "@ + spec_var_type_name(t)
}

/// What the user is told when an answer does not read as its type.
pub fn not_valid_phrase(t: VarType) -> (r: String)
    ensures
        r@ == not_valid_text(t),
{
    let mut r = String::from_str("Not Valid ");
    r.append(var_type_name(t));
    r
}

pub open spec fn prompt_text(d: VariableDesciption) -> Seq<char> {
    "Please enter value for "@ + d.name@ + " of type "@ + spec_var_type_name(d.data_type)
}

/// The line a text front end asks for a variable with.
pub fn ask_prompt(d: &VariableDesciption) -> (r: String)
    ensures
        r@ == prompt_text(*d),
{
    let mut r = String::from_str("Please enter value for ");
    r.append(d.name.as_str());
    r.append(" of type ");
    r.append(var_type_name(d.data_type));
    r
}

pub fn copy_description(d: &VariableDesciption) -> (r: VariableDesciption)
    ensures
        r.name@ == d.name@,
        r.data_type == d.data_type,
{
    VariableDesciption { name: d.name.clone(), data_type: d.data_type }
}

/// How a read goes on after the user acted: with the value read, or by sending
/// these actions and waiting for the user again.
pub struct ReadStep {
    pub value: Option<Value>,
    pub send: Vec<DesiredAction>,
}

/// The next step of asking for `asked` after the user did `action`. A valid answer
/// ends the read with its value; an invalid one is answered by telling the user it
/// is not valid for its type and asking again; anything else is waited past.
/// `parsed_double` is the bit pattern of the double that an answer's text denotes.
pub fn on_action(asked: &VariableDesciption, action: &Action, parsed_double: Option<u64>) -> (r: ReadStep)
    ensures
        match action {
            Action::Told(raw) => if raw_is_valid(*raw) {
                &&& r.value matches Some(v) && v@ == raw_to_value(*raw, parsed_double)
                &&& r.send.len() == 0
            } else {
                &&& r.value is None
                &&& r.send.len() == 2
                &&& r.send[0] matches DesiredAction::Listen(p) && p@ == not_valid_text(raw.data_type)
                &&& r.send[1] matches DesiredAction::Tell(d) && d.name@ == asked.name@ && d.data_type
                    == asked.data_type
            },
            _ => r.value is None && r.send.len() == 0,
        },
{
    match action {
        Action::Told(raw) => {
            if raw.is_valid() {
                ReadStep { value: Some(raw.to_value(parsed_double)), send: Vec::new() }
            } else {
                let mut send: Vec<DesiredAction> = Vec::new();
                send.push(DesiredAction::Listen(not_valid_phrase(raw.data_type)));
                send.push(DesiredAction::Tell(copy_description(asked)));
                ReadStep { value: None, send }
            }
        },
        _ => ReadStep { value: None, send: Vec::new() },
    }
}

/// The next step of asking for `asked` over the web action socket after the user
/// did `action`: a valid answer ends the read with its value; anything else,
/// an invalid answer included, is waited past without a word to the user.
/// `parsed_double` is the bit pattern of the double that an answer's text denotes.
pub fn on_quiet_action(action: &Action, parsed_double: Option<u64>) -> (r: ReadStep)
    ensures
        r.send.len() == 0,
        match action {
            Action::Told(raw) => if raw_is_valid(*raw) {
                r.value matches Some(v) && v@ == raw_to_value(*raw, parsed_double)
            } else {
                r.value is None
            },
            _ => r.value is None,
        },
{
    match action {
        Action::Told(raw) => {
            if raw.is_valid() {
                ReadStep { value: Some(raw.to_value(parsed_double)), send: Vec::new() }
            } else {
                ReadStep { value: None, send: Vec::new() }
            }
        },
        _ => ReadStep { value: None, send: Vec::new() },
    }
}

/// Whether closing is complete: the user has acknowledged the quit.
pub fn close_acknowledged(action: &Action) -> (r: bool)
    ensures
        r == (action is Quit),
{
    match action {
        Action::Quit => true,
        _ => false,
    }
}

/// One use of a text channel: a text written, or a line read.
pub enum Line {
    Wrote(Seq<char>),
    Read(Seq<char>),
}

/// A source of text lines and a sink for text, such as a terminal. A channel
/// whose `keeps_record` holds keeps `lines`, the record of what was written and
/// read so far, in order, and its `write` and `read` are held to extending it;
/// by default a channel keeps no record and promises nothing of one.
pub trait StringIO {
    open spec fn keeps_record() -> bool {
        false
    }

    open spec fn lines(&self) -> Seq<Line> {
        Seq::empty()
    }

    fn write(&mut self, text: String)
        ensures
            Self::keeps_record() ==> final(self).lines() == old(self).lines().push(
                Line::Wrote(text@),
            ),
    ;

    fn read(&mut self) -> (r: String)
        ensures
            Self::keeps_record() ==> final(self).lines() == old(self).lines().push(Line::Read(r@)),
    ;
}

/// Asks a user for variables through a text channel.
pub struct Messanger<T> {
    pub string_io: Box<T>,
}

impl<T: StringIO> Messanger<T> {
    pub fn new(str_io: T) -> (r: Messanger<T>)
        ensures
            *r.string_io == str_io,
    {
        Messanger { string_io: Box::new(str_io) }
    }

    /// Writes the prompt for `var_desc` (see `ask_prompt`) and takes the next line
    /// as the raw value of that variable.
    pub fn ask(&mut self, var_desc: VariableDesciption) -> (r: RawVariableValue)
        ensures
            r.value is Some,
            r.name@ == var_desc.name@,
            r.data_type == var_desc.data_type,
            T::keeps_record() ==> final(self).string_io.lines() == old(
                self,
            ).string_io.lines().push(Line::Wrote(prompt_text(var_desc))).push(
                Line::Read(r.value->Some_0@),
            ),
    {
        self.string_io.write(ask_prompt(&var_desc));
        let line = self.string_io.read();
        RawVariableValue { value: Some(line), name: var_desc.name.clone(), data_type: var_desc.data_type }
    }

    /// Writes `words`.
    pub fn tell(&mut self, words: String)
        ensures
            T::keeps_record() ==> final(self).string_io.lines() == old(
                self,
            ).string_io.lines().push(Line::Wrote(words@)),
    {
        self.string_io.write(words);
    }
}

} // verus!
