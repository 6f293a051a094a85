//! Messages between the web front end and a user's browser, and the rules
//! for asking a variable over them.
#![allow(non_snake_case)]
use vstd::prelude::*;
use crate::conversation::{copy_description, not_valid_phrase, not_valid_text};
use crate::value::{raw_is_valid, raw_to_value, RawVariableValue, Value, VariableDesciption};

verus! {

#[derive(Debug)]
pub enum Input {
    Start(StartInput),
    Continue(ContinueInput),
}

#[derive(Debug)]
pub enum Output {
    KnowThat(KnowThatOutput),
    TellMe(TellMeOutput),
}

#[derive(Debug)]
pub struct StartInput {
    pub filter: String,
}

#[derive(Debug)]
pub struct ContinueInput {
    pub rawVariableValue: RawVariableValue,
}

#[derive(Debug)]
pub struct KnowThatOutput {
    pub phrase: String,
}

#[derive(Debug)]
pub struct TellMeOutput {
    pub variableDescription: VariableDesciption,
}

#[derive(Debug)]
pub struct InputParcel {
    pub client_id: usize,
    pub input: Input,
}

impl InputParcel {
    pub fn new(client_id: usize, input: Input) -> (r: Self)
        ensures
            r.client_id == client_id,
            r.input == input,
    {
        InputParcel { client_id, input }
    }
}

#[derive(Debug)]
pub struct OutputParcel {
    pub client_id: usize,
    pub output: Output,
}

impl OutputParcel {
    pub fn new(client_id: usize, output: Output) -> (r: Self)
        ensures
            r.client_id == client_id,
            r.output == output,
    {
        OutputParcel { client_id, output }
    }
}

/// How a read over the web goes on after an input: with the value read, or by
/// sending these outputs and waiting for the next input.
pub struct WebReadStep {
    pub value: Option<Value>,
    pub send: Vec<Output>,
}

/// The question that asks the user for `d`.
pub fn tell_me(d: &VariableDesciption) -> (r: Output)
    ensures
        r matches Output::TellMe(t) && t.variableDescription.name@ == d.name@
            && t.variableDescription.data_type == d.data_type,
{
    Output::TellMe(TellMeOutput { variableDescription: copy_description(d) })
}

/// The next step of asking for `asked` after `input`: a valid continued answer
/// ends the read with its value; an invalid one is answered by saying it is not
/// valid for its type and asking again; a start is waited past.
/// `parsed_double` is the bit pattern of the double that an answer's text denotes.
pub fn on_input(asked: &VariableDesciption, input: &Input, parsed_double: Option<u64>) -> (r: WebReadStep)
    ensures
        match input {
            Input::Continue(ci) => if raw_is_valid(ci.rawVariableValue) {
                &&& r.value matches Some(v) && v@ == raw_to_value(ci.rawVariableValue, parsed_double)
                &&& r.send.len() == 0
            } else {
                &&& r.value is None
                &&& r.send.len() == 2
                &&& r.send[0] matches Output::KnowThat(k) && k.phrase@ == not_valid_text(
                    ci.rawVariableValue.data_type,
                )
                &&& r.send[1] matches Output::TellMe(t) && t.variableDescription.name@ == asked.name@
                    && t.variableDescription.data_type == asked.data_type
            },
            Input::Start(_) => r.value is None && r.send.len() == 0,
        },
{
    match input {
        Input::Continue(ci) => {
            let raw = &ci.rawVariableValue;
            if raw.is_valid() {
                WebReadStep { value: Some(raw.to_value(parsed_double)), send: Vec::new() }
            } else {
                let mut send: Vec<Output> = Vec::new();
                send.push(Output::KnowThat(KnowThatOutput { phrase: not_valid_phrase(raw.data_type) }));
                send.push(tell_me(asked));
                WebReadStep { value: None, send }
            }
        },
        Input::Start(_) => WebReadStep { value: None, send: Vec::new() },
    }
}

/// What the user is told when the journey writes `text`.
pub fn know_that(text: String) -> (r: Output)
    ensures
        r matches Output::KnowThat(k) && k.phrase == text,
{
    Output::KnowThat(KnowThatOutput { phrase: text })
}

} // verus!
