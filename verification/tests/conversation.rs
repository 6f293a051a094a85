use corr::conversation::{ask_prompt, close_acknowledged, on_action, on_quiet_action, not_valid_phrase, Action, DesiredAction, Messanger, StringIO};
use corr::proto::{on_input, ContinueInput, Input, InputParcel, Output, OutputParcel, StartInput, KnowThatOutput, know_that};
use corr::value::{RawVariableValue, Value, VarType, VariableDesciption};

fn age() -> VariableDesciption {
    VariableDesciption { name: format!("age"), data_type: VarType::Long }
}

fn told(text: &str) -> RawVariableValue {
    RawVariableValue { value: Some(text.to_string()), name: format!("age"), data_type: VarType::Long }
}

#[test]
fn prompts_with_name_and_type() {
    assert_eq!(ask_prompt(&age()), "Please enter value for age of type Long");
    assert_eq!(not_valid_phrase(VarType::Double), "Not Valid Double");
}

#[test]
fn accepts_a_valid_answer() {
    let step = on_action(&age(), &Action::Told(told("33")), None);
    assert_eq!(step.value, Some(Value::Long(33)));
    assert!(step.send.is_empty());
}

#[test]
fn asks_again_after_an_invalid_answer() {
    let step = on_action(&age(), &Action::Told(told("thirty")), None);
    assert!(step.value.is_none());
    assert_eq!(step.send.len(), 2);
    match &step.send[0] {
        DesiredAction::Listen(p) => assert_eq!(p, "Not Valid Long"),
        other => panic!("unexpected {:?}", other),
    }
    match &step.send[1] {
        DesiredAction::Tell(d) => {
            assert_eq!(d.name, "age");
            assert_eq!(d.data_type, VarType::Long);
        },
        other => panic!("unexpected {:?}", other),
    }
}

#[test]
fn waits_past_other_actions() {
    for a in [Action::Ping, Action::Pong, Action::Ignorable, Action::Quit] {
        let step = on_action(&age(), &a, None);
        assert!(step.value.is_none());
        assert!(step.send.is_empty());
    }
    assert!(close_acknowledged(&Action::Quit));
    assert!(!close_acknowledged(&Action::Ping));
}

#[test]
fn web_reads_follow_the_same_rules() {
    let ok = on_input(&age(), &Input::Continue(ContinueInput { rawVariableValue: told("7") }), None);
    assert_eq!(ok.value, Some(Value::Long(7)));
    let bad = on_input(&age(), &Input::Continue(ContinueInput { rawVariableValue: told("7x") }), None);
    assert!(bad.value.is_none());
    match (&bad.send[0], &bad.send[1]) {
        (Output::KnowThat(k), Output::TellMe(t)) => {
            assert_eq!(k.phrase, "Not Valid Long");
            assert_eq!(t.variableDescription.name, "age");
        },
        other => panic!("unexpected {:?}", other),
    }
    let start = on_input(&age(), &Input::Start(StartInput { filter: format!("hello") }), None);
    assert!(start.value.is_none() && start.send.is_empty());
}

#[test]
fn parcels_carry_their_client() {
    let p = InputParcel::new(4, Input::Start(StartInput { filter: format!("f") }));
    assert_eq!(p.client_id, 4);
    let o = OutputParcel::new(5, Output::KnowThat(KnowThatOutput { phrase: format!("hi") }));
    assert_eq!(o.client_id, 5);
    match know_that(format!("done")) {
        Output::KnowThat(k) => assert_eq!(k.phrase, "done"),
        other => panic!("unexpected {:?}", other),
    }
}

struct Script {
    written: Vec<String>,
    lines: Vec<String>,
}

impl StringIO for Script {
    fn write(&mut self, text: String) {
        self.written.push(text);
    }
    fn read(&mut self) -> String {
        self.lines.remove(0)
    }
}

#[test]
fn messanger_asks_and_tells() {
    let mut m = Messanger::new(Script { written: vec![], lines: vec![format!("12")] });
    let r = m.ask(age());
    assert_eq!(r.value, Some(format!("12")));
    assert_eq!(r.name, "age");
    assert_eq!(r.data_type, VarType::Long);
    m.tell(format!("thanks"));
    assert_eq!(m.string_io.written, vec![format!("Please enter value for age of type Long"), format!("thanks")]);
}

#[test]
fn the_action_socket_waits_silently_past_an_invalid_answer() {
    let step = on_quiet_action(&Action::Told(told("thirty")), None);
    assert!(step.value.is_none());
    assert!(step.send.is_empty());
    let step = on_quiet_action(&Action::Told(told("30")), None);
    assert_eq!(step.value, Some(Value::Long(30)));
    assert!(step.send.is_empty());
    let step = on_quiet_action(&Action::Ping, None);
    assert!(step.value.is_none());
}
