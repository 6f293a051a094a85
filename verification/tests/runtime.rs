use corr::env::{Environment, IterationBody};
use corr::store::{RCValueProvider, ValueProvider};
use corr::value::{Value, VarType, Variable};

struct MockProvider(usize, Vec<Value>);

impl ValueProvider for MockProvider {
    fn read(&mut self, _: Variable) -> Value {
        let ret = self.1[self.0].clone();
        self.0 += 1;
        ret
    }
    fn write(&mut self, str: String) {
        println!("{}", str)
    }
    fn close(&mut self) {}
    fn set_index_ref(&mut self, _: Variable, _: Variable) {}
    fn done(&mut self, _: String) {}
    fn load_ith_as(&mut self, _i: usize, _index_ref_var: Variable, _list_ref_var: Variable) {}
    fn save(&mut self, _var: Variable, _value: Value) {
        panic!("the mock provider does not store values")
    }
    fn load_value_as(&mut self, _ref_var: Variable, _val: Value) {
        panic!("the mock provider does not store values")
    }
}

struct Categories(usize);

impl IterationBody<MockProvider> for Categories {
    fn step(&mut self, env: &mut Environment<MockProvider>, j: usize) {
        assert_eq!(
            env.read(Variable { name: format!("category.name"), data_type: Option::Some(VarType::String) }),
            Value::String(format!("Atmaram {}{}", self.0, j))
        )
    }
}

struct Hobbies;

impl IterationBody<MockProvider> for Hobbies {
    fn step(&mut self, env: &mut Environment<MockProvider>, i: usize) {
        assert_eq!(
            env.read(Variable { name: format!("hobby.name"), data_type: Option::Some(VarType::String) }),
            Value::String(format!("Atmaram {}", i))
        );
        env.iterate(
            Variable { name: format!("category"), data_type: Option::Some(VarType::Object) },
            Variable { name: format!("hobby.categories"), data_type: Option::Some(VarType::List) },
            &mut Categories(i),
        );
    }
}

#[test]
fn should_iterate_over_runtime() {
    let mut rt = Environment::new_rc(MockProvider(
        0,
        vec![
            Value::Long(3),
            Value::String(format!("Atmaram 0")),
            Value::Long(2),
            Value::String(format!("Atmaram 00")),
            Value::String(format!("Atmaram 01")),
            Value::String(format!("Atmaram 1")),
            Value::Long(2),
            Value::String(format!("Atmaram 10")),
            Value::String(format!("Atmaram 11")),
            Value::String(format!("Atmaram 2")),
            Value::Long(2),
            Value::String(format!("Atmaram 20")),
            Value::String(format!("Atmaram 21")),
        ],
    ));
    rt.iterate(
        Variable { name: format!("hobby"), data_type: Option::Some(VarType::Object) },
        Variable { name: format!("hobbies"), data_type: Option::Some(VarType::List) },
        &mut Hobbies,
    );
    assert_eq!(rt.channel.fallback_provider.0, 13);
}

#[test]
fn should_read_same_variable_from_rc_provider_multiple_times() {
    let mut rcp = RCValueProvider::new(MockProvider(0, vec![Value::String(format!("Atmaram"))]));
    let var = Variable { name: format!("name"), data_type: Option::Some(VarType::String) };
    assert_eq!(rcp.read(Variable { name: var.name.clone(), data_type: var.data_type }), Value::String(format!("Atmaram")));
    assert_eq!(rcp.read(Variable { name: var.name.clone(), data_type: var.data_type }), Value::String(format!("Atmaram")));
}

#[test]
fn should_size_from_rc_provider() {
    let mut rcp = RCValueProvider::new(MockProvider(0, vec![Value::Long(2), Value::String(format!("Atmaram"))]));
    let var = Variable { name: format!("name.size"), data_type: Option::Some(VarType::String) };
    assert_eq!(rcp.read(var), Value::Long(2));
}

struct ReadHobbyName;

impl IterationBody<MockProvider> for ReadHobbyName {
    fn step(&mut self, env: &mut Environment<MockProvider>, i: usize) {
        assert_eq!(
            env.read(Variable { name: format!("hobby.name"), data_type: Option::Some(VarType::String) }),
            Value::String(format!("Atmaram {}", i))
        );
    }
}

struct ReadHobbyNameAgain;

impl IterationBody<MockProvider> for ReadHobbyNameAgain {
    fn step(&mut self, env: &mut Environment<MockProvider>, i: usize) {
        println!("helo");
        assert_eq!(
            env.read(Variable { name: format!("hobby.name"), data_type: Option::Some(VarType::String) }),
            Value::String(format!("Atmaram {}", i))
        );
    }
}

#[test]
fn should_iterate_over_runtime_reading_values() {
    let mut rt = Environment {
        channel: RCValueProvider::new(MockProvider(
            0,
            vec![Value::Long(2), Value::String(format!("Atmaram 0")), Value::String(format!("Atmaram 1"))],
        )),
    };
    rt.iterate(
        Variable { name: format!("hobby"), data_type: Option::Some(VarType::String) },
        Variable { name: format!("hobbies"), data_type: Option::None },
        &mut ReadHobbyName,
    );
    rt.iterate(
        Variable { name: format!("hobby"), data_type: Option::Some(VarType::String) },
        Variable { name: format!("hobbies"), data_type: Option::None },
        &mut ReadHobbyNameAgain,
    );
}
