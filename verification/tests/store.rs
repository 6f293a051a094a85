use corr::env::{BuildBody, Environment, IterationBody};
use corr::store::{Object, RCValueProvider, Target, ValueProvider};
use corr::value::{Value, VarType, Variable};

struct Silent;

impl ValueProvider for Silent {
    fn read(&mut self, _: Variable) -> Value {
        Value::Null
    }
    fn write(&mut self, _: String) {}
    fn close(&mut self) {}
    fn set_index_ref(&mut self, _: Variable, _: Variable) {}
    fn done(&mut self, _: String) {}
    fn load_ith_as(&mut self, _: usize, _: Variable, _: Variable) {}
    fn save(&mut self, _: Variable, _: Value) {}
    fn load_value_as(&mut self, _: Variable, _: Value) {}
}

fn var(name: &str, t: Option<VarType>) -> Variable {
    Variable { name: name.to_string(), data_type: t }
}

#[test]
fn saved_values_are_read_back() {
    let mut s = RCValueProvider::new(Silent);
    s.save(var("name", None), Value::String(format!("Ann")));
    s.save(var("person.age", None), Value::Long(4));
    s.save(var("a.b.c", None), Value::Boolean(true));
    assert_eq!(s.read(var("name", None)), Value::String(format!("Ann")));
    assert_eq!(s.read(var("person.age", None)), Value::Long(4));
    assert_eq!(s.read(var("a.b.c", None)), Value::Boolean(true));
    assert_eq!(s.read(var("person", None)), Value::Object(vec![(format!("age"), Value::Long(4))]));
}

#[test]
fn placing_below_a_value_fails() {
    let mut s = RCValueProvider::new(Silent);
    s.save(var("n", None), Value::Long(1));
    let id = s.add_node(Object::Final(Value::Long(2)));
    let r = s.create_object_at_path("n.k", id);
    assert_eq!(r.unwrap_err().message, "n not an object");
    let id = s.add_node(Object::Final(Value::Long(2)));
    let r = s.create_object_at_path("free", id);
    assert_eq!(r.unwrap_err().message, "free not found");
    assert_eq!(s.read(var("free", None)), Value::Long(2));
}

#[test]
fn list_sizes_are_read_from_lists() {
    let mut s = RCValueProvider::new(Silent);
    let lid = s.add_node(Object::new_list_object());
    assert!(s.create_object_at_path("items", lid).is_err());
    s.set_index_ref(var("item", None), var("items", None));
    s.save(var("item", None), Value::Long(10));
    s.done(format!("item"));
    s.save(var("item", None), Value::Long(11));
    assert_eq!(s.get_object_at_path("items.size"), Some(Target::ListSize(2)));
    assert_eq!(s.read(var("items.size", None)), Value::Long(2));
    assert_eq!(s.read(var("items", None)), Value::Array(vec![Value::Long(10), Value::Long(11)]));
}

#[test]
fn done_releases_the_name_and_what_is_below_it() {
    let mut s = RCValueProvider::new(Silent);
    s.load_value_as(var("x", None), Value::Long(1));
    s.load_value_as(var("x.y", None), Value::Long(2));
    s.load_value_as(var("xy", None), Value::Long(3));
    s.done(format!("x"));
    assert_eq!(s.reference_store.len(), 1);
    assert_eq!(s.reference_store[0].0, "xy");
}

#[test]
fn loading_an_element_aliases_it() {
    let mut s = RCValueProvider::new(Silent);
    let lid = s.add_node(Object::new_list_object());
    assert!(s.create_object_at_path("rows", lid).is_err());
    s.load_ith_as(0, var("row", Some(VarType::Object)), var("rows", None));
    s.save(var("row.cell", None), Value::Long(5));
    s.load_ith_as(1, var("row", Some(VarType::Object)), var("rows", None));
    s.save(var("row.cell", None), Value::Long(6));
    assert_eq!(
        s.read(var("rows", None)),
        Value::Array(vec![
            Value::Object(vec![(format!("cell"), Value::Long(5))]),
            Value::Object(vec![(format!("cell"), Value::Long(6))]),
        ])
    );
    s.load_ith_as(0, var("row", None), var("rows", None));
    assert_eq!(s.read(var("row.cell", None)), Value::Long(5));
}

struct Cells;

impl BuildBody<Silent, i64> for Cells {
    fn build(&mut self, env: &mut Environment<Silent>, i: usize) -> i64 {
        env.save(var("cell.index", None), Value::Long(i as i64));
        (i as i64) * 10
    }
}

struct Touch;

impl IterationBody<Silent> for Touch {
    fn step(&mut self, env: &mut Environment<Silent>, i: usize) {
        env.save(var("cell.index", None), Value::Long(i as i64));
    }
}

#[test]
fn loading_from_a_missing_list_binds_a_fresh_element() {
    let mut s = RCValueProvider::new(Silent);
    s.load_ith_as(0, var("row", Some(VarType::Object)), var("rows", None));
    s.save(var("row.cell", None), Value::Long(5));
    assert_eq!(s.read(var("row.cell", None)), Value::Long(5));
    assert_eq!(s.get_object_at_path("rows"), None);
    s.load_ith_as(0, var("other", Some(VarType::String)), var("others", None));
    assert_eq!(s.get_object_at_path("other"), None);
}

#[test]
fn building_loops_only_run_their_body() {
    let mut env = Environment::new_rc(Silent);
    let built = env.build_iterate_outside_building_inside(
        var("cell", Some(VarType::Object)),
        var("cells", Some(VarType::List)),
        3,
        &mut Cells,
    );
    assert_eq!(built, vec![0, 10, 20]);
    env.iterate_outside_building_inside(var("cell", Some(VarType::Object)), var("other", None), 2, &mut Touch);
    assert!(env.channel.value_store.is_empty());
    assert!(env.channel.reference_store.is_empty());
    assert!(env.channel.indexes.is_empty());
    env.error(format!("bye"));
    assert!(env.channel.value_store.is_empty());
    assert_eq!(env.read(var("cells.size", None)), Value::Null);
    let more = env.build_iterate(var("cell", Some(VarType::Object)), var("cells", None), vec![7], &mut Cells);
    assert_eq!(more, vec![7]);
}

#[test]
fn placing_below_an_object_that_holds_itself() {
    let mut s = RCValueProvider::new(Silent);
    let o = s.add_node(Object::new_object_object(vec![]));
    assert!(s.create_object_at_path("a", o).is_err());
    assert!(s.create_object_at_path("a.b", o).is_ok());
    let x = s.add_node(Object::Final(Value::Long(1)));
    assert!(s.create_object_at_path("a.b.c", x).is_ok());
    assert_eq!(s.get_object_at_path("a.b.c"), Some(Target::Node(x)));
    let y = s.add_node(Object::Final(Value::Long(2)));
    assert!(s.create_object_at_path("a.b.b", y).is_ok());
    assert_eq!(s.get_object_at_path("a.b"), Some(Target::Node(y)));
}
