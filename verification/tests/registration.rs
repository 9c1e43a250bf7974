use kwark::registration::{
    doc_string, extractor_for, module, type_marker, FnItem, Marker, ModItem, ModuleError, Param,
};
use kwark::value::Type;

fn s(x: &str) -> String {
    x.to_string()
}

fn typed(name: &str, ty: &str, docs: &[&str]) -> Param {
    Param::Typed {
        name: Some(s(name)),
        ty: Some(s(ty)),
        docs: docs.iter().map(|d| s(d)).collect(),
        variadic: false,
    }
}

fn func(name: &str, docs: &[&str], params: Vec<Param>) -> ModItem {
    ModItem::Func(FnItem { name: s(name), docs: docs.iter().map(|d| s(d)).collect(), params })
}

fn context() -> ModItem {
    ModItem::TypeAlias { name: s("Cx"), ty: s("State") }
}

#[test]
fn module_without_body_is_refused() {
    let err = module(None).err().unwrap();
    assert_eq!(err, ModuleError::NoBody);
    assert_eq!(err.message(), "#[kaon::module] requires a `mod name { .. }` with a body");
}

#[test]
fn module_without_context_is_refused() {
    let err = module(Some(vec![func("f", &[], vec![])])).err().unwrap();
    assert_eq!(err, ModuleError::NoContext);
    assert_eq!(err.message(), "#[kaon::module] requires a leading `type Cx = YourStateType;`");
}

#[test]
fn module_registers_functions_under_their_paths() {
    let items = vec![
        func(
            "add",
            &[" Adds two numbers "],
            vec![typed("cx", "Cx", &[]), typed("a", "Int", &[" first"]), typed("b", "Int", &[])],
        ),
        context(),
        ModItem::Mod {
            name: s("text"),
            body: Some(vec![func("len", &[], vec![typed("s", "Str", &["the text"])])]),
        },
    ];
    let plan = module(Some(items)).ok().unwrap();
    assert_eq!(plan.context, "State");
    assert_eq!(plan.registrations.len(), 2);

    let add = &plan.registrations[0];
    assert_eq!(add.name, "add");
    assert_eq!(add.desc.as_deref(), Some("Adds two numbers"));
    assert!(add.context);
    assert_eq!(add.args.len(), 2);
    assert_eq!(add.args[0].name, "a");
    assert_eq!(add.args[0].desc, "first");
    assert_eq!(add.args[0].ty, Some(Type::Int));
    assert_eq!(add.args[1].name, "b");
    assert_eq!(add.args[1].desc, "");
    assert_eq!(add.lets, vec![(s("a"), Marker::Int), (s("b"), Marker::Int)]);
    assert!(add.variadic.is_none());

    let len = &plan.registrations[1];
    assert_eq!(len.name, "text::len");
    assert!(len.desc.is_none());
    assert!(!len.context);
    assert_eq!(len.args[0].ty, Some(Type::Str));
    assert_eq!(len.lets, vec![(s("s"), Marker::Str)]);
}

#[test]
fn variadic_parameter_is_taken_as_a_list() {
    let items = vec![
        context(),
        func(
            "sum",
            &[],
            vec![Param::Typed { name: Some(s("items")), ty: None, docs: vec![s(" the numbers ")], variadic: true }],
        ),
    ];
    let plan = module(Some(items)).ok().unwrap();
    let sum = &plan.registrations[0];
    assert!(sum.args.is_empty());
    assert_eq!(sum.variadic, Some((s("items"), s("the numbers"))));
    assert_eq!(sum.lets, vec![(s("items"), Marker::List)]);
}

#[test]
fn value_parameter_is_checked_against_no_type() {
    let items = vec![context(), func("show", &[], vec![typed("v", "Value", &[])])];
    let plan = module(Some(items)).ok().unwrap();
    assert_eq!(plan.registrations[0].args[0].ty, None);
    assert_eq!(plan.registrations[0].lets, vec![(s("v"), Marker::Value)]);
}

#[test]
fn context_parameter_counts_only_first() {
    let items = vec![context(), func("f", &[], vec![typed("a", "Int", &[]), typed("cx", "Cx", &[])])];
    assert_eq!(module(Some(items)).err().unwrap(), ModuleError::UnsupportedType);
}

#[test]
fn receiver_is_refused() {
    let items = vec![context(), func("f", &[], vec![Param::Receiver])];
    let err = module(Some(items)).err().unwrap();
    assert_eq!(err, ModuleError::Receiver);
    assert_eq!(err.message(), "kaon::module! functions cannot take `self`");
}

#[test]
fn pattern_parameter_is_refused() {
    let items = vec![
        context(),
        func("f", &[], vec![Param::Typed { name: None, ty: Some(s("Int")), docs: vec![], variadic: false }]),
    ];
    assert_eq!(module(Some(items)).err().unwrap(), ModuleError::NotIdent);
}

#[test]
fn unsupported_type_is_refused() {
    let items = vec![context(), func("f", &[], vec![typed("a", "u8", &[])])];
    let err = module(Some(items)).err().unwrap();
    assert_eq!(err, ModuleError::UnsupportedType);
    assert_eq!(
        err.message(),
        "unsupported argument type: expected Str, Int, Float, Bool, List, Method, or Value"
    );
}

#[test]
fn nested_module_without_body_is_refused() {
    let items = vec![context(), ModItem::Mod { name: s("inner"), body: None }];
    assert_eq!(module(Some(items)).err().unwrap(), ModuleError::NestedWithoutBody);
}

#[test]
fn other_items_are_refused() {
    let items = vec![context(), ModItem::Other];
    assert_eq!(module(Some(items)).err().unwrap(), ModuleError::NotFnOrMod);

    let items = vec![context(), context()];
    assert_eq!(module(Some(items)).err().unwrap(), ModuleError::NotFnOrMod);
}

#[test]
fn first_failing_function_is_reported() {
    let items = vec![
        context(),
        func("a", &[], vec![Param::Receiver]),
        func("b", &[], vec![typed("x", "u8", &[])]),
    ];
    assert_eq!(module(Some(items)).err().unwrap(), ModuleError::Receiver);
}

#[test]
fn doc_lines_are_trimmed_and_joined() {
    assert_eq!(doc_string(&vec![s("  a "), s("b\t")]), "a\nb");
    assert_eq!(doc_string(&vec![]), "");
    assert_eq!(doc_string(&vec![s("   ")]), "");
}

#[test]
fn markers_name_their_types() {
    assert_eq!(type_marker(&Some(s("Float"))), Some(Marker::Float));
    assert_eq!(type_marker(&Some(s("Method"))), Some(Marker::Method));
    assert_eq!(type_marker(&Some(s("String"))), None);
    assert_eq!(type_marker(&None), None);
    assert_eq!(extractor_for(Marker::Bool), ("bool", Some(Type::Bool)));
    assert_eq!(extractor_for(Marker::Value), ("value", None));
}
