//! What the derive macros read off a type, and where they report a fault.
use system_one::derive::{
    doc_comment, expand_choice, expand_questions, field_kind, Arg, ArgValue, Attribute, Field, FieldKind, FieldType, Generics, Input, JevArgs, Meta,
    Question, QuestionKind, Site, Variant,
};

fn word(s: &str) -> ArgValue {
    ArgValue::Text(s.to_string())
}

fn jev(args: Vec<Arg>) -> Attribute {
    Attribute { name: "jev".to_string(), meta: Meta::List(args) }
}

fn named(name: &str, value: ArgValue) -> Arg {
    Arg::Named(name.to_string(), value)
}

fn doc(line: &str) -> Attribute {
    Attribute { name: "doc".to_string(), meta: Meta::Value(word(line)) }
}

fn variant(ident: &str, attrs: Vec<Attribute>) -> Variant {
    Variant { ident: ident.to_string(), unit: true, attrs }
}

fn ty(last: &str, generics: Generics) -> FieldType {
    FieldType::Path { last: last.to_string(), generics }
}

fn field(ident: &str, t: FieldType, attrs: Vec<Attribute>) -> Field {
    Field { ident: ident.to_string(), ty: t, attrs }
}

fn asked(s: &str) -> Arg {
    Arg::Positional(s.to_string())
}

#[test]
fn keys_default_to_snake_case() {
    let options = expand_choice(&Input::Enum(vec![variant("XmlHttpRequest", vec![]), variant("Spam", vec![])])).unwrap();
    assert_eq!(options[0].key, "xml_http_request");
    assert_eq!(options[1].key, "spam");
    assert_eq!(options[0].desc, None);
}

#[test]
fn descriptions_come_from_the_attribute_or_the_doc_comment() {
    let lines = vec![doc(" one "), doc("two"), Attribute { name: "doc".to_string(), meta: Meta::Path }];
    assert_eq!(doc_comment(&lines).as_deref(), Some("one two"));
    assert_eq!(doc_comment(&vec![]), None);
    let both = vec![doc("doc"), jev(vec![named("desc", word("attr"))])];
    let options = expand_choice(&Input::Enum(vec![variant("A", both)])).unwrap();
    assert_eq!(options[0].desc.as_deref(), Some("attr"));
}

#[test]
fn choices_have_one_to_255_unit_variants() {
    let many = |n: usize| Input::Enum((0..n).map(|i| variant(&format!("V{i}"), vec![])).collect());
    assert_eq!(expand_choice(&many(255)).unwrap().len(), 255);
    let f = expand_choice(&many(256)).unwrap_err();
    assert_eq!((f.site, f.message.as_str()), (Site::Input, "a choice may have at most 255 options"));
    let f = expand_choice(&many(0)).unwrap_err();
    assert_eq!(f.message, "a choice needs at least one option");
    let f = expand_choice(&Input::Named(vec![])).unwrap_err();
    assert_eq!(f.message, "JevChoice can only be derived for enums");
    let full = Variant { ident: "B".to_string(), unit: false, attrs: vec![] };
    let f = expand_choice(&Input::Enum(vec![variant("A", vec![]), full])).unwrap_err();
    assert_eq!((f.site, f.message.as_str()), (Site::Item { item: 1 }, "JevChoice variants must be unit variants"));
}

#[test]
fn attributes_are_read_in_order() {
    let attrs = vec![
        Attribute { name: "serde".to_string(), meta: Meta::Unreadable },
        jev(vec![asked("first"), named("key", word("k"))]),
        jev(vec![named("instructions", word("second")), named("levels", ArgValue::List(vec![word("a"), word("b")]))]),
    ];
    let args = JevArgs::from_attrs(&attrs, 0).unwrap();
    assert_eq!(args.instructions.as_deref(), Some("second"), "the later one stays");
    assert_eq!(args.key.as_deref(), Some("k"));
    assert_eq!(args.levels.unwrap(), ["a", "b"]);
}

#[test]
fn attribute_faults_name_their_place() {
    let fault = |attrs: Vec<Attribute>| JevArgs::from_attrs(&attrs, 3).unwrap_err();
    let f = fault(vec![Attribute { name: "jev".to_string(), meta: Meta::Path }]);
    assert_eq!((f.site, f.message.as_str()), (Site::Attribute { item: 3, attr: 0 }, "expected #[jev(...)]"));
    let f = fault(vec![doc("x"), Attribute { name: "jev".to_string(), meta: Meta::Unreadable }]);
    assert_eq!(f.site, Site::Arguments { item: 3, attr: 1 });
    let f = fault(vec![jev(vec![asked("q"), named("colour", word("red"))])]);
    assert_eq!(f.site, Site::ArgName { item: 3, attr: 0, arg: 1 });
    assert_eq!(f.message, "unknown jev attribute `colour` (expected instructions, levels, yes, no, name, key, desc)");
    let f = fault(vec![jev(vec![named("key", ArgValue::Other)])]);
    assert_eq!((f.site, f.message.as_str()), (Site::ArgValue { item: 3, attr: 0, arg: 0 }, "expected a string literal"));
    let f = fault(vec![jev(vec![named("levels", word("low"))])]);
    assert_eq!(f.message, "expected an array of string literals: [\"a\", \"b\"]");
    let f = fault(vec![jev(vec![named("levels", ArgValue::List(vec![word("low"), ArgValue::Other]))])]);
    assert_eq!(f.site, Site::ArgElement { item: 3, attr: 0, arg: 0, element: 1 });
}

#[test]
fn field_types_decide_the_kind() {
    assert_eq!(field_kind(&ty("Noul", Generics::Absent), 0), Ok(FieldKind::Noul));
    assert_eq!(field_kind(&ty("Score", Generics::Other), 0), Ok(FieldKind::Score));
    assert_eq!(field_kind(&ty("Choice", Generics::Type), 0), Ok(FieldKind::Choice));
    let f = field_kind(&ty("Choice", Generics::Absent), 2).unwrap_err();
    assert_eq!((f.site, f.message.as_str()), (Site::Type { item: 2 }, "Choice needs a type parameter: Choice<MyEnum>"));
    assert!(field_kind(&ty("Choice", Generics::Other), 2).is_err());
    let f = field_kind(&ty("String", Generics::Absent), 0).unwrap_err();
    assert_eq!(f.message, "unsupported field type `String`; use Noul, Choice<E> or Score");
    assert_eq!(field_kind(&FieldType::Other, 0).unwrap_err().message, "field type must be Noul, Choice<E> or Score");
}

#[test]
fn fields_become_questions() {
    let questions = expand_questions(&Input::Named(vec![
        field("a", ty("Noul", Generics::Absent), vec![doc(" Is it? ")]),
        field("b", ty("Choice", Generics::Type), vec![jev(vec![asked("Which?"), named("name", word("wire"))])]),
    ]))
    .unwrap();
    assert_eq!(
        questions,
        vec![
            Question { wire: "a".to_string(), instructions: "Is it?".to_string(), kind: QuestionKind::Noul(None) },
            Question { wire: "wire".to_string(), instructions: "Which?".to_string(), kind: QuestionKind::Choice },
        ]
    );
    assert!(expand_questions(&Input::Named(vec![])).unwrap().is_empty());
}

#[test]
fn field_faults_are_reported() {
    let one = |t: FieldType, args: Vec<Arg>| expand_questions(&Input::Named(vec![field("f", t, vec![jev(args)])])).unwrap_err();
    assert_eq!(one(ty("Noul", Generics::Absent), vec![]).message, "missing #[jev(\"instructions\")] (or a doc comment)");
    let f = one(ty("Noul", Generics::Absent), vec![asked("q"), named("yes", word("y"))]);
    assert_eq!((f.site, f.message.as_str()), (Site::Item { item: 0 }, "`yes` and `no` must be given together"));
    assert_eq!(one(ty("Score", Generics::Absent), vec![asked("q")]).message, "Score fields need #[jev(levels = [\"…\", …])]");
    let levels = |n: usize| named("levels", ArgValue::List((0..n).map(|i| word(&i.to_string())).collect()));
    assert_eq!(one(ty("Score", Generics::Absent), vec![asked("q"), levels(1)]).message, "a score needs 2 to 10 levels");
    assert_eq!(one(ty("Score", Generics::Absent), vec![asked("q"), levels(11)]).message, "a score needs 2 to 10 levels");
    assert_eq!(one(ty("String", Generics::Absent), vec![asked("q")]).site, Site::Type { item: 0 });
    assert_eq!(expand_questions(&Input::Unnamed).unwrap_err().message, "JevQuestions needs named fields");
    assert_eq!(expand_questions(&Input::Union).unwrap_err().message, "JevQuestions can only be derived for structs");
    assert_eq!(expand_questions(&Input::Enum(vec![])).unwrap_err().message, "JevQuestions can only be derived for structs");
}
