use dwarfdump::{
    byte_order, compare_names, parse, parse_dimensionality, tag_of, void_typed, Attr, Entry,
    Modifier, ParseError, Parser, Symbols, Tag, TypedValue, UnitEntries,
};

const DW_TAG_COMPILE_UNIT: u16 = 0x11;

fn entry(offset: u64, depth: i64, tag: Tag) -> Entry {
    Entry {
        offset,
        depth,
        tag,
        name: Attr::Absent,
        type_ref: Attr::Absent,
        external: false,
        prototyped: false,
        count: Attr::Absent,
        lower_bound: Attr::Absent,
        upper_bound: Attr::Absent,
    }
}

fn named(mut e: Entry, name: &str) -> Entry {
    e.name = Attr::Present(name.to_string());
    e
}

fn refers(mut e: Entry, offset: u64) -> Entry {
    e.type_ref = Attr::Present(offset);
    e
}

fn exported(mut e: Entry) -> Entry {
    e.external = true;
    e.prototyped = true;
    e
}

fn root() -> Entry {
    entry(0x0b, 0, Tag::Other(DW_TAG_COMPILE_UNIT))
}

fn modifier(offset: u64, m: Modifier, to: u64) -> Entry {
    refers(entry(offset, 1, Tag::Modifier(m)), to)
}

fn parser_of(entries: Vec<Entry>) -> Parser {
    Parser::new(UnitEntries::new(entries).expect("offsets increase"))
}

fn strip(s: &str) -> String {
    s.chars().filter(|c| !c.is_whitespace()).collect()
}

/// `int *foo(<first>, void (*)(int))`, with `<first>` a `char *`, or a
/// `char * const` when `const_first` is set.
fn foo_unit(const_first: bool) -> Vec<Entry> {
    vec![
        root(),
        named(entry(0x10, 1, Tag::BaseType), "int"),
        named(entry(0x18, 1, Tag::BaseType), "char"),
        modifier(0x20, Modifier::Pointer, 0x10),
        modifier(0x28, Modifier::Pointer, 0x18),
        modifier(0x30, Modifier::Const, 0x28),
        entry(0x38, 1, Tag::Subroutine),
        refers(entry(0x3c, 2, Tag::FormalParameter), 0x10),
        modifier(0x40, Modifier::Pointer, 0x38),
        refers(exported(named(entry(0x48, 1, Tag::Subprogram), "foo")), 0x20),
        refers(entry(0x50, 2, Tag::FormalParameter), if const_first { 0x30 } else { 0x28 }),
        refers(entry(0x58, 2, Tag::FormalParameter), 0x40),
    ]
}

#[test]
fn declarator_round_trip() {
    let symbols = parse(vec![foo_unit(false)]).expect("parses");
    let foo = symbols.get("foo").expect("foo is there");
    let text = foo.to_string();
    assert_eq!(text, "int* foo(char*, void (*)(int))");
    assert_eq!(strip(&text), strip("int *foo(char *, void (*)(int))"));
}

#[test]
fn qualifiers_render_in_the_order_met() {
    let symbols = parse(vec![foo_unit(true)]).expect("parses");
    let foo = symbols.get("foo").expect("foo is there");
    assert_eq!(foo.to_string(), "int* foo(char const*, void (*)(int))");
    assert_eq!(foo.parameters[0].typed.modifiers, vec![Modifier::Const, Modifier::Pointer]);
}

#[test]
fn function_pointer_parameter_keeps_its_name() {
    let mut unit = foo_unit(false);
    unit[11] = named(refers(entry(0x58, 2, Tag::FormalParameter), 0x40), "cb");
    let symbols = parse(vec![unit]).expect("parses");
    let foo = symbols.get("foo").expect("foo is there");
    assert_eq!(foo.to_string(), "int* foo(char*, void (*cb)(int))");
    assert_eq!(foo.parameters[1].to_string(), "void (*cb)(int)");
    assert!(foo.parameters[1].typed.modifiers.is_empty());
}

#[test]
fn self_referential_struct_is_cut_short() {
    let mut p = parser_of(vec![
        root(),
        named(entry(0x10, 1, Tag::Struct), "node"),
        named(refers(entry(0x14, 2, Tag::Member), 0x20), "next"),
        modifier(0x20, Modifier::Pointer, 0x10),
    ]);
    let t = p.parse_type(Some(0x10)).expect("resolves");
    assert_eq!(t.name, "node");
    assert_eq!(t.to_string(), "struct node");
    match &t.value {
        TypedValue::Struct(members) => {
            assert_eq!(members.len(), 1);
            assert!(matches!(members[0].typed.value, TypedValue::Circular));
            assert_eq!(members[0].typed.modifiers, vec![Modifier::Pointer]);
            assert_eq!(members[0].to_string(), "<circular>* next");
        },
        other => panic!("not a struct: {:?}", other),
    }
}

#[test]
fn mutually_referential_structs_are_cut_short() {
    let mut p = parser_of(vec![
        root(),
        named(entry(0x10, 1, Tag::Struct), "a"),
        named(refers(entry(0x14, 2, Tag::Member), 0x30), "b"),
        named(entry(0x20, 1, Tag::Struct), "b"),
        named(refers(entry(0x24, 2, Tag::Member), 0x38), "a"),
        modifier(0x30, Modifier::Pointer, 0x20),
        modifier(0x38, Modifier::Pointer, 0x10),
    ]);
    let t = p.parse_type(Some(0x10)).expect("resolves");
    let TypedValue::Struct(members) = &t.value else { panic!("not a struct") };
    assert_eq!(members[0].to_string(), "struct b* b");
    let TypedValue::Struct(inner) = &members[0].typed.value else { panic!("not a struct") };
    assert!(matches!(inner[0].typed.value, TypedValue::Circular));
    assert_eq!(inner[0].to_string(), "<circular>* a");
}

#[test]
fn qualifier_cycle_is_cut_short() {
    let mut p = parser_of(vec![root(), modifier(0x10, Modifier::Const, 0x10)]);
    let t = p.parse_type(Some(0x10)).expect("resolves");
    assert!(matches!(t.value, TypedValue::Circular));
    assert!(t.modifiers.iter().all(|m| *m == Modifier::Const));
}

#[test]
fn resolving_twice_gives_the_same_type() {
    let mut p = parser_of(vec![
        root(),
        named(entry(0x10, 1, Tag::BaseType), "int"),
        named(entry(0x18, 1, Tag::Struct), "pair"),
        named(refers(entry(0x1c, 2, Tag::Member), 0x10), "x"),
        named(refers(entry(0x20, 2, Tag::Member), 0x28), "y"),
        modifier(0x28, Modifier::Pointer, 0x18),
    ]);
    let first = p.parse_type(Some(0x28)).expect("resolves");
    let second = p.parse_type(Some(0x28)).expect("resolves");
    assert_eq!(format!("{:?}", first), format!("{:?}", second));
    assert_eq!(first.to_string(), "struct pair*");
}

#[test]
fn two_dimensional_array() {
    let mut low = entry(0x18, 2, Tag::Subrange);
    low.lower_bound = Attr::Present(0);
    low.upper_bound = Attr::Present(3);
    let mut high = entry(0x1c, 2, Tag::Subrange);
    high.upper_bound = Attr::Present(1);
    let entries = vec![
        root(),
        named(entry(0x10, 1, Tag::BaseType), "int"),
        refers(entry(0x14, 1, Tag::Array), 0x10),
        low,
        high,
    ];
    let unit = UnitEntries::new(entries).expect("offsets increase");
    assert_eq!(parse_dimensionality(&unit, 2), Ok(Some(8)));
    let mut p = Parser::new(unit);
    let t = p.parse_type(Some(0x14)).expect("resolves");
    match &t.value {
        TypedValue::Array(element, dimension) => {
            assert_eq!(*dimension, Some(8));
            assert_eq!(element.name, "int");
        },
        other => panic!("not an array: {:?}", other),
    }
    assert_eq!(t.to_string(), "array void");
}

fn array_with(subranges: Vec<Entry>) -> UnitEntries {
    let mut entries = vec![
        root(),
        named(entry(0x10, 1, Tag::BaseType), "int"),
        refers(entry(0x14, 1, Tag::Array), 0x10),
    ];
    entries.extend(subranges);
    UnitEntries::new(entries).expect("offsets increase")
}

#[test]
fn subrange_count_is_taken_as_is() {
    let mut s = entry(0x18, 2, Tag::Subrange);
    s.count = Attr::Present(5);
    s.upper_bound = Attr::Present(100);
    assert_eq!(parse_dimensionality(&array_with(vec![s]), 2), Ok(Some(5)));
}

#[test]
fn unknown_bound_is_an_unknown_dimension() {
    let mut known = entry(0x18, 2, Tag::Subrange);
    known.upper_bound = Attr::Present(9);
    let open = entry(0x1c, 2, Tag::Subrange);
    assert_eq!(parse_dimensionality(&array_with(vec![known, open]), 2), Ok(None));
}

#[test]
fn empty_subrange_gives_zero() {
    let mut s = entry(0x18, 2, Tag::Subrange);
    s.lower_bound = Attr::Present(4);
    s.upper_bound = Attr::Present(3);
    let mut big = entry(0x1c, 2, Tag::Subrange);
    big.count = Attr::Present(u64::MAX);
    assert_eq!(parse_dimensionality(&array_with(vec![s, big]), 2), Ok(Some(0)));
}

#[test]
fn reversed_bounds_are_an_error() {
    let mut s = entry(0x18, 2, Tag::Subrange);
    s.lower_bound = Attr::Present(5);
    s.upper_bound = Attr::Present(1);
    assert_eq!(parse_dimensionality(&array_with(vec![s]), 2), Err(ParseError::BadBounds(0x18)));
}

#[test]
fn dimension_overflow_is_an_error() {
    let mut a = entry(0x18, 2, Tag::Subrange);
    a.count = Attr::Present(u64::MAX);
    let mut b = entry(0x1c, 2, Tag::Subrange);
    b.count = Attr::Present(2);
    assert_eq!(
        parse_dimensionality(&array_with(vec![a, b]), 2),
        Err(ParseError::DimensionOverflow(0x14))
    );
    let mut c = entry(0x18, 2, Tag::Subrange);
    c.upper_bound = Attr::Present(u64::MAX);
    assert_eq!(
        parse_dimensionality(&array_with(vec![c]), 2),
        Err(ParseError::DimensionOverflow(0x18))
    );
}

#[test]
fn malformed_count_is_an_error() {
    let mut s = entry(0x18, 2, Tag::Subrange);
    s.count = Attr::Malformed;
    assert_eq!(
        parse_dimensionality(&array_with(vec![s]), 2),
        Err(ParseError::MalformedAttribute(0x18))
    );
}

fn subprogram(offset: u64, name: &str, external: bool, prototyped: bool) -> Entry {
    let mut e = named(entry(offset, 1, Tag::Subprogram), name);
    e.external = external;
    e.prototyped = prototyped;
    e
}

#[test]
fn selection_needs_external_and_prototyped() {
    let unit = vec![
        root(),
        subprogram(0x10, "both", true, true),
        subprogram(0x18, "no_prototype", true, false),
        subprogram(0x20, "no_external", false, true),
        subprogram(0x28, "neither", false, false),
    ];
    let symbols = parse(vec![unit]).expect("parses");
    assert_eq!(symbols.len(), 1);
    assert!(symbols.get("both").is_some());
    assert!(symbols.get("no_prototype").is_none());
    assert!(symbols.get("no_external").is_none());
    assert_eq!(symbols.get("both").unwrap().to_string(), "void both()");
}

#[test]
fn empty_input_gives_an_empty_table() {
    let symbols = parse(Vec::new()).expect("parses");
    assert_eq!(symbols.len(), 0);
    let symbols = parse(vec![vec![root()], Vec::new()]).expect("parses");
    assert_eq!(symbols.len(), 0);
}

#[test]
fn byte_order_follows_the_file() {
    assert_eq!(byte_order(true), gimli::RunTimeEndian::Little);
    assert_eq!(byte_order(false), gimli::RunTimeEndian::Big);
}

#[test]
fn table_is_in_name_order_and_later_names_win() {
    let first = vec![
        root(),
        named(entry(0x10, 1, Tag::BaseType), "int"),
        subprogram(0x18, "zeta", true, true),
        refers(subprogram(0x20, "alpha", true, true), 0x10),
        subprogram(0x28, "mid", true, true),
    ];
    let second = vec![
        root(),
        named(entry(0x10, 1, Tag::BaseType), "long"),
        refers(subprogram(0x18, "alpha", true, true), 0x10),
    ];
    let symbols = parse(vec![first, second]).expect("parses");
    let names: Vec<String> =
        symbols.functions.iter().map(|f| f.name.clone().unwrap()).collect();
    assert_eq!(names, vec!["alpha", "mid", "zeta"]);
    assert_eq!(symbols.get("alpha").unwrap().to_string(), "long alpha()");
}

#[test]
fn symbols_insert_replaces_by_name() {
    let mut symbols = Symbols::new();
    let mut p = parser_of(vec![root(), subprogram(0x10, "f", true, true)]);
    let f = p.parse_subprogram(1).expect("builds");
    symbols.insert(f.clone());
    symbols.insert(f);
    assert_eq!(symbols.len(), 1);
    assert!(compare_names("a", "b") < 0);
    assert_eq!(compare_names("ab", "ab"), 0);
    assert!(compare_names("abc", "ab") > 0);
}

#[test]
fn missing_name_is_an_error() {
    let mut nameless = entry(0x10, 1, Tag::Subprogram);
    nameless.external = true;
    nameless.prototyped = true;
    assert_eq!(parse(vec![vec![root(), nameless]]).err(), Some(ParseError::MissingName(0x10)));
}

#[test]
fn out_of_order_offsets_are_an_error() {
    let unit = vec![root(), entry(0x20, 1, Tag::BaseType), entry(0x10, 1, Tag::BaseType)];
    assert_eq!(parse(vec![unit]).err(), Some(ParseError::EntryOrder));
}

#[test]
fn dangling_reference_is_an_error() {
    let unit = vec![root(), refers(subprogram(0x10, "f", true, true), 0x99)];
    assert_eq!(parse(vec![unit]).err(), Some(ParseError::BadReference(0x99)));
}

#[test]
fn malformed_reference_is_an_error() {
    let mut f = subprogram(0x10, "f", true, true);
    f.type_ref = Attr::Malformed;
    assert_eq!(parse(vec![vec![root(), f]]).err(), Some(ParseError::MalformedAttribute(0x10)));
}

#[test]
fn reference_to_a_non_type_is_an_error() {
    let unit = vec![
        root(),
        subprogram(0x10, "g", false, false),
        refers(subprogram(0x18, "f", true, true), 0x10),
    ];
    assert_eq!(parse(vec![unit]).err(), Some(ParseError::UnsupportedTag(0x10)));
}

#[test]
fn an_error_in_a_later_unit_aborts_the_parse() {
    let good = vec![root(), subprogram(0x10, "f", true, true)];
    let bad = vec![root(), refers(subprogram(0x10, "g", true, true), 0x99)];
    assert_eq!(parse(vec![good, bad]).err(), Some(ParseError::BadReference(0x99)));
}

#[test]
fn qualifiers_and_kinds_render() {
    let mut p = parser_of(vec![
        root(),
        named(entry(0x10, 1, Tag::BaseType), "int"),
        modifier(0x14, Modifier::Volatile, 0x10),
        modifier(0x18, Modifier::Restrict, 0x14),
        modifier(0x1c, Modifier::Reference, 0x18),
        named(refers(entry(0x20, 1, Tag::TypeDef), 0x10), "myint"),
        named(entry(0x24, 1, Tag::Enum), "color"),
        named(entry(0x28, 1, Tag::Union), "u"),
        named(refers(entry(0x2c, 2, Tag::Member), 0x10), "i"),
        entry(0x34, 1, Tag::Modifier(Modifier::Pointer)),
    ]);
    assert_eq!(p.parse_type(Some(0x1c)).unwrap().to_string(), "int& restrict volatile");
    let td = p.parse_type(Some(0x20)).unwrap();
    assert_eq!(td.to_string(), "myint");
    assert!(matches!(&td.value, TypedValue::Typedef(inner) if inner.name == "int"));
    assert_eq!(p.parse_type(Some(0x24)).unwrap().to_string(), "color");
    assert_eq!(p.parse_type(Some(0x28)).unwrap().to_string(), "union u");
    assert_eq!(p.parse_type(Some(0x34)).unwrap().to_string(), "void*");
    assert_eq!(p.parse_type(None).unwrap().to_string(), "void");
    assert_eq!(void_typed().to_string(), "void");
}

#[test]
fn tags_are_classified() {
    assert_eq!(tag_of(0x0f), Tag::Modifier(Modifier::Pointer));
    assert_eq!(tag_of(0x26), Tag::Modifier(Modifier::Const));
    assert_eq!(tag_of(0x2e), Tag::Subprogram);
    assert_eq!(tag_of(0x13), Tag::Struct);
    assert_eq!(tag_of(0x11), Tag::Other(0x11));
}

#[test]
fn entry_lookup_and_names() {
    let mut p = parser_of(vec![
        root(),
        named(entry(0x10, 1, Tag::BaseType), "int"),
        entry(0x18, 1, Tag::BaseType),
    ]);
    assert_eq!(p.cursor_at_offset(0x18), Some(2));
    assert_eq!(p.cursor_at_offset(0x17), None);
    assert_eq!(p.parse_tag(1), Tag::BaseType);
    assert_eq!(p.parse_name(1), Ok(Some("int".to_string())));
    assert_eq!(p.parse_name(2), Ok(None));
    assert_eq!(p.parse_type_offset(1), Ok(None));
    assert_eq!(p.parse_type(Some(0x18)).unwrap().name, "void");
}
