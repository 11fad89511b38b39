use svd_encoder::config::{
    change_case, format_number, parse_number, Config, DerivableSorting, IdentifierFormat,
    NumberFormat, Sorting,
};
use svd_encoder::encode::EncodeError;
use svd_encoder::sorting::{sort_derived_fields, sort_fields};
use svd_encoder::svd::{
    Access, ArrayInfo, EnumeratedValues, Field, ModifiedWriteValues, ReadAction, Register,
    RegisterInfo, RegisterProperties, WriteConstraint,
};
use svd_encoder::tree::{Element, XmlNode};

fn field(name: &str, offset: u32, derived_from: Option<&str>) -> Field {
    Field {
        name: name.to_string(),
        description: None,
        bit_offset: offset,
        bit_width: 1,
        enumerated_values: Vec::new(),
        derived_from: derived_from.map(|s| s.to_string()),
    }
}

fn config(sorting: DerivableSorting) -> Config {
    Config {
        register_name: IdentifierFormat::Verbatim,
        register_address_offset: NumberFormat::LowerHex,
        register_size: NumberFormat::Dec,
        register_reset_value: NumberFormat::UpperHex8,
        register_reset_mask: NumberFormat::UpperHex8,
        dim_dim_increment: NumberFormat::LowerHex,
        field_name: IdentifierFormat::Verbatim,
        field_sorting: sorting,
    }
}

fn no_properties() -> RegisterProperties {
    RegisterProperties { size: None, access: None, reset_value: None, reset_mask: None }
}

fn info(name: &str) -> RegisterInfo {
    RegisterInfo {
        name: name.to_string(),
        display_name: None,
        description: None,
        alternate_group: None,
        alternate_register: None,
        address_offset: 0x10,
        properties: no_properties(),
        modified_write_values: None,
        write_constraint: None,
        read_action: None,
        fields: None,
        derived_from: None,
    }
}

fn tag(n: &XmlNode) -> String {
    match n {
        XmlNode::Element(e) => e.name.clone(),
        XmlNode::Text(_) => String::new(),
    }
}

fn leaf_text(n: &XmlNode) -> String {
    match n {
        XmlNode::Element(e) => match &e.children[0] {
            XmlNode::Text(t) => t.clone(),
            XmlNode::Element(_) => panic!("not a leaf"),
        },
        XmlNode::Text(_) => panic!("not an element"),
    }
}

fn tags(e: &Element) -> Vec<String> {
    e.children.iter().map(tag).collect()
}

fn attr(e: &Element, key: &str) -> Option<String> {
    e.attributes.iter().find(|(k, _)| k == key).map(|(_, v)| v.clone())
}

#[test]
fn offset_sort_keeps_ties_in_order() {
    let fs = vec![field("A", 4, None), field("B", 4, None), field("C", 2, None)];
    let r = sort_derived_fields(&fs, DerivableSorting::Unchanged(Some(Sorting::Offset)));
    assert_eq!(r, vec![2, 0, 1]);
}

#[test]
fn reversed_offset_sort_keeps_ties_in_order() {
    let fs = vec![field("A", 4, None), field("B", 4, None), field("C", 2, None)];
    let r = sort_derived_fields(&fs, DerivableSorting::Unchanged(Some(Sorting::OffsetReversed)));
    assert_eq!(r, vec![0, 1, 2]);
}

#[test]
fn derive_last_puts_derived_fields_after() {
    let fs = vec![field("A", 0, None), field("B", 1, Some("X")), field("C", 2, None)];
    let r = sort_derived_fields(&fs, DerivableSorting::DeriveLast(Some(Sorting::Name)));
    assert_eq!(r, vec![0, 2, 1]);
}

#[test]
fn derive_last_counts_derived_enumerated_values() {
    let mut b = field("B", 1, None);
    b.enumerated_values.push(EnumeratedValues { name: Some("e1".to_string()), derived_from: None });
    b.enumerated_values.push(EnumeratedValues { name: None, derived_from: Some("other".to_string()) });
    let fs = vec![field("D", 0, Some("A")), b, field("A", 2, None)];
    let r = sort_derived_fields(&fs, DerivableSorting::DeriveLast(None));
    assert_eq!(r, vec![2, 0, 1]);
    let r = sort_derived_fields(&fs, DerivableSorting::DeriveLast(Some(Sorting::Name)));
    assert_eq!(r, vec![2, 1, 0]);
}

#[test]
fn name_sort_is_lexicographic_and_stable() {
    let fs = vec![
        field("b", 0, None),
        field("ab", 1, None),
        field("a", 2, None),
        field("ab", 3, None),
        field("B", 4, None),
    ];
    let r = sort_derived_fields(&fs, DerivableSorting::Unchanged(Some(Sorting::Name)));
    assert_eq!(r, vec![4, 2, 1, 3, 0]);
}

#[test]
fn unchanged_without_key_keeps_order() {
    let fs = vec![field("Z", 9, Some("Q")), field("A", 0, None), field("M", 3, None)];
    let r = sort_derived_fields(&fs, DerivableSorting::Unchanged(None));
    assert_eq!(r, vec![0, 1, 2]);
    let r = sort_derived_fields(&Vec::new(), DerivableSorting::DeriveLast(Some(Sorting::Offset)));
    assert!(r.is_empty());
}

#[test]
fn sort_fields_sorts_a_subset() {
    let fs = vec![field("A", 5, None), field("B", 1, None), field("C", 3, None)];
    let mut refs = vec![0, 2];
    sort_fields(&fs, &mut refs, Some(Sorting::Offset));
    assert_eq!(refs, vec![2, 0]);
    let mut refs = vec![0, 2, 1];
    sort_fields(&fs, &mut refs, None);
    assert_eq!(refs, vec![0, 2, 1]);
}

#[test]
fn names_equal_to_the_register_name_are_left_out() {
    let mut i = info("CTRL");
    i.display_name = Some("CTRL".to_string());
    i.description = Some("CTRL".to_string());
    i.alternate_register = Some("CTRL".to_string());
    let e = i.encode_with_config(&config(DerivableSorting::Unchanged(None))).unwrap();
    assert_eq!(tags(&e), vec!["name", "addressOffset"]);
    assert_eq!(leaf_text(&e.children[1]), "0x10");
}

#[test]
fn register_children_come_in_fixed_order() {
    let mut i = info("ctrl");
    i.display_name = Some("Control".to_string());
    i.description = Some("Control register".to_string());
    i.alternate_group = Some("grp".to_string());
    i.alternate_register = Some("ctrl_alt".to_string());
    i.properties = RegisterProperties {
        size: Some(32),
        access: Some(Access::ReadWrite),
        reset_value: Some(0x1f),
        reset_mask: Some(0xffff_ffff),
    };
    i.modified_write_values = Some(ModifiedWriteValues::OneToClear);
    i.write_constraint = Some(WriteConstraint::Range(1, 7));
    i.read_action = Some(ReadAction::ModifyExternal);
    i.fields = Some(vec![field("EN", 0, None)]);
    i.derived_from = Some("base".to_string());
    let mut c = config(DerivableSorting::Unchanged(None));
    c.register_name = IdentifierFormat::Uppercase;
    let e = i.encode_with_config(&c).unwrap();
    assert_eq!(
        tags(&e),
        vec![
            "name",
            "displayName",
            "description",
            "alternateGroup",
            "alternateRegister",
            "addressOffset",
            "size",
            "access",
            "resetValue",
            "resetMask",
            "modifiedWriteValues",
            "writeConstraint",
            "readAction",
            "fields",
        ]
    );
    assert_eq!(leaf_text(&e.children[0]), "CTRL");
    assert_eq!(leaf_text(&e.children[1]), "Control");
    assert_eq!(leaf_text(&e.children[4]), "CTRL_ALT");
    assert_eq!(leaf_text(&e.children[6]), "32");
    assert_eq!(leaf_text(&e.children[7]), "read-write");
    assert_eq!(leaf_text(&e.children[8]), "0x0000001F");
    assert_eq!(leaf_text(&e.children[9]), "0xFFFFFFFF");
    assert_eq!(leaf_text(&e.children[10]), "oneToClear");
    assert_eq!(leaf_text(&e.children[12]), "modifyExternal");
    assert_eq!(attr(&e, "derivedFrom"), Some("BASE".to_string()));
    assert_eq!(e.attributes.len(), 1);
}

#[test]
fn empty_fields_produce_no_fields_child() {
    let mut i = info("R");
    i.fields = Some(Vec::new());
    let e = i
        .encode_with_config(&config(DerivableSorting::DeriveLast(Some(Sorting::Offset))))
        .unwrap();
    assert!(!tags(&e).contains(&"fields".to_string()));
    let e = info("R").encode_with_config(&config(DerivableSorting::Unchanged(None))).unwrap();
    assert!(!tags(&e).contains(&"fields".to_string()));
}

#[test]
fn fields_child_follows_the_sort() {
    let mut i = info("R");
    i.fields = Some(vec![field("A", 4, None), field("B", 4, None), field("C", 2, None)]);
    let e = i
        .encode_with_config(&config(DerivableSorting::Unchanged(Some(Sorting::Offset))))
        .unwrap();
    let fields = match e.children.last().unwrap() {
        XmlNode::Element(f) => f,
        XmlNode::Text(_) => panic!("text"),
    };
    assert_eq!(fields.name, "fields");
    let names: Vec<String> = fields
        .children
        .iter()
        .map(|n| match n {
            XmlNode::Element(f) => leaf_text(&f.children[0]),
            XmlNode::Text(_) => String::new(),
        })
        .collect();
    assert_eq!(names, vec!["C", "A", "B"]);
}

#[test]
fn field_encoding() {
    let mut f = field("en", 3, Some("other"));
    f.description = Some("Enable".to_string());
    f.bit_width = 2;
    f.enumerated_values.push(EnumeratedValues { name: Some("vals".to_string()), derived_from: None });
    let mut c = config(DerivableSorting::Unchanged(None));
    c.field_name = IdentifierFormat::Uppercase;
    let n = f.encode_node_with_config(&c).unwrap();
    let e = match &n {
        XmlNode::Element(e) => e,
        XmlNode::Text(_) => panic!("text"),
    };
    assert_eq!(e.name, "field");
    assert_eq!(tags(e), vec!["name", "description", "bitOffset", "bitWidth", "enumeratedValues"]);
    assert_eq!(leaf_text(&e.children[0]), "EN");
    assert_eq!(leaf_text(&e.children[2]), "3");
    assert_eq!(leaf_text(&e.children[3]), "2");
    assert_eq!(attr(e, "derivedFrom"), Some("OTHER".to_string()));
}

#[test]
fn zero_width_field_fails() {
    let mut f = field("X", 0, None);
    f.bit_width = 0;
    let c = config(DerivableSorting::Unchanged(None));
    assert_eq!(f.encode_node_with_config(&c).unwrap_err(), EncodeError::ZeroBitWidth);
    let mut i = info("R");
    i.fields = Some(vec![field("A", 0, None), f]);
    assert_eq!(i.encode_with_config(&c).unwrap_err(), EncodeError::ZeroBitWidth);
}

#[test]
fn inverted_range_fails_first() {
    let mut f = field("X", 0, None);
    f.bit_width = 0;
    let mut i = info("R");
    i.write_constraint = Some(WriteConstraint::Range(9, 2));
    i.fields = Some(vec![f]);
    let c = config(DerivableSorting::Unchanged(None));
    assert_eq!(i.encode_with_config(&c).unwrap_err(), EncodeError::InvalidRange);
    assert_eq!(
        Register::Array(i, ArrayInfo { dim: 2, dim_increment: 4, dim_name: None })
            .encode_with_config(&c)
            .unwrap_err(),
        EncodeError::InvalidRange
    );
}

#[test]
fn array_register_merges_dimension_first() {
    let mut i = info("R%s");
    i.derived_from = Some("Q".to_string());
    let a = ArrayInfo { dim: 4, dim_increment: 8, dim_name: Some("idx".to_string()) };
    let c = config(DerivableSorting::Unchanged(None));
    let e = Register::Array(i.clone(), a).encode_with_config(&c).unwrap();
    assert_eq!(e.name, "register");
    assert_eq!(tags(&e), vec!["dim", "dimIncrement", "dimName", "name", "addressOffset"]);
    assert_eq!(leaf_text(&e.children[1]), "0x8");
    assert_eq!(attr(&e, "derivedFrom"), Some("Q".to_string()));
    let single = Register::Single(i.clone()).encode_with_config(&c).unwrap();
    assert_eq!(tags(&single), vec!["name", "addressOffset"]);
}

#[test]
fn merge_overrides_attributes_and_appends_children() {
    let mut base = Element::new("register");
    base.set_attribute("k".to_string(), "array".to_string());
    base.set_attribute("only".to_string(), "1".to_string());
    base.children.push(XmlNode::Text("first".to_string()));
    let mut other = Element::new("x");
    other.set_attribute("k".to_string(), "info".to_string());
    other.children.push(XmlNode::Text("second".to_string()));
    base.merge(other);
    assert_eq!(attr(&base, "k"), Some("info".to_string()));
    assert_eq!(attr(&base, "only"), Some("1".to_string()));
    assert_eq!(base.attributes.len(), 2);
    assert_eq!(base.name, "register");
    assert_eq!(base.children.len(), 2);
    assert!(matches!(&base.children[1], XmlNode::Text(t) if t == "second"));
}

#[test]
fn write_constraint_encoding() {
    let n = WriteConstraint::Range(1, 12).encode_node().unwrap();
    let e = match &n {
        XmlNode::Element(e) => e,
        XmlNode::Text(_) => panic!("text"),
    };
    assert_eq!(e.name, "writeConstraint");
    let r = match &e.children[0] {
        XmlNode::Element(r) => r,
        XmlNode::Text(_) => panic!("text"),
    };
    assert_eq!(tags(r), vec!["minimum", "maximum"]);
    assert_eq!(leaf_text(&r.children[1]), "12");
    let n = WriteConstraint::WriteAsRead(true).encode_node().unwrap();
    match &n {
        XmlNode::Element(e) => assert_eq!(leaf_text(&e.children[0]), "true"),
        XmlNode::Text(_) => panic!("text"),
    }
}

#[test]
fn number_formats() {
    assert_eq!(format_number(0, NumberFormat::Dec), "0");
    assert_eq!(format_number(1234, NumberFormat::Dec), "1234");
    assert_eq!(format_number(255, NumberFormat::LowerHex), "0xff");
    assert_eq!(format_number(255, NumberFormat::UpperHex), "0xFF");
    assert_eq!(format_number(0xab, NumberFormat::LowerHex8), "0x000000ab");
    assert_eq!(format_number(0x1_0000_0000, NumberFormat::UpperHex8), "0x100000000");
    assert_eq!(format_number(u64::MAX, NumberFormat::Dec), "18446744073709551615");
}

#[test]
fn numbers_read_back() {
    let formats = [
        NumberFormat::Dec,
        NumberFormat::LowerHex,
        NumberFormat::UpperHex,
        NumberFormat::LowerHex8,
        NumberFormat::UpperHex8,
    ];
    for f in formats {
        for v in [0u64, 7, 10, 255, 0xdead_beef, u64::MAX] {
            assert_eq!(parse_number(&format_number(v, f)), Some(v));
        }
    }
}

#[test]
fn parse_rejects_bad_text() {
    assert_eq!(parse_number(""), None);
    assert_eq!(parse_number("0x"), None);
    assert_eq!(parse_number("12a"), None);
    assert_eq!(parse_number("0xfg"), None);
    assert_eq!(parse_number("18446744073709551616"), None);
    assert_eq!(parse_number("0x10000000000000000"), None);
    assert_eq!(parse_number("0XfF"), Some(255));
    assert_eq!(parse_number("007"), Some(7));
}

#[test]
fn case_conversion() {
    assert_eq!(change_case("Gpio_Ctrl1", IdentifierFormat::Uppercase), "GPIO_CTRL1");
    assert_eq!(change_case("Gpio_Ctrl1", IdentifierFormat::Lowercase), "gpio_ctrl1");
    assert_eq!(change_case("Gpio_Ctrl1", IdentifierFormat::Verbatim), "Gpio_Ctrl1");
    let once = change_case("aBc", IdentifierFormat::Uppercase);
    assert_eq!(change_case(&once, IdentifierFormat::Uppercase), once);
}

#[test]
fn field_bit_offset_getter() {
    assert_eq!(field("A", 17, None).bit_offset(), 17);
}
