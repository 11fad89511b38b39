//! Encoders from the register description to the output tree.
use vstd::prelude::*;
use vstd::string::*;

use crate::config::{
    Config, IdentifierFormat, NumberFormat, case_of, change_case, format_number, number_text,
};
use crate::sorting::{field_order, sort_derived_fields};
use crate::svd::{
    Access, ArrayInfo, EnumeratedValues, Field, ModifiedWriteValues, ReadAction, Register,
    RegisterInfo, RegisterProperties, WriteConstraint,
};
use crate::tree::{
    Element, Part, XmlNode, fits, is_plain_element, leaf_part, lemma_fits_append, lemma_fits_push,
    tag_of, part_if,
};

verus! {

/// Why a description could not be encoded.
#[derive(Clone, Copy, Debug, PartialEq, Eq)]
pub enum EncodeError {
    /// A write constraint whose range ends below its start.
    InvalidRange,
    /// A field that is zero bits wide.
    ZeroBitWidth,
}

pub open spec fn bool_text(b: bool) -> Seq<char> {
    if b {
        "true"@
    } else {
        "false"@
    }
}

pub open spec fn access_text(a: Access) -> Seq<char> {
    match a {
        Access::ReadOnly => "read-only"@,
        Access::WriteOnly => "write-only"@,
        Access::ReadWrite => "read-write"@,
        Access::WriteOnce => "writeOnce"@,
        Access::ReadWriteOnce => "read-writeOnce"@,
    }
}

pub open spec fn modified_write_values_text(m: ModifiedWriteValues) -> Seq<char> {
    match m {
        ModifiedWriteValues::OneToClear => "oneToClear"@,
        ModifiedWriteValues::OneToSet => "oneToSet"@,
        ModifiedWriteValues::OneToToggle => "oneToToggle"@,
        ModifiedWriteValues::ZeroToClear => "zeroToClear"@,
        ModifiedWriteValues::ZeroToSet => "zeroToSet"@,
        ModifiedWriteValues::ZeroToToggle => "zeroToToggle"@,
        ModifiedWriteValues::Clear => "clear"@,
        ModifiedWriteValues::SetAll => "set"@,
        ModifiedWriteValues::Modify => "modify"@,
    }
}

pub open spec fn read_action_text(a: ReadAction) -> Seq<char> {
    match a {
        ReadAction::Clear => "clear"@,
        ReadAction::SetAll => "set"@,
        ReadAction::Modify => "modify"@,
        ReadAction::ModifyExternal => "modifyExternal"@,
    }
}

fn bool_str(b: bool) -> (r: &'static str)
    ensures
        r@ == bool_text(b),
{
    if b {
        "true"
    } else {
        "false"
    }
}

fn access_str(a: Access) -> (r: &'static str)
    ensures
        r@ == access_text(a),
{
    match a {
        Access::ReadOnly => "read-only",
        Access::WriteOnly => "write-only",
        Access::ReadWrite => "read-write",
        Access::WriteOnce => "writeOnce",
        Access::ReadWriteOnce => "read-writeOnce",
    }
}

fn modified_write_values_str(m: ModifiedWriteValues) -> (r: &'static str)
    ensures
        r@ == modified_write_values_text(m),
{
    match m {
        ModifiedWriteValues::OneToClear => "oneToClear",
        ModifiedWriteValues::OneToSet => "oneToSet",
        ModifiedWriteValues::OneToToggle => "oneToToggle",
        ModifiedWriteValues::ZeroToClear => "zeroToClear",
        ModifiedWriteValues::ZeroToSet => "zeroToSet",
        ModifiedWriteValues::ZeroToToggle => "zeroToToggle",
        ModifiedWriteValues::Clear => "clear",
        ModifiedWriteValues::SetAll => "set",
        ModifiedWriteValues::Modify => "modify",
    }
}

fn read_action_str(a: ReadAction) -> (r: &'static str)
    ensures
        r@ == read_action_text(a),
{
    match a {
        ReadAction::Clear => "clear",
        ReadAction::SetAll => "set",
        ReadAction::Modify => "modify",
        ReadAction::ModifyExternal => "modifyExternal",
    }
}

/// Appends an element tagged `tag` holding the text `text`.
fn push_leaf(v: &mut Vec<XmlNode>, tag: &str, text: String, sh: Ghost<Seq<Part>>)
    requires
        fits(old(v)@, sh@),
    ensures
        fits(final(v)@, sh@.push(leaf_part(tag@, text@))),
{
    let n = XmlNode::leaf(tag, text);
    proof {
        lemma_fits_push(v@, sh@, n, leaf_part(tag@, text@));
    }
    v.push(n);
}

/// The attributes of an element that derives from `d`, the name converted by `f`.
pub open spec fn derived_attrs(d: Option<String>, f: IdentifierFormat) -> Map<Seq<char>, Seq<char>> {
    match d {
        Some(x) => Map::<Seq<char>, Seq<char>>::empty().insert("derivedFrom"@, case_of(x@, f)),
        None => Map::empty(),
    }
}

/// `n` is an element tagged `tag` with the attributes `attrs`, whose
/// children are as `sh` describes.
pub open spec fn element_is(
    n: XmlNode,
    tag: Seq<char>,
    attrs: Map<Seq<char>, Seq<char>>,
    sh: Seq<Part>,
) -> bool {
    match n {
        XmlNode::Element(e) => e.name@ == tag && e.wf() && e.attrs() == attrs && fits(e.children@, sh),
        XmlNode::Text(_) => false,
    }
}

// ---------------------------------------------------------------- properties

/// The children that the shared register properties contribute.
pub open spec fn properties_parts(p: RegisterProperties, c: Config) -> Seq<Part> {
    part_if(p.size is Some, leaf_part("size"@, number_text(p.size.unwrap() as nat, c.register_size)))
        + part_if(p.access is Some, leaf_part("access"@, access_text(p.access.unwrap())))
        + part_if(
        p.reset_value is Some,
        leaf_part("resetValue"@, number_text(p.reset_value.unwrap() as nat, c.register_reset_value)),
    ) + part_if(
        p.reset_mask is Some,
        leaf_part("resetMask"@, number_text(p.reset_mask.unwrap() as nat, c.register_reset_mask)),
    )
}

impl RegisterProperties {
    /// The children for the properties that are present, in the order size,
    /// access, reset value, reset mask.
    pub fn encode_with_config(&self, config: &Config) -> (r: Vec<XmlNode>)
        ensures
            fits(r@, properties_parts(*self, *config)),
    {
        let mut v: Vec<XmlNode> = Vec::new();
        let ghost mut sh: Seq<Part> = Seq::empty();
        if let Some(x) = self.size {
            let t = format_number(x as u64, config.register_size);
            push_leaf(&mut v, "size", t, Ghost(sh));
            proof {
                sh = sh.push(leaf_part("size"@, t@));
            }
        }
        if let Some(x) = self.access {
            let t = String::from_str(access_str(x));
            push_leaf(&mut v, "access", t, Ghost(sh));
            proof {
                sh = sh.push(leaf_part("access"@, t@));
            }
        }
        if let Some(x) = self.reset_value {
            let t = format_number(x, config.register_reset_value);
            push_leaf(&mut v, "resetValue", t, Ghost(sh));
            proof {
                sh = sh.push(leaf_part("resetValue"@, t@));
            }
        }
        if let Some(x) = self.reset_mask {
            let t = format_number(x, config.register_reset_mask);
            push_leaf(&mut v, "resetMask", t, Ghost(sh));
            proof {
                sh = sh.push(leaf_part("resetMask"@, t@));
            }
        }
        assert(sh =~= properties_parts(*self, *config));
        v
    }
}

// ---------------------------------------------------------------- write constraint

/// A range constraint must not end below its start.
pub open spec fn write_constraint_valid(w: WriteConstraint) -> bool {
    match w {
        WriteConstraint::Range(lo, hi) => lo <= hi,
        _ => true,
    }
}

pub open spec fn write_constraint_parts(w: WriteConstraint) -> Seq<Part> {
    match w {
        WriteConstraint::WriteAsRead(b) => seq![leaf_part("writeAsRead"@, bool_text(b))],
        WriteConstraint::UseEnumeratedValues(b) => seq![leaf_part("useEnumeratedValues"@, bool_text(b))],
        WriteConstraint::Range(lo, hi) => seq![
            (
                "range"@,
                |n: XmlNode|
                    is_plain_element(
                        n,
                        "range"@,
                        seq![
                            leaf_part("minimum"@, number_text(lo as nat, NumberFormat::Dec)),
                            leaf_part("maximum"@, number_text(hi as nat, NumberFormat::Dec)),
                        ],
                    ),
            ),
        ],
    }
}

/// The `writeConstraint` child for `w`.
pub open spec fn write_constraint_part(w: WriteConstraint) -> Part {
    (
        "writeConstraint"@,
        |n: XmlNode| is_plain_element(n, "writeConstraint"@, write_constraint_parts(w)),
    )
}

impl WriteConstraint {
    /// The `writeConstraint` element; fails on a range that ends below its start.
    pub fn encode_node(&self) -> (r: Result<XmlNode, EncodeError>)
        ensures
            match r {
                Ok(n) => write_constraint_valid(*self) && tag_of(n) == write_constraint_part(*self).0
                    && (write_constraint_part(*self).1)(n),
                Err(e) => !write_constraint_valid(*self) && e == EncodeError::InvalidRange,
            },
    {
        let mut e = Element::new("writeConstraint");
        match *self {
            WriteConstraint::WriteAsRead(b) => {
                push_leaf(&mut e.children, "writeAsRead", String::from_str(bool_str(b)), Ghost(Seq::empty()));
            },
            WriteConstraint::UseEnumeratedValues(b) => {
                push_leaf(
                    &mut e.children,
                    "useEnumeratedValues",
                    String::from_str(bool_str(b)),
                    Ghost(Seq::empty()),
                );
            },
            WriteConstraint::Range(lo, hi) => {
                if lo > hi {
                    return Err(EncodeError::InvalidRange);
                }
                let mut range = Element::new("range");
                let t1 = format_number(lo, NumberFormat::Dec);
                push_leaf(&mut range.children, "minimum", t1, Ghost(Seq::empty()));
                let t2 = format_number(hi, NumberFormat::Dec);
                let ghost s1 = seq![leaf_part("minimum"@, t1@)];
                assert(Seq::<Part>::empty().push(leaf_part("minimum"@, t1@)) =~= s1);
                push_leaf(&mut range.children, "maximum", t2, Ghost(s1));
                let n = XmlNode::Element(range);
                let ghost p = write_constraint_parts(*self)[0];
                assert(seq![leaf_part("minimum"@, t1@)].push(leaf_part("maximum"@, t2@)) =~= seq![
                    leaf_part("minimum"@, t1@),
                    leaf_part("maximum"@, t2@),
                ]);
                assert((p.1)(n));
                proof {
                    lemma_fits_push(e.children@, Seq::empty(), n, p);
                }
                e.children.push(n);
                assert(Seq::<Part>::empty().push(p) =~= write_constraint_parts(*self));
            },
        }
        Ok(XmlNode::Element(e))
    }
}

// ---------------------------------------------------------------- enumerated values

/// The `enumeratedValues` child for `ev`.
pub open spec fn enumerated_values_part(ev: EnumeratedValues) -> Part {
    (
        "enumeratedValues"@,
        |n: XmlNode|
            element_is(
                n,
                "enumeratedValues"@,
                derived_attrs(ev.derived_from, IdentifierFormat::Verbatim),
                part_if(ev.name is Some, leaf_part("name"@, ev.name.unwrap()@)),
            ),
    )
}

impl EnumeratedValues {
    /// The `enumeratedValues` element: its name if it has one, and the set it
    /// derives from as an attribute.
    pub fn encode_node(&self) -> (r: XmlNode)
        ensures
            tag_of(r) == enumerated_values_part(*self).0,
            (enumerated_values_part(*self).1)(r),
    {
        let mut e = Element::new("enumeratedValues");
        if let Some(name) = &self.name {
            push_leaf(&mut e.children, "name", name.clone(), Ghost(Seq::empty()));
        }
        assert(e.children@.len() == 0 ==> e.children@ =~= Seq::empty());
        if let Some(d) = &self.derived_from {
            e.set_attribute(String::from_str("derivedFrom"), change_case(d.as_str(), IdentifierFormat::Verbatim));
        }
        assert(e.attrs() =~= derived_attrs(self.derived_from, IdentifierFormat::Verbatim));
        XmlNode::Element(e)
    }
}

// ---------------------------------------------------------------- field

/// A field must be at least one bit wide.
pub open spec fn field_valid(f: Field) -> bool {
    f.bit_width > 0
}

pub open spec fn field_parts(f: Field, c: Config) -> Seq<Part> {
    seq![leaf_part("name"@, case_of(f.name@, c.field_name))]
        + part_if(f.description is Some, leaf_part("description"@, f.description.unwrap()@))
        + seq![
        leaf_part("bitOffset"@, number_text(f.bit_offset as nat, NumberFormat::Dec)),
        leaf_part("bitWidth"@, number_text(f.bit_width as nat, NumberFormat::Dec)),
    ] + f.enumerated_values@.map_values(|ev: EnumeratedValues| enumerated_values_part(ev))
}

/// The `field` child for `f`.
pub open spec fn field_part(f: Field, c: Config) -> Part {
    (
        "field"@,
        |n: XmlNode| element_is(n, "field"@, derived_attrs(f.derived_from, c.field_name), field_parts(f, c)),
    )
}

impl Field {
    /// The `field` element: name, description, bit offset and width, the
    /// sets of enumerated values, and the field it derives from as an
    /// attribute. Fails on a field that is zero bits wide.
    pub fn encode_node_with_config(&self, config: &Config) -> (r: Result<XmlNode, EncodeError>)
        ensures
            match r {
                Ok(n) => field_valid(*self) && tag_of(n) == field_part(*self, *config).0
                    && (field_part(*self, *config).1)(n),
                Err(e) => !field_valid(*self) && e == EncodeError::ZeroBitWidth,
            },
    {
        if self.bit_width == 0 {
            return Err(EncodeError::ZeroBitWidth);
        }
        let mut e = Element::new("field");
        let t = change_case(self.name.as_str(), config.field_name);
        push_leaf(&mut e.children, "name", t, Ghost(Seq::empty()));
        let ghost mut sh: Seq<Part> = seq![leaf_part("name"@, t@)];
        assert(Seq::<Part>::empty().push(leaf_part("name"@, t@)) =~= sh);
        if let Some(d) = &self.description {
            push_leaf(&mut e.children, "description", d.clone(), Ghost(sh));
            proof {
                sh = sh.push(leaf_part("description"@, d@));
            }
        }
        let t = format_number(self.bit_offset as u64, NumberFormat::Dec);
        push_leaf(&mut e.children, "bitOffset", t, Ghost(sh));
        proof {
            sh = sh.push(leaf_part("bitOffset"@, t@));
        }
        let t = format_number(self.bit_width as u64, NumberFormat::Dec);
        push_leaf(&mut e.children, "bitWidth", t, Ghost(sh));
        proof {
            sh = sh.push(leaf_part("bitWidth"@, t@));
        }
        let ghost head = sh;
        let m = self.enumerated_values.len();
        let mut j: usize = 0;
        while j < m
            invariant
                m == self.enumerated_values@.len(),
                j <= m,
                e.wf(),
                e.name@ == "field"@,
                e.attributes@.len() == 0,
                fits(
                    e.children@,
                    head + self.enumerated_values@.subrange(0, j as int).map_values(
                        |ev: EnumeratedValues| enumerated_values_part(ev),
                    ),
                ),
            decreases m - j,
        {
            let n = self.enumerated_values[j].encode_node();
            let ghost before = head + self.enumerated_values@.subrange(0, j as int).map_values(
                |ev: EnumeratedValues| enumerated_values_part(ev),
            );
            proof {
                lemma_fits_push(e.children@, before, n, enumerated_values_part(self.enumerated_values@[j as int]));
            }
            e.children.push(n);
            j = j + 1;
            assert(before.push(enumerated_values_part(self.enumerated_values@[j - 1])) =~= head
                + self.enumerated_values@.subrange(0, j as int).map_values(
                |ev: EnumeratedValues| enumerated_values_part(ev),
            ));
        }
        assert(self.enumerated_values@.subrange(0, m as int) =~= self.enumerated_values@);
        assert(head + self.enumerated_values@.map_values(|ev: EnumeratedValues| enumerated_values_part(ev))
            =~= field_parts(*self, *config));
        assert(e.attrs() =~= Map::empty());
        if let Some(d) = &self.derived_from {
            e.set_attribute(String::from_str("derivedFrom"), change_case(d.as_str(), config.field_name));
        }
        assert(e.attrs() =~= derived_attrs(self.derived_from, config.field_name));
        Ok(XmlNode::Element(e))
    }
}

// ---------------------------------------------------------------- array

pub open spec fn array_parts(a: ArrayInfo, c: Config) -> Seq<Part> {
    seq![
        leaf_part("dim"@, number_text(a.dim as nat, NumberFormat::Dec)),
        leaf_part("dimIncrement"@, number_text(a.dim_increment as nat, c.dim_dim_increment)),
    ] + part_if(a.dim_name is Some, leaf_part("dimName"@, a.dim_name.unwrap()@))
}

/// `e` is the encoding of the array dimension `a`.
pub open spec fn array_info_ok(e: Element, a: ArrayInfo, c: Config) -> bool {
    &&& e.name@ == "dimElement"@
    &&& e.wf()
    &&& e.attrs() == Map::<Seq<char>, Seq<char>>::empty()
    &&& fits(e.children@, array_parts(a, c))
}

impl ArrayInfo {
    /// The `dimElement` element: dimension, increment and name.
    pub fn encode_with_config(&self, config: &Config) -> (r: Element)
        ensures
            array_info_ok(r, *self, *config),
    {
        let mut e = Element::new("dimElement");
        let t = format_number(self.dim as u64, NumberFormat::Dec);
        push_leaf(&mut e.children, "dim", t, Ghost(Seq::empty()));
        let ghost mut sh: Seq<Part> = seq![leaf_part("dim"@, t@)];
        assert(Seq::<Part>::empty().push(leaf_part("dim"@, t@)) =~= sh);
        let t = format_number(self.dim_increment as u64, config.dim_dim_increment);
        push_leaf(&mut e.children, "dimIncrement", t, Ghost(sh));
        proof {
            sh = sh.push(leaf_part("dimIncrement"@, t@));
        }
        if let Some(d) = &self.dim_name {
            push_leaf(&mut e.children, "dimName", d.clone(), Ghost(sh));
            proof {
                sh = sh.push(leaf_part("dimName"@, d@));
            }
        }
        assert(sh =~= array_parts(*self, *config));
        assert(e.attrs() =~= Map::empty());
        e
    }
}

// ---------------------------------------------------------------- register

/// The error that encoding `i` ends in, if any: a bad write constraint is
/// met before a bad field.
pub open spec fn register_error(i: RegisterInfo) -> Option<EncodeError> {
    if i.write_constraint is Some && !write_constraint_valid(i.write_constraint.unwrap()) {
        Some(EncodeError::InvalidRange)
    } else if i.fields is Some && exists|k: int|
        0 <= k < i.fields.unwrap()@.len() && !field_valid(#[trigger] i.fields.unwrap()@[k]) {
        Some(EncodeError::ZeroBitWidth)
    } else {
        None
    }
}

/// The `fields` child: the fields of `fs` in the order `order`.
pub open spec fn fields_part(fs: Seq<Field>, c: Config, order: Seq<usize>) -> Part {
    (
        "fields"@,
        |n: XmlNode|
            is_plain_element(n, "fields"@, order.map_values(|k: usize| field_part(fs[k as int], c))),
    )
}

/// The children of a register up to its properties.
pub open spec fn register_head_parts(i: RegisterInfo, c: Config) -> Seq<Part> {
    seq![leaf_part("name"@, case_of(i.name@, c.register_name))]
        + part_if(
        i.display_name is Some && i.display_name.unwrap()@ != i.name@,
        leaf_part("displayName"@, i.display_name.unwrap()@),
    ) + part_if(
        i.description is Some && i.description.unwrap()@ != i.name@,
        leaf_part("description"@, i.description.unwrap()@),
    ) + part_if(
        i.alternate_group is Some,
        leaf_part("alternateGroup"@, i.alternate_group.unwrap()@),
    ) + part_if(
        i.alternate_register is Some && i.alternate_register.unwrap()@ != i.name@,
        leaf_part("alternateRegister"@, case_of(i.alternate_register.unwrap()@, c.register_name)),
    ) + seq![leaf_part("addressOffset"@, number_text(i.address_offset as nat, c.register_address_offset))]
        + properties_parts(i.properties, c)
}

/// The children of a register after its properties, with its fields in the
/// order `order`.
pub open spec fn register_tail_parts(i: RegisterInfo, c: Config, order: Seq<usize>) -> Seq<Part> {
    part_if(
        i.modified_write_values is Some,
        leaf_part("modifiedWriteValues"@, modified_write_values_text(i.modified_write_values.unwrap())),
    ) + part_if(i.write_constraint is Some, write_constraint_part(i.write_constraint.unwrap()))
        + part_if(i.read_action is Some, leaf_part("readAction"@, read_action_text(i.read_action.unwrap())))
        + part_if(
        i.fields is Some && i.fields.unwrap()@.len() > 0,
        fields_part(i.fields.unwrap()@, c, order),
    )
}

/// The children of a register, with its fields in the order `order`.
pub open spec fn register_parts(i: RegisterInfo, c: Config, order: Seq<usize>) -> Seq<Part> {
    register_head_parts(i, c) + register_tail_parts(i, c, order)
}

/// `e` is the encoding of the register `i`.
pub open spec fn register_info_ok(e: Element, i: RegisterInfo, c: Config) -> bool {
    &&& e.name@ == "register"@
    &&& e.wf()
    &&& e.attrs() == derived_attrs(i.derived_from, c.register_name)
    &&& match i.fields {
        Some(fs) => exists|order: Seq<usize>|
            field_order(fs@, c.field_sorting, order) && fits(e.children@, register_parts(i, c, order)),
        None => fits(e.children@, register_parts(i, c, Seq::empty())),
    }
}

/// Encodes the fields of `v` in the order `order`.
fn encode_fields(v: &Vec<Field>, order: &Vec<usize>, config: &Config) -> (r: Result<Vec<XmlNode>, EncodeError>)
    requires
        forall|k: int| 0 <= k < order@.len() ==> #[trigger] order@[k] < v@.len(),
        forall|k: int| 0 <= k < v@.len() ==> field_valid(#[trigger] v@[k]),
    ensures
        match r {
            Ok(ns) => fits(ns@, order@.map_values(|k: usize| field_part(v@[k as int], *config))),
            Err(_) => false,
        },
{
    let mut ns: Vec<XmlNode> = Vec::new();
    let n = order.len();
    let mut j: usize = 0;
    while j < n
        invariant
            n == order@.len(),
            j <= n,
            forall|k: int| 0 <= k < order@.len() ==> #[trigger] order@[k] < v@.len(),
            forall|k: int| 0 <= k < v@.len() ==> field_valid(#[trigger] v@[k]),
            fits(ns@, order@.subrange(0, j as int).map_values(|k: usize| field_part(v@[k as int], *config))),
        decreases n - j,
    {
        let ghost before = order@.subrange(0, j as int).map_values(
            |k: usize| field_part(v@[k as int], *config),
        );
        let idx = order[j];
        let node = match v[idx].encode_node_with_config(config) {
            Ok(x) => x,
            Err(e) => {
                return Err(e);
            },
        };
        proof {
            lemma_fits_push(ns@, before, node, field_part(v@[idx as int], *config));
        }
        ns.push(node);
        j = j + 1;
        assert(before.push(field_part(v@[idx as int], *config)) =~= order@.subrange(0, j as int).map_values(
            |k: usize| field_part(v@[k as int], *config),
        ));
    }
    assert(order@.subrange(0, n as int) =~= order@);
    Ok(ns)
}

/// Checks every field of `v`; fails on the first that is zero bits wide.
fn check_fields(v: &Vec<Field>) -> (r: Result<(), EncodeError>)
    ensures
        match r {
            Ok(_) => forall|k: int| 0 <= k < v@.len() ==> field_valid(#[trigger] v@[k]),
            Err(e) => e == EncodeError::ZeroBitWidth && exists|k: int|
                0 <= k < v@.len() && !field_valid(#[trigger] v@[k]),
        },
{
    let n = v.len();
    let mut j: usize = 0;
    while j < n
        invariant
            n == v@.len(),
            j <= n,
            forall|k: int| 0 <= k < j ==> field_valid(#[trigger] v@[k]),
        decreases n - j,
    {
        if v[j].bit_width == 0 {
            assert(!field_valid(v@[j as int]));
            return Err(EncodeError::ZeroBitWidth);
        }
        j = j + 1;
    }
    Ok(())
}

impl RegisterInfo {
    /// Appends the children up to the properties.
    fn encode_head(&self, config: &Config, elem: &mut Element)
        requires
            old(elem).children@.len() == 0,
        ensures
            fits(final(elem).children@, register_head_parts(*self, *config)),
            final(elem).name == old(elem).name,
            final(elem).attributes == old(elem).attributes,
    {
        let t = change_case(self.name.as_str(), config.register_name);
        assert(elem.children@ =~= Seq::empty());
        push_leaf(&mut elem.children, "name", t, Ghost(Seq::empty()));
        let ghost mut sh: Seq<Part> = seq![leaf_part("name"@, t@)];
        assert(Seq::<Part>::empty().push(leaf_part("name"@, t@)) =~= sh);
        if let Some(v) = &self.display_name {
            if *v != self.name {
                push_leaf(&mut elem.children, "displayName", v.clone(), Ghost(sh));
                proof {
                    sh = sh.push(leaf_part("displayName"@, v@));
                }
            }
        }
        if let Some(v) = &self.description {
            if *v != self.name {
                push_leaf(&mut elem.children, "description", v.clone(), Ghost(sh));
                proof {
                    sh = sh.push(leaf_part("description"@, v@));
                }
            }
        }
        if let Some(v) = &self.alternate_group {
            push_leaf(&mut elem.children, "alternateGroup", v.clone(), Ghost(sh));
            proof {
                sh = sh.push(leaf_part("alternateGroup"@, v@));
            }
        }
        if let Some(v) = &self.alternate_register {
            if *v != self.name {
                let t = change_case(v.as_str(), config.register_name);
                push_leaf(&mut elem.children, "alternateRegister", t, Ghost(sh));
                proof {
                    sh = sh.push(leaf_part("alternateRegister"@, t@));
                }
            }
        }
        let t = format_number(self.address_offset as u64, config.register_address_offset);
        push_leaf(&mut elem.children, "addressOffset", t, Ghost(sh));
        proof {
            sh = sh.push(leaf_part("addressOffset"@, t@));
        }
        let mut props = self.properties.encode_with_config(config);
        proof {
            lemma_fits_append(elem.children@, sh, props@, properties_parts(self.properties, *config));
            sh = sh + properties_parts(self.properties, *config);
        }
        elem.children.append(&mut props);
        assert(sh =~= register_head_parts(*self, *config));
    }

    /// Appends the `fields` child, unless there are no fields.
    fn encode_fields_child(&self, v: &Vec<Field>, config: &Config, elem: &mut Element, sh: Ghost<Seq<Part>>)
        -> (r: Result<Ghost<Seq<usize>>, EncodeError>)
        requires
            fits(old(elem).children@, sh@),
        ensures
            final(elem).name == old(elem).name,
            final(elem).attributes == old(elem).attributes,
            match r {
                Ok(order) => {
                    &&& forall|k: int| 0 <= k < v@.len() ==> field_valid(#[trigger] v@[k])
                    &&& field_order(v@, config.field_sorting, order@)
                    &&& fits(
                        final(elem).children@,
                        sh@ + part_if(v@.len() > 0, fields_part(v@, *config, order@)),
                    )
                },
                Err(e) => e == EncodeError::ZeroBitWidth && exists|k: int|
                    0 <= k < v@.len() && !field_valid(#[trigger] v@[k]),
            },
    {
        match check_fields(v) {
            Ok(_) => {},
            Err(e) => {
                return Err(e);
            },
        }
        let refs = sort_derived_fields(v, config.field_sorting);
        let children = match encode_fields(v, &refs, config) {
            Ok(c) => c,
            Err(e) => {
                return Err(e);
            },
        };
        let ghost order = refs@;
        if children.len() > 0 {
            let mut fields = Element::new("fields");
            fields.children = children;
            let n = XmlNode::Element(fields);
            proof {
                lemma_fits_push(elem.children@, sh@, n, fields_part(v@, *config, order));
            }
            elem.children.push(n);
            assert(sh@.push(fields_part(v@, *config, order)) =~= sh@ + part_if(v@.len() > 0, fields_part(v@, *config, order)));
        } else {
            assert(sh@ =~= sh@ + part_if(v@.len() > 0, fields_part(v@, *config, order)));
        }
        Ok(Ghost(order))
    }

    /// Appends the children after the properties.
    fn encode_tail(&self, config: &Config, elem: &mut Element, sh: Ghost<Seq<Part>>)
        -> (r: Result<Ghost<Seq<usize>>, EncodeError>)
        requires
            fits(old(elem).children@, sh@),
        ensures
            final(elem).name == old(elem).name,
            final(elem).attributes == old(elem).attributes,
            match r {
                Ok(order) => {
                    &&& register_error(*self) is None
                    &&& fits(final(elem).children@, sh@ + register_tail_parts(*self, *config, order@))
                    &&& match self.fields {
                        Some(fs) => field_order(fs@, config.field_sorting, order@),
                        None => order@ == Seq::<usize>::empty(),
                    }
                },
                Err(err) => register_error(*self) == Some(err),
            },
    {
        let ghost mut t: Seq<Part> = sh@;
        if let Some(v) = self.modified_write_values {
            let x = String::from_str(modified_write_values_str(v));
            push_leaf(&mut elem.children, "modifiedWriteValues", x, Ghost(t));
            proof {
                t = t.push(leaf_part("modifiedWriteValues"@, x@));
            }
        }
        if let Some(v) = self.write_constraint {
            let n = match v.encode_node() {
                Ok(n) => n,
                Err(e) => {
                    return Err(e);
                },
            };
            proof {
                lemma_fits_push(elem.children@, t, n, write_constraint_part(v));
                t = t.push(write_constraint_part(v));
            }
            elem.children.push(n);
        }
        if let Some(v) = self.read_action {
            let x = String::from_str(read_action_str(v));
            push_leaf(&mut elem.children, "readAction", x, Ghost(t));
            proof {
                t = t.push(leaf_part("readAction"@, x@));
            }
        }
        let ghost mut order: Seq<usize> = Seq::empty();
        if let Some(v) = &self.fields {
            match self.encode_fields_child(v, config, elem, Ghost(t)) {
                Ok(o) => {
                    proof {
                        order = o@;
                        t = t + part_if(v@.len() > 0, fields_part(v@, *config, order));
                    }
                },
                Err(e) => {
                    return Err(e);
                },
            }
        }
        assert(t =~= sh@ + register_tail_parts(*self, *config, order));
        Ok(Ghost(order))
    }

    /// The `register` element: its children in the fixed order name, display
    /// name, description, alternate group, alternate register, address
    /// offset, properties, modified write values, write constraint, read
    /// action, fields; a display name, description or alternate register
    /// equal to the name is left out, and so is an empty `fields` element.
    /// The register it derives from is an attribute.
    pub fn encode_with_config(&self, config: &Config) -> (r: Result<Element, EncodeError>)
        ensures
            match r {
                Ok(e) => register_error(*self) is None && register_info_ok(e, *self, *config),
                Err(err) => register_error(*self) == Some(err),
            },
    {
        let mut elem = Element::new("register");
        self.encode_head(config, &mut elem);
        let order = match self.encode_tail(config, &mut elem, Ghost(register_head_parts(*self, *config))) {
            Ok(o) => o,
            Err(e) => {
                return Err(e);
            },
        };
        assert(elem.attrs() =~= Map::empty());
        if let Some(v) = &self.derived_from {
            elem.set_attribute(String::from_str("derivedFrom"), change_case(v.as_str(), config.register_name));
        }
        assert(elem.attrs() =~= derived_attrs(self.derived_from, config.register_name));
        assert(fits(elem.children@, register_parts(*self, *config, order@)));
        Ok(elem)
    }
}

impl Register {
    /// A single register is encoded as its description. An array starts from
    /// an empty `register` element, merges in the encoding of its dimension
    /// and then that of its description: the description's attributes win on
    /// a common key, and its children follow those of the dimension.
    pub fn encode_with_config(&self, config: &Config) -> (r: Result<Element, EncodeError>)
        ensures
            match *self {
                Register::Single(i) => match r {
                    Ok(e) => register_error(i) is None && register_info_ok(e, i, *config),
                    Err(err) => register_error(i) == Some(err),
                },
                Register::Array(i, a) => match r {
                    Ok(e) => {
                        &&& register_error(i) is None
                        &&& e.name@ == "register"@
                        &&& e.wf()
                        &&& exists|ea: Element, ei: Element|
                            #![trigger array_info_ok(ea, a, *config), register_info_ok(ei, i, *config)]
                            array_info_ok(ea, a, *config) && register_info_ok(ei, i, *config)
                                && e.attrs() == ea.attrs().union_prefer_right(ei.attrs())
                                && e.children@ == ea.children@ + ei.children@
                    },
                    Err(err) => register_error(i) == Some(err),
                },
            },
    {
        match self {
            Register::Single(info) => info.encode_with_config(config),
            Register::Array(info, array_info) => {
                let mut base = Element::new("register");
                let ea = array_info.encode_with_config(config);
                let ghost gea = ea;
                base.merge(ea);
                let ei = match info.encode_with_config(config) {
                    Ok(e) => e,
                    Err(e) => {
                        return Err(e);
                    },
                };
                let ghost gei = ei;
                base.merge(ei);
                assert(Map::<Seq<char>, Seq<char>>::empty().union_prefer_right(gea.attrs()) =~= gea.attrs());
                assert(Seq::<XmlNode>::empty() + gea.children@ =~= gea.children@);
                assert(array_info_ok(gea, *array_info, *config) && register_info_ok(gei, *info, *config));
                Ok(base)
            },
        }
    }
}

// ---------------------------------------------------------------- children left out

/// No part of `sh` is tagged `t`.
pub open spec fn parts_avoid(sh: Seq<Part>, t: Seq<char>) -> bool {
    forall|k: int| 0 <= k < sh.len() ==> (#[trigger] sh[k]).0 != t
}

/// No child of `e` is tagged `t`.
pub open spec fn has_no_child(e: Element, t: Seq<char>) -> bool {
    forall|k: int| 0 <= k < e.children@.len() ==> tag_of(#[trigger] e.children@[k]) != t
}

proof fn lemma_avoid_append(a: Seq<Part>, b: Seq<Part>, t: Seq<char>)
    requires
        parts_avoid(a, t),
        parts_avoid(b, t),
    ensures
        parts_avoid(a + b, t),
{
    assert forall|k: int| 0 <= k < (a + b).len() implies (#[trigger] (a + b)[k]).0 != t by {
        if k < a.len() {
            assert((a + b)[k] == a[k]);
        } else {
            assert((a + b)[k] == b[k - a.len()]);
        }
    }
}

proof fn lemma_tag_texts()
    ensures
        "name"@.len() == 4 && "addressOffset"@.len() == 13 && "alternateGroup"@.len() == 14,
        "alternateRegister"@.len() == 17 && "size"@.len() == 4 && "resetValue"@.len() == 10,
        "resetMask"@.len() == 9 && "modifiedWriteValues"@.len() == 19,
        "writeConstraint"@.len() == 15 && "readAction"@.len() == 10,
        "displayName"@.len() == 11 && "description"@.len() == 11,
        "access"@.len() == 6 && "fields"@.len() == 6,
        "displayName"@ != "description"@,
        "access"@ != "fields"@,
{
    reveal_strlit("name");
    reveal_strlit("displayName");
    reveal_strlit("description");
    reveal_strlit("alternateGroup");
    reveal_strlit("alternateRegister");
    reveal_strlit("addressOffset");
    reveal_strlit("size");
    reveal_strlit("access");
    reveal_strlit("resetValue");
    reveal_strlit("resetMask");
    reveal_strlit("modifiedWriteValues");
    reveal_strlit("writeConstraint");
    reveal_strlit("readAction");
    reveal_strlit("fields");
    assert("displayName"@[1] != "description"@[1]);
    assert("access"@[0] != "fields"@[0]);
}

/// Which of the optional tags is meant to be absent, and why.
pub open spec fn tag_omitted(i: RegisterInfo, t: Seq<char>) -> bool {
    ||| t == "displayName"@ && !(i.display_name is Some && i.display_name.unwrap()@ != i.name@)
    ||| t == "description"@ && !(i.description is Some && i.description.unwrap()@ != i.name@)
    ||| t == "alternateRegister"@ && !(i.alternate_register is Some && i.alternate_register.unwrap()@
        != i.name@)
    ||| t == "fields"@ && !(i.fields is Some && i.fields.unwrap()@.len() > 0)
}

proof fn lemma_properties_avoid(p: RegisterProperties, c: Config, t: Seq<char>)
    requires
        t == "displayName"@ || t == "description"@ || t == "alternateRegister"@ || t == "fields"@,
    ensures
        parts_avoid(properties_parts(p, c), t),
{
    lemma_tag_texts();
    let q1 = part_if(p.size is Some, leaf_part("size"@, number_text(p.size.unwrap() as nat, c.register_size)));
    let q2 = part_if(p.access is Some, leaf_part("access"@, access_text(p.access.unwrap())));
    let q3 = part_if(
        p.reset_value is Some,
        leaf_part("resetValue"@, number_text(p.reset_value.unwrap() as nat, c.register_reset_value)),
    );
    let q4 = part_if(
        p.reset_mask is Some,
        leaf_part("resetMask"@, number_text(p.reset_mask.unwrap() as nat, c.register_reset_mask)),
    );
    assert(parts_avoid(q1, t));
    assert(parts_avoid(q2, t));
    assert(parts_avoid(q3, t));
    assert(parts_avoid(q4, t));
    lemma_avoid_append(q1, q2, t);
    lemma_avoid_append(q1 + q2, q3, t);
    lemma_avoid_append(q1 + q2 + q3, q4, t);
}

proof fn lemma_head_avoid(i: RegisterInfo, c: Config, t: Seq<char>)
    requires
        tag_omitted(i, t),
    ensures
        parts_avoid(register_head_parts(i, c), t),
{
    lemma_tag_texts();
    let n1 = seq![leaf_part("name"@, case_of(i.name@, c.register_name))];
    let n2 = part_if(
        i.display_name is Some && i.display_name.unwrap()@ != i.name@,
        leaf_part("displayName"@, i.display_name.unwrap()@),
    );
    let n3 = part_if(
        i.description is Some && i.description.unwrap()@ != i.name@,
        leaf_part("description"@, i.description.unwrap()@),
    );
    let n4 = part_if(i.alternate_group is Some, leaf_part("alternateGroup"@, i.alternate_group.unwrap()@));
    let n5 = part_if(
        i.alternate_register is Some && i.alternate_register.unwrap()@ != i.name@,
        leaf_part("alternateRegister"@, case_of(i.alternate_register.unwrap()@, c.register_name)),
    );
    let n6 = seq![leaf_part("addressOffset"@, number_text(i.address_offset as nat, c.register_address_offset))];
    assert(n1[0].0 != t);
    assert(n6[0].0 != t);
    assert(parts_avoid(n1, t));
    assert(parts_avoid(n2, t));
    assert(parts_avoid(n3, t));
    assert(parts_avoid(n4, t));
    assert(parts_avoid(n5, t));
    assert(parts_avoid(n6, t));
    lemma_properties_avoid(i.properties, c, t);
    lemma_avoid_append(n1, n2, t);
    lemma_avoid_append(n1 + n2, n3, t);
    lemma_avoid_append(n1 + n2 + n3, n4, t);
    lemma_avoid_append(n1 + n2 + n3 + n4, n5, t);
    lemma_avoid_append(n1 + n2 + n3 + n4 + n5, n6, t);
    lemma_avoid_append(n1 + n2 + n3 + n4 + n5 + n6, properties_parts(i.properties, c), t);
}

proof fn lemma_tail_avoid(i: RegisterInfo, c: Config, order: Seq<usize>, t: Seq<char>)
    requires
        tag_omitted(i, t),
    ensures
        parts_avoid(register_tail_parts(i, c, order), t),
{
    lemma_tag_texts();
    let m1 = part_if(
        i.modified_write_values is Some,
        leaf_part("modifiedWriteValues"@, modified_write_values_text(i.modified_write_values.unwrap())),
    );
    let m2 = part_if(i.write_constraint is Some, write_constraint_part(i.write_constraint.unwrap()));
    let m3 = part_if(i.read_action is Some, leaf_part("readAction"@, read_action_text(i.read_action.unwrap())));
    let m4 = part_if(i.fields is Some && i.fields.unwrap()@.len() > 0, fields_part(i.fields.unwrap()@, c, order));
    assert(parts_avoid(m1, t));
    assert(parts_avoid(m2, t));
    assert(parts_avoid(m3, t));
    assert(parts_avoid(m4, t));
    lemma_avoid_append(m1, m2, t);
    lemma_avoid_append(m1 + m2, m3, t);
    lemma_avoid_append(m1 + m2 + m3, m4, t);
}

proof fn lemma_encoding_avoids(e: Element, i: RegisterInfo, c: Config, t: Seq<char>)
    requires
        register_info_ok(e, i, c),
        tag_omitted(i, t),
    ensures
        has_no_child(e, t),
{
    let order = match i.fields {
        Some(fs) => choose|order: Seq<usize>|
            field_order(fs@, c.field_sorting, order) && fits(e.children@, register_parts(i, c, order)),
        None => Seq::empty(),
    };
    let sh = register_parts(i, c, order);
    lemma_head_avoid(i, c, t);
    lemma_tail_avoid(i, c, order, t);
    lemma_avoid_append(register_head_parts(i, c), register_tail_parts(i, c, order), t);
    assert forall|k: int| 0 <= k < e.children@.len() implies tag_of(#[trigger] e.children@[k]) != t by {
        assert(tag_of(e.children@[k]) == sh[k].0);
    }
}

/// A display name, description or alternate register equal to the
/// register's name yields no child of that tag.
pub proof fn lemma_redundant_names_omitted(e: Element, i: RegisterInfo, c: Config)
    requires
        register_info_ok(e, i, c),
    ensures
        i.display_name is Some && i.display_name.unwrap()@ == i.name@ ==> has_no_child(e, "displayName"@),
        i.description is Some && i.description.unwrap()@ == i.name@ ==> has_no_child(e, "description"@),
        i.alternate_register is Some && i.alternate_register.unwrap()@ == i.name@ ==> has_no_child(
            e,
            "alternateRegister"@,
        ),
{
    if i.display_name is Some && i.display_name.unwrap()@ == i.name@ {
        lemma_encoding_avoids(e, i, c, "displayName"@);
    }
    if i.description is Some && i.description.unwrap()@ == i.name@ {
        lemma_encoding_avoids(e, i, c, "description"@);
    }
    if i.alternate_register is Some && i.alternate_register.unwrap()@ == i.name@ {
        lemma_encoding_avoids(e, i, c, "alternateRegister"@);
    }
}

/// A register without fields, or with an empty collection of them, has no
/// `fields` child.
pub proof fn lemma_empty_fields_omitted(e: Element, i: RegisterInfo, c: Config)
    requires
        register_info_ok(e, i, c),
        i.fields is None || i.fields.unwrap()@.len() == 0,
    ensures
        has_no_child(e, "fields"@),
{
    lemma_encoding_avoids(e, i, c, "fields"@);
}

} // verus!
