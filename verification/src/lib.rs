//! Bit-packed record layouts: field schemas, offset planning, accessor
//! masks and an ASCII rendering of the finished layout.
//!
//! A record is declared as a list of fields, each named `label_width`, and
//! generated for a container of 8, 16, 32, 64 or 128 bits. [`bitf`] places
//! the fields, checks that they fit, and hands back a [`Layout`]: one
//! accessor per field that is not reserved, and the diagram if it was
//! asked for.

pub mod accessor;
pub mod bitfield;
pub mod bits;
pub mod error;
pub mod macroparams;
pub mod pprint;
pub mod text;

use vstd::prelude::*;

pub use crate::accessor::{generate_impl_code, Accessor, Value};
pub use crate::bitfield::{BitField, FieldDecl, Strukt, TypeShape, TypeToken, Visibility};
pub use crate::error::Error;
pub use crate::macroparams::{Endianness, MacroParams};
pub use crate::pprint::{generate_pretty_print, Diagram};

use crate::accessor::{
    accessible,
    accessor_of,
    lemma_accessible_order,
    lemma_accessible_planned,
    lemma_isolation,
    lemma_round_trip,
    texts,
    type_error,
    AccessorView,
};
use crate::bitfield::{
    diagram_map,
    lemma_diagram_map_total,
    lemma_planned_apart,
    lemma_total_width_grows,
    lemma_total_width_step,
    planned,
    total_width,
};
use crate::bits::{all_ones, extract, field_mask, lemma_extract_bit, lemma_extract_zero};
use crate::error::ErrorView;
use crate::macroparams::is_container_width;
use crate::pprint::{lemma_map_total_step, line_body, map_total};
use crate::text::{binary, same_text};

verus! {

/// A generated record: a container of `bitfield_size` bits, all zero to
/// begin with, and what reads and writes its fields.
#[derive(Debug, Clone, PartialEq, Eq)]
pub struct Layout {
    /// The name of the record.
    pub name: String,
    /// Who may use the record.
    pub vis: Visibility,
    /// The container's width in bits.
    pub bitfield_size: usize,
    /// All fields with their positions, reserved ones included, in the
    /// order of their declaration.
    pub fields: Vec<BitField>,
    /// One accessor for each field that is not reserved, in the order of
    /// their declaration.
    pub accessors: Vec<Accessor>,
    /// The diagram, where it was asked for.
    pub diagram: Option<Diagram>,
}

/// Whether two accessors share no bit.
pub open spec fn apart(a: Accessor, b: Accessor) -> bool {
    a.pos + a.bsize <= b.pos || b.pos + b.bsize <= a.pos
}

/// Whether `layout` is what the generation of `strukt` with `params` gives:
/// the declared fields with their positions, an accessor for each field
/// that is not reserved, and the diagram exactly if it was asked for.
pub open spec fn generated(
    params: MacroParams,
    strukt: Strukt,
    layout: Layout,
) -> bool {
    &&& layout.name@ == strukt.name@
    &&& layout.vis == strukt.vis
    &&& layout.bitfield_size == params.bitfield_size
    &&& planned(
        strukt.bfields@,
        layout.fields@,
        params.bitfield_size as nat,
        params.endianness,
    )
    &&& layout.accessors@.len() == accessible(layout.fields@).len()
    &&& forall|k: int|
        0 <= k < layout.accessors@.len() ==> (#[trigger] layout.accessors@[k])@ == accessor_of(
            accessible(layout.fields@)[k]@,
            params.bitfield_size as nat,
        )
    &&& match layout.diagram {
        Some(d) => {
            &&& params.pprint
            &&& d.struct_name@ == strukt.name@
            &&& d.map@ == strukt.map@
            &&& d.field_size == params.bitfield_size
        },
        None => !params.pprint,
    }
}

/// Generates the record that `strukt` declares, for the container and the
/// order of `params`. `conversions` names the types of the caller's for
/// which a conversion from the container's integer exists.
///
/// The container is checked first, then that the fields fit, then each
/// field's type in the order of declaration; the first failure is
/// returned.
pub fn bitf(params: &MacroParams, strukt: &Strukt, conversions: &Vec<String>) -> (r: Result<
    Layout,
    Error,
>)
    ensures
        match r {
            Ok(layout) => {
                &&& is_container_width(params.bitfield_size as nat)
                &&& total_width(strukt.bfields@) <= params.bitfield_size
                &&& forall|k: int|
                    0 <= k < accessible(strukt.bfields@).len() ==> type_error(
                        (#[trigger] accessible(strukt.bfields@)[k])@,
                        texts(conversions@),
                    ) is None
                &&& generated(*params, *strukt, layout)
                &&& layout.wf()
                &&& strukt.map@ == diagram_map(strukt.bfields@) && layout.diagram is Some
                    ==> layout.diagram->0.wf()
            },
            Err(e) => if !is_container_width(params.bitfield_size as nat) {
                e@ == ErrorView::InvalidContainerWidth
            } else if total_width(strukt.bfields@) > params.bitfield_size {
                e@ == ErrorView::LayoutOverflow {
                    excess: (total_width(strukt.bfields@) - params.bitfield_size) as nat,
                }
            } else {
                exists|k: int|
                    {
                        &&& 0 <= k < accessible(strukt.bfields@).len()
                        &&& type_error(
                            (#[trigger] accessible(strukt.bfields@)[k])@,
                            texts(conversions@),
                        ) == Some(e@)
                        &&& forall|j: int|
                            0 <= j < k ==> type_error(
                                (#[trigger] accessible(strukt.bfields@)[j])@,
                                texts(conversions@),
                            ) is None
                    }
            },
        },
{
    let size = params.bitfield_size;
    if !(size == 8 || size == 16 || size == 32 || size == 64 || size == 128) {
        return Err(Error::InvalidContainerWidth);
    }
    let fields = match strukt.plan(size, params.endianness) {
        Ok(fields) => fields,
        Err(e) => {
            return Err(e);
        },
    };
    let ghost declared = strukt.bfields@;
    let ghost known = texts(conversions@);
    proof {
        lemma_accessible_planned(declared, fields@);
        assert forall|k: int| 0 <= k < accessible(declared).len() implies type_error(
            (#[trigger] accessible(declared)[k])@,
            known,
        ) == type_error(accessible(fields@)[k]@, known) by {
            assert(accessible(fields@)[k] == BitField {
                pos: accessible(fields@)[k].pos,
                ..accessible(declared)[k]
            });
        }
    }
    let accessors = match generate_impl_code(&fields, size, conversions) {
        Ok(accessors) => accessors,
        Err(e) => {
            proof {
                let k = choose|k: int|
                    {
                        &&& 0 <= k < accessible(fields@).len()
                        &&& crate::accessor::compile_spec(
                            (#[trigger] accessible(fields@)[k])@,
                            size as nat,
                            known,
                        ) == Err::<AccessorView, ErrorView>(e@)
                        &&& forall|j: int|
                            0 <= j < k ==> crate::accessor::compile_spec(
                                (#[trigger] accessible(fields@)[j])@,
                                size as nat,
                                known,
                            ) is Ok
                    };
                assert(type_error(accessible(declared)[k]@, known) == Some(e@));
                assert forall|j: int| 0 <= j < k implies type_error(
                    (#[trigger] accessible(declared)[j])@,
                    known,
                ) is None by {
                    assert(crate::accessor::compile_spec(
                        accessible(fields@)[j]@,
                        size as nat,
                        known,
                    ) is Ok);
                }
            }
            return Err(e);
        },
    };
    let diagram = if params.pprint {
        let mut map: Vec<(usize, usize)> = Vec::new();
        let mut k: usize = 0;
        while k < strukt.map.len()
            invariant
                k <= strukt.map.len(),
                map@ == strukt.map@.take(k as int),
            decreases strukt.map.len() - k,
        {
            map.push(strukt.map[k]);
            k += 1;
        }
        proof {
            assert(strukt.map@.take(k as int) == strukt.map@);
        }
        Some(generate_pretty_print(strukt.name.as_str(), map, size))
    } else {
        None
    };
    let layout = Layout {
        name: strukt.name.clone(),
        vis: strukt.vis,
        bitfield_size: size,
        fields,
        accessors,
        diagram,
    };
    proof {
        let planned_fields = layout.fields@;
        assert forall|k: int| 0 <= k < accessible(declared).len() implies type_error(
            (#[trigger] accessible(declared)[k])@,
            known,
        ) is None by {
            assert(crate::accessor::compile_spec(
                accessible(planned_fields)[k]@,
                size as nat,
                known,
            ) == Ok::<AccessorView, ErrorView>(layout.accessors@[k]@));
        }
        assert forall|k: int| 0 <= k < layout.accessors@.len() implies (
        #[trigger] layout.accessors@[k])@ == accessor_of(
            accessible(planned_fields)[k]@,
            size as nat,
        ) by {
            assert(crate::accessor::compile_spec(
                accessible(planned_fields)[k]@,
                size as nat,
                known,
            ) == Ok::<AccessorView, ErrorView>(layout.accessors@[k]@));
        }
        assert forall|first: int, second: int|
            0 <= first < second < layout.accessors@.len() implies apart(
            #[trigger] layout.accessors@[first],
            #[trigger] layout.accessors@[second],
        ) by {
            let at = lemma_accessible_order(planned_fields, first, second);
            lemma_planned_apart(
                declared,
                planned_fields,
                size as nat,
                params.endianness,
                at.0,
                at.1,
            );
            assert(layout.accessors@[first]@ == accessor_of(
                accessible(planned_fields)[first]@,
                size as nat,
            ));
            assert(layout.accessors@[second]@ == accessor_of(
                accessible(planned_fields)[second]@,
                size as nat,
            ));
        }
        if strukt.map@ == diagram_map(declared) {
            lemma_diagram_map_total(declared);
        }
    }
    Ok(layout)
}

impl Layout {
    /// Whether the accessors are those of fields that lie inside the
    /// container and share no bit.
    pub open spec fn wf(&self) -> bool {
        &&& is_container_width(self.bitfield_size as nat)
        &&& forall|k: int|
            0 <= k < self.accessors@.len() ==> (#[trigger] self.accessors@[k]).wf()
                && self.accessors@[k].container == self.bitfield_size
        &&& forall|first: int, second: int|
            0 <= first < second < self.accessors@.len() ==> apart(
                #[trigger] self.accessors@[first],
                #[trigger] self.accessors@[second],
            )
    }

    /// The bits of a record that nothing was written to: all zero, so that
    /// every field reads zero.
    pub fn default_raw(&self) -> (raw: u128)
        ensures
            raw == 0,
            forall|k: int|
                0 <= k < self.accessors@.len() ==> (#[trigger] self.accessors@[k]).extracted(raw)
                    == 0,
    {
        proof {
            assert forall|k: int| 0 <= k < self.accessors@.len() implies (
            #[trigger] self.accessors@[k]).extracted(0) == 0 by {
                lemma_extract_zero(self.accessors@[k].mask, self.accessors@[k].pos as nat);
            }
        }
        0
    }

    /// Whether accessor `k` is the first one called `name`.
    pub open spec fn is_first_named(&self, name: Seq<char>, k: int) -> bool {
        &&& 0 <= k < self.accessors@.len()
        &&& self.accessors@[k].name@ == name
        &&& forall|j: int| 0 <= j < k ==> (#[trigger] self.accessors@[j]).name@ != name
    }

    /// Whether no accessor is called `name`.
    pub open spec fn has_none_named(&self, name: Seq<char>) -> bool {
        forall|j: int| 0 <= j < self.accessors@.len() ==> (#[trigger] self.accessors@[j]).name@ != name
    }

    /// The index of the accessor of the field called `name`: the first
    /// one, should several fields share the name. A reserved field has
    /// none.
    pub fn find(&self, name: &str) -> (r: Option<usize>)
        ensures
            match r {
                Some(k) => self.is_first_named(name@, k as int),
                None => self.has_none_named(name@),
            },
    {
        let mut k: usize = 0;
        while k < self.accessors.len()
            invariant
                k <= self.accessors.len(),
                forall|j: int| 0 <= j < k ==> (#[trigger] self.accessors@[j]).name@ != name@,
            decreases self.accessors.len() - k,
        {
            if same_text(self.accessors[k].name.as_str(), name) {
                return Some(k);
            }
            k += 1;
        }
        None
    }

    /// Reads the field called `name` from the container's bits `raw`.
    pub fn get(&self, raw: u128, name: &str) -> (r: Option<Value>)
        ensures
            match r {
                Some(v) => exists|k: int|
                    self.is_first_named(name@, k) && v == (#[trigger] self.accessors@[k]).read(raw),
                None => self.has_none_named(name@),
            },
    {
        match self.find(name) {
            Some(k) => Some(self.accessors[k].get(raw)),
            None => None,
        }
    }

    /// Reads the field called `name` from the container's bits `raw` and
    /// hands it, as the container's integer, to the caller's conversion.
    pub fn get_into<T>(&self, raw: u128, name: &str, convert: impl FnOnce(u128) -> T) -> (r:
        Option<T>)
        requires
            forall|bits: u128| call_requires(convert, (bits,)),
        ensures
            match r {
                Some(v) => exists|k: int|
                    self.is_first_named(name@, k) && call_ensures(
                        convert,
                        ((#[trigger] self.accessors@[k]).extracted(raw),),
                        v,
                    ),
                None => self.has_none_named(name@),
            },
    {
        match self.find(name) {
            Some(k) => Some(self.accessors[k].get_into(raw, convert)),
            None => None,
        }
    }

    /// Writes `value` to the field called `name` in the container's bits
    /// `raw` and returns the new bits.
    pub fn set(&self, raw: u128, name: &str, value: u128) -> (r: Option<u128>)
        ensures
            match r {
                Some(bits) => exists|k: int|
                    self.is_first_named(name@, k) && bits == (#[trigger] self.accessors@[k]).written(
                        raw,
                        value,
                    ),
                None => self.has_none_named(name@),
            },
    {
        match self.find(name) {
            Some(k) => Some(self.accessors[k].set(raw, value)),
            None => None,
        }
    }

    /// Draws the diagram for the container's bits `raw`, where the record
    /// has one and its cells fit the container.
    pub fn pprint(&self, raw: u128) -> (r: Option<String>)
        ensures
            match r {
                Some(s) => self.diagram is Some && self.diagram->0.wf() && s@
                    == self.diagram->0.text(raw),
                None => self.diagram is None || !self.diagram->0.wf(),
            },
    {
        match &self.diagram {
            Some(d) => {
                if d.is_well_formed() {
                    Some(d.pprint(raw))
                } else {
                    None
                }
            },
            None => None,
        }
    }
}

/// In a generated record, writing one field and reading it gives the value
/// back, and every other field reads as before, as long as the value fits
/// the written field's width.
pub proof fn lemma_layout_fields_independent(
    layout: Layout,
    written: int,
    other: int,
    raw: u128,
    value: u128,
)
    requires
        layout.wf(),
        0 <= written < layout.accessors@.len(),
        0 <= other < layout.accessors@.len(),
        value <= all_ones(layout.accessors@[written].bsize as nat),
    ensures
        ({
            let bits = layout.accessors@[written].written(raw, value);
            &&& layout.accessors@[written].extracted(bits) == value
            &&& other != written ==> layout.accessors@[other].extracted(bits)
                == layout.accessors@[other].extracted(raw)
        }),
{
    let a = layout.accessors@[written];
    let b = layout.accessors@[other];
    lemma_round_trip(a, raw, value);
    if other != written {
        if other < written {
            assert(apart(b, a));
        } else {
            assert(apart(a, b));
        }
        lemma_isolation(a, b, raw, value);
    }
}

/// The cells of the diagram before cell `k` take what the fields declared
/// after the cell's field take.
pub proof fn lemma_diagram_map_prefix(fields: Seq<BitField>, k: int)
    requires
        0 <= k <= fields.len(),
    ensures
        map_total(diagram_map(fields).take(k)) == total_width(fields) - total_width(
            fields.take(fields.len() - k),
        ),
    decreases k,
{
    let map = diagram_map(fields);
    if k == 0 {
        assert(fields.take(fields.len() as int) == fields);
        assert(map_total(map.take(0)) == 0);
    } else {
        lemma_diagram_map_prefix(fields, k - 1);
        lemma_map_total_step(map, k - 1);
        lemma_total_width_step(fields, fields.len() - k);
    }
}

/// In a record whose fields fill the whole container in `Lsb` order, the
/// diagram shows each field where it lies: the cell of a field that is not
/// reserved holds the binary digits of what the field's getter extracts.
///
/// With `Msb`, or with bits of the container left over, the cells still
/// take their digits from the left in the order of declaration backwards,
/// and then show other bits than their field's.
pub proof fn lemma_diagram_shows_fields(
    fields: Seq<BitField>,
    out: Seq<BitField>,
    container: nat,
    raw: u128,
    i: int,
)
    requires
        total_width(fields) == container <= 128,
        planned(fields, out, container, Endianness::Lsb),
        0 <= i < fields.len(),
        !fields[i].skip,
    ensures
        line_body(diagram_map(fields), binary(raw, container), true, fields.len() - 1 - i) == " "@
            + binary(
            extract(
                raw,
                field_mask(container, out[i].bsize as nat, out[i].pos as nat),
                out[i].pos as nat,
            ),
            out[i].bsize as nat,
        ),
{
    let map = diagram_map(fields);
    let k = fields.len() - 1 - i;
    let width = fields[i].bsize as nat;
    let pos = out[i].pos as nat;
    let digits = binary(raw, container);
    let start = map_total(map.take(k)) as int;
    let field = extract(raw, field_mask(container, width, pos), pos);
    lemma_diagram_map_prefix(fields, k);
    lemma_total_width_step(fields, i);
    lemma_total_width_grows(fields, i + 1);
    assert(out[i] == BitField { pos: out[i].pos, ..fields[i] });
    assert(start == container - pos - width);
    assert(digits.subrange(start, start + width) =~= binary(field, width)) by {
        assert forall|t: int| 0 <= t < width implies digits.subrange(start, start + width)[t]
            == binary(field, width)[t] by {
            lemma_extract_bit(container, width, pos, raw, (width - 1 - t) as nat);
        }
    }
}

} // verus!
