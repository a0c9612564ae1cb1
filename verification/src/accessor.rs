//! The accessors of a record: for each field that is not reserved, the
//! mask and shift by which it is read and written, and the type its getter
//! returns.

use vstd::prelude::*;
use crate::bitfield::{all_inside, BitField, FieldView, ShapeView, TypeShape, Visibility};
use crate::bits::{
    all_ones,
    as_signed,
    bit,
    extract,
    field_mask,
    insert,
    lemma_mask_shape,
    lemma_masks_apart,
    lemma_value_inside_mask,
    mask_of,
    ones,
    shift_left,
    shift_right,
    shl,
    shr,
    signed_of,
    truncate,
};
use crate::error::{Error, ErrorView};
use crate::macroparams::is_container_width;
use crate::text::same_text;

verus! {

/// What a getter hands out.
#[derive(Debug, Clone, Copy, PartialEq, Eq)]
pub enum Value {
    /// An unsigned integer: a field cast to an unsigned primitive, or the
    /// field as the container's own integer.
    Unsigned(u128),
    /// A field cast to a signed primitive.
    Signed(i128),
}

impl Value {
    /// The number held.
    pub open spec fn as_int(self) -> int {
        match self {
            Value::Unsigned(v) => v as int,
            Value::Signed(v) => v as int,
        }
    }
}

/// The get and set pair of one field.
#[derive(Debug, Clone, PartialEq, Eq)]
pub struct Accessor {
    /// The getter's name: the field's label.
    pub name: String,
    /// The setter's name: `set_` and the field's label.
    pub setter: String,
    /// The field's width in bits.
    pub bsize: usize,
    /// The index of the field's lowest bit.
    pub pos: usize,
    /// The container's width in bits.
    pub container: usize,
    /// The bits of the container that belong to the field.
    pub mask: u128,
    /// What the getter returns.
    pub ty: TypeShape,
    /// Who may call the two.
    pub vis: Visibility,
}

/// An [`Accessor`] with its names as sequences of characters.
pub struct AccessorView {
    pub name: Seq<char>,
    pub setter: Seq<char>,
    pub bsize: nat,
    pub pos: nat,
    pub container: nat,
    pub mask: u128,
    pub ty: ShapeView,
    pub vis: Visibility,
}

impl View for Accessor {
    type V = AccessorView;

    open spec fn view(&self) -> AccessorView {
        AccessorView {
            name: self.name@,
            setter: self.setter@,
            bsize: self.bsize as nat,
            pos: self.pos as nat,
            container: self.container as nat,
            mask: self.mask,
            ty: self.ty@,
            vis: self.vis,
        }
    }
}

/// The accessors of `field` in a container of `container` bits.
pub open spec fn accessor_of(field: FieldView, container: nat) -> AccessorView {
    AccessorView {
        name: field.name,
        setter: "set_"@ + field.name,
        bsize: field.bsize,
        pos: field.pos,
        container,
        mask: field_mask(container, field.bsize, field.pos),
        ty: field.ty,
        vis: field.vis,
    }
}

/// Why `field` can have no getter, where it cannot: its type is
/// unsupported, or it is a type of the caller's whose name is not among
/// `conversions`, the types for which a conversion from the container's
/// integer exists.
pub open spec fn type_error(field: FieldView, conversions: Seq<Seq<char>>) -> Option<ErrorView> {
    match field.ty {
        ShapeView::Unsupported => Some(ErrorView::UnsupportedReturnType { field: field.name }),
        ShapeView::Custom(identifier) => if conversions.contains(identifier) {
            None
        } else {
            Some(ErrorView::MissingConversion { identifier })
        },
        _ => None,
    }
}

/// The accessors of `field`, where its type allows a getter.
pub open spec fn compile_spec(field: FieldView, container: nat, conversions: Seq<Seq<char>>) -> Result<
    AccessorView,
    ErrorView,
> {
    match type_error(field, conversions) {
        Some(e) => Err(e),
        None => Ok(accessor_of(field, container)),
    }
}

/// The names of `list` as sequences of characters.
pub open spec fn texts(list: Seq<String>) -> Seq<Seq<char>> {
    list.map_values(|s: String| s@)
}

/// What a getter returning `shape` makes of the bits `extracted` from the
/// container: a primitive integer gets its width's lowest bits, read with
/// its sign; any other type gets them all.
pub open spec fn coerce(shape: ShapeView, extracted: u128) -> Value {
    match shape {
        ShapeView::PrimitiveInteger { width, signed } => if signed {
            Value::Signed(as_signed(extracted, width) as i128)
        } else {
            Value::Unsigned(truncate(extracted, width))
        },
        _ => Value::Unsigned(extracted),
    }
}

/// Whether `value` comes back unchanged from a getter returning `shape`.
pub open spec fn representable(shape: ShapeView, value: u128) -> bool {
    match shape {
        ShapeView::PrimitiveInteger { width, signed } => if signed {
            width > 0 && value <= shr(all_ones(width), 1)
        } else {
            value <= all_ones(width)
        },
        _ => true,
    }
}

/// The fields that get accessors: those that are not reserved, in the
/// order of their declaration.
pub open spec fn accessible(fields: Seq<BitField>) -> Seq<BitField>
    decreases fields.len(),
{
    if fields.len() == 0 {
        Seq::empty()
    } else if fields.last().skip {
        accessible(fields.drop_last())
    } else {
        accessible(fields.drop_last()).push(fields.last())
    }
}

/// Whether `text` is among `list`.
pub fn contains_text(list: &Vec<String>, text: &str) -> (r: bool)
    ensures
        r == texts(list@).contains(text@),
{
    let ghost views = texts(list@);
    let mut i: usize = 0;
    while i < list.len()
        invariant
            i <= list.len(),
            views == texts(list@),
            forall|j: int| 0 <= j < i ==> views[j] != text@,
        decreases list.len() - i,
    {
        if same_text(list[i].as_str(), text) {
            assert(views[i as int] == text@);
            return true;
        }
        i += 1;
    }
    false
}

impl Accessor {
    /// Whether the accessor is that of a field inside its container.
    pub open spec fn wf(&self) -> bool {
        &&& is_container_width(self.container as nat)
        &&& self.pos + self.bsize <= self.container
        &&& self.mask == field_mask(self.container as nat, self.bsize as nat, self.pos as nat)
    }

    /// The field's bits in `raw`, moved down to bit 0.
    pub open spec fn extracted(&self, raw: u128) -> u128 {
        extract(raw, self.mask, self.pos as nat)
    }

    /// What the getter returns on `raw`.
    pub open spec fn read(&self, raw: u128) -> Value {
        coerce(self.ty@, self.extracted(raw))
    }

    /// `raw` after the setter has written `value`.
    pub open spec fn written(&self, raw: u128, value: u128) -> u128 {
        insert(raw, self.mask, self.pos as nat, value, self.container as nat)
    }

    /// The accessors of `field` in a container of `container_width` bits.
    /// `conversions` names the types for which a conversion from the
    /// container's integer exists.
    pub fn compile(field: &BitField, container_width: usize, conversions: &Vec<String>) -> (r:
        Result<Accessor, Error>)
        requires
            !field.skip,
            is_container_width(container_width as nat),
            field.pos + field.bsize <= container_width,
        ensures
            match r {
                Ok(a) => {
                    &&& compile_spec(
                        field@,
                        container_width as nat,
                        texts(conversions@),
                    ) == Ok::<AccessorView, ErrorView>(a@)
                    &&& a.wf()
                },
                Err(e) => compile_spec(
                    field@,
                    container_width as nat,
                    texts(conversions@),
                ) == Err::<AccessorView, ErrorView>(e@),
            },
    {
        match &field.ty {
            TypeShape::Unsupported => {
                return Err(Error::UnsupportedReturnType { field: field.name.clone() });
            },
            TypeShape::Custom(identifier) => {
                if !contains_text(conversions, identifier.as_str()) {
                    return Err(Error::MissingConversion { identifier: identifier.clone() });
                }
            },
            _ => {},
        }
        let mut setter = String::from_str("set_");
        setter.append(field.name.as_str());
        Ok(
            Accessor {
                name: field.name.clone(),
                setter,
                bsize: field.bsize,
                pos: field.pos,
                container: container_width,
                mask: mask_of(container_width, field.bsize, field.pos),
                ty: field.ty.duplicate(),
                vis: field.vis,
            },
        )
    }

    /// The field's bits in `raw`, moved down to bit 0: what the getter
    /// has before it casts or converts.
    pub fn extract(&self, raw: u128) -> (r: u128)
        ensures
            r == self.extracted(raw),
    {
        shift_right(raw & self.mask, self.pos)
    }

    /// Reads the field from `raw`. A primitive integer type narrower than
    /// the field loses the field's high bits; a type of the caller's gets
    /// the field as the container's integer, for the caller to convert.
    pub fn get(&self, raw: u128) -> (v: Value)
        ensures
            v == self.read(raw),
    {
        let extracted = self.extract(raw);
        match &self.ty {
            TypeShape::PrimitiveInteger { width, signed } => {
                if *signed {
                    Value::Signed(signed_of(extracted, *width))
                } else {
                    Value::Unsigned(extracted & ones(*width))
                }
            },
            _ => Value::Unsigned(extracted),
        }
    }

    /// Reads the field from `raw` and hands it, as the container's integer,
    /// to the caller's conversion: what the getter of a field with a type
    /// of the caller's returns.
    pub fn get_into<T>(&self, raw: u128, convert: impl FnOnce(u128) -> T) -> (r: T)
        requires
            call_requires(convert, (self.extracted(raw),)),
        ensures
            call_ensures(convert, (self.extracted(raw),), r),
    {
        convert(self.extract(raw))
    }

    /// Writes `value` to the field in `raw`. The field's bits are cleared
    /// and `value`, shifted to the field's position, is merged in as it
    /// is: a `value` wider than the field reaches into the bits above the
    /// field.
    pub fn set(&self, raw: u128, value: u128) -> (r: u128)
        ensures
            r == self.written(raw, value),
    {
        ((raw & !self.mask) | shift_left(value, self.pos)) & ones(self.container)
    }
}

/// The accessors of all fields that are not reserved, in the order of
/// their declaration. The first field whose type allows no getter ends the
/// whole with its error.
pub fn generate_impl_code(
    bitfields: &Vec<BitField>,
    bfield_size: usize,
    conversions: &Vec<String>,
) -> (r: Result<Vec<Accessor>, Error>)
    requires
        is_container_width(bfield_size as nat),
        all_inside(bitfields@, bfield_size as nat),
    ensures
        match r {
            Ok(accessors) => {
                &&& accessors@.len() == accessible(bitfields@).len()
                &&& forall|k: int|
                    0 <= k < accessors@.len() ==> {
                        &&& compile_spec(
                            accessible(bitfields@)[k]@,
                            bfield_size as nat,
                            texts(conversions@),
                        ) == Ok::<AccessorView, ErrorView>((#[trigger] accessors@[k])@)
                        &&& accessors@[k].wf()
                    }
            },
            Err(e) => exists|k: int|
                {
                    &&& 0 <= k < accessible(bitfields@).len()
                    &&& compile_spec(
                        (#[trigger] accessible(bitfields@)[k])@,
                        bfield_size as nat,
                        texts(conversions@),
                    ) == Err::<AccessorView, ErrorView>(e@)
                    &&& forall|j: int|
                        0 <= j < k ==> compile_spec(
                            (#[trigger] accessible(bitfields@)[j])@,
                            bfield_size as nat,
                            texts(conversions@),
                        ) is Ok
                },
        },
{
    let mut accessors: Vec<Accessor> = Vec::new();
    let ghost known = texts(conversions@);
    let mut i: usize = 0;
    while i < bitfields.len()
        invariant
            i <= bitfields.len(),
            is_container_width(bfield_size as nat),
            all_inside(bitfields@, bfield_size as nat),
            known == texts(conversions@),
            accessors@.len() == accessible(bitfields@.take(i as int)).len(),
            forall|k: int|
                0 <= k < accessors@.len() ==> {
                    &&& compile_spec(
                        accessible(bitfields@.take(i as int))[k]@,
                        bfield_size as nat,
                        known,
                    ) == Ok::<AccessorView, ErrorView>((#[trigger] accessors@[k])@)
                    &&& accessors@[k].wf()
                },
        decreases bitfields.len() - i,
    {
        let field = &bitfields[i];
        let ghost before = accessible(bitfields@.take(i as int));
        proof {
            assert(bitfields@.take(i + 1).drop_last() == bitfields@.take(i as int));
            assert(bitfields@.take(i + 1).last() == bitfields@[i as int]);
            lemma_accessible_prefix(bitfields@, i + 1);
        }
        if !field.skip {
            match Accessor::compile(field, bfield_size, conversions) {
                Ok(accessor) => {
                    accessors.push(accessor);
                },
                Err(e) => {
                    proof {
                        let all = accessible(bitfields@);
                        let k = before.len() as int;
                        assert(accessible(bitfields@.take(i + 1)) == before.push(*field));
                        assert(all[k] == *field);
                        assert forall|j: int| 0 <= j < k implies compile_spec(
                            (#[trigger] all[j])@,
                            bfield_size as nat,
                            known,
                        ) is Ok by {
                            assert(all[j] == before[j]);
                            assert(compile_spec(before[j]@, bfield_size as nat, known) == Ok::<
                                AccessorView,
                                ErrorView,
                            >(accessors@[j]@));
                        }
                    }
                    return Err(e);
                },
            }
        }
        i += 1;
    }
    proof {
        assert(bitfields@.take(i as int) == bitfields@);
    }
    Ok(accessors)
}

/// The fields of a prefix that get accessors are the first of those that
/// get accessors in the whole.
pub proof fn lemma_accessible_prefix(fields: Seq<BitField>, k: int)
    requires
        0 <= k <= fields.len(),
    ensures
        accessible(fields.take(k)).len() <= accessible(fields).len(),
        forall|j: int|
            0 <= j < accessible(fields.take(k)).len() ==> accessible(fields.take(k))[j]
                == #[trigger] accessible(fields)[j],
    decreases fields.len() - k,
{
    if k == fields.len() {
        assert(fields.take(k) == fields);
    } else {
        lemma_accessible_prefix(fields, k + 1);
        assert(fields.take(k + 1).drop_last() == fields.take(k));
    }
}

/// A field gets an accessor exactly if it is not reserved: every entry of
/// `accessible` is a field that is not reserved, and every such field is
/// an entry.
pub proof fn lemma_reserved_has_no_accessor(fields: Seq<BitField>)
    ensures
        forall|k: int|
            0 <= k < accessible(fields).len() ==> !(#[trigger] accessible(fields)[k]).skip
                && fields.contains(accessible(fields)[k]),
        forall|i: int|
            0 <= i < fields.len() && !(#[trigger] fields[i]).skip ==> accessible(fields).contains(
                fields[i],
            ),
    decreases fields.len(),
{
    if fields.len() > 0 {
        let head = fields.drop_last();
        lemma_reserved_has_no_accessor(head);
        let got = accessible(fields);
        assert forall|k: int| 0 <= k < got.len() implies !(#[trigger] got[k]).skip
            && fields.contains(got[k]) by {
            if k < accessible(head).len() {
                assert(got[k] == accessible(head)[k]);
                let i = choose|i: int| 0 <= i < head.len() && head[i] == got[k];
                assert(fields[i] == got[k]);
            } else {
                assert(got[k] == fields.last());
                assert(fields[fields.len() - 1] == got[k]);
            }
        }
        assert forall|i: int| 0 <= i < fields.len() && !(#[trigger] fields[i]).skip implies got.contains(
            fields[i],
        ) by {
            if i < head.len() {
                assert(head[i] == fields[i]);
                let k = choose|k: int| 0 <= k < accessible(head).len() && accessible(head)[k] == head[i];
                assert(got[k] == fields[i]);
            } else {
                assert(got[got.len() - 1] == fields[i]);
            }
        }
    }
}

/// Each field that gets an accessor is one of the fields, and they come in
/// the order of the fields: the result holds, for entries `first` and
/// `second` of `accessible`, the indices of the fields they are.
pub proof fn lemma_accessible_order(fields: Seq<BitField>, first: int, second: int) -> (at: (
    int,
    int,
))
    requires
        0 <= first <= second < accessible(fields).len(),
    ensures
        0 <= at.0 <= at.1 < fields.len(),
        first < second ==> at.0 < at.1,
        fields[at.0] == accessible(fields)[first],
        fields[at.1] == accessible(fields)[second],
    decreases fields.len(),
{
    let head = fields.drop_last();
    let last = fields.len() - 1;
    if fields.last().skip || second < accessible(head).len() {
        let at = lemma_accessible_order(head, first, second);
        assert(head[at.0] == fields[at.0] && head[at.1] == fields[at.1]);
        at
    } else if first == second {
        (last, last)
    } else {
        let at = lemma_accessible_order(head, first, first);
        assert(head[at.0] == fields[at.0]);
        (at.0, last)
    }
}

/// Planning changes no field but in its position, so the planned fields
/// get accessors exactly where the declared ones do.
pub proof fn lemma_accessible_planned(fields: Seq<BitField>, out: Seq<BitField>)
    requires
        out.len() == fields.len(),
        forall|i: int|
            0 <= i < fields.len() ==> #[trigger] out[i] == (BitField { pos: out[i].pos, ..fields[i] }),
    ensures
        accessible(out).len() == accessible(fields).len(),
        forall|k: int|
            0 <= k < accessible(fields).len() ==> #[trigger] accessible(out)[k] == (BitField {
                pos: accessible(out)[k].pos,
                ..accessible(fields)[k]
            }),
    decreases fields.len(),
{
    if fields.len() > 0 {
        let last = fields.len() - 1;
        assert(out[last] == BitField { pos: out[last].pos, ..fields[last] });
        assert forall|i: int| 0 <= i < fields.drop_last().len() implies #[trigger] out.drop_last()[i]
            == (BitField { pos: out.drop_last()[i].pos, ..fields.drop_last()[i] }) by {
            assert(out[i] == BitField { pos: out[i].pos, ..fields[i] });
        }
        lemma_accessible_planned(fields.drop_last(), out.drop_last());
    }
}

/// What was written to a field is what is read from it, as long as the
/// value fits the field's width: writing `value` and then extracting the
/// field gives `value` back, whatever the container held before.
pub proof fn lemma_round_trip(a: Accessor, raw: u128, value: u128)
    requires
        a.wf(),
        value <= all_ones(a.bsize as nat),
    ensures
        a.extracted(a.written(raw, value)) == value,
{
    lemma_mask_shape(a.container as nat, a.bsize as nat, a.pos as nat);
    let o = a.pos as u128;
    let w = a.bsize as u128;
    let c = a.container as u128;
    let m = a.mask;
    let top = all_ones(a.container as nat);
    let low = all_ones(a.bsize as nat);
    let up = shl(value, a.pos as nat);
    let merged = ((raw & !m) | up) & top;
    let back = shr(merged & m, a.pos as nat);
    assert(back == value) by (bit_vector)
        requires
            o + w <= c <= 128,
            value <= low,
            low == (if w >= 128 {
                u128::MAX
            } else {
                !(u128::MAX << w)
            }),
            m == (if o >= 128 {
                0
            } else {
                low << o
            }),
            m & top == m,
            up == (if o >= 128 {
                0
            } else {
                value << o
            }),
            merged == ((raw & !m) | up) & top,
            back == (if o >= 128 {
                0
            } else {
                (merged & m) >> o
            }),
    ;
}

/// The getter returns what the setter wrote, as long as the value fits
/// the field's width and the getter's type holds it. A value that the type
/// does not hold is cut or read as negative: 200 written to a field of
/// eight bits comes back from an `i8` getter as -56.
pub proof fn lemma_round_trip_typed(a: Accessor, raw: u128, value: u128)
    requires
        a.wf(),
        value <= all_ones(a.bsize as nat),
        representable(a.ty@, value),
    ensures
        a.read(a.written(raw, value)).as_int() == value,
{
    lemma_round_trip(a, raw, value);
    match a.ty@ {
        ShapeView::PrimitiveInteger { width, signed } => {
            let top = all_ones(width);
            let w: u128 = if width >= 128 {
                128
            } else {
                width as u128
            };
            let low = value & top;
            if signed {
                let half = shr(top, 1);
                let sign = shr(
                    low,
                    (if width >= 128 {
                        127
                    } else {
                        width - 1
                    }) as nat,
                );
                assert(low == value && sign & 1 != 1 && low
                    <= 0x7fff_ffff_ffff_ffff_ffff_ffff_ffff_ffffu128) by (bit_vector)
                    requires
                        0 < w <= 128,
                        top == (if w >= 128 {
                            u128::MAX
                        } else {
                            !(u128::MAX << w)
                        }),
                        half == top >> 1u128,
                        value <= half,
                        low == value & top,
                        sign == low >> ((w - 1) as u128),
                ;
            } else {
                assert(low == value) by (bit_vector)
                    requires
                        w <= 128,
                        top == (if w >= 128 {
                            u128::MAX
                        } else {
                            !(u128::MAX << w)
                        }),
                        value <= top,
                        low == value & top,
                ;
            }
        },
        _ => {},
    }
}

/// Writing one field leaves every other field as it was, as long as the
/// value fits the written field's width: the bits of two fields that do
/// not overlap are apart.
pub proof fn lemma_isolation(a: Accessor, b: Accessor, raw: u128, value: u128)
    requires
        a.wf(),
        b.wf(),
        a.container == b.container,
        a.pos + a.bsize <= b.pos || b.pos + b.bsize <= a.pos,
        value <= all_ones(a.bsize as nat),
    ensures
        b.extracted(a.written(raw, value)) == b.extracted(raw),
{
    let c = a.container as nat;
    lemma_mask_shape(c, b.bsize as nat, b.pos as nat);
    lemma_value_inside_mask(c, a.bsize as nat, a.pos as nat, value);
    if a.pos + a.bsize <= b.pos {
        lemma_masks_apart(c, a.bsize as nat, a.pos as nat, b.bsize as nat, b.pos as nat);
    } else {
        lemma_masks_apart(c, b.bsize as nat, b.pos as nat, a.bsize as nat, a.pos as nat);
    }
    let ma = a.mask;
    let mb = b.mask;
    let top = all_ones(c);
    let up = shl(value, a.pos as nat);
    let merged = ((raw & !ma) | up) & top;
    assert(merged & mb == raw & mb) by (bit_vector)
        requires
            up & ma == up,
            ma & mb == 0 || mb & ma == 0,
            mb & top == mb,
            merged == ((raw & !ma) | up) & top,
    ;
}

/// A value wider than its field reaches into the bits above the field:
/// bit `j` of the value, for `j` at or above the field's width, is set in
/// the container at `pos + j` after the write, as long as that bit is
/// inside the container. The setter does not cut the value to the field.
pub proof fn lemma_overflow_spills(a: Accessor, raw: u128, value: u128, j: nat)
    requires
        a.wf(),
        a.bsize <= j,
        a.pos + j < a.container,
        bit(value, j),
    ensures
        bit(a.written(raw, value), a.pos as nat + j),
{
    let o = a.pos as u128;
    let c = a.container as u128;
    let jj = j as u128;
    let m = a.mask;
    let top = all_ones(a.container as nat);
    let up = shl(value, a.pos as nat);
    let merged = ((raw & !m) | up) & top;
    let src = shr(value, j);
    let dst = shr(merged, a.pos as nat + j);
    assert(dst & 1 == 1) by (bit_vector)
        requires
            o + jj < c <= 128,
            top == (if c >= 128 {
                u128::MAX
            } else {
                !(u128::MAX << c)
            }),
            up == value << o,
            merged == ((raw & !m) | up) & top,
            src == value >> jj,
            src & 1 == 1,
            dst == merged >> ((o + jj) as u128),
    ;
}

/// A value one bit too wide for its field changes the field above it: the
/// bit just above the written field's width lands on the lowest bit of the
/// field that starts where the written one ends, and that field reads with
/// its lowest bit set, whatever it held before.
pub proof fn lemma_overflow_corrupts_neighbour(a: Accessor, b: Accessor, raw: u128, value: u128)
    requires
        a.wf(),
        b.wf(),
        a.container == b.container,
        b.pos == a.pos + a.bsize,
        b.bsize > 0,
        bit(value, a.bsize as nat),
    ensures
        bit(b.extracted(a.written(raw, value)), 0),
{
    lemma_overflow_spills(a, raw, value, a.bsize as nat);
    lemma_mask_shape(b.container as nat, b.bsize as nat, b.pos as nat);
    let o = b.pos as u128;
    let w = b.bsize as u128;
    let m = b.mask;
    let low = all_ones(b.bsize as nat);
    let merged = a.written(raw, value);
    let at = shr(merged, b.pos as nat);
    let read = shr(merged & m, b.pos as nat);
    let lowest = shr(read, 0);
    assert(lowest & 1 == 1) by (bit_vector)
        requires
            0 < w,
            o + w <= 128,
            low == (if w >= 128 {
                u128::MAX
            } else {
                !(u128::MAX << w)
            }),
            m == low << o,
            at == merged >> o,
            at & 1 == 1,
            read == (merged & m) >> o,
            lowest == read >> 0u128,
    ;
}

/// Outside the written field and below the container's top, a write only
/// adds bits: every bit that was set stays set, and the bits below the
/// field stay as they were.
pub proof fn lemma_write_keeps_other_bits(a: Accessor, raw: u128, value: u128, k: nat)
    requires
        a.wf(),
        k < a.container,
        k < a.pos || a.pos + a.bsize <= k,
    ensures
        bit(raw, k) ==> bit(a.written(raw, value), k),
        k < a.pos ==> bit(a.written(raw, value), k) == bit(raw, k),
{
    lemma_mask_shape(a.container as nat, a.bsize as nat, a.pos as nat);
    let o = a.pos as u128;
    let w = a.bsize as u128;
    let c = a.container as u128;
    let kk = k as u128;
    let m = a.mask;
    let top = all_ones(a.container as nat);
    let low = all_ones(a.bsize as nat);
    let up = shl(value, a.pos as nat);
    let merged = ((raw & !m) | up) & top;
    let before = shr(raw, k);
    let after = shr(merged, k);
    assert((before & 1 == 1 ==> after & 1 == 1) && (kk < o ==> (after & 1 == 1) == (before & 1
        == 1))) by (bit_vector)
        requires
            o + w <= c <= 128,
            kk < c,
            kk < o || o + w <= kk,
            top == (if c >= 128 {
                u128::MAX
            } else {
                !(u128::MAX << c)
            }),
            low == (if w >= 128 {
                u128::MAX
            } else {
                !(u128::MAX << w)
            }),
            m == (if o >= 128 {
                0
            } else {
                low << o
            }),
            up == (if o >= 128 {
                0
            } else {
                value << o
            }),
            merged == ((raw & !m) | up) & top,
            before == raw >> kk,
            after == merged >> kk,
    ;
}

} // verus!
