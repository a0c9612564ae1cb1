//! The schema of a bit-packed record: its declared fields, how a field's
//! name is read, and where each field is placed in the container.

use vstd::prelude::*;
use crate::error::{Error, ErrorView};
use crate::macroparams::Endianness;
use crate::pprint::map_total;
use crate::text::{chars_of, last_index_of, lemma_last_index_of, parse_width, same_text, width_of};

verus! {

/// Who may call a field's accessors.
#[derive(Debug, Clone, Copy, PartialEq, Eq, Structural)]
pub enum Visibility {
    Public,
    Private,
}

/// The type written for a field in its declaration, as far as the layout
/// looks at it.
#[derive(Debug, Clone, PartialEq, Eq)]
pub enum TypeToken {
    /// A named type; the text is the first segment of its path.
    Path(String),
    /// A tuple of this many elements.
    Tuple(usize),
    /// Any other form of type.
    Other,
}

/// A [`TypeToken`] with its name as a sequence of characters.
pub enum TokenView {
    Path(Seq<char>),
    Tuple(nat),
    Other,
}

impl View for TypeToken {
    type V = TokenView;

    open spec fn view(&self) -> TokenView {
        match self {
            TypeToken::Path(name) => TokenView::Path(name@),
            TypeToken::Tuple(n) => TokenView::Tuple(*n as nat),
            TypeToken::Other => TokenView::Other,
        }
    }
}

/// What a field's getter returns.
#[derive(Debug, Clone, PartialEq, Eq)]
pub enum TypeShape {
    /// A primitive integer of `width` bits: the field is cast to it.
    PrimitiveInteger { width: usize, signed: bool },
    /// The container's own integer type.
    ContainerAlias,
    /// A type of the caller's, reached by a conversion from the container's
    /// integer.
    Custom(String),
    /// A type no getter can return.
    Unsupported,
}

/// A [`TypeShape`] with its name as a sequence of characters.
pub enum ShapeView {
    PrimitiveInteger { width: nat, signed: bool },
    ContainerAlias,
    Custom(Seq<char>),
    Unsupported,
}

impl View for TypeShape {
    type V = ShapeView;

    open spec fn view(&self) -> ShapeView {
        match self {
            TypeShape::PrimitiveInteger { width, signed } => ShapeView::PrimitiveInteger {
                width: *width as nat,
                signed: *signed,
            },
            TypeShape::ContainerAlias => ShapeView::ContainerAlias,
            TypeShape::Custom(name) => ShapeView::Custom(name@),
            TypeShape::Unsupported => ShapeView::Unsupported,
        }
    }
}

/// One field as it is declared: its full name, width suffix included, and
/// its type.
#[derive(Debug, Clone, PartialEq, Eq)]
pub struct FieldDecl {
    /// The name with its width: `label_width`.
    pub name: String,
    /// The type as it was written.
    pub ty: TypeToken,
    /// Who may call the field's accessors.
    pub vis: Visibility,
}

/// A [`FieldDecl`] with its texts as sequences of characters.
pub struct DeclView {
    pub name: Seq<char>,
    pub ty: TokenView,
    pub vis: Visibility,
}

impl View for FieldDecl {
    type V = DeclView;

    open spec fn view(&self) -> DeclView {
        DeclView { name: self.name@, ty: self.ty@, vis: self.vis }
    }
}

/// One field of the record.
#[derive(Debug, Clone, PartialEq, Eq)]
pub struct BitField {
    /// The name without its width suffix.
    pub name: String,
    /// The number of bits.
    pub bsize: usize,
    /// The index of the lowest bit in the container; 0 until the layout is
    /// planned.
    pub pos: usize,
    /// Whether the field is reserved: it takes its bits and gets no
    /// accessors.
    pub skip: bool,
    /// What the field's getter returns.
    pub ty: TypeShape,
    /// Who may call the field's accessors.
    pub vis: Visibility,
}

/// A [`BitField`] with its texts as sequences of characters.
pub struct FieldView {
    pub name: Seq<char>,
    pub bsize: nat,
    pub pos: nat,
    pub skip: bool,
    pub ty: ShapeView,
    pub vis: Visibility,
}

impl View for BitField {
    type V = FieldView;

    open spec fn view(&self) -> FieldView {
        FieldView {
            name: self.name@,
            bsize: self.bsize as nat,
            pos: self.pos as nat,
            skip: self.skip,
            ty: self.ty@,
            vis: self.vis,
        }
    }
}

/// A parsed declaration: the record's name and its fields in the order in
/// which they were declared, reserved ones included.
#[derive(Debug, Clone, PartialEq, Eq)]
pub struct Strukt {
    /// The name of the record.
    pub name: String,
    /// The fields in the order of their declaration, reserved ones
    /// included.
    pub bfields: Vec<BitField>,
    /// Who may use the record.
    pub vis: Visibility,
    /// For the diagram: each field's width and whether it has accessors
    /// (1) or is reserved (0), last declared field first.
    pub map: Vec<(usize, usize)>,
}

/// The label that marks a field as reserved.
pub open spec fn reserved_label() -> Seq<char> {
    "_reserved"@
}

/// The width and signedness of the primitive integer type called `name`.
pub open spec fn primitive_of(name: Seq<char>) -> Option<(nat, bool)> {
    if name == "u8"@ {
        Some((8nat, false))
    } else if name == "u16"@ {
        Some((16nat, false))
    } else if name == "u32"@ {
        Some((32nat, false))
    } else if name == "u64"@ {
        Some((64nat, false))
    } else if name == "u128"@ {
        Some((128nat, false))
    } else if name == "i8"@ {
        Some((8nat, true))
    } else if name == "i16"@ {
        Some((16nat, true))
    } else if name == "i32"@ {
        Some((32nat, true))
    } else if name == "i64"@ {
        Some((64nat, true))
    } else if name == "i128"@ {
        Some((128nat, true))
    } else {
        None
    }
}

/// What a getter returns for a field declared with the type `token`.
pub open spec fn classify(token: TokenView) -> ShapeView {
    match token {
        TokenView::Path(name) => match primitive_of(name) {
            Some((width, signed)) => ShapeView::PrimitiveInteger { width, signed },
            None => ShapeView::Custom(name),
        },
        TokenView::Tuple(n) => if n == 0 {
            ShapeView::ContainerAlias
        } else {
            ShapeView::Unsupported
        },
        TokenView::Other => ShapeView::Unsupported,
    }
}

/// The part of a field's name before its last `_`.
pub open spec fn label_of(name: Seq<char>) -> Seq<char> {
    name.subrange(0, last_index_of(name, '_'))
}

/// The part of a field's name after its last `_`.
pub open spec fn suffix_of(name: Seq<char>) -> Seq<char> {
    name.subrange(last_index_of(name, '_') + 1, name.len() as int)
}

/// The field that a declaration stands for. Its name must hold a `_`, and
/// what follows the last one must be a width. It is reserved exactly if
/// the rest of the name is the reserved label.
pub open spec fn field_spec(decl: DeclView) -> Result<FieldView, ErrorView> {
    if !decl.name.contains('_') {
        Err(ErrorView::MalformedFieldName { field: decl.name })
    } else {
        match width_of(suffix_of(decl.name)) {
            None => Err(ErrorView::MalformedFieldName { field: decl.name }),
            Some(width) => Ok(
                FieldView {
                    name: label_of(decl.name),
                    bsize: width,
                    pos: 0,
                    skip: label_of(decl.name) == reserved_label(),
                    ty: classify(decl.ty),
                    vis: decl.vis,
                },
            ),
        }
    }
}

/// The bits that `fields` take together, reserved fields included.
pub open spec fn total_width(fields: Seq<BitField>) -> nat
    decreases fields.len(),
{
    if fields.len() == 0 {
        0
    } else {
        total_width(fields.drop_last()) + fields.last().bsize as nat
    }
}

/// Where field `i` starts when the first declared field takes the lowest
/// bits: above all the fields declared before it.
pub open spec fn lsb_offset(fields: Seq<BitField>, i: int) -> int {
    total_width(fields.take(i)) as int
}

/// Where field `i` starts when the first declared field takes the highest
/// bits of a container of `container` bits: below itself and all the fields
/// declared before it, counted from the top.
pub open spec fn msb_offset(fields: Seq<BitField>, container: nat, i: int) -> int {
    container - total_width(fields.take(i + 1))
}

/// Where field `i` starts in a container of `container` bits filled in the
/// order `endianness`.
pub open spec fn offset_of(
    fields: Seq<BitField>,
    container: nat,
    endianness: Endianness,
    i: int,
) -> int {
    match endianness {
        Endianness::Lsb => lsb_offset(fields, i),
        Endianness::Msb => msb_offset(fields, container, i),
    }
}

/// `out` is `fields` with every position filled in, and nothing else
/// changed.
pub open spec fn planned(
    fields: Seq<BitField>,
    out: Seq<BitField>,
    container: nat,
    endianness: Endianness,
) -> bool {
    &&& out.len() == fields.len()
    &&& forall|i: int|
        0 <= i < fields.len() ==> {
            &&& (#[trigger] out[i]).pos == offset_of(fields, container, endianness, i)
            &&& out[i] == BitField { pos: out[i].pos, ..fields[i] }
        }
}

/// Whether every field lies inside a container of `container` bits.
pub open spec fn all_inside(fields: Seq<BitField>, container: nat) -> bool {
    forall|i: int| 0 <= i < fields.len() ==> (#[trigger] fields[i]).pos + fields[i].bsize <= container
}

/// The diagram's cell for one field.
pub open spec fn map_entry(field: BitField) -> (usize, usize) {
    (
        field.bsize,
        if field.skip {
            0usize
        } else {
            1usize
        },
    )
}

/// The diagram's cells for `fields`, last declared field first.
pub open spec fn diagram_map(fields: Seq<BitField>) -> Seq<(usize, usize)> {
    Seq::new(fields.len(), |k: int| map_entry(fields[fields.len() - 1 - k]))
}

/// A prefix of the fields takes no more bits than all of them.
pub proof fn lemma_total_width_grows(fields: Seq<BitField>, k: int)
    requires
        0 <= k <= fields.len(),
    ensures
        total_width(fields.take(k)) <= total_width(fields),
    decreases fields.len() - k,
{
    if k == fields.len() {
        assert(fields.take(k) == fields);
    } else {
        lemma_total_width_grows(fields, k + 1);
        assert(fields.take(k + 1).drop_last() == fields.take(k));
    }
}

/// One field more adds its width.
pub proof fn lemma_total_width_step(fields: Seq<BitField>, k: int)
    requires
        0 <= k < fields.len(),
    ensures
        total_width(fields.take(k + 1)) == total_width(fields.take(k)) + fields[k].bsize,
{
    assert(fields.take(k + 1).drop_last() == fields.take(k));
}

/// The first field and the rest take together what all fields take.
pub proof fn lemma_total_width_front(fields: Seq<BitField>)
    requires
        fields.len() > 0,
    ensures
        total_width(fields) == fields[0].bsize + total_width(fields.drop_first()),
    decreases fields.len(),
{
    if fields.len() == 1 {
        assert(fields.drop_first() == fields.drop_last());
    } else {
        let head = fields.drop_last();
        lemma_total_width_front(head);
        assert(head.drop_first() == fields.drop_first().drop_last());
    }
}

/// The diagram's cells take together what the fields take.
pub proof fn lemma_diagram_map_total(fields: Seq<BitField>)
    ensures
        map_total(diagram_map(fields)) == total_width(fields),
    decreases fields.len(),
{
    let map = diagram_map(fields);
    if fields.len() > 0 {
        lemma_total_width_front(fields);
        lemma_diagram_map_total(fields.drop_first());
        assert(map.drop_last() == diagram_map(fields.drop_first()));
    }
}

/// Every field of a planned layout lies inside the container.
pub proof fn lemma_planned_inside(
    fields: Seq<BitField>,
    out: Seq<BitField>,
    container: nat,
    endianness: Endianness,
    i: int,
)
    requires
        total_width(fields) <= container,
        planned(fields, out, container, endianness),
        0 <= i < fields.len(),
    ensures
        out[i].bsize == fields[i].bsize,
        out[i].pos + out[i].bsize <= container,
{
    lemma_total_width_step(fields, i);
    lemma_total_width_grows(fields, i + 1);
}

/// Two fields of a planned layout share no bit: with `Lsb` the one
/// declared first lies wholly below the other, with `Msb` wholly above.
pub proof fn lemma_planned_apart(
    fields: Seq<BitField>,
    out: Seq<BitField>,
    container: nat,
    endianness: Endianness,
    i: int,
    j: int,
)
    requires
        total_width(fields) <= container,
        planned(fields, out, container, endianness),
        0 <= i < j < fields.len(),
    ensures
        endianness == Endianness::Lsb ==> out[i].pos + out[i].bsize <= out[j].pos,
        endianness == Endianness::Msb ==> out[j].pos + out[j].bsize <= out[i].pos,
{
    lemma_total_width_step(fields, i);
    lemma_total_width_step(fields, j);
    lemma_total_width_grows(fields.take(j), i + 1);
    assert(fields.take(j).take(i + 1) == fields.take(i + 1));
    lemma_total_width_grows(fields, j + 1);
}

/// The fields of a planned layout leave no gap between them. With `Lsb`
/// the first starts at bit 0 and each next one starts where the one before
/// it ends; with `Msb` the first ends at the container's top and each next
/// one ends where the one before it starts.
pub proof fn lemma_planned_contiguous(
    fields: Seq<BitField>,
    out: Seq<BitField>,
    container: nat,
    endianness: Endianness,
    i: int,
)
    requires
        total_width(fields) <= container,
        planned(fields, out, container, endianness),
        0 <= i < fields.len(),
    ensures
        endianness == Endianness::Lsb && i == 0 ==> out[i].pos == 0,
        endianness == Endianness::Lsb && i > 0 ==> out[i].pos == out[i - 1].pos + out[i - 1].bsize,
        endianness == Endianness::Msb && i == 0 ==> out[i].pos + out[i].bsize == container,
        endianness == Endianness::Msb && i > 0 ==> out[i].pos + out[i].bsize == out[i - 1].pos,
{
    lemma_total_width_step(fields, i);
    lemma_total_width_grows(fields, i + 1);
    if i > 0 {
        lemma_total_width_step(fields, i - 1);
    } else {
        assert(total_width(fields.take(0)) == 0);
    }
}

/// The positions of the two orders, field by field. With `Lsb` the first
/// field starts at bit 0 and each next one starts its predecessor's width
/// higher: 0, w1, w1 + w2 and so on. With `Msb` the first field starts its
/// own width below the container's top and each next one its own width
/// lower: W - w1, W - w1 - w2 and so on.
pub proof fn lemma_ordering_remap(fields: Seq<BitField>, container: nat, i: int)
    requires
        0 <= i < fields.len(),
    ensures
        i == 0 ==> lsb_offset(fields, i) == 0,
        i > 0 ==> lsb_offset(fields, i) == lsb_offset(fields, i - 1) + fields[i - 1].bsize,
        i == 0 ==> msb_offset(fields, container, i) == container - fields[0].bsize,
        i > 0 ==> msb_offset(fields, container, i) == msb_offset(fields, container, i - 1)
            - fields[i].bsize,
{
    lemma_total_width_step(fields, i);
    if i > 0 {
        lemma_total_width_step(fields, i - 1);
    } else {
        assert(total_width(fields.take(0)) == 0);
    }
}

/// The name of a field split at its last `_`.
pub fn rsplit<'a>(field: &'a str) -> (r: Result<(&'a str, &'a str), Error>)
    ensures
        r is Ok <==> field@.contains('_'),
        match r {
            Ok((label, suffix)) => {
                &&& label@ == label_of(field@)
                &&& suffix@ == suffix_of(field@)
                &&& label@ + seq!['_'] + suffix@ == field@
                &&& !suffix@.contains('_')
            },
            Err(e) => e@ == ErrorView::MalformedFieldName { field: field@ },
        },
{
    let all = chars_of(field);
    let mut idx: usize = all.len();
    while idx > 0
        invariant
            idx <= all.len(),
            all@ == field@,
            forall|j: int| idx <= j < all.len() ==> all@[j] != '_',
        decreases idx,
    {
        if all[idx - 1] == '_' {
            let at: usize = idx - 1;
            proof {
                lemma_last_index_of(field@, '_');
                assert(field@[at as int] == '_');
                assert(last_index_of(field@, '_') == at);
            }
            let label = field.substring_char(0, at);
            let suffix = field.substring_char(idx, all.len());
            proof {
                assert(label@ + seq!['_'] + suffix@ =~= field@);
                if suffix@.contains('_') {
                    let k = choose|k: int| 0 <= k < suffix@.len() && suffix@[k] == '_';
                    assert(field@[idx + k] == '_');
                }
            }
            return Ok((label, suffix));
        }
        idx -= 1;
    }
    proof {
        if field@.contains('_') {
            let k = choose|k: int| 0 <= k < field@.len() && field@[k] == '_';
            assert(all@[k] != '_');
        }
    }
    Err(Error::MalformedFieldName { field: String::from_str(field) })
}

impl TypeToken {
    /// What a getter returns for a field declared with this type.
    pub fn classify(&self) -> (r: TypeShape)
        ensures
            r@ == classify(self@),
    {
        match self {
            TypeToken::Path(name) => {
                let n = name.as_str();
                if same_text(n, "u8") {
                    TypeShape::PrimitiveInteger { width: 8, signed: false }
                } else if same_text(n, "u16") {
                    TypeShape::PrimitiveInteger { width: 16, signed: false }
                } else if same_text(n, "u32") {
                    TypeShape::PrimitiveInteger { width: 32, signed: false }
                } else if same_text(n, "u64") {
                    TypeShape::PrimitiveInteger { width: 64, signed: false }
                } else if same_text(n, "u128") {
                    TypeShape::PrimitiveInteger { width: 128, signed: false }
                } else if same_text(n, "i8") {
                    TypeShape::PrimitiveInteger { width: 8, signed: true }
                } else if same_text(n, "i16") {
                    TypeShape::PrimitiveInteger { width: 16, signed: true }
                } else if same_text(n, "i32") {
                    TypeShape::PrimitiveInteger { width: 32, signed: true }
                } else if same_text(n, "i64") {
                    TypeShape::PrimitiveInteger { width: 64, signed: true }
                } else if same_text(n, "i128") {
                    TypeShape::PrimitiveInteger { width: 128, signed: true }
                } else {
                    TypeShape::Custom(name.clone())
                }
            },
            TypeToken::Tuple(n) => {
                if *n == 0 {
                    TypeShape::ContainerAlias
                } else {
                    TypeShape::Unsupported
                }
            },
            TypeToken::Other => TypeShape::Unsupported,
        }
    }
}

impl TypeShape {
    /// A copy of this shape.
    pub fn duplicate(&self) -> (r: TypeShape)
        ensures
            r == *self,
    {
        match self {
            TypeShape::PrimitiveInteger { width, signed } => TypeShape::PrimitiveInteger {
                width: *width,
                signed: *signed,
            },
            TypeShape::ContainerAlias => TypeShape::ContainerAlias,
            TypeShape::Custom(name) => TypeShape::Custom(name.clone()),
            TypeShape::Unsupported => TypeShape::Unsupported,
        }
    }
}

impl BitField {
    /// Reads a declaration: the name is split at its last `_` into label
    /// and width, the type is classified, and the position is left at 0.
    pub fn try_from(field: &FieldDecl) -> (r: Result<BitField, Error>)
        ensures
            match r {
                Ok(f) => field_spec(field@) == Ok::<FieldView, ErrorView>(f@),
                Err(e) => field_spec(field@) == Err::<FieldView, ErrorView>(e@),
            },
    {
        let (label, suffix) = match rsplit(field.name.as_str()) {
            Ok(parts) => parts,
            Err(e) => {
                return Err(e);
            },
        };
        let bsize = match parse_width(suffix) {
            Some(n) => n,
            None => {
                return Err(Error::MalformedFieldName { field: field.name.clone() });
            },
        };
        let skip = same_text(label, "_reserved");
        Ok(
            BitField {
                name: String::from_str(label),
                bsize,
                pos: 0,
                skip,
                ty: field.ty.classify(),
                vis: field.vis,
            },
        )
    }

    /// Places the field with its lowest bit at `position`.
    pub fn update_pos(&mut self, position: usize)
        ensures
            *final(self) == (BitField { pos: position, ..*old(self) }),
    {
        self.pos = position;
    }

    /// A copy of this field.
    pub fn duplicate(&self) -> (r: BitField)
        ensures
            r == *self,
    {
        BitField {
            name: self.name.clone(),
            bsize: self.bsize,
            pos: self.pos,
            skip: self.skip,
            ty: self.ty.duplicate(),
            vis: self.vis,
        }
    }
}

/// The bits that `fields` take together.
pub fn width_sum(fields: &Vec<BitField>) -> (total: u128)
    ensures
        total == total_width(fields@),
{
    let mut total: u128 = 0;
    let mut i: usize = 0;
    while i < fields.len()
        invariant
            i <= fields.len(),
            total == total_width(fields@.take(i as int)),
            total <= i * usize::MAX,
        decreases fields.len() - i,
    {
        proof {
            lemma_total_width_step(fields@, i as int);
            assert((i + 1) * usize::MAX <= usize::MAX * usize::MAX) by (nonlinear_arith)
                requires
                    i + 1 <= usize::MAX,
            ;
            assert(usize::MAX * usize::MAX <= u128::MAX) by (nonlinear_arith)
                requires
                    usize::MAX <= 0xffff_ffff_ffff_ffff,
            ;
            assert((i + 1) * usize::MAX == i * usize::MAX + usize::MAX) by (nonlinear_arith);
        }
        total = total + fields[i].bsize as u128;
        i += 1;
    }
    proof {
        assert(fields@.take(i as int) == fields@);
    }
    total
}

impl Strukt {
    /// Reads the declaration of a record. Each field is read in turn, in
    /// the order of its declaration; the first one that cannot be read ends
    /// the whole with its error.
    pub fn parse(name: &str, vis: Visibility, fields: &Vec<FieldDecl>) -> (r: Result<
        Strukt,
        Error,
    >)
        ensures
            match r {
                Ok(s) => {
                    &&& s.name@ == name@
                    &&& s.vis == vis
                    &&& s.bfields@.len() == fields@.len()
                    &&& forall|i: int|
                        0 <= i < fields@.len() ==> field_spec(#[trigger] fields@[i]@) == Ok::<
                            FieldView,
                            ErrorView,
                        >(s.bfields@[i]@)
                    &&& s.map@ == diagram_map(s.bfields@)
                },
                Err(e) => exists|i: int|
                    {
                        &&& 0 <= i < fields@.len()
                        &&& field_spec(#[trigger] fields@[i]@) == Err::<FieldView, ErrorView>(e@)
                        &&& forall|j: int| 0 <= j < i ==> field_spec(#[trigger] fields@[j]@) is Ok
                    },
            },
    {
        let mut bfields: Vec<BitField> = Vec::new();
        let mut i: usize = 0;
        while i < fields.len()
            invariant
                i <= fields.len(),
                bfields@.len() == i,
                forall|j: int|
                    0 <= j < i ==> field_spec(#[trigger] fields@[j]@) == Ok::<FieldView, ErrorView>(
                        bfields@[j]@,
                    ),
            decreases fields.len() - i,
        {
            match BitField::try_from(&fields[i]) {
                Ok(bfield) => {
                    bfields.push(bfield);
                },
                Err(e) => {
                    return Err(e);
                },
            }
            i += 1;
        }
        let map = build_map(&bfields);
        Ok(Strukt { name: String::from_str(name), bfields, vis, map })
    }

    /// Whether a container of `bitfield_size` bits holds every field,
    /// reserved ones included.
    pub fn is_large_enough(&self, bitfield_size: usize) -> (r: bool)
        ensures
            r == (total_width(self.bfields@) <= bitfield_size),
    {
        width_sum(&self.bfields) <= bitfield_size as u128
    }

    /// Gives every field its position in a container of `container_width`
    /// bits. With `Lsb` the first declared field takes the lowest bits and
    /// each next one follows above it; with `Msb` the first declared field
    /// takes the highest bits and each next one follows below it. Fails
    /// where the fields need more bits than the container has.
    pub fn plan(&self, container_width: usize, endianness: Endianness) -> (r: Result<
        Vec<BitField>,
        Error,
    >)
        ensures
            match r {
                Ok(out) => {
                    &&& total_width(self.bfields@) <= container_width
                    &&& planned(self.bfields@, out@, container_width as nat, endianness)
                    &&& all_inside(out@, container_width as nat)
                },
                Err(e) => {
                    &&& total_width(self.bfields@) > container_width
                    &&& e@ == ErrorView::LayoutOverflow {
                        excess: (total_width(self.bfields@) - container_width) as nat,
                    }
                },
            },
    {
        if !self.is_large_enough(container_width) {
            let excess = width_sum(&self.bfields) - container_width as u128;
            return Err(Error::LayoutOverflow { excess });
        }
        let mut out: Vec<BitField> = Vec::new();
        let mut below: usize = 0;
        let mut i: usize = 0;
        while i < self.bfields.len()
            invariant
                i <= self.bfields.len(),
                out@.len() == i,
                total_width(self.bfields@) <= container_width,
                below == total_width(self.bfields@.take(i as int)),
                forall|j: int|
                    0 <= j < i ==> {
                        &&& (#[trigger] out@[j]).pos == offset_of(
                            self.bfields@,
                            container_width as nat,
                            endianness,
                            j,
                        )
                        &&& out@[j] == BitField { pos: out@[j].pos, ..self.bfields@[j] }
                        &&& out@[j].pos + out@[j].bsize <= container_width
                    },
            decreases self.bfields.len() - i,
        {
            proof {
                lemma_total_width_step(self.bfields@, i as int);
                lemma_total_width_grows(self.bfields@, i + 1);
            }
            let mut field = self.bfields[i].duplicate();
            let above: usize = below + field.bsize;
            match endianness {
                Endianness::Lsb => field.update_pos(below),
                Endianness::Msb => field.update_pos(container_width - above),
            }
            out.push(field);
            below = above;
            i += 1;
        }
        Ok(out)
    }
}

/// The diagram's cells for `fields`, last declared field first.
pub fn build_map(fields: &Vec<BitField>) -> (map: Vec<(usize, usize)>)
    ensures
        map@ == diagram_map(fields@),
{
    let mut map: Vec<(usize, usize)> = Vec::new();
    let mut left: usize = fields.len();
    while left > 0
        invariant
            left <= fields.len(),
            map@.len() == fields.len() - left,
            forall|k: int|
                0 <= k < map@.len() ==> #[trigger] map@[k] == map_entry(
                    fields@[fields.len() - 1 - k],
                ),
        decreases left,
    {
        left -= 1;
        let field = &fields[left];
        let accessible: usize = if field.skip {
            0
        } else {
            1
        };
        map.push((field.bsize, accessible));
    }
    assert(map@ =~= diagram_map(fields@));
    map
}

} // verus!
