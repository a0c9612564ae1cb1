//! The diagram of a record: a scale of bit indices over a box with one
//! cell per field, each cell showing the field's bits.
//!
//! ```text
//! 8    6    4    2   1   0
//! ┌────┬────┬────┬───┬───┐
//! │ rr │ 11 │ 00 │ 0 │ 1 │
//! └────┴────┴────┴───┴───┘
//! ```
//!
//! The cells stand in the order of the diagram's map, which is the order of
//! declaration backwards, and each cell takes the next bits of the
//! container from the left.

use vstd::prelude::*;
use crate::bits::MAX_WIDTH;
use crate::text::{binary, binary_text, decimal, push_decimal, push_repeat, repeat};

verus! {

/// What the diagram is drawn from.
#[derive(Debug, Clone, PartialEq, Eq)]
pub struct Diagram {
    /// The name of the record.
    pub struct_name: String,
    /// One cell per field, from the left: the field's width, and 1 where
    /// its bits are shown or 0 where it is reserved.
    pub map: Vec<(usize, usize)>,
    /// The container's width in bits.
    pub field_size: usize,
}

/// The bits that the cells of `map` take together.
pub open spec fn map_total(map: Seq<(usize, usize)>) -> nat
    decreases map.len(),
{
    if map.len() == 0 {
        0
    } else {
        map_total(map.drop_last()) + map.last().0 as nat
    }
}

/// One mark of the scale: the bit index `at`, then blanks up to the width
/// of a cell of `width` bits and its joint.
pub open spec fn scale_cell(width: nat, at: nat) -> Seq<char> {
    decimal(at) + repeat(' ', (3 + width - decimal(at).len()) as nat)
}

/// The first `k` marks of the scale above a container of `size` bits: above
/// each cell's left edge stands the index of the bit after the cell's
/// highest, counted down from `size`.
pub open spec fn scale_cells(map: Seq<(usize, usize)>, size: nat, k: nat) -> Seq<char>
    decreases k,
{
    if k == 0 {
        Seq::empty()
    } else {
        scale_cells(map, size, (k - 1) as nat) + scale_cell(
            map[k - 1].0 as nat,
            (size - map_total(map.take(k - 1))) as nat,
        )
    }
}

/// The scale: a mark for each cell, then `0` and the end of the line.
pub open spec fn scale_line(map: Seq<(usize, usize)>, size: nat) -> Seq<char> {
    scale_cells(map, size, map.len()) + "0\n"@
}

/// The inside of cell `k`. On a border it is a run of `─` two longer than
/// the field is wide. On the content line it is a blank and then the
/// field's share of `raw_bin`, or an `r` for each bit where the field is
/// reserved; the shares are handed out from the left in the order of the
/// cells.
pub open spec fn line_body(map: Seq<(usize, usize)>, raw_bin: Seq<char>, core: bool, k: int) -> Seq<
    char,
> {
    let start = map_total(map.take(k)) as int;
    let width = map[k].0 as nat;
    if core {
        " "@ + (if map[k].1 == 0 {
            repeat('r', width)
        } else {
            raw_bin.subrange(start, start + width)
        })
    } else {
        repeat('─', width + 2)
    }
}

/// What closes cell `k`: the right end after the last cell, the joint after
/// any other.
pub open spec fn line_joint(map: Seq<(usize, usize)>, mid: Seq<char>, right: Seq<char>, k: int) -> Seq<
    char,
> {
    if k + 1 == map.len() {
        right
    } else {
        mid
    }
}

/// The first `k` cells of a line, each with what closes it.
pub open spec fn line_cells(
    map: Seq<(usize, usize)>,
    raw_bin: Seq<char>,
    mid: Seq<char>,
    right: Seq<char>,
    core: bool,
    k: nat,
) -> Seq<char>
    decreases k,
{
    if k == 0 {
        Seq::empty()
    } else {
        line_cells(map, raw_bin, mid, right, core, (k - 1) as nat) + line_body(
            map,
            raw_bin,
            core,
            k - 1,
        ) + line_joint(map, mid, right, k - 1)
    }
}

/// One line of the box: the left end, the cells, the end of the line.
pub open spec fn line_text(
    map: Seq<(usize, usize)>,
    raw_bin: Seq<char>,
    left: Seq<char>,
    mid: Seq<char>,
    right: Seq<char>,
    core: bool,
) -> Seq<char> {
    left + line_cells(map, raw_bin, mid, right, core, map.len()) + "\n"@
}

/// The whole diagram for the binary digits `raw_bin`: the scale, the top
/// border, the content line and the bottom border.
pub open spec fn diagram_text(map: Seq<(usize, usize)>, raw_bin: Seq<char>) -> Seq<char> {
    scale_line(map, raw_bin.len()) + line_text(map, raw_bin, "┌"@, "┬"@, "┐"@, false) + line_text(
        map,
        raw_bin,
        "│"@,
        " │"@,
        " │"@,
        true,
    ) + line_text(map, raw_bin, "└"@, "┴"@, "┘"@, false)
}

/// A prefix of the cells takes no more bits than all of them.
pub proof fn lemma_map_total_grows(map: Seq<(usize, usize)>, k: int)
    requires
        0 <= k <= map.len(),
    ensures
        map_total(map.take(k)) <= map_total(map),
    decreases map.len() - k,
{
    if k == map.len() {
        assert(map.take(k) == map);
    } else {
        lemma_map_total_grows(map, k + 1);
        assert(map.take(k + 1).drop_last() == map.take(k));
    }
}

/// One cell more adds its width.
pub proof fn lemma_map_total_step(map: Seq<(usize, usize)>, k: int)
    requires
        0 <= k < map.len(),
    ensures
        map_total(map.take(k + 1)) == map_total(map.take(k)) + map[k].0,
{
    assert(map.take(k + 1).drop_last() == map.take(k));
}

/// A number below a thousand has as many digits as its size asks for.
pub proof fn lemma_decimal_len(n: nat)
    requires
        n < 1000,
    ensures
        decimal(n).len() == (if n < 10 {
            1nat
        } else if n < 100 {
            2nat
        } else {
            3nat
        }),
{
    reveal_with_fuel(decimal, 3);
}

/// A reserved cell shows nothing of the container: on the content line it
/// reads the same whatever the bits are.
pub proof fn lemma_reserved_cell_is_filler(
    map: Seq<(usize, usize)>,
    raw_bin: Seq<char>,
    other_bin: Seq<char>,
    k: int,
)
    requires
        0 <= k < map.len(),
        map[k].1 == 0,
    ensures
        line_body(map, raw_bin, true, k) == " "@ + repeat('r', map[k].0 as nat),
        line_body(map, raw_bin, true, k) == line_body(map, other_bin, true, k),
{
}

/// Whether the cells of `map` take no more than `limit` bits together.
pub fn cells_fit(map: &Vec<(usize, usize)>, limit: usize) -> (r: bool)
    ensures
        r == (map_total(map@) <= limit),
{
    let mut total: usize = 0;
    let mut k: usize = 0;
    while k < map.len()
        invariant
            k <= map.len(),
            total == map_total(map@.take(k as int)),
            total <= limit,
        decreases map.len() - k,
    {
        proof {
            lemma_map_total_step(map@, k as int);
        }
        if map[k].0 > limit - total {
            proof {
                lemma_map_total_grows(map@, k + 1);
            }
            return false;
        }
        total += map[k].0;
        k += 1;
    }
    proof {
        assert(map@.take(k as int) == map@);
    }
    true
}

/// The scale above the box.
pub fn print_scale(map: &Vec<(usize, usize)>, size: usize) -> (s: String)
    requires
        map_total(map@) <= size <= MAX_WIDTH,
    ensures
        s@ == scale_line(map@, size as nat),
{
    let mut out = String::new();
    let mut start: usize = 0;
    let mut k: usize = 0;
    proof {
        reveal_strlit(" ");
    }
    while k < map.len()
        invariant
            k <= map.len(),
            map_total(map@) <= size <= MAX_WIDTH,
            start == map_total(map@.take(k as int)),
            out@ == scale_cells(map@, size as nat, k as nat),
            " "@ == seq![' '],
        decreases map.len() - k,
    {
        let width = map[k].0;
        proof {
            lemma_map_total_step(map@, k as int);
            lemma_map_total_grows(map@, k + 1);
            lemma_decimal_len((size - start) as nat);
        }
        let at: usize = size - start;
        let digits: usize = if at < 10 {
            1
        } else if at < 100 {
            2
        } else {
            3
        };
        push_decimal(&mut out, at as u128);
        push_repeat(&mut out, " ", 3 + width - digits);
        proof {
            assert(out@ =~= scale_cells(map@, size as nat, (k + 1) as nat));
        }
        start += width;
        k += 1;
    }
    out.append("0\n");
    out
}

/// One line of the box. `syms` holds the left end, the joint between two
/// cells and the right end; `core` tells the content line from a border.
pub fn print_line(
    map: &Vec<(usize, usize)>,
    raw_bin: &str,
    syms: (&str, &str, &str),
    core: bool,
) -> (s: String)
    requires
        map_total(map@) <= raw_bin@.len(),
    ensures
        s@ == line_text(map@, raw_bin@, syms.0@, syms.1@, syms.2@, core),
{
    let len = raw_bin.unicode_len();
    let mut out = String::from_str(syms.0);
    let mut start: usize = 0;
    let mut k: usize = 0;
    proof {
        reveal_strlit("r");
        reveal_strlit("─");
    }
    while k < map.len()
        invariant
            k <= map.len(),
            map_total(map@) <= raw_bin@.len() == len,
            start == map_total(map@.take(k as int)),
            out@ == syms.0@ + line_cells(map@, raw_bin@, syms.1@, syms.2@, core, k as nat),
            "r"@ == seq!['r'],
            "─"@ == seq!['─'],
        decreases map.len() - k,
    {
        let width = map[k].0;
        let access = map[k].1;
        let ghost before = out@;
        proof {
            lemma_map_total_step(map@, k as int);
            lemma_map_total_grows(map@, k + 1);
        }
        if core {
            out.append(" ");
            if access == 0 {
                push_repeat(&mut out, "r", width);
            } else {
                out.append(raw_bin.substring_char(start, start + width));
            }
        } else {
            push_repeat(&mut out, "─", width);
            out.append("─");
            out.append("─");
            proof {
                assert(repeat('─', width as nat) + seq!['─'] + seq!['─'] =~= repeat(
                    '─',
                    width as nat + 2,
                ));
            }
        }
        proof {
            assert(out@ =~= before + line_body(map@, raw_bin@, core, k as int));
        }
        if k + 1 == map.len() {
            out.append(syms.2);
        } else {
            out.append(syms.1);
        }
        proof {
            assert(out@ =~= syms.0@ + line_cells(
                map@,
                raw_bin@,
                syms.1@,
                syms.2@,
                core,
                (k + 1) as nat,
            ));
        }
        start += width;
        k += 1;
    }
    out.append("\n");
    out
}

/// What the diagram of a record is drawn from: its cells, from the left,
/// and the container's width.
pub fn generate_pretty_print(struct_name: &str, map: Vec<(usize, usize)>, field_size: usize) -> (d:
    Diagram)
    ensures
        d.struct_name@ == struct_name@,
        d.map == map,
        d.field_size == field_size,
{
    Diagram { struct_name: String::from_str(struct_name), map, field_size }
}

impl Diagram {
    /// Whether the cells fit the container and the container is no wider
    /// than the widest there is.
    pub open spec fn wf(&self) -> bool {
        map_total(self.map@) <= self.field_size <= MAX_WIDTH
    }

    /// The diagram for the container's bits `raw`, as text.
    pub open spec fn text(&self, raw: u128) -> Seq<char> {
        diagram_text(self.map@, binary(raw, self.field_size as nat))
    }

    /// Whether the diagram can be drawn.
    pub fn is_well_formed(&self) -> (r: bool)
        ensures
            r == self.wf(),
    {
        self.field_size <= MAX_WIDTH && cells_fit(&self.map, self.field_size)
    }

    /// Draws the diagram for the container's bits `raw`: four lines, each
    /// with its line end. Of `raw` the container's bits count, highest
    /// first.
    pub fn pprint(&self, raw: u128) -> (s: String)
        requires
            self.wf(),
        ensures
            s@ == self.text(raw),
    {
        let raw_bin = binary_text(raw, self.field_size);
        let bits = raw_bin.as_str();
        let mut out = print_scale(&self.map, self.field_size);
        out.append(print_line(&self.map, bits, ("┌", "┬", "┐"), false).as_str());
        out.append(print_line(&self.map, bits, ("│", " │", " │"), true).as_str());
        out.append(print_line(&self.map, bits, ("└", "┴", "┘"), false).as_str());
        out
    }
}

} // verus!
