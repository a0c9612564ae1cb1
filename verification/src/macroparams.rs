//! The parameters of a generation: the container, the order in which the
//! fields fill it, and the optional flags.

use vstd::prelude::*;
use crate::error::{Error, ErrorView};
use crate::text::same_text;

verus! {

/// Which end of the container the first declared field takes.
#[derive(Debug, Clone, Copy, PartialEq, Eq, Structural)]
pub enum Endianness {
    /// The first declared field takes the lowest bits.
    Lsb,
    /// The first declared field takes the highest bits.
    Msb,
}

/// The parameters of a generation.
#[derive(Debug, Clone, PartialEq, Eq)]
pub struct MacroParams {
    /// The container's width in bits.
    pub bitfield_size: usize,
    /// The order in which the fields fill the container.
    pub endianness: Endianness,
    /// The name of the container's integer type.
    pub ty: String,
    /// Whether `no_pub` was given. The flag is accepted and kept; nothing
    /// reads it.
    pub no_pub: bool,
    /// Whether the diagram is generated.
    pub pprint: bool,
}

/// The width of the container that `token` names.
pub open spec fn container_of(token: Seq<char>) -> Option<nat> {
    if token == "u8"@ {
        Some(8nat)
    } else if token == "u16"@ {
        Some(16nat)
    } else if token == "u32"@ {
        Some(32nat)
    } else if token == "u64"@ {
        Some(64nat)
    } else if token == "u128"@ {
        Some(128nat)
    } else {
        None
    }
}

/// Whether `width` is the width of a container.
pub open spec fn is_container_width(width: nat) -> bool {
    width == 8 || width == 16 || width == 32 || width == 64 || width == 128
}

/// Whether `token` is one of the options that may follow the container.
pub open spec fn is_option(token: Seq<char>) -> bool {
    token == "lsb"@ || token == "msb"@ || token == "no_pub"@ || token == "pp"@
}

/// The order that `tokens` ask for: the last of `lsb` and `msb` decides,
/// and `Lsb` holds where there is neither.
pub open spec fn ordering_of(tokens: Seq<String>) -> Endianness
    decreases tokens.len(),
{
    if tokens.len() == 0 {
        Endianness::Lsb
    } else if tokens.last()@ == "msb"@ {
        Endianness::Msb
    } else if tokens.last()@ == "lsb"@ {
        Endianness::Lsb
    } else {
        ordering_of(tokens.drop_last())
    }
}

/// Whether `flag` is among `tokens`.
pub open spec fn has_flag(tokens: Seq<String>, flag: Seq<char>) -> bool {
    exists|i: int| 0 <= i < tokens.len() && (#[trigger] tokens[i])@ == flag
}

/// Whether every token after the first is an option.
pub open spec fn options_known(tokens: Seq<String>) -> bool {
    forall|i: int| 1 <= i < tokens.len() ==> is_option((#[trigger] tokens[i])@)
}

impl Default for MacroParams {
    /// No container yet, `Lsb`, no flag set.
    fn default() -> (r: MacroParams)
        ensures
            r.bitfield_size == 0,
            r.endianness == Endianness::Lsb,
            r.ty@ == "pub"@,
            !r.no_pub,
            !r.pprint,
    {
        MacroParams {
            bitfield_size: 0,
            endianness: Endianness::Lsb,
            ty: String::from_str("pub"),
            no_pub: false,
            pprint: false,
        }
    }
}

/// The width of the container that `token` names, where it names one.
pub fn container_width(token: &str) -> (r: Option<usize>)
    ensures
        match r {
            Some(w) => container_of(token@) == Some(w as nat),
            None => container_of(token@) is None,
        },
{
    if same_text(token, "u8") {
        Some(8)
    } else if same_text(token, "u16") {
        Some(16)
    } else if same_text(token, "u32") {
        Some(32)
    } else if same_text(token, "u64") {
        Some(64)
    } else if same_text(token, "u128") {
        Some(128)
    } else {
        None
    }
}

impl MacroParams {
    /// Reads the parameters. The first names the container: `u8`, `u16`,
    /// `u32`, `u64` or `u128`. Each further one is an option: `lsb` or
    /// `msb` for the order, `no_pub`, or `pp` for the diagram. The first
    /// parameter at fault ends the reading with its error.
    pub fn parse(tokens: &Vec<String>) -> (r: Result<MacroParams, Error>)
        ensures
            match r {
                Ok(p) => {
                    &&& tokens@.len() > 0
                    &&& container_of(tokens@[0]@) == Some(p.bitfield_size as nat)
                    &&& options_known(tokens@)
                    &&& p.ty@ == tokens@[0]@
                    &&& p.endianness == ordering_of(tokens@)
                    &&& p.no_pub == has_flag(tokens@, "no_pub"@)
                    &&& p.pprint == has_flag(tokens@, "pp"@)
                },
                Err(e) => if tokens@.len() == 0 || container_of(tokens@[0]@) is None {
                    e@ == ErrorView::InvalidContainerWidth
                } else {
                    exists|i: int|
                        {
                            &&& 1 <= i < tokens@.len()
                            &&& !is_option((#[trigger] tokens@[i])@)
                            &&& e@ == ErrorView::InvalidOrderingToken { token: tokens@[i]@ }
                            &&& forall|j: int| 1 <= j < i ==> is_option((#[trigger] tokens@[j])@)
                        }
                },
            },
    {
        if tokens.len() == 0 {
            return Err(Error::InvalidContainerWidth);
        }
        let size = match container_width(tokens[0].as_str()) {
            Some(w) => w,
            None => {
                return Err(Error::InvalidContainerWidth);
            },
        };
        let mut params = MacroParams::default();
        params.bitfield_size = size;
        params.ty = tokens[0].clone();
        proof {
            lemma_container_is_no_option(tokens@[0]@);
            assert(tokens@.take(1).drop_last() == tokens@.take(0));
            assert(tokens@.take(1).last() == tokens@[0]);
            assert(ordering_of(tokens@.take(0)) == Endianness::Lsb);
            assert(ordering_of(tokens@.take(1)) == Endianness::Lsb);
            assert(!has_flag(tokens@.take(1), "no_pub"@)) by {
                assert forall|k: int| 0 <= k < tokens@.take(1).len() implies (
                #[trigger] tokens@.take(1)[k])@ != "no_pub"@ by {}
            }
            assert(!has_flag(tokens@.take(1), "pp"@)) by {
                assert forall|k: int| 0 <= k < tokens@.take(1).len() implies (
                #[trigger] tokens@.take(1)[k])@ != "pp"@ by {}
            }
        }
        let mut i: usize = 1;
        while i < tokens.len()
            invariant
                1 <= i <= tokens.len(),
                params.bitfield_size == size,
                params.ty@ == tokens@[0]@,
                container_of(tokens@[0]@) == Some(size as nat),
                forall|j: int| 1 <= j < i ==> is_option((#[trigger] tokens@[j])@),
                params.endianness == ordering_of(tokens@.take(i as int)),
                params.no_pub == has_flag(tokens@.take(i as int), "no_pub"@),
                params.pprint == has_flag(tokens@.take(i as int), "pp"@),
            decreases tokens.len() - i,
        {
            let token = tokens[i].as_str();
            let ghost before = tokens@.take(i as int);
            let ghost after = tokens@.take(i + 1);
            proof {
                assert(after.drop_last() == before);
                assert(after.last() == tokens@[i as int]);
                assert(after =~= before.push(tokens@[i as int]));
                lemma_options_differ();
            }
            if same_text(token, "lsb") {
                params.endianness = Endianness::Lsb;
            } else if same_text(token, "msb") {
                params.endianness = Endianness::Msb;
            } else if same_text(token, "no_pub") {
                params.no_pub = true;
            } else if same_text(token, "pp") {
                params.pprint = true;
            } else {
                return Err(Error::InvalidOrderingToken { token: tokens[i].clone() });
            }
            proof {
                lemma_flag_step(before, after, tokens@[i as int], "no_pub"@);
                lemma_flag_step(before, after, tokens@[i as int], "pp"@);
            }
            i += 1;
        }
        proof {
            assert(tokens@.take(i as int) == tokens@);
        }
        Ok(params)
    }
}

/// A token that names a container is none of the options.
proof fn lemma_container_is_no_option(token: Seq<char>)
    requires
        container_of(token) is Some,
    ensures
        !is_option(token),
{
    reveal_strlit("u8");
    reveal_strlit("u16");
    reveal_strlit("u32");
    reveal_strlit("u64");
    reveal_strlit("u128");
    reveal_strlit("lsb");
    reveal_strlit("msb");
    reveal_strlit("no_pub");
    reveal_strlit("pp");
    assert("u8"@[0] == 'u' && "u16"@[0] == 'u' && "u32"@[0] == 'u' && "u64"@[0] == 'u' && "u128"@[0]
        == 'u');
    assert("lsb"@[0] == 'l' && "msb"@[0] == 'm' && "no_pub"@[0] == 'n' && "pp"@[0] == 'p');
}

/// The four options are four different texts.
proof fn lemma_options_differ()
    ensures
        "lsb"@ != "msb"@,
        "lsb"@ != "no_pub"@,
        "lsb"@ != "pp"@,
        "msb"@ != "no_pub"@,
        "msb"@ != "pp"@,
        "no_pub"@ != "pp"@,
{
    reveal_strlit("lsb");
    reveal_strlit("msb");
    reveal_strlit("no_pub");
    reveal_strlit("pp");
    assert("lsb"@[0] == 'l' && "msb"@[0] == 'm' && "no_pub"@[0] == 'n' && "pp"@[0] == 'p');
}

/// A flag is among the tokens with one more exactly if it was among them
/// before or is the one added.
proof fn lemma_flag_step(before: Seq<String>, after: Seq<String>, added: String, flag: Seq<char>)
    requires
        after == before.push(added),
    ensures
        has_flag(after, flag) == (has_flag(before, flag) || added@ == flag),
{
    if has_flag(before, flag) {
        let i = choose|i: int| 0 <= i < before.len() && (#[trigger] before[i])@ == flag;
        assert(after[i]@ == flag);
    }
    if added@ == flag {
        assert(after[before.len() as int]@ == flag);
    }
    if has_flag(after, flag) {
        let i = choose|i: int| 0 <= i < after.len() && (#[trigger] after[i])@ == flag;
        if i < before.len() {
            assert(before[i]@ == flag);
        }
    }
}

} // verus!
