//! The scalar kinds of the layout language and the field descriptors built from them.
use vstd::prelude::*;

verus! {

/// A fixed-width scalar that a run of buffer bytes can be read as.
#[derive(PartialEq, Eq, Structural, Debug, Clone, Copy)]
pub enum ParseChar {
    I8,
    U8,
    Bool,
    I16,
    U16,
    I32,
    U32,
    I64,
    U64,
}

/// The one-character tag that names `k` in instruction text.
pub open spec fn tag_of(k: ParseChar) -> char {
    match k {
        ParseChar::I8 => 'b',
        ParseChar::U8 => 'B',
        ParseChar::Bool => '?',
        ParseChar::I16 => 'h',
        ParseChar::U16 => 'H',
        ParseChar::I32 => 'i',
        ParseChar::U32 => 'I',
        ParseChar::I64 => 'l',
        ParseChar::U64 => 'L',
    }
}

/// The kind that tag `c` names, if any.
pub open spec fn kind_of_tag(c: char) -> Option<ParseChar> {
    if c == 'b' {
        Some(ParseChar::I8)
    } else if c == 'B' {
        Some(ParseChar::U8)
    } else if c == '?' {
        Some(ParseChar::Bool)
    } else if c == 'h' {
        Some(ParseChar::I16)
    } else if c == 'H' {
        Some(ParseChar::U16)
    } else if c == 'i' {
        Some(ParseChar::I32)
    } else if c == 'I' {
        Some(ParseChar::U32)
    } else if c == 'l' {
        Some(ParseChar::I64)
    } else if c == 'L' {
        Some(ParseChar::U64)
    } else {
        None
    }
}

pub open spec fn is_tag(c: char) -> bool {
    kind_of_tag(c) is Some
}

/// Number of buffer bytes one value of kind `k` occupies.
pub open spec fn width_of(k: ParseChar) -> nat {
    match k {
        ParseChar::I8 | ParseChar::U8 | ParseChar::Bool => 1,
        ParseChar::I16 | ParseChar::U16 => 2,
        ParseChar::I32 | ParseChar::U32 => 4,
        ParseChar::I64 | ParseChar::U64 => 8,
    }
}

/// Whether values of kind `k` are read as two's complement.
pub open spec fn is_signed(k: ParseChar) -> bool {
    match k {
        ParseChar::I8 | ParseChar::I16 | ParseChar::I32 | ParseChar::I64 => true,
        _ => false,
    }
}

/// The tag table is a bijection between the kinds and the tag characters.
pub proof fn lemma_tag_bijection(k: ParseChar, c: char)
    ensures
        kind_of_tag(tag_of(k)) == Some(k),
        kind_of_tag(c) == Some(k) ==> tag_of(k) == c,
{
}

impl ParseChar {
    /// Looks up the kind named by `c`; `None` when `c` is no tag.
    pub fn from_tag(c: char) -> (r: Option<ParseChar>)
        ensures
            r == kind_of_tag(c),
    {
        match c {
            'b' => Some(ParseChar::I8),
            'B' => Some(ParseChar::U8),
            '?' => Some(ParseChar::Bool),
            'h' => Some(ParseChar::I16),
            'H' => Some(ParseChar::U16),
            'i' => Some(ParseChar::I32),
            'I' => Some(ParseChar::U32),
            'l' => Some(ParseChar::I64),
            'L' => Some(ParseChar::U64),
            _ => None,
        }
    }

    pub fn tag(&self) -> (r: char)
        ensures
            r == tag_of(*self),
    {
        match self {
            ParseChar::I8 => 'b',
            ParseChar::U8 => 'B',
            ParseChar::Bool => '?',
            ParseChar::I16 => 'h',
            ParseChar::U16 => 'H',
            ParseChar::I32 => 'i',
            ParseChar::U32 => 'I',
            ParseChar::I64 => 'l',
            ParseChar::U64 => 'L',
        }
    }

    pub fn width(&self) -> (r: usize)
        ensures
            r == width_of(*self),
    {
        match self {
            ParseChar::I8 | ParseChar::U8 | ParseChar::Bool => 1,
            ParseChar::I16 | ParseChar::U16 => 2,
            ParseChar::I32 | ParseChar::U32 => 4,
            ParseChar::I64 | ParseChar::U64 => 8,
        }
    }

    pub fn signed(&self) -> (r: bool)
        ensures
            r == is_signed(*self),
    {
        match self {
            ParseChar::I8 | ParseChar::I16 | ParseChar::I32 | ParseChar::I64 => true,
            _ => false,
        }
    }
}

/// A run of `count` consecutive values of one kind.
#[derive(PartialEq, Eq, Structural, Debug, Clone, Copy)]
pub struct MultipleParseChar {
    pub kind: ParseChar,
    pub count: usize,
}

impl MultipleParseChar {
    /// A descriptor is well formed when it covers at least one value.
    pub open spec fn wf(&self) -> bool {
        self.count >= 1
    }

    pub fn single(kind: ParseChar) -> (r: MultipleParseChar)
        ensures
            r == (MultipleParseChar { kind, count: 1 }),
            r.wf(),
    {
        MultipleParseChar { kind, count: 1 }
    }

    pub fn many(kind: ParseChar, count: usize) -> (r: MultipleParseChar)
        requires
            count >= 1,
        ensures
            r == (MultipleParseChar { kind, count }),
            r.wf(),
    {
        MultipleParseChar { kind, count }
    }
}

/// Every descriptor of `ds` is well formed.
pub open spec fn all_wf(ds: Seq<MultipleParseChar>) -> bool {
    forall|i: int| 0 <= i < ds.len() ==> (#[trigger] ds[i]).wf()
}

} // verus!
