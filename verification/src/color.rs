//! Colours, the fixed 16-colour terminal palette, and the decoder that maps
//! numeric SGR parameters to formatting overrides.

use vstd::prelude::*;

verus! {

/// An exact 8-bit RGB triple with value semantics.
#[derive(Clone, Copy, Debug, PartialEq, Eq, Structural, Hash)]
pub struct Colour {
    pub r: u8,
    pub g: u8,
    pub b: u8,
}

impl Colour {
    pub fn from_rgb(r: u8, g: u8, b: u8) -> (c: Self)
        ensures
            c == (Colour { r, g, b }),
    {
        Self { r, g, b }
    }
}

/// One formatting instruction attached to a byte offset of the plain text.
#[derive(Clone, Copy, Debug, PartialEq, Eq, Structural, Hash)]
pub enum TextFormattingOverride {
    Reset,
    Bold,
    Dim,
    Italic,
    Underline,
    Strikethrough,
    Foreground(Colour),
    Background(Colour),
}

/// The fixed palette: colour indices 1 to 15 map to their RGB triples, every
/// other index (0 included) falls back to the near-black (1, 1, 1).
pub open spec fn palette_colour(code: u8) -> Colour {
    if code == 1 {
        Colour { r: 222, g: 56, b: 43 }
    } else if code == 2 {
        Colour { r: 57, g: 181, b: 74 }
    } else if code == 3 {
        Colour { r: 255, g: 199, b: 6 }
    } else if code == 4 {
        Colour { r: 0, g: 111, b: 184 }
    } else if code == 5 {
        Colour { r: 118, g: 38, b: 113 }
    } else if code == 6 {
        Colour { r: 44, g: 181, b: 233 }
    } else if code == 7 {
        Colour { r: 204, g: 204, b: 204 }
    } else if code == 8 {
        Colour { r: 128, g: 128, b: 128 }
    } else if code == 9 {
        Colour { r: 255, g: 0, b: 0 }
    } else if code == 10 {
        Colour { r: 0, g: 255, b: 0 }
    } else if code == 11 {
        Colour { r: 255, g: 255, b: 0 }
    } else if code == 12 {
        Colour { r: 0, g: 0, b: 255 }
    } else if code == 13 {
        Colour { r: 255, g: 0, b: 255 }
    } else if code == 14 {
        Colour { r: 0, g: 255, b: 255 }
    } else if code == 15 {
        Colour { r: 255, g: 255, b: 255 }
    } else {
        Colour { r: 1, g: 1, b: 1 }
    }
}

/// Total mapping from a palette index to its RGB triple; out-of-range indices
/// degrade to the fallback colour rather than failing.
pub fn ansi_color_code_to_color32(color_code: u8) -> (c: Colour)
    ensures
        c == palette_colour(color_code),
{
    match color_code {
        1 => Colour::from_rgb(222, 56, 43),
        2 => Colour::from_rgb(57, 181, 74),
        3 => Colour::from_rgb(255, 199, 6),
        4 => Colour::from_rgb(0, 111, 184),
        5 => Colour::from_rgb(118, 38, 113),
        6 => Colour::from_rgb(44, 181, 233),
        7 => Colour::from_rgb(204, 204, 204),
        8 => Colour::from_rgb(128, 128, 128),
        9 => Colour::from_rgb(255, 0, 0),
        10 => Colour::from_rgb(0, 255, 0),
        11 => Colour::from_rgb(255, 255, 0),
        12 => Colour::from_rgb(0, 0, 255),
        13 => Colour::from_rgb(255, 0, 255),
        14 => Colour::from_rgb(0, 255, 255),
        15 => Colour::from_rgb(255, 255, 255),
        _ => Colour::from_rgb(1, 1, 1),
    }
}

/// What a single SGR parameter decodes to. Every parameter yields an
/// override; unrecognized values degrade to a full reset, never to nothing.
pub open spec fn decode_param(p: u8) -> TextFormattingOverride {
    if p == 0 {
        TextFormattingOverride::Reset
    } else if p == 1 {
        TextFormattingOverride::Bold
    } else if p == 2 {
        TextFormattingOverride::Dim
    } else if p == 3 {
        TextFormattingOverride::Italic
    } else if p == 4 {
        TextFormattingOverride::Underline
    } else if p == 9 {
        TextFormattingOverride::Strikethrough
    } else if 30 <= p && p <= 37 {
        TextFormattingOverride::Foreground(palette_colour((p - 30) as u8))
    } else if 40 <= p && p <= 47 {
        TextFormattingOverride::Background(palette_colour((p - 40) as u8))
    } else {
        TextFormattingOverride::Reset
    }
}

/// Whether an SGR parameter value is one of the recognized codes.
pub open spec fn recognized_param(p: u8) -> bool {
    p == 0 || p == 1 || p == 2 || p == 3 || p == 4 || p == 9 || (30 <= p && p <= 37) || (40 <= p
        && p <= 47)
}

/// Unrecognized SGR parameters decode to a reset: the decoder never drops a
/// parameter silently and never faults on one.
pub proof fn lemma_unknown_param_decodes_to_reset(p: u8)
    requires
        !recognized_param(p),
    ensures
        decode_param(p) == TextFormattingOverride::Reset,
{
}

/// Adding an override to a set of overrides kept as a duplicate-free
/// sequence: inserting a member again is a no-op.
pub open spec fn insert_override(
    s: Seq<TextFormattingOverride>,
    o: TextFormattingOverride,
) -> Seq<TextFormattingOverride> {
    if s.contains(o) {
        s
    } else {
        s.push(o)
    }
}

/// The overrides decoded from one SGR parameter list, in first-appearance
/// order, each distinct override kept once.
pub open spec fn decode_params(ps: Seq<u8>) -> Seq<TextFormattingOverride>
    decreases ps.len(),
{
    if ps.len() == 0 {
        Seq::empty()
    } else {
        insert_override(decode_params(ps.drop_last()), decode_param(ps.last()))
    }
}

/// Unioning a set of freshly decoded overrides into an existing one: each
/// member in turn, members already present left alone.
pub open spec fn merge_overrides(
    dst: Seq<TextFormattingOverride>,
    src: Seq<TextFormattingOverride>,
) -> Seq<TextFormattingOverride>
    decreases src.len(),
{
    if src.len() == 0 {
        dst
    } else {
        insert_override(merge_overrides(dst, src.drop_last()), src.last())
    }
}

/// Inserting into a duplicate-free sequence keeps it duplicate-free: the
/// members of an override set stay unique.
pub proof fn lemma_insert_override_no_duplicates(
    s: Seq<TextFormattingOverride>,
    o: TextFormattingOverride,
)
    requires
        s.no_duplicates(),
    ensures
        insert_override(s, o).no_duplicates(),
{
    if !s.contains(o) {
        let t = s.push(o);
        assert forall|i: int, j: int| 0 <= i < j < t.len() implies t[i] != t[j] by {
            if j == t.len() - 1 {
                assert(t[i] == s[i]);
            }
        }
    }
}

/// A decoded parameter list is duplicate-free: the overrides it selects form
/// a set.
pub proof fn lemma_decode_params_no_duplicates(ps: Seq<u8>)
    ensures
        decode_params(ps).no_duplicates(),
    decreases ps.len(),
{
    if ps.len() > 0 {
        lemma_decode_params_no_duplicates(ps.drop_last());
        lemma_insert_override_no_duplicates(decode_params(ps.drop_last()), decode_param(ps.last()));
    }
}

/// Unioning into a duplicate-free sequence keeps it duplicate-free.
pub proof fn lemma_merge_overrides_no_duplicates(
    dst: Seq<TextFormattingOverride>,
    src: Seq<TextFormattingOverride>,
)
    requires
        dst.no_duplicates(),
    ensures
        merge_overrides(dst, src).no_duplicates(),
    decreases src.len(),
{
    if src.len() > 0 {
        lemma_merge_overrides_no_duplicates(dst, src.drop_last());
        lemma_insert_override_no_duplicates(merge_overrides(dst, src.drop_last()), src.last());
    }
}

/// A set of formatting overrides: membership is unique and order is
/// irrelevant to its meaning, though insertion order is kept for
/// deterministic application.
#[derive(Clone, Debug)]
pub struct OverrideSet {
    items: Vec<TextFormattingOverride>,
}

impl View for OverrideSet {
    type V = Seq<TextFormattingOverride>;

    closed spec fn view(&self) -> Seq<TextFormattingOverride> {
        self.items@
    }
}

impl OverrideSet {
    pub fn new() -> (s: Self)
        ensures
            s@ == Seq::<TextFormattingOverride>::empty(),
    {
        Self { items: Vec::new() }
    }

    /// Membership by full value.
    pub fn contains(&self, o: &TextFormattingOverride) -> (r: bool)
        ensures
            r == self@.contains(*o),
    {
        let mut i: usize = 0;
        while i < self.items.len()
            invariant
                0 <= i <= self.items.len(),
                forall|j: int| 0 <= j < i ==> self@[j] != *o,
            decreases self.items.len() - i,
        {
            if self.items[i] == *o {
                return true;
            }
            i = i + 1;
        }
        false
    }

    /// Inserts an override; inserting one already present changes nothing.
    pub fn insert(&mut self, o: TextFormattingOverride)
        ensures
            final(self)@ == insert_override(old(self)@, o),
    {
        if !self.contains(&o) {
            self.items.push(o);
        }
    }

    pub fn len(&self) -> (n: usize)
        ensures
            n == self@.len(),
    {
        self.items.len()
    }

    /// The override at a position of the insertion order.
    pub fn index(&self, i: usize) -> (o: TextFormattingOverride)
        requires
            i < self@.len(),
        ensures
            o == self@[i as int],
    {
        self.items[i]
    }

    /// Unions every member of another set into this one.
    pub fn extend(&mut self, other: &OverrideSet)
        ensures
            final(self)@ == merge_overrides(old(self)@, other@),
    {
        let ghost base = self@;
        let mut i: usize = 0;
        while i < other.items.len()
            invariant
                0 <= i <= other@.len(),
                self@ == merge_overrides(base, other@.take(i as int)),
            decreases other@.len() - i,
        {
            self.insert(other.items[i]);
            proof {
                assert(other@.take(i + 1 as int).drop_last() =~= other@.take(i as int));
                assert(other@.take(i + 1 as int).last() == other@[i as int]);
            }
            i = i + 1;
        }
        proof {
            assert(other@.take(other@.len() as int) =~= other@);
        }
    }

    /// Whether two override sets hold exactly the same members, whatever
    /// their insertion orders.
    pub fn set_eq(&self, other: &OverrideSet) -> (r: bool)
        ensures
            r == (self@.to_set() == other@.to_set()),
    {
        let mut i: usize = 0;
        while i < self.items.len()
            invariant
                0 <= i <= self.items.len(),
                forall|j: int| 0 <= j < i ==> other@.contains(self@[j]),
            decreases self.items.len() - i,
        {
            if !other.contains(&self.items[i]) {
                assert(!other@.to_set().contains(self@[i as int]));
                assert(self@.to_set().contains(self@[i as int]));
                return false;
            }
            i = i + 1;
        }
        let mut k: usize = 0;
        while k < other.items.len()
            invariant
                0 <= k <= other.items.len(),
                forall|j: int| 0 <= j < self@.len() ==> other@.contains(self@[j]),
                forall|j: int| 0 <= j < k ==> self@.contains(other@[j]),
            decreases other.items.len() - k,
        {
            if !self.contains(&other.items[k]) {
                assert(!self@.to_set().contains(other@[k as int]));
                assert(other@.to_set().contains(other@[k as int]));
                return false;
            }
            k = k + 1;
        }
        proof {
            assert(self@.to_set() =~= other@.to_set()) by {
                assert(forall|o: TextFormattingOverride|
                    self@.to_set().contains(o) ==> other@.to_set().contains(o));
                assert(forall|o: TextFormattingOverride|
                    other@.to_set().contains(o) ==> self@.to_set().contains(o));
            }
        }
        true
    }
}

/// Decodes one SGR parameter list into the set of overrides it selects.
/// Later parameters union into the set; duplicates are no-ops.
pub fn parse_graphics_mode(modes: &[u8]) -> (r: OverrideSet)
    ensures
        r@ == decode_params(modes@),
{
    let mut r = OverrideSet::new();
    let mut i: usize = 0;
    while i < modes.len()
        invariant
            0 <= i <= modes@.len(),
            r@ == decode_params(modes@.take(i as int)),
        decreases modes@.len() - i,
    {
        let p = modes[i];
        let o = if p == 0 {
            TextFormattingOverride::Reset
        } else if p == 1 {
            TextFormattingOverride::Bold
        } else if p == 2 {
            TextFormattingOverride::Dim
        } else if p == 3 {
            TextFormattingOverride::Italic
        } else if p == 4 {
            TextFormattingOverride::Underline
        } else if p == 9 {
            TextFormattingOverride::Strikethrough
        } else if 30 <= p && p <= 37 {
            TextFormattingOverride::Foreground(ansi_color_code_to_color32(p - 30))
        } else if 40 <= p && p <= 47 {
            TextFormattingOverride::Background(ansi_color_code_to_color32(p - 40))
        } else {
            TextFormattingOverride::Reset
        };
        assert(o == decode_param(modes@[i as int]));
        r.insert(o);
        proof {
            assert(modes@.take(i + 1 as int).drop_last() =~= modes@.take(i as int));
            assert(modes@.take(i + 1 as int).last() == modes@[i as int]);
        }
        i = i + 1;
    }
    proof {
        assert(modes@.take(modes@.len() as int) =~= modes@);
    }
    r
}

/// Every parameter of a list contributes its decoded override to the result:
/// none is dropped.
pub proof fn lemma_every_param_decoded(ps: Seq<u8>, i: int)
    requires
        0 <= i < ps.len(),
    ensures
        decode_params(ps).contains(decode_param(ps[i])),
    decreases ps.len(),
{
    if i == ps.len() - 1 {
        let prev = decode_params(ps.drop_last());
        if prev.contains(decode_param(ps.last())) {
        } else {
            assert(decode_params(ps).last() == decode_param(ps.last()));
        }
    } else {
        lemma_every_param_decoded(ps.drop_last(), i);
        assert(ps.drop_last()[i] == ps[i]);
        let prev = decode_params(ps.drop_last());
        let o = decode_param(ps.last());
        if prev.contains(o) {
        } else {
            let w = choose|w: int| 0 <= w < prev.len() && prev[w] == decode_param(ps[i]);
            assert(decode_params(ps)[w] == decode_param(ps[i]));
        }
    }
}

} // verus!
