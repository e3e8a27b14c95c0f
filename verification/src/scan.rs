//! The escape scanner: walks annotated text as a stream of literal text
//! blocks and escape tokens, tracks a running byte offset into the plain
//! (escape-stripped) view, decodes each graphics-mode escape, and folds
//! escapes that land on the same offset into a single entry.

use vstd::prelude::*;
use vstd::string::StringSliceAdditionalSpecFns;

use ansi_parser::AnsiParser;

use crate::color::{decode_params, merge_overrides, OverrideSet, TextFormattingOverride};

verus! {

/// One element of the scanned stream, as the mathematical model sees it: a
/// literal text block of some byte length, a graphics-mode escape carrying
/// its parameter bytes, or an escape of any other kind.
pub ghost enum ScanElementV {
    Text(nat),
    Graphics(Seq<u8>),
    Other,
}

/// One element of the scanned stream: a literal text block reduced to its
/// byte length, a graphics-mode escape carrying its parameter bytes, or an
/// escape of any other kind (skipped by the scanner).
pub enum ScanElement {
    Text(usize),
    Graphics(Vec<u8>),
    Other,
}

impl View for ScanElement {
    type V = ScanElementV;

    open spec fn view(&self) -> ScanElementV {
        match self {
            ScanElement::Text(l) => ScanElementV::Text(*l as nat),
            ScanElement::Graphics(ps) => ScanElementV::Graphics(ps@),
            ScanElement::Other => ScanElementV::Other,
        }
    }
}

impl DeepView for ScanElement {
    type V = ScanElementV;

    open spec fn deep_view(&self) -> ScanElementV {
        self.view()
    }
}

/// The stream of text blocks and escape tokens that scanning a byte string
/// yields, in source order.
pub uninterp spec fn ansi_elements(bytes: Seq<u8>) -> Seq<ScanElementV>;

/// The total byte length of the literal text blocks of a scanned stream:
/// the length of the plain-text view it spans.
pub open spec fn total_text_len(es: Seq<ScanElementV>) -> nat
    decreases es.len(),
{
    if es.len() == 0 {
        0
    } else {
        total_text_len(es.drop_last()) + match es.last() {
            ScanElementV::Text(l) => l,
            ScanElementV::Graphics(_) => 0,
            ScanElementV::Other => 0,
        }
    }
}

/// Relies on ansi_parser's AnsiParser::ansi_parse: splits a string into
/// literal text blocks and parsed escape sequences, in source order. The
/// text blocks are disjoint slices of the input, so their lengths sum to at
/// most the input's byte length.
#[verifier::external_body]
fn scan_elements(s: &str) -> (r: Vec<ScanElement>)
    ensures
        r.deep_view() == ansi_elements(s.spec_bytes()),
        total_text_len(r.deep_view()) <= usize::MAX,
{
    let mut out = Vec::new();
    for e in s.ansi_parse() {
        out.push(match e {
            ansi_parser::Output::TextBlock(t) => ScanElement::Text(t.len()),
            ansi_parser::Output::Escape(ansi_parser::AnsiSequence::SetGraphicsMode(m)) => {
                ScanElement::Graphics(m.as_slice().to_vec())
            },
            ansi_parser::Output::Escape(_) => ScanElement::Other,
        });
    }
    out
}

/// A byte offset into the plain-text view paired with the set of overrides
/// taking effect there.
pub struct OverrideEntry {
    pub offset: usize,
    pub overrides: OverrideSet,
}

impl View for OverrideEntry {
    type V = (nat, Seq<TextFormattingOverride>);

    open spec fn view(&self) -> (nat, Seq<TextFormattingOverride>) {
        (self.offset as nat, self.overrides@)
    }
}

impl DeepView for OverrideEntry {
    type V = (nat, Seq<TextFormattingOverride>);

    open spec fn deep_view(&self) -> (nat, Seq<TextFormattingOverride>) {
        self.view()
    }
}

/// One step of the scan: a text block advances the offset by its length, a
/// non-graphics escape is skipped, and a graphics-mode escape either merges
/// into the last entry (when that entry sits at the current offset) or
/// appends a new entry.
pub open spec fn scan_step(
    off: nat,
    entries: Seq<(nat, Seq<TextFormattingOverride>)>,
    e: ScanElementV,
) -> (nat, Seq<(nat, Seq<TextFormattingOverride>)>) {
    match e {
        ScanElementV::Text(l) => ((off + l) as nat, entries),
        ScanElementV::Other => (off, entries),
        ScanElementV::Graphics(ps) => {
            let c = decode_params(ps);
            if entries.len() > 0 && entries.last().0 == off {
                (
                    off,
                    entries.update(
                        entries.len() - 1,
                        (off, merge_overrides(entries.last().1, c)),
                    ),
                )
            } else {
                (off, entries.push((off, c)))
            }
        },
    }
}

/// The scan carried over a stream of elements, from a given offset and an
/// already accumulated entry list.
pub open spec fn scan_from(
    elems: Seq<ScanElementV>,
    off: nat,
    entries: Seq<(nat, Seq<TextFormattingOverride>)>,
) -> Seq<(nat, Seq<TextFormattingOverride>)>
    decreases elems.len(),
{
    if elems.len() == 0 {
        entries
    } else {
        let stepped = scan_step(off, entries, elems[0]);
        scan_from(elems.skip(1), stepped.0, stepped.1)
    }
}

/// The ordered override list that scanning a stream of elements produces.
pub open spec fn parse_entries(elems: Seq<ScanElementV>) -> Seq<
    (nat, Seq<TextFormattingOverride>),
> {
    scan_from(elems, 0, Seq::empty())
}

/// Entry offsets are strictly increasing: an offset appears at most once.
pub open spec fn offsets_strictly_increasing(
    es: Seq<(nat, Seq<TextFormattingOverride>)>,
) -> bool {
    forall|i: int, j: int| 0 <= i < j < es.len() ==> es[i].0 < es[j].0
}

proof fn lemma_scan_from_increasing(
    elems: Seq<ScanElementV>,
    off: nat,
    entries: Seq<(nat, Seq<TextFormattingOverride>)>,
)
    requires
        offsets_strictly_increasing(entries),
        entries.len() > 0 ==> entries.last().0 <= off,
    ensures
        offsets_strictly_increasing(scan_from(elems, off, entries)),
    decreases elems.len(),
{
    if elems.len() > 0 {
        let stepped = scan_step(off, entries, elems[0]);
        assert(offsets_strictly_increasing(stepped.1) && (stepped.1.len() > 0
            ==> stepped.1.last().0 <= stepped.0)) by {
            match elems[0] {
                ScanElementV::Text(l) => {},
                ScanElementV::Other => {},
                ScanElementV::Graphics(ps) => {
                    if entries.len() > 0 && entries.last().0 == off {
                        assert(stepped.1.last().0 == off);
                    } else {
                    }
                },
            }
        }
        lemma_scan_from_increasing(elems.skip(1), stepped.0, stepped.1);
    }
}

/// The scanner's output invariant: within one parse result the offsets are
/// strictly increasing, so two escapes separated by zero plain-text bytes
/// end up merged into a single entry rather than producing two entries at
/// the same offset.
pub proof fn lemma_parse_entries_offsets_increasing(elems: Seq<ScanElementV>)
    ensures
        offsets_strictly_increasing(parse_entries(elems)),
{
    lemma_scan_from_increasing(elems, 0, Seq::empty());
}

/// Every entry's override collection is a true set: duplicate-free, however
/// many escapes merged into it.
pub open spec fn entries_sets_unique(es: Seq<(nat, Seq<TextFormattingOverride>)>) -> bool {
    forall|i: int| 0 <= i < es.len() ==> (#[trigger] es[i].1).no_duplicates()
}

proof fn lemma_scan_from_sets_unique(
    elems: Seq<ScanElementV>,
    off: nat,
    entries: Seq<(nat, Seq<TextFormattingOverride>)>,
)
    requires
        entries_sets_unique(entries),
    ensures
        entries_sets_unique(scan_from(elems, off, entries)),
    decreases elems.len(),
{
    if elems.len() > 0 {
        let stepped = scan_step(off, entries, elems[0]);
        assert(entries_sets_unique(stepped.1)) by {
            match elems[0] {
                ScanElementV::Text(l) => {},
                ScanElementV::Other => {},
                ScanElementV::Graphics(ps) => {
                    crate::color::lemma_decode_params_no_duplicates(ps);
                    if entries.len() > 0 && entries.last().0 == off {
                        crate::color::lemma_merge_overrides_no_duplicates(
                            entries.last().1,
                            decode_params(ps),
                        );
                    }
                },
            }
        }
        lemma_scan_from_sets_unique(elems.skip(1), stepped.0, stepped.1);
    }
}

/// The scanner's output holds a duplicate-free override collection at every
/// offset: inserting the same override twice is a no-op.
pub proof fn lemma_parse_entries_sets_unique(elems: Seq<ScanElementV>)
    ensures
        entries_sets_unique(parse_entries(elems)),
{
    lemma_scan_from_sets_unique(elems, 0, Seq::empty());
}

/// The merge rule itself: a graphics-mode escape separated from the last
/// one by zero plain-text bytes folds into that entry — the entry count does
/// not grow, and the entry's offset stays where it was.
pub proof fn lemma_zero_gap_escapes_merge(
    off: nat,
    entries: Seq<(nat, Seq<TextFormattingOverride>)>,
    ps: Seq<u8>,
)
    requires
        entries.len() > 0,
        entries.last().0 == off,
    ensures
        scan_step(off, entries, ScanElementV::Graphics(ps)).1.len() == entries.len(),
        scan_step(off, entries, ScanElementV::Graphics(ps)).1.last().0 == off,
{
}

proof fn lemma_total_text_len_step(es: Seq<ScanElementV>, i: int)
    requires
        0 <= i < es.len(),
    ensures
        total_text_len(es.take(i + 1)) == total_text_len(es.take(i)) + match es[i] {
            ScanElementV::Text(l) => l,
            ScanElementV::Graphics(_) => 0nat,
            ScanElementV::Other => 0nat,
        },
{
    assert(es.take(i + 1).drop_last() =~= es.take(i));
    assert(es.take(i + 1).last() == es[i]);
}

proof fn lemma_total_text_len_prefix(es: Seq<ScanElementV>, i: int)
    requires
        0 <= i <= es.len(),
    ensures
        total_text_len(es.take(i)) <= total_text_len(es),
    decreases es.len() - i,
{
    if i == es.len() {
        assert(es.take(i) =~= es);
    } else {
        lemma_total_text_len_step(es, i);
        lemma_total_text_len_prefix(es, i + 1);
    }
}

/// Walks a scanned stream and accumulates the ordered override list: offsets
/// advance by the byte length of each text block, and a graphics-mode escape
/// at the offset of the last entry folds into it instead of appending.
pub fn collect_overrides(elems: &Vec<ScanElement>) -> (r: Vec<OverrideEntry>)
    requires
        total_text_len(elems.deep_view()) <= usize::MAX,
    ensures
        r.deep_view() == parse_entries(elems.deep_view()),
{
    let ghost all = elems.deep_view();
    let mut entries: Vec<OverrideEntry> = Vec::new();
    let mut offset: usize = 0;
    let mut i: usize = 0;
    proof {
        assert(all.skip(0) =~= all);
        assert(entries.deep_view() =~= Seq::<(nat, Seq<TextFormattingOverride>)>::empty());
        assert(all.take(0) =~= Seq::<ScanElementV>::empty());
    }
    while i < elems.len()
        invariant
            0 <= i <= elems.len(),
            all == elems.deep_view(),
            total_text_len(all) <= usize::MAX,
            offset == total_text_len(all.take(i as int)),
            parse_entries(all) == scan_from(
                all.skip(i as int),
                offset as nat,
                entries.deep_view(),
            ),
        decreases elems.len() - i,
    {
        let ghost rest = all.skip(i as int);
        proof {
            assert(rest[0] == all[i as int]);
            assert(rest.skip(1) =~= all.skip(i + 1 as int));
            lemma_total_text_len_step(all, i as int);
            lemma_total_text_len_prefix(all, i + 1 as int);
        }
        let ghost prev = entries.deep_view();
        let ghost prev_off = offset as nat;
        match &elems[i] {
            ScanElement::Text(l) => {
                proof {
                    assert(all[i as int] == ScanElementV::Text(*l as nat));
                }
                offset = offset + *l;
            },
            ScanElement::Other => {},
            ScanElement::Graphics(ps) => {
                let modes = crate::color::parse_graphics_mode(ps.as_slice());
                let n = entries.len();
                if n > 0 && entries[n - 1].offset == offset {
                    let mut last = entries.pop().unwrap();
                    last.overrides.extend(&modes);
                    entries.push(last);
                    proof {
                        let stepped = scan_step(prev_off, prev, rest[0]).1;
                        assert(entries.deep_view() =~= stepped);
                    }
                } else {
                    entries.push(OverrideEntry { offset, overrides: modes });
                    proof {
                        let stepped = scan_step(prev_off, prev, rest[0]).1;
                        assert(entries.deep_view() =~= stepped);
                    }
                }
            },
        }
        i = i + 1;
    }
    proof {
        assert(all.skip(i as int) =~= Seq::<ScanElementV>::empty());
    }
    entries
}

/// Scans an annotated string and returns the ordered override list against
/// its plain-text view: one entry per distinct offset at which a
/// graphics-mode escape takes effect, escapes of other kinds skipped.
pub fn parse_ansi_styled_str(ansi_string: &str) -> (r: Vec<OverrideEntry>)
    ensures
        r.deep_view() == parse_entries(ansi_elements(ansi_string.spec_bytes())),
        offsets_strictly_increasing(r.deep_view()),
{
    let elems = scan_elements(ansi_string);
    proof {
        lemma_parse_entries_offsets_increasing(elems.deep_view());
    }
    collect_overrides(&elems)
}

} // verus!
