//! The style-run compositor: walks the ordered override list together with
//! the plain (escape-stripped) text and produces contiguous styled runs,
//! threading a current style that is reset to a caller-supplied base style
//! whenever a reset override is observed.

use vstd::prelude::*;
use vstd::string::StringSliceAdditionalSpecFns;

use crate::color::{Colour, OverrideSet, TextFormattingOverride};
use crate::scan::{
    ansi_elements, offsets_strictly_increasing, parse_ansi_styled_str, parse_entries,
    OverrideEntry,
};

verus! {

/// The font-size proxy of the base style.
pub const DEFAULT_FONT_SIZE: u8 = 14;

/// The font-size proxy that a bold override selects.
pub const BOLD_FONT_SIZE: u8 = 16;

/// The font-size proxy that a dim override selects.
pub const DIM_FONT_SIZE: u8 = 12;

/// The style in effect over one run of text: a font-size proxy standing in
/// for weight, the slant and decoration flags, and the two colour fields.
/// The background is absent until a background override sets it.
#[derive(Clone, Copy, Debug, PartialEq, Eq)]
pub struct StyleState {
    pub size: u8,
    pub italic: bool,
    pub underline: bool,
    pub strikethrough: bool,
    pub foreground: Colour,
    pub background: Option<Colour>,
}

/// The base style derived from a configured default foreground colour: the
/// default font size, no slant, no decorations, no background.
pub open spec fn base_style(foreground: Colour) -> StyleState {
    StyleState {
        size: DEFAULT_FONT_SIZE,
        italic: false,
        underline: false,
        strikethrough: false,
        foreground,
        background: None,
    }
}

/// Builds the base style for a configured default foreground colour.
pub fn default_style(foreground: Colour) -> (s: StyleState)
    ensures
        s == base_style(foreground),
{
    StyleState {
        size: DEFAULT_FONT_SIZE,
        italic: false,
        underline: false,
        strikethrough: false,
        foreground,
        background: None,
    }
}

/// What one override does to a style: bold and dim adjust the size proxy,
/// the slant and decoration overrides set their flags, the colour overrides
/// replace their field, and a reset changes nothing here (it is handled
/// before the overrides of an entry are applied).
pub open spec fn apply_override(s: StyleState, o: TextFormattingOverride) -> StyleState {
    match o {
        TextFormattingOverride::Reset => s,
        TextFormattingOverride::Bold => StyleState { size: BOLD_FONT_SIZE, ..s },
        TextFormattingOverride::Dim => StyleState { size: DIM_FONT_SIZE, ..s },
        TextFormattingOverride::Italic => StyleState { italic: true, ..s },
        TextFormattingOverride::Underline => StyleState { underline: true, ..s },
        TextFormattingOverride::Strikethrough => StyleState { strikethrough: true, ..s },
        TextFormattingOverride::Foreground(c) => StyleState { foreground: c, ..s },
        TextFormattingOverride::Background(c) => StyleState { background: Some(c), ..s },
    }
}

/// A sequence of overrides applied in order.
pub open spec fn apply_overrides(s: StyleState, os: Seq<TextFormattingOverride>) -> StyleState
    decreases os.len(),
{
    if os.len() == 0 {
        s
    } else {
        apply_override(apply_overrides(s, os.drop_last()), os.last())
    }
}

/// The style after one entry's override set: if the set holds a reset, the
/// style first returns to the base; then every member is applied in the
/// set's insertion order.
pub open spec fn entry_style(
    cur: StyleState,
    base: StyleState,
    os: Seq<TextFormattingOverride>,
) -> StyleState {
    apply_overrides(
        if os.contains(TextFormattingOverride::Reset) {
            base
        } else {
            cur
        },
        os,
    )
}

/// A contiguous slice of the plain text together with the style in effect
/// over it. Immutable once produced.
pub struct StyledRun {
    pub text: Vec<u8>,
    pub style: StyleState,
}

impl View for StyledRun {
    type V = (Seq<u8>, StyleState);

    open spec fn view(&self) -> (Seq<u8>, StyleState) {
        (self.text@, self.style)
    }
}

impl DeepView for StyledRun {
    type V = (Seq<u8>, StyleState);

    open spec fn deep_view(&self) -> (Seq<u8>, StyleState) {
        self.view()
    }
}

/// The well-formedness of an override list against a plain text: offsets
/// strictly increasing and none past the end of the text.
pub open spec fn entries_wf(
    entries: Seq<(nat, Seq<TextFormattingOverride>)>,
    text_len: nat,
) -> bool {
    offsets_strictly_increasing(entries) && (entries.len() > 0 ==> entries.last().0 <= text_len)
}

/// The runs that the compositor emits from a given position on: each entry
/// first closes the slice that ends at its offset (tagged with the style in
/// effect before the entry), then updates the style; after the last entry
/// the remaining text, if any, is emitted under the final style.
pub open spec fn runs_from(
    text: Seq<u8>,
    entries: Seq<(nat, Seq<TextFormattingOverride>)>,
    cur: StyleState,
    base: StyleState,
    last: nat,
) -> Seq<(Seq<u8>, StyleState)>
    decreases entries.len(),
{
    if entries.len() == 0 {
        if last < text.len() {
            seq![(text.subrange(last as int, text.len() as int), cur)]
        } else {
            Seq::empty()
        }
    } else {
        let off = entries[0].0;
        let emitted: Seq<(Seq<u8>, StyleState)> = if last < off {
            seq![(text.subrange(last as int, off as int), cur)]
        } else {
            Seq::empty()
        };
        emitted + runs_from(
            text,
            entries.skip(1),
            entry_style(cur, base, entries[0].1),
            base,
            off,
        )
    }
}

/// The full composition: the walk starts at offset zero with the base style
/// as the current style.
pub open spec fn composite_runs(
    text: Seq<u8>,
    entries: Seq<(nat, Seq<TextFormattingOverride>)>,
    base: StyleState,
) -> Seq<(Seq<u8>, StyleState)> {
    runs_from(text, entries, base, base, 0)
}

fn apply_override_to(s: StyleState, o: TextFormattingOverride) -> (r: StyleState)
    ensures
        r == apply_override(s, o),
{
    match o {
        TextFormattingOverride::Reset => s,
        TextFormattingOverride::Bold => StyleState { size: BOLD_FONT_SIZE, ..s },
        TextFormattingOverride::Dim => StyleState { size: DIM_FONT_SIZE, ..s },
        TextFormattingOverride::Italic => StyleState { italic: true, ..s },
        TextFormattingOverride::Underline => StyleState { underline: true, ..s },
        TextFormattingOverride::Strikethrough => StyleState { strikethrough: true, ..s },
        TextFormattingOverride::Foreground(c) => StyleState { foreground: c, ..s },
        TextFormattingOverride::Background(c) => StyleState { background: Some(c), ..s },
    }
}

/// Applies one entry's override set to the current style: reset first (when
/// present), then every member in insertion order.
pub fn apply_entry(cur: &StyleState, base: &StyleState, os: &OverrideSet) -> (r: StyleState)
    ensures
        r == entry_style(*cur, *base, os@),
{
    let mut s = if os.contains(&TextFormattingOverride::Reset) {
        *base
    } else {
        *cur
    };
    let n = os.len();
    let mut j: usize = 0;
    while j < n
        invariant
            0 <= j <= n,
            n == os@.len(),
            s == apply_overrides(
                if os@.contains(TextFormattingOverride::Reset) {
                    *base
                } else {
                    *cur
                },
                os@.take(j as int),
            ),
        decreases n - j,
    {
        s = apply_override_to(s, os.index(j));
        proof {
            assert(os@.take(j + 1 as int).drop_last() =~= os@.take(j as int));
            assert(os@.take(j + 1 as int).last() == os@[j as int]);
        }
        j = j + 1;
    }
    proof {
        assert(os@.take(os@.len() as int) =~= os@);
    }
    s
}

fn copy_range(text: &Vec<u8>, start: usize, end: usize) -> (r: Vec<u8>)
    requires
        start <= end <= text@.len(),
    ensures
        r@ == text@.subrange(start as int, end as int),
{
    let mut r: Vec<u8> = Vec::new();
    let mut i: usize = start;
    while i < end
        invariant
            start <= i <= end <= text@.len(),
            r@ == text@.subrange(start as int, i as int),
        decreases end - i,
    {
        r.push(text[i]);
        proof {
            assert(text@.subrange(start as int, i + 1 as int) =~= text@.subrange(
                start as int,
                i as int,
            ).push(text@[i as int]));
        }
        i = i + 1;
    }
    r
}

/// Composites the plain text and its ordered override list into contiguous
/// styled runs: a total, deterministic transformation of its three inputs.
pub fn composite(text: &Vec<u8>, entries: &Vec<OverrideEntry>, base: &StyleState) -> (runs: Vec<
    StyledRun,
>)
    requires
        entries_wf(entries.deep_view(), text@.len()),
    ensures
        runs.deep_view() == composite_runs(text@, entries.deep_view(), *base),
{
    let ghost dv = entries.deep_view();
    let mut runs: Vec<StyledRun> = Vec::new();
    let mut cur: StyleState = *base;
    let mut last: usize = 0;
    let mut i: usize = 0;
    proof {
        assert(dv.skip(0) =~= dv);
        assert(runs.deep_view() =~= Seq::<(Seq<u8>, StyleState)>::empty());
    }
    while i < entries.len()
        invariant
            0 <= i <= entries@.len(),
            dv == entries.deep_view(),
            dv.len() == entries@.len(),
            entries_wf(dv, text@.len()),
            last <= text@.len(),
            i < dv.len() ==> last <= dv[i as int].0,
            composite_runs(text@, dv, *base) == runs.deep_view() + runs_from(
                text@,
                dv.skip(i as int),
                cur,
                *base,
                last as nat,
            ),
        decreases entries@.len() - i,
    {
        let ghost rest = dv.skip(i as int);
        let off = entries[i].offset;
        proof {
            assert(rest[0] == dv[i as int]);
            assert(rest.skip(1) =~= dv.skip(i + 1 as int));
            if i + 1 < dv.len() {
                assert(dv[i as int].0 < dv[i + 1 as int].0);
                assert(dv[i as int].0 < dv[dv.len() - 1].0);
            }
        }
        if off > last {
            let slice = copy_range(text, last, off);
            let run = StyledRun { text: slice, style: cur };
            let ghost prev_runs = runs.deep_view();
            runs.push(run);
            proof {
                assert(runs.deep_view() =~= prev_runs + seq![
                    (text@.subrange(last as int, off as int), cur),
                ]);
                assert(prev_runs + (seq![(text@.subrange(last as int, off as int), cur)]
                    + runs_from(
                    text@,
                    rest.skip(1),
                    entry_style(cur, *base, rest[0].1),
                    *base,
                    off as nat,
                )) =~= (prev_runs + seq![(text@.subrange(last as int, off as int), cur)])
                    + runs_from(
                    text@,
                    rest.skip(1),
                    entry_style(cur, *base, rest[0].1),
                    *base,
                    off as nat,
                ));
            }
        } else {
            proof {
                assert(runs.deep_view() + (Seq::<(Seq<u8>, StyleState)>::empty() + runs_from(
                    text@,
                    rest.skip(1),
                    entry_style(cur, *base, rest[0].1),
                    *base,
                    off as nat,
                )) =~= runs.deep_view() + runs_from(
                    text@,
                    rest.skip(1),
                    entry_style(cur, *base, rest[0].1),
                    *base,
                    off as nat,
                ));
            }
        }
        cur = apply_entry(&cur, base, &entries[i].overrides);
        last = off;
        i = i + 1;
    }
    proof {
        assert(dv.skip(dv.len() as int) =~= Seq::<(nat, Seq<TextFormattingOverride>)>::empty());
    }
    if last < text.len() {
        let slice = copy_range(text, last, text.len());
        let ghost prev_runs = runs.deep_view();
        runs.push(StyledRun { text: slice, style: cur });
        proof {
            assert(runs.deep_view() =~= prev_runs + seq![
                (text@.subrange(last as int, text@.len() as int), cur),
            ]);
        }
    } else {
        proof {
            assert(runs.deep_view() + Seq::<(Seq<u8>, StyleState)>::empty() =~= runs.deep_view());
        }
    }
    runs
}

/// The concatenation of the text slices of a run sequence.
pub open spec fn runs_text(runs: Seq<(Seq<u8>, StyleState)>) -> Seq<u8>
    decreases runs.len(),
{
    if runs.len() == 0 {
        Seq::empty()
    } else {
        runs[0].0 + runs_text(runs.skip(1))
    }
}

proof fn lemma_runs_from_text(
    text: Seq<u8>,
    entries: Seq<(nat, Seq<TextFormattingOverride>)>,
    cur: StyleState,
    base: StyleState,
    last: nat,
)
    requires
        offsets_strictly_increasing(entries),
        last <= text.len(),
        entries.len() > 0 ==> last <= entries[0].0 && entries.last().0 <= text.len(),
    ensures
        runs_text(runs_from(text, entries, cur, base, last)) == text.subrange(
            last as int,
            text.len() as int,
        ),
    decreases entries.len(),
{
    if entries.len() == 0 {
        if last < text.len() {
            let s = seq![(text.subrange(last as int, text.len() as int), cur)];
            assert(s.skip(1) =~= Seq::<(Seq<u8>, StyleState)>::empty());
            assert(runs_text(s.skip(1)) =~= Seq::<u8>::empty());
            assert(text.subrange(last as int, text.len() as int) + Seq::<u8>::empty()
                =~= text.subrange(last as int, text.len() as int));
        } else {
            assert(text.subrange(last as int, text.len() as int) =~= Seq::<u8>::empty());
        }
    } else {
        let off = entries[0].0;
        let tail = entries.skip(1);
        let next = entry_style(cur, base, entries[0].1);
        assert(offsets_strictly_increasing(tail)) by {
            assert(forall|i: int, j: int|
                0 <= i < j < tail.len() ==> tail[i] == entries[i + 1] && tail[j] == entries[j
                    + 1]);
        }
        assert(off <= text.len()) by {
            if entries.len() == 1 {
                assert(entries.last() == entries[0]);
            } else {
                assert(entries[0].0 < entries[entries.len() - 1].0);
            }
        }
        if tail.len() > 0 {
            assert(tail[0] == entries[1]);
            assert(tail.last() == entries.last());
        }
        lemma_runs_from_text(text, tail, next, base, off);
        let r = runs_from(text, tail, next, base, off);
        if last < off {
            let e = seq![(text.subrange(last as int, off as int), cur)];
            assert((e + r)[0] == e[0]);
            assert((e + r).skip(1) =~= r);
            assert(text.subrange(last as int, off as int) + text.subrange(
                off as int,
                text.len() as int,
            ) =~= text.subrange(last as int, text.len() as int));
        } else {
            assert(last == off);
            assert(Seq::<(Seq<u8>, StyleState)>::empty() + r =~= r);
        }
    }
}

/// Law: the concatenated text slices of the composited runs reconstruct the
/// plain text exactly — full coverage, no gaps, no overlaps.
pub proof fn lemma_runs_cover_text(
    text: Seq<u8>,
    entries: Seq<(nat, Seq<TextFormattingOverride>)>,
    base: StyleState,
)
    requires
        entries_wf(entries, text.len()),
    ensures
        runs_text(composite_runs(text, entries, base)) == text,
{
    lemma_runs_from_text(text, entries, base, base, 0);
    assert(text.subrange(0, text.len() as int) =~= text);
}

/// Law: for any non-empty plain text and an empty override list, the
/// compositor returns exactly one run spanning all of the text at the base
/// style. (An empty text yields no run at all.)
pub proof fn lemma_no_overrides_single_run(text: Seq<u8>, base: StyleState)
    requires
        text.len() > 0,
    ensures
        composite_runs(text, Seq::empty(), base) == seq![(text, base)],
{
    assert(text.subrange(0, text.len() as int) =~= text);
    assert(composite_runs(text, Seq::empty(), base) =~= seq![(text, base)]);
}

/// Law: an entry whose override set holds a reset yields the same style
/// whatever styling accumulated before it — the current style is forgotten
/// and only the base and the entry's own overrides matter.
pub proof fn lemma_reset_forgets_current_style(
    cur: StyleState,
    base: StyleState,
    os: Seq<TextFormattingOverride>,
)
    requires
        os.contains(TextFormattingOverride::Reset),
    ensures
        entry_style(cur, base, os) == entry_style(base, base, os),
{
}

/// Law: an entry holding exactly a reset returns every style field to the
/// base style for the subsequent run.
pub proof fn lemma_reset_alone_restores_base(cur: StyleState, base: StyleState)
    ensures
        entry_style(cur, base, seq![TextFormattingOverride::Reset]) == base,
{
    let os = seq![TextFormattingOverride::Reset];
    assert(os[0] == TextFormattingOverride::Reset);
    assert(os.contains(TextFormattingOverride::Reset));
    assert(os.last() == TextFormattingOverride::Reset);
    assert(apply_overrides(base, os.drop_last()) == base) by {
        assert(os.drop_last().len() == 0);
    }
    assert(apply_overrides(base, os) == apply_override(base, TextFormattingOverride::Reset));
}

/// What the escape-stripping pass leaves of a byte string: its plain-text
/// view, the coordinate space of the override list's offsets.
pub uninterp spec fn stripped_of(bytes: Seq<u8>) -> Seq<u8>;

/// Relies on strip_ansi_escapes::strip: removes the ANSI escape sequences
/// from the input and returns the remaining plain-text bytes.
#[verifier::external_body]
fn strip_ansi(s: &str) -> (r: Vec<u8>)
    ensures
        r@ == stripped_of(s.spec_bytes()),
{
    strip_ansi_escapes::strip(s.as_bytes())
}

/// What styling an annotated string composites to: its override list walked
/// against its stripped plain text, or nothing when the scanner places an
/// override past the end of the stripped text (the two passes disagreeing
/// about the plain-text length).
pub open spec fn styled_runs_spec(bytes: Seq<u8>, base: StyleState) -> Option<
    Seq<(Seq<u8>, StyleState)>,
> {
    let entries = parse_entries(ansi_elements(bytes));
    let plain = stripped_of(bytes);
    if entries.len() == 0 || entries.last().0 <= plain.len() {
        Some(composite_runs(plain, entries, base))
    } else {
        None
    }
}

/// Law, at the pipeline level: whenever an annotated string composites at
/// all, the concatenated text slices of its runs are exactly its stripped
/// plain text.
pub proof fn lemma_styled_runs_cover_stripped_text(bytes: Seq<u8>, base: StyleState)
    ensures
        styled_runs_spec(bytes, base) matches Some(runs) ==> runs_text(runs) == stripped_of(
            bytes,
        ),
{
    let entries = parse_entries(ansi_elements(bytes));
    let plain = stripped_of(bytes);
    crate::scan::lemma_parse_entries_offsets_increasing(ansi_elements(bytes));
    if entries.len() == 0 || entries.last().0 <= plain.len() {
        lemma_runs_cover_text(plain, entries, base);
    }
}

/// Scans an annotated string, strips it, and composites the two into styled
/// runs under the given base style.
pub fn style_ansi_text(text: &str, base: &StyleState) -> (r: Option<Vec<StyledRun>>)
    ensures
        r is Some <==> styled_runs_spec(text.spec_bytes(), *base) is Some,
        r matches Some(runs) ==> Some(runs.deep_view()) == styled_runs_spec(
            text.spec_bytes(),
            *base,
        ),
{
    let entries = parse_ansi_styled_str(text);
    let plain = strip_ansi(text);
    let n = entries.len();
    if n == 0 || entries[n - 1].offset <= plain.len() {
        proof {
            let dv = entries.deep_view();
            if n > 0 {
                assert(dv.last() == entries@[n - 1].deep_view());
            }
            assert(entries_wf(dv, plain@.len()));
        }
        Some(composite(&plain, &entries, base))
    } else {
        proof {
            let dv = entries.deep_view();
            assert(dv.last() == entries@[n - 1].deep_view());
        }
        None
    }
}

} // verus!
