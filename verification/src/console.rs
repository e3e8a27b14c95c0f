//! The console's plain-value decision logic: whitespace tokenization of raw
//! input lines, shell-style splitting of submitted commands and their
//! dispatch against the registered command names, prefix suggestions, the
//! toggle-key test, and the input/history state machine.

use vstd::prelude::*;
use vstd::string::StringSliceAdditionalSpecFns;

verus! {

/// A raw console line parsed into a command name and its raw arguments,
/// each kept as plain bytes of the source line.
pub struct ConsoleCommandEntered {
    /// The command name: the first token of the line.
    pub command_name: Vec<u8>,
    /// The remaining tokens, in order.
    pub args: Vec<Vec<u8>>,
}

/// An event asking the console to print one line.
#[derive(Clone, Debug, Eq, PartialEq)]
pub struct PrintConsoleLine {
    /// Console line
    pub line: String,
}

impl PrintConsoleLine {
    /// Creates a new console line to print.
    pub fn new(line: String) -> (r: Self)
        ensures
            r.line == line,
    {
        Self { line }
    }
}

/// Whether the console window is open.
pub struct ConsoleOpen {
    /// Console open
    pub open: bool,
}

/// The toggle decision on a key press: the console flips between open and
/// closed only when a configured key went down, and never opens while some
/// other widget is capturing keyboard input.
pub fn console_toggle_decision(pressed: bool, open: bool, wants_keyboard: bool) -> (r: bool)
    ensures
        r == (pressed && (open || !wants_keyboard)),
{
    pressed && (open || !wants_keyboard)
}

/// A pressed-or-released state paired with the identifier of the key it
/// belongs to; what the key test reads of a keyboard event.
pub struct KeyInput {
    /// Identifier of the key, equality-comparable.
    pub key_code: u32,
    /// Whether this event is the key going down.
    pub pressed: bool,
}

/// Whether a keyboard event is one of the configured toggle keys going
/// down: a release never counts, whatever its key.
pub fn console_key_pressed(keyboard_input: &KeyInput, configured_keys: &[u32]) -> (r: bool)
    ensures
        r == (keyboard_input.pressed && configured_keys@.contains(keyboard_input.key_code)),
{
    if !keyboard_input.pressed {
        return false;
    }
    let mut i: usize = 0;
    while i < configured_keys.len()
        invariant
            keyboard_input.pressed,
            0 <= i <= configured_keys@.len(),
            forall|j: int| 0 <= j < i ==> configured_keys@[j] != keyboard_input.key_code,
        decreases configured_keys@.len() - i,
    {
        if configured_keys[i] == keyboard_input.key_code {
            assert(configured_keys@.contains(keyboard_input.key_code)) by {
                assert(configured_keys@[i as int] == keyboard_input.key_code);
            }
            return true;
        }
        i = i + 1;
    }
    false
}

/// The ASCII whitespace bytes: space, tab, line feed, form feed, carriage
/// return.
pub open spec fn is_ws(b: u8) -> bool {
    b == 32 || b == 9 || b == 10 || b == 12 || b == 13
}

fn is_ws_byte(b: u8) -> (r: bool)
    ensures
        r == is_ws(b),
{
    b == 32 || b == 9 || b == 10 || b == 12 || b == 13
}

/// The end of the token starting at position i: the first position at or
/// after i holding a whitespace byte, or the end of the input.
pub open spec fn token_end(s: Seq<u8>, i: int) -> int
    decreases s.len() - i,
{
    if i < 0 || i >= s.len() {
        i
    } else if is_ws(s[i]) {
        i
    } else {
        token_end(s, i + 1)
    }
}

proof fn lemma_token_end(s: Seq<u8>, i: int)
    requires
        0 <= i <= s.len(),
    ensures
        i <= token_end(s, i) <= s.len(),
        i < s.len() && !is_ws(s[i]) ==> token_end(s, i) > i,
    decreases s.len() - i,
{
    if i < s.len() && !is_ws(s[i]) {
        lemma_token_end(s, i + 1);
    }
}

/// The whitespace-delimited tokens of the input from position i on.
pub open spec fn tokens_from(s: Seq<u8>, i: int) -> Seq<Seq<u8>>
    decreases s.len() - i,
    via tokens_from_decreases
{
    if i < 0 || i >= s.len() {
        Seq::empty()
    } else if is_ws(s[i]) {
        tokens_from(s, i + 1)
    } else {
        seq![s.subrange(i, token_end(s, i))] + tokens_from(s, token_end(s, i))
    }
}

#[via_fn]
proof fn tokens_from_decreases(s: Seq<u8>, i: int) {
    if 0 <= i < s.len() && !is_ws(s[i]) {
        lemma_token_end(s, i);
    }
}

/// The whitespace-delimited tokens of a byte string, in order: maximal runs
/// of non-whitespace bytes.
pub open spec fn tokens_of(s: Seq<u8>) -> Seq<Seq<u8>> {
    tokens_from(s, 0)
}

fn slice_range_to_vec(s: &[u8], start: usize, end: usize) -> (r: Vec<u8>)
    requires
        start <= end <= s@.len(),
    ensures
        r@ == s@.subrange(start as int, end as int),
{
    let mut r: Vec<u8> = Vec::new();
    let mut i: usize = start;
    while i < end
        invariant
            start <= i <= end <= s@.len(),
            r@ == s@.subrange(start as int, i as int),
        decreases end - i,
    {
        r.push(s[i]);
        proof {
            assert(s@.subrange(start as int, i + 1 as int) =~= s@.subrange(
                start as int,
                i as int,
            ).push(s@[i as int]));
        }
        i = i + 1;
    }
    r
}

fn clone_bytes(v: &Vec<u8>) -> (r: Vec<u8>)
    ensures
        r@ == v@,
{
    let r = slice_range_to_vec(v.as_slice(), 0, v.len());
    proof {
        assert(v@.subrange(0, v@.len() as int) =~= v@);
    }
    r
}

/// Splits a raw line into its whitespace-delimited tokens.
pub fn tokenize(line: &[u8]) -> (r: Vec<Vec<u8>>)
    ensures
        r.deep_view() == tokens_of(line@),
{
    let mut r: Vec<Vec<u8>> = Vec::new();
    let mut i: usize = 0;
    proof {
        assert(r.deep_view() =~= Seq::<Seq<u8>>::empty());
    }
    while i < line.len()
        invariant
            0 <= i <= line@.len(),
            tokens_of(line@) == r.deep_view() + tokens_from(line@, i as int),
        decreases line@.len() - i,
    {
        if is_ws_byte(line[i]) {
            i = i + 1;
        } else {
            let start = i;
            let mut j: usize = i;
            while j < line.len() && !is_ws_byte(line[j])
                invariant
                    start <= j <= line@.len(),
                    token_end(line@, start as int) == token_end(line@, j as int),
                decreases line@.len() - j,
            {
                j = j + 1;
            }
            proof {
                lemma_token_end(line@, start as int);
                assert(token_end(line@, j as int) == j);
            }
            let tok = slice_range_to_vec(line, start, j);
            let ghost prev = r.deep_view();
            r.push(tok);
            proof {
                assert(r.deep_view() =~~= prev + seq![line@.subrange(start as int, j as int)]);
                assert(prev + (seq![line@.subrange(start as int, j as int)] + tokens_from(
                    line@,
                    j as int,
                )) =~= (prev + seq![line@.subrange(start as int, j as int)]) + tokens_from(
                    line@,
                    j as int,
                ));
            }
            i = j;
        }
    }
    r
}

/// Parses a raw line into a command name (its first whitespace-delimited
/// token) and the list of remaining tokens; a line with no token yields
/// nothing.
pub fn str_to_command(line: &[u8]) -> (r: Option<ConsoleCommandEntered>)
    ensures
        match r {
            Some(cmd) => tokens_of(line@).len() > 0 && cmd.command_name@ == tokens_of(line@)[0]
                && cmd.args.deep_view() == tokens_of(line@).skip(1),
            None => tokens_of(line@).len() == 0,
        },
{
    let mut toks = tokenize(line);
    if toks.len() == 0 {
        None
    } else {
        let ghost all = toks.deep_view();
        let command_name = toks.remove(0);
        proof {
            assert(toks.deep_view() =~~= all.skip(1));
        }
        Some(ConsoleCommandEntered { command_name, args: toks })
    }
}

/// One event from the background line-reading source: a completed line, an
/// interrupt from the user, or a read failure of any other kind.
pub enum LineRead {
    Line(Vec<u8>),
    Interrupted,
    Failed,
}

/// What the console does with one line-reader event.
pub enum LineReadAction {
    Dispatch(ConsoleCommandEntered),
    NotifyInterrupt,
    Nothing,
}

/// The decision on one event from the line-reading source: a completed line
/// becomes a command notification when it holds a token, an interrupt is
/// forwarded as its own notification, and everything else is dropped.
pub fn read_line_action(event: LineRead) -> (r: LineReadAction)
    ensures
        match event {
            LineRead::Line(line) => match r {
                LineReadAction::Dispatch(cmd) => tokens_of(line@).len() > 0 && cmd.command_name@
                    == tokens_of(line@)[0] && cmd.args.deep_view() == tokens_of(line@).skip(1),
                LineReadAction::Nothing => tokens_of(line@).len() == 0,
                LineReadAction::NotifyInterrupt => false,
            },
            LineRead::Interrupted => r is NotifyInterrupt,
            LineRead::Failed => r is Nothing,
        },
{
    match event {
        LineRead::Line(line) => match str_to_command(line.as_slice()) {
            Some(cmd) => LineReadAction::Dispatch(cmd),
            None => LineReadAction::Nothing,
        },
        LineRead::Interrupted => LineReadAction::NotifyInterrupt,
        LineRead::Failed => LineReadAction::Nothing,
    }
}

fn bytes_eq(a: &[u8], b: &[u8]) -> (r: bool)
    ensures
        r == (a@ == b@),
{
    if a.len() != b.len() {
        return false;
    }
    let mut i: usize = 0;
    while i < a.len()
        invariant
            a@.len() == b@.len(),
            0 <= i <= a@.len(),
            forall|j: int| 0 <= j < i ==> a@[j] == b@[j],
        decreases a@.len() - i,
    {
        if a[i] != b[i] {
            return false;
        }
        i = i + 1;
    }
    proof {
        assert(a@ =~= b@);
    }
    true
}

/// Whether one byte string is a prefix of another.
pub open spec fn is_prefix_of(p: Seq<u8>, s: Seq<u8>) -> bool {
    p.len() <= s.len() && s.take(p.len() as int) == p
}

fn bytes_starts_with(s: &[u8], p: &[u8]) -> (r: bool)
    ensures
        r == is_prefix_of(p@, s@),
{
    if p.len() > s.len() {
        return false;
    }
    let mut i: usize = 0;
    while i < p.len()
        invariant
            p@.len() <= s@.len(),
            0 <= i <= p@.len(),
            forall|j: int| 0 <= j < i ==> s@[j] == p@[j],
        decreases p@.len() - i,
    {
        if s[i] != p[i] {
            proof {
                assert(s@.take(p@.len() as int)[i as int] == s@[i as int]);
            }
            return false;
        }
        i = i + 1;
    }
    proof {
        assert(s@.take(p@.len() as int) =~= p@);
    }
    true
}

/// The suggestions drawn from a name list: the first names carrying the
/// given prefix, in list order, at most the given number of them.
pub open spec fn suggestions_spec(names: Seq<Seq<u8>>, prefix: Seq<u8>, limit: nat) -> Seq<
    Seq<u8>,
>
    decreases names.len(),
{
    if names.len() == 0 || limit == 0 {
        Seq::empty()
    } else if is_prefix_of(prefix, names[0]) {
        seq![names[0]] + suggestions_spec(names.skip(1), prefix, (limit - 1) as nat)
    } else {
        suggestions_spec(names.skip(1), prefix, limit)
    }
}

/// The set of registered command names, in registration order, each name
/// held once: what the console needs of its command table to dispatch lines
/// and offer suggestions.
pub struct CommandRegistry {
    names: Vec<Vec<u8>>,
}

impl View for CommandRegistry {
    type V = Seq<Seq<u8>>;

    closed spec fn view(&self) -> Seq<Seq<u8>> {
        self.names.deep_view()
    }
}

impl CommandRegistry {
    pub fn new() -> (r: Self)
        ensures
            r@ == Seq::<Seq<u8>>::empty(),
    {
        let r = Self { names: Vec::new() };
        proof {
            assert(r@ =~~= Seq::<Seq<u8>>::empty());
        }
        r
    }

    pub fn len(&self) -> (n: usize)
        ensures
            n == self@.len(),
    {
        self.names.len()
    }

    /// Whether a command of this name is registered.
    pub fn contains_name(&self, name: &[u8]) -> (r: bool)
        ensures
            r == self@.contains(name@),
    {
        let mut i: usize = 0;
        while i < self.names.len()
            invariant
                0 <= i <= self@.len(),
                self@.len() == self.names@.len(),
                forall|j: int| 0 <= j < i ==> self@[j] != name@,
            decreases self@.len() - i,
        {
            if bytes_eq(self.names[i].as_slice(), name) {
                proof {
                    assert(self@[i as int] =~= name@);
                    assert(self@.contains(name@)) by {
                        assert(self@[i as int] == name@);
                    }
                }
                return true;
            }
            proof {
                assert(self@[i as int] =~= self.names@[i as int]@);
            }
            i = i + 1;
        }
        false
    }

    /// Registers a command name. A name already present is reported and the
    /// name set is left as it was (the caller may then overwrite what it
    /// keeps under that name).
    pub fn register(&mut self, name: Vec<u8>) -> (existed: bool)
        ensures
            existed == old(self)@.contains(name@),
            final(self)@ == if existed {
                old(self)@
            } else {
                old(self)@.push(name@)
            },
    {
        let existed = self.contains_name(name.as_slice());
        if !existed {
            let ghost prev = self@;
            self.names.push(name);
            proof {
                assert(self@ =~~= prev.push(name@));
            }
        }
        existed
    }

    /// The first `limit` registered names starting with the given prefix, in
    /// registration order.
    pub fn suggestions(&self, prefix: &[u8], limit: usize) -> (r: Vec<Vec<u8>>)
        ensures
            r.deep_view() == suggestions_spec(self@, prefix@, limit as nat),
    {
        let ghost dv = self@;
        let mut r: Vec<Vec<u8>> = Vec::new();
        let mut taken: usize = 0;
        let mut i: usize = 0;
        proof {
            assert(r.deep_view() =~~= Seq::<Seq<u8>>::empty());
            assert(dv.skip(0) =~= dv);
        }
        while i < self.names.len() && taken < limit
            invariant
                0 <= i <= self@.len(),
                self@ == dv,
                self@.len() == self.names@.len(),
                taken <= limit,
                suggestions_spec(dv, prefix@, limit as nat) == r.deep_view() + suggestions_spec(
                    dv.skip(i as int),
                    prefix@,
                    (limit - taken) as nat,
                ),
            decreases self@.len() - i,
        {
            let ghost rest = dv.skip(i as int);
            proof {
                assert(rest[0] =~= self.names@[i as int]@);
                assert(rest.skip(1) =~= dv.skip(i + 1 as int));
            }
            if bytes_starts_with(self.names[i].as_slice(), prefix) {
                let item = clone_bytes(&self.names[i]);
                let ghost prev = r.deep_view();
                r.push(item);
                taken = taken + 1;
                proof {
                    assert(r.deep_view() =~~= prev + seq![rest[0]]);
                    assert(prev + (seq![rest[0]] + suggestions_spec(
                        rest.skip(1),
                        prefix@,
                        (limit - taken) as nat,
                    )) =~= (prev + seq![rest[0]]) + suggestions_spec(
                        rest.skip(1),
                        prefix@,
                        (limit - taken) as nat,
                    ));
                }
            }
            i = i + 1;
        }
        proof {
            if i == self@.len() {
                assert(dv.skip(i as int) =~= Seq::<Seq<u8>>::empty());
            }
        }
        r
    }
}

/// What becomes of one submitted line: nothing for a wordless line, a
/// parsed command when its first word is registered, and the unknown name
/// otherwise (the console then prints an error line).
pub enum LineDispatch {
    Empty,
    Command(ConsoleCommandEntered),
    Unknown(Vec<u8>),
}

/// Dispatches an already split word list against the registered command
/// names.
pub fn dispatch_words(words: Vec<Vec<u8>>, registry: &CommandRegistry) -> (r: LineDispatch)
    ensures
        ({
            let w = words.deep_view();
            match r {
                LineDispatch::Empty => w.len() == 0,
                LineDispatch::Command(cmd) => w.len() > 0 && registry@.contains(w[0])
                    && cmd.command_name@ == w[0] && cmd.args.deep_view() == w.skip(1),
                LineDispatch::Unknown(name) => w.len() > 0 && !registry@.contains(w[0]) && name@
                    == w[0],
            }
        }),
{
    let mut words = words;
    if words.len() == 0 {
        return LineDispatch::Empty;
    }
    let ghost all = words.deep_view();
    let command_name = words.remove(0);
    proof {
        assert(words.deep_view() =~~= all.skip(1));
        assert(command_name@ =~= all[0]);
    }
    if registry.contains_name(command_name.as_slice()) {
        LineDispatch::Command(ConsoleCommandEntered { command_name, args: words })
    } else {
        LineDispatch::Unknown(command_name)
    }
}

/// The words that shell-style splitting makes of a line.
pub uninterp spec fn shlex_words_of(bytes: Seq<u8>) -> Seq<Seq<u8>>;

/// Relies on shlex's Shlex iterator: splits a line into words using POSIX
/// shell syntax (quoting and escapes honoured), a function of the line's
/// contents alone.
#[verifier::external_body]
fn shlex_words(line: &str) -> (r: Vec<Vec<u8>>)
    ensures
        r.deep_view() == shlex_words_of(line.spec_bytes()),
{
    shlex::Shlex::new(line).map(|w| w.into_bytes()).collect()
}

/// Splits a submitted line shell-style and dispatches it against the
/// registered command names.
pub fn parse_submitted_line(line: &str, registry: &CommandRegistry) -> (r: LineDispatch)
    ensures
        ({
            let w = shlex_words_of(line.spec_bytes());
            match r {
                LineDispatch::Empty => w.len() == 0,
                LineDispatch::Command(cmd) => w.len() > 0 && registry@.contains(w[0])
                    && cmd.command_name@ == w[0] && cmd.args.deep_view() == w.skip(1),
                LineDispatch::Unknown(name) => w.len() > 0 && !registry@.contains(w[0]) && name@
                    == w[0],
            }
        }),
{
    dispatch_words(shlex_words(line), registry)
}

/// Whether a byte string holds nothing but whitespace (what trimming would
/// leave empty).
pub open spec fn all_ws(s: Seq<u8>) -> bool {
    forall|k: int| 0 <= k < s.len() ==> is_ws(s[k])
}

fn is_all_ws(s: &[u8]) -> (r: bool)
    ensures
        r == all_ws(s@),
{
    let mut i: usize = 0;
    while i < s.len()
        invariant
            0 <= i <= s@.len(),
            forall|k: int| 0 <= k < i ==> is_ws(s@[k]),
        decreases s@.len() - i,
    {
        if !is_ws_byte(s[i]) {
            assert(!is_ws(s@[i as int]));
            return false;
        }
        i = i + 1;
    }
    true
}

/// The console's input state: the edit buffer, the scrollback lines, the
/// submitted-line history (slot zero holding the line being edited), and
/// the position reached while walking the history.
pub struct ConsoleState {
    /// The line being edited.
    pub buf: Vec<u8>,
    /// The lines shown above the input, oldest first.
    pub scrollback: Vec<Vec<u8>>,
    /// The submitted lines, most recent at slot one.
    pub history: Vec<Vec<u8>>,
    /// How far up the history the user has walked; zero when editing fresh.
    pub history_index: usize,
}

impl Default for ConsoleState {
    /// A fresh console: empty buffer, empty scrollback, a history holding
    /// one empty slot for the line being edited.
    fn default() -> (s: Self)
        ensures
            s.buf@ == Seq::<u8>::empty(),
            s.scrollback.deep_view() == Seq::<Seq<u8>>::empty(),
            s.history.deep_view() == seq![Seq::<u8>::empty()],
            s.history_index == 0,
    {
        let mut history: Vec<Vec<u8>> = Vec::new();
        history.push(Vec::new());
        let s = ConsoleState { buf: Vec::new(), scrollback: Vec::new(), history, history_index: 0 };
        proof {
            assert(s.buf@ =~= Seq::<u8>::empty());
            assert(s.scrollback.deep_view() =~~= Seq::<Seq<u8>>::empty());
            assert(s.history.deep_view() =~~= seq![Seq::<u8>::empty()]);
        }
        s
    }
}

impl ConsoleState {
    /// Appends one line to the scrollback.
    pub fn push_scrollback(&mut self, line: Vec<u8>)
        ensures
            final(self).scrollback.deep_view() == old(self).scrollback.deep_view().push(line@),
            final(self).buf == old(self).buf,
            final(self).history == old(self).history,
            final(self).history_index == old(self).history_index,
    {
        let ghost prev = self.scrollback.deep_view();
        self.scrollback.push(line);
        proof {
            assert(self.scrollback.deep_view() =~~= prev.push(line@));
        }
    }

    /// Empties the scrollback.
    pub fn clear_scrollback(&mut self)
        ensures
            final(self).scrollback.deep_view() == Seq::<Seq<u8>>::empty(),
            final(self).buf == old(self).buf,
            final(self).history == old(self).history,
            final(self).history_index == old(self).history_index,
    {
        self.scrollback.clear();
        proof {
            assert(self.scrollback.deep_view() =~~= Seq::<Seq<u8>>::empty());
        }
    }

    /// Records a submitted line at history slot one, and drops the oldest
    /// line when the history would exceed its size (the size does not count
    /// the edit slot at zero).
    pub fn record_submitted(&mut self, line: Vec<u8>, history_size: usize)
        requires
            old(self).history@.len() >= 1,
        ensures
            ({
                let h = old(self).history.deep_view().insert(1, line@);
                final(self).history.deep_view() == if h.len() > history_size + 1 {
                    h.drop_last()
                } else {
                    h
                }
            }),
            final(self).buf == old(self).buf,
            final(self).scrollback == old(self).scrollback,
            final(self).history_index == old(self).history_index,
    {
        let ghost prev = self.history.deep_view();
        self.history.insert(1, line);
        proof {
            assert(self.history.deep_view() =~~= prev.insert(1, line@));
        }
        if self.history.len() - 1 > history_size {
            let ghost grown = self.history.deep_view();
            self.history.pop();
            proof {
                assert(self.history.deep_view() =~~= grown.drop_last());
            }
        }
    }

    /// Walks one step up the history: the current buffer is parked in the
    /// edit slot when leaving it with unsubmitted text, and the buffer takes
    /// the older line. Does nothing when already at the oldest line or when
    /// the history holds nothing to walk to.
    pub fn history_up(&mut self)
        ensures
            ({
                let h = old(self).history.deep_view();
                let idx = old(self).history_index;
                if h.len() > 1 && idx < h.len() - 1 {
                    let h2 = if idx == 0 && !all_ws(old(self).buf@) {
                        h.update(0, old(self).buf@)
                    } else {
                        h
                    };
                    &&& final(self).history.deep_view() == h2
                    &&& final(self).history_index == idx + 1
                    &&& final(self).buf@ == h2[idx + 1]
                    &&& final(self).scrollback == old(self).scrollback
                } else {
                    *final(self) == *old(self)
                }
            }),
    {
        let n = self.history.len();
        if n > 1 && self.history_index < n - 1 {
            if self.history_index == 0 && !is_all_ws(self.buf.as_slice()) {
                let parked = clone_bytes(&self.buf);
                let ghost hprev = self.history.deep_view();
                let _edit_slot = self.history.remove(0);
                self.history.insert(0, parked);
                proof {
                    assert(self.history.deep_view() =~~= hprev.update(0, old(self).buf@));
                }
            }
            self.history_index = self.history_index + 1;
            let item = clone_bytes(&self.history[self.history_index]);
            self.buf = item;
            proof {
                assert(self.buf@ =~= self.history.deep_view()[self.history_index as int]);
            }
        }
    }

    /// Walks one step back down the history: the buffer takes the newer
    /// line. Does nothing when already at the edit slot, or when the slot
    /// below is out of the history's range.
    pub fn history_down(&mut self)
        ensures
            ({
                let h = old(self).history.deep_view();
                let idx = old(self).history_index;
                if idx > 0 && idx - 1 < h.len() {
                    &&& final(self).history == old(self).history
                    &&& final(self).history_index == idx - 1
                    &&& final(self).buf@ == h[idx - 1]
                    &&& final(self).scrollback == old(self).scrollback
                } else {
                    *final(self) == *old(self)
                }
            }),
    {
        if self.history_index > 0 && self.history_index - 1 < self.history.len() {
            self.history_index = self.history_index - 1;
            let item = clone_bytes(&self.history[self.history_index]);
            self.buf = item;
            proof {
                assert(self.buf@ =~= self.history.deep_view()[self.history_index as int]);
            }
        }
    }
}

} // verus!
