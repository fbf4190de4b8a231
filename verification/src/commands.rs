//! Template compilation and the router.
//!
//! A template is a space-separated list of segments: literal text, `name={}`
//! key/value flags, `{name}` single-token placeholders, `name...` remainder
//! captures, single-line and block code fences, and the help-query form. Each
//! registration compiles its template into the one shared [`StateMachine`],
//! merging shared prefixes; earlier-inserted edges win ties during matching,
//! so literal continuations registered first take precedence over wildcard
//! continuations registered later.

use vstd::prelude::*;
use vstd::string::*;
use crate::state_machine::{
    bindings_preserved, lemma_bindings_preserved_trans, spec_add_alias_edge, spec_add_edge,
    spec_mark_capture_begin, spec_mark_capture_end, spec_mark_final, spec_new_machine,
    spec_process, CharacterSet, CharacterSetView, MachineView, Params, StateMachine,
};

verus! {

/// The class separating two segments: a run of spaces and newlines.
pub open spec fn space_class() -> CharacterSetView {
    CharacterSetView::Include(seq![' ', '\n'])
}

/// The class of a `{name}` placeholder: any character but a space.
pub open spec fn dynamic_class() -> CharacterSetView {
    CharacterSetView::ExcludeAll(seq![' '])
}

/// The class of a remainder or code-body capture: any character at all.
pub open spec fn any_class() -> CharacterSetView {
    CharacterSetView::ExcludeAll(Seq::empty())
}

/// The class of a key/value flag's value: any character but a separator.
pub open spec fn value_class() -> CharacterSetView {
    CharacterSetView::ExcludeAll(seq![' ', '\n'])
}

/// The class of a block-code language tag: anything but a fence or separator.
pub open spec fn tag_class() -> CharacterSetView {
    CharacterSetView::ExcludeAll(seq!['`', ' ', '\n'])
}

fn build_space_class() -> (r: CharacterSet)
    ensures
        r@ == space_class(),
{
    CharacterSet::from_char(' ').insert('\n')
}

fn build_dynamic_class() -> (r: CharacterSet)
    ensures
        r@ == dynamic_class(),
{
    let r = CharacterSet::any().remove(' ');
    proof {
        assert(Seq::<char>::empty().push(' ') =~= seq![' ']);
    }
    r
}

fn build_value_class() -> (r: CharacterSet)
    ensures
        r@ == value_class(),
{
    let r = CharacterSet::any().remove(' ').remove('\n');
    proof {
        assert(Seq::<char>::empty().push(' ').push('\n') =~= seq![' ', '\n']);
    }
    r
}

fn build_tag_class() -> (r: CharacterSet)
    ensures
        r@ == tag_class(),
{
    let r = CharacterSet::any().remove('`').remove(' ').remove('\n');
    proof {
        assert(Seq::<char>::empty().push('`').push(' ').push('\n') =~= seq!['`', ' ', '\n']);
    }
    r
}

// ---------------------------------------------------------------------------
// Splitting a template into segments
// ---------------------------------------------------------------------------

/// Splitting from index `i` with the partial segment `cur` and the segments
/// `acc` already collected: segments are maximal runs of non-space
/// characters, so repeated spaces produce no empty segment.
pub open spec fn spec_split_rec(s: Seq<char>, i: int, cur: Seq<char>, acc: Seq<Seq<char>>) -> Seq<Seq<char>>
    decreases s.len() - i,
{
    if i < 0 || i >= s.len() {
        if cur.len() > 0 {
            acc.push(cur)
        } else {
            acc
        }
    } else if s[i] == ' ' {
        if cur.len() > 0 {
            spec_split_rec(s, i + 1, Seq::empty(), acc.push(cur))
        } else {
            spec_split_rec(s, i + 1, Seq::empty(), acc)
        }
    } else {
        spec_split_rec(s, i + 1, cur.push(s[i]), acc)
    }
}

/// The space-separated segments of a template, empty segments dropped.
pub open spec fn spec_split(s: Seq<char>) -> Seq<Seq<char>> {
    spec_split_rec(s, 0, Seq::empty(), Seq::empty())
}

/// The views of a segment list.
pub open spec fn views_of(segs: Seq<String>) -> Seq<Seq<char>> {
    segs.map_values(|t: String| t@)
}

fn split_segments(command: &str) -> (segs: Vec<String>)
    ensures
        views_of(segs@) == spec_split(command@),
        forall|k: int| 0 <= k < segs@.len() ==> (#[trigger] segs@[k])@ == spec_split(command@)[k],
{
    let n = command.unicode_len();
    let mut segs: Vec<String> = Vec::new();
    let mut start: usize = 0;
    let mut i: usize = 0;
    proof {
        assert(command@.subrange(0, 0) =~= Seq::<char>::empty());
        assert(views_of(segs@) =~= Seq::<Seq<char>>::empty());
    }
    while i < n
        invariant
            n == command@.len(),
            start <= i <= n,
            spec_split_rec(command@, i as int, command@.subrange(start as int, i as int),
                views_of(segs@)) == spec_split(command@),
        decreases n - i,
    {
        let ch = command.get_char(i);
        if ch == ' ' {
            if i > start {
                let piece = String::from_str(command.substring_char(start, i));
                let ghost pre = segs@;
                segs.push(piece);
                proof {
                    assert(views_of(segs@)
                        =~= views_of(pre).push(command@.subrange(start as int, i as int)));
                }
            }
            start = i + 1;
            proof {
                assert(command@.subrange(start as int, start as int) =~= Seq::<char>::empty());
            }
        } else {
            proof {
                assert(command@.subrange(start as int, i as int).push(command@[i as int])
                    =~= command@.subrange(start as int, i as int + 1));
            }
        }
        i += 1;
    }
    if start < n {
        let piece = String::from_str(command.substring_char(start, n));
        let ghost pre = segs@;
        segs.push(piece);
        proof {
            assert(views_of(segs@)
                =~= views_of(pre).push(command@.subrange(start as int, n as int)));
        }
    } else {
        proof {
            assert(command@.subrange(start as int, n as int).len() == 0);
        }
    }
    proof {
        assert(forall|k: int| 0 <= k < segs@.len()
            ==> (#[trigger] segs@[k])@ == views_of(segs@)[k]);
    }
    segs
}

// ---------------------------------------------------------------------------
// Segment classification
// ---------------------------------------------------------------------------

/// `<non-empty-name>={}`: a trailing key/value flag.
pub open spec fn is_key_value_segment(s: Seq<char>) -> bool {
    s.len() >= 4 && s[s.len() - 3] == '=' && s[s.len() - 2] == '{' && s[s.len() - 1] == '}'
}

/// ```` ```\nname``` ````: a block code fence with a newline after the
/// opening fence.
pub open spec fn is_block_code_segment(s: Seq<char>) -> bool {
    s.len() >= 7 && s[0] == '`' && s[1] == '`' && s[2] == '`' && s[3] == '\n'
        && s[s.len() - 3] == '`' && s[s.len() - 2] == '`' && s[s.len() - 1] == '`'
}

/// ```` ```name``` ````: a single-line code segment with a wide fence.
pub open spec fn is_wide_code_segment(s: Seq<char>) -> bool {
    s.len() >= 6 && s[0] == '`' && s[1] == '`' && s[2] == '`'
        && s[s.len() - 3] == '`' && s[s.len() - 2] == '`' && s[s.len() - 1] == '`'
}

/// `` `name` ``: a single-line code segment with a narrow fence.
pub open spec fn is_narrow_code_segment(s: Seq<char>) -> bool {
    s.len() >= 2 && s[0] == '`' && s[s.len() - 1] == '`'
}

/// `{name}`: a single-token placeholder.
pub open spec fn is_placeholder_segment(s: Seq<char>) -> bool {
    s.len() >= 2 && s[0] == '{' && s[s.len() - 1] == '}'
}

/// `name...`: a remainder capture.
pub open spec fn is_remainder_segment(s: Seq<char>) -> bool {
    s.len() >= 3 && s[s.len() - 3] == '.' && s[s.len() - 2] == '.' && s[s.len() - 1] == '.'
}

/// What one template segment means.
pub enum SegmentKind {
    /// `name={}`: an optional trailing flag; holds the name.
    KeyValue(String),
    /// A block code fence; holds the capture name.
    BlockCode(String),
    /// A single-line code fence; holds the capture name and the fence width.
    InlineCode(String, usize),
    /// `{name}`: one whitespace-free token; holds the name.
    Placeholder(String),
    /// `name...`: the rest of the input; holds the name.
    Remainder(String),
    /// Literal text, matched character for character.
    LiteralText,
}

/// The model of a [`SegmentKind`].
pub enum SegmentKindView {
    KeyValue(Seq<char>),
    BlockCode(Seq<char>),
    InlineCode(Seq<char>, int),
    Placeholder(Seq<char>),
    Remainder(Seq<char>),
    LiteralText,
}

impl View for SegmentKind {
    type V = SegmentKindView;

    open spec fn view(&self) -> SegmentKindView {
        match self {
            SegmentKind::KeyValue(n) => SegmentKindView::KeyValue(n@),
            SegmentKind::BlockCode(n) => SegmentKindView::BlockCode(n@),
            SegmentKind::InlineCode(n, w) => SegmentKindView::InlineCode(n@, *w as int),
            SegmentKind::Placeholder(n) => SegmentKindView::Placeholder(n@),
            SegmentKind::Remainder(n) => SegmentKindView::Remainder(n@),
            SegmentKind::LiteralText => SegmentKindView::LiteralText,
        }
    }
}

/// How a segment compiles; the key/value form is recognized first, and any
/// segment matching none of the special forms is literal text.
pub open spec fn spec_classify(s: Seq<char>) -> SegmentKindView {
    if is_key_value_segment(s) {
        SegmentKindView::KeyValue(s.subrange(0, s.len() - 3))
    } else if is_block_code_segment(s) {
        SegmentKindView::BlockCode(s.subrange(4, s.len() - 3))
    } else if is_wide_code_segment(s) {
        SegmentKindView::InlineCode(s.subrange(3, s.len() - 3), 3)
    } else if is_narrow_code_segment(s) {
        SegmentKindView::InlineCode(s.subrange(1, s.len() - 1), 1)
    } else if is_placeholder_segment(s) {
        SegmentKindView::Placeholder(s.subrange(1, s.len() - 1))
    } else if is_remainder_segment(s) {
        SegmentKindView::Remainder(s.subrange(0, s.len() - 3))
    } else {
        SegmentKindView::LiteralText
    }
}

fn classify(seg: &str) -> (k: SegmentKind)
    ensures
        k@ == spec_classify(seg@),
{
    let n = seg.unicode_len();
    if n >= 4 && seg.get_char(n - 3) == '=' && seg.get_char(n - 2) == '{' && seg.get_char(n - 1) == '}' {
        SegmentKind::KeyValue(String::from_str(seg.substring_char(0, n - 3)))
    } else if n >= 7 && seg.get_char(0) == '`' && seg.get_char(1) == '`' && seg.get_char(2) == '`'
        && seg.get_char(3) == '\n' && seg.get_char(n - 3) == '`' && seg.get_char(n - 2) == '`'
        && seg.get_char(n - 1) == '`' {
        SegmentKind::BlockCode(String::from_str(seg.substring_char(4, n - 3)))
    } else if n >= 6 && seg.get_char(0) == '`' && seg.get_char(1) == '`' && seg.get_char(2) == '`'
        && seg.get_char(n - 3) == '`' && seg.get_char(n - 2) == '`' && seg.get_char(n - 1) == '`' {
        SegmentKind::InlineCode(String::from_str(seg.substring_char(3, n - 3)), 3)
    } else if n >= 2 && seg.get_char(0) == '`' && seg.get_char(n - 1) == '`' {
        SegmentKind::InlineCode(String::from_str(seg.substring_char(1, n - 1)), 1)
    } else if n >= 2 && seg.get_char(0) == '{' && seg.get_char(n - 1) == '}' {
        SegmentKind::Placeholder(String::from_str(seg.substring_char(1, n - 1)))
    } else if n >= 3 && seg.get_char(n - 3) == '.' && seg.get_char(n - 2) == '.' && seg.get_char(n - 1) == '.' {
        SegmentKind::Remainder(String::from_str(seg.substring_char(0, n - 3)))
    } else {
        SegmentKind::LiteralText
    }
}

/// A template the compiler rejects at registration time.
#[derive(Debug, Clone, Copy, PartialEq, Eq, Structural)]
pub enum CompileError {
    /// A segment opens a code fence it does not close.
    UnterminatedCodeFence,
    /// A key/value flag with no name before the `=`.
    EmptyKeyName,
}

/// Why one segment is rejected, if it is.
pub open spec fn spec_segment_error(s: Seq<char>) -> Option<CompileError> {
    if s.len() > 0 && s[0] == '`'
        && !(is_block_code_segment(s) || is_wide_code_segment(s) || is_narrow_code_segment(s)) {
        Option::Some(CompileError::UnterminatedCodeFence)
    } else if s.len() == 3 && s[0] == '=' && s[1] == '{' && s[2] == '}' {
        Option::Some(CompileError::EmptyKeyName)
    } else {
        Option::None
    }
}

/// The first rejected segment's error, scanning from index `i`.
pub open spec fn spec_first_error(segs: Seq<Seq<char>>, i: int) -> Option<CompileError>
    decreases segs.len() - i,
{
    if i < 0 || i >= segs.len() {
        Option::None
    } else {
        match spec_segment_error(segs[i]) {
            Option::Some(e) => Option::Some(e),
            Option::None => spec_first_error(segs, i + 1),
        }
    }
}

/// A template registration accepts: no segment is rejected.
pub open spec fn spec_template_wf(command: Seq<char>) -> bool {
    spec_first_error(spec_split(command), 0) is None
}

fn segment_error(seg: &str) -> (r: Option<CompileError>)
    ensures
        r == spec_segment_error(seg@),
{
    let n = seg.unicode_len();
    if n > 0 && seg.get_char(0) == '`' {
        let block = n >= 7 && seg.get_char(1) == '`' && seg.get_char(2) == '`' && seg.get_char(3) == '\n'
            && seg.get_char(n - 3) == '`' && seg.get_char(n - 2) == '`' && seg.get_char(n - 1) == '`';
        let wide = n >= 6 && seg.get_char(1) == '`' && seg.get_char(2) == '`'
            && seg.get_char(n - 3) == '`' && seg.get_char(n - 2) == '`' && seg.get_char(n - 1) == '`';
        let narrow = n >= 2 && seg.get_char(n - 1) == '`';
        if !(block || wide || narrow) {
            return Option::Some(CompileError::UnterminatedCodeFence);
        }
    }
    if n == 3 && seg.get_char(0) == '=' && seg.get_char(1) == '{' && seg.get_char(2) == '}' {
        return Option::Some(CompileError::EmptyKeyName);
    }
    Option::None
}

} // verus!

verus! {

// ---------------------------------------------------------------------------
// Compiling one segment into the automaton
// ---------------------------------------------------------------------------

/// The machine and state after literal edges for every character of `cs`.
pub open spec fn spec_add_literal_run<T>(m: MachineView<T>, state: int, cs: Seq<char>) -> (MachineView<T>, int)
    decreases cs.len(),
{
    if cs.len() == 0 {
        (m, state)
    } else {
        let step = spec_add_edge(m, state, CharacterSetView::Literal(cs[0]));
        spec_add_literal_run(step.0, step.1, cs.drop_first())
    }
}

/// The machine and state after `add_space(state, i)`: for every segment but
/// the first, a self-looping edge accepting a run of spaces and newlines.
pub open spec fn spec_add_space<T>(m: MachineView<T>, state: int, i: int) -> (MachineView<T>, int) {
    if i > 0 {
        let step = spec_add_edge(m, state, space_class());
        (spec_add_alias_edge(step.0, step.1, space_class(), step.1), step.1)
    } else {
        (m, state)
    }
}

/// The machine and state after a run of `k` literal backtick edges.
pub open spec fn spec_add_backtick_run<T>(m: MachineView<T>, state: int, k: int) -> (MachineView<T>, int)
    decreases k,
{
    if k <= 0 {
        (m, state)
    } else {
        let step = spec_add_edge(m, state, CharacterSetView::Literal('`'));
        spec_add_backtick_run(step.0, step.1, k - 1)
    }
}

/// The machine and state after a self-looping capture anchor over `class`,
/// tagged begin and end for `name`.
pub open spec fn spec_add_anchor<T>(m: MachineView<T>, name: Seq<char>, state: int, class: CharacterSetView) -> (MachineView<T>, int) {
    let step = spec_add_edge(m, state, class);
    let m1 = spec_add_alias_edge(step.0, step.1, class, step.1);
    let m2 = spec_mark_capture_begin(m1, step.1, name);
    let m3 = spec_mark_capture_end(m2, step.1, name);
    (m3, step.1)
}

/// The machine and state after `add_dynamic_segment`.
pub open spec fn spec_add_dynamic_segment<T>(m: MachineView<T>, name: Seq<char>, state: int) -> (MachineView<T>, int) {
    spec_add_anchor(m, name, state, dynamic_class())
}

/// The machine and state after `add_remaining_segment`.
pub open spec fn spec_add_remaining_segment<T>(m: MachineView<T>, name: Seq<char>, state: int) -> (MachineView<T>, int) {
    spec_add_anchor(m, name, state, any_class())
}

/// The machine and state after `add_code_segment_single_line`.
pub open spec fn spec_add_code_segment_single_line<T>(m: MachineView<T>, name: Seq<char>, state: int, width: int) -> (MachineView<T>, int) {
    let opened = spec_add_backtick_run(m, state, width);
    let body = spec_add_edge(opened.0, opened.1, any_class());
    let closed = spec_add_backtick_run(body.0, body.1, width);
    let m1 = spec_add_alias_edge(closed.0, body.1, any_class(), body.1);
    let m2 = spec_mark_capture_begin(m1, body.1, name);
    let m3 = spec_mark_capture_end(m2, body.1, name);
    (m3, closed.1)
}

/// The machine and state after `add_code_segment_multi_line`.
pub open spec fn spec_add_code_segment_multi_line<T>(m: MachineView<T>, name: Seq<char>, state: int) -> (MachineView<T>, int) {
    let opened = spec_add_backtick_run(m, state, 3);
    let tag = spec_add_edge(opened.0, opened.1, tag_class());
    let m1 = spec_add_alias_edge(tag.0, tag.1, tag_class(), tag.1);
    let nl = spec_add_edge(m1, tag.1, CharacterSetView::Literal('\n'));
    let m2 = spec_add_alias_edge(nl.0, opened.1, CharacterSetView::Literal('\n'), nl.1);
    let body = spec_add_edge(m2, nl.1, any_class());
    let closed = spec_add_backtick_run(body.0, body.1, 3);
    let m3 = spec_add_alias_edge(closed.0, body.1, any_class(), body.1);
    let m4 = spec_mark_capture_begin(m3, body.1, name);
    let m5 = spec_mark_capture_end(m4, body.1, name);
    (m5, closed.1)
}

/// The machine and state after `add_key_value`: literal edges for the name,
/// a literal `=`, then a self-looping value anchor named after the key.
pub open spec fn spec_add_key_value<T>(m: MachineView<T>, name: Seq<char>, state: int) -> (MachineView<T>, int) {
    let named = spec_add_literal_run(m, state, name);
    let eq_edge = spec_add_edge(named.0, named.1, CharacterSetView::Literal('='));
    spec_add_anchor(eq_edge.0, name, eq_edge.1, value_class())
}

/// The machine and state after `add_help_menu`: literal `?help`, mandatory
/// whitespace, then the base command's literal characters.
pub open spec fn spec_add_help_menu<T>(m: MachineView<T>, cmd: Seq<char>, state: int) -> (MachineView<T>, int) {
    let marker = spec_add_literal_run(m, state, "?help"@);
    let spaced = spec_add_space(marker.0, marker.1, 1);
    spec_add_literal_run(spaced.0, spaced.1, cmd)
}

/// Add literal edges for every character of `s`, in order.
fn add_literal_run<T>(state_machine: &mut StateMachine<T>, state: usize, s: &str) -> (r: usize)
    requires
        old(state_machine)@.wf(),
        (state as int) < old(state_machine)@.states.len(),
    ensures
        final(state_machine)@ == spec_add_literal_run(old(state_machine)@, state as int, s@).0,
        r as int == spec_add_literal_run(old(state_machine)@, state as int, s@).1,
        final(state_machine)@.wf(),
        (r as int) < final(state_machine)@.states.len(),
        old(state_machine)@.states.len() <= final(state_machine)@.states.len(),
        bindings_preserved(old(state_machine)@, final(state_machine)@),
{
    let ghost m0 = state_machine@;
    let n = s.unicode_len();
    let mut cur: usize = state;
    let mut i: usize = 0;
    proof {
        assert(s@.skip(0) =~= s@);
    }
    while i < n
        invariant
            n == s@.len(),
            i <= n,
            state_machine@.wf(),
            (cur as int) < state_machine@.states.len(),
            m0.states.len() <= state_machine@.states.len(),
            bindings_preserved(m0, state_machine@),
            spec_add_literal_run(state_machine@, cur as int, s@.skip(i as int))
                == spec_add_literal_run(m0, state as int, s@),
        decreases n - i,
    {
        let ghost m_pre = state_machine@;
        proof {
            assert(s@.skip(i as int).len() > 0);
            assert(s@.skip(i as int)[0] == s@[i as int]);
            assert(s@.skip(i as int).drop_first() =~= s@.skip(i as int + 1));
        }
        let ch = s.get_char(i);
        cur = state_machine.add_edge(cur, CharacterSet::from_char(ch));
        i += 1;
        proof {
            lemma_bindings_preserved_trans(m0, m_pre, state_machine@);
        }
    }
    proof {
        assert(s@.skip(i as int) =~= Seq::<char>::empty());
    }
    cur
}

/// The name of a `<non-empty-name>={}` key/value segment, if `s` is one.
pub fn key_value_pair(s: &str) -> (r: Option<String>)
    ensures
        (match r {
            Option::Some(name) => is_key_value_segment(s@) && name@ == s@.subrange(0, s@.len() - 3),
            Option::None => !is_key_value_segment(s@),
        }),
{
    let n = s.unicode_len();
    if n >= 4 && s.get_char(n - 3) == '=' && s.get_char(n - 2) == '{' && s.get_char(n - 1) == '}' {
        Option::Some(String::from_str(s.substring_char(0, n - 3)))
    } else {
        Option::None
    }
}

/// For every segment but the first, add the inter-segment whitespace hub: a
/// self-looping edge accepting one or more spaces or newlines.
pub fn add_space<T>(state_machine: &mut StateMachine<T>, state: usize, i: usize) -> (r: usize)
    requires
        old(state_machine)@.wf(),
        (state as int) < old(state_machine)@.states.len(),
    ensures
        final(state_machine)@ == spec_add_space(old(state_machine)@, state as int, i as int).0,
        r as int == spec_add_space(old(state_machine)@, state as int, i as int).1,
        final(state_machine)@.wf(),
        (r as int) < final(state_machine)@.states.len(),
        old(state_machine)@.states.len() <= final(state_machine)@.states.len(),
        bindings_preserved(old(state_machine)@, final(state_machine)@),
{
    let ghost m0 = state_machine@;
    if i > 0 {
        let hub = state_machine.add_edge(state, build_space_class());
        let ghost m1 = state_machine@;
        state_machine.add_alias_edge(hub, build_space_class(), hub);
        proof {
            lemma_bindings_preserved_trans(m0, m1, state_machine@);
        }
        hub
    } else {
        state
    }
}

/// The accepting path for `?help <base command>`.
pub fn add_help_menu<T>(state_machine: &mut StateMachine<T>, cmd: &str, state: usize) -> (r: usize)
    requires
        old(state_machine)@.wf(),
        (state as int) < old(state_machine)@.states.len(),
    ensures
        final(state_machine)@ == spec_add_help_menu(old(state_machine)@, cmd@, state as int).0,
        r as int == spec_add_help_menu(old(state_machine)@, cmd@, state as int).1,
        final(state_machine)@.wf(),
        (r as int) < final(state_machine)@.states.len(),
        old(state_machine)@.states.len() <= final(state_machine)@.states.len(),
        bindings_preserved(old(state_machine)@, final(state_machine)@),
{
    let ghost m0 = state_machine@;
    let mut state = add_literal_run(state_machine, state, "?help");
    let ghost m1 = state_machine@;
    state = add_space(state_machine, state, 1);
    let ghost m2 = state_machine@;
    state = add_literal_run(state_machine, state, cmd);
    proof {
        lemma_bindings_preserved_trans(m0, m1, m2);
        lemma_bindings_preserved_trans(m0, m2, state_machine@);
    }
    state
}

/// A self-looping capture anchor over `class`, tagged begin and end for
/// `name`.
fn add_anchor<T>(state_machine: &mut StateMachine<T>, name: &str, state: usize, class: CharacterSet, class_again: CharacterSet) -> (r: usize)
    requires
        old(state_machine)@.wf(),
        (state as int) < old(state_machine)@.states.len(),
        class@ == class_again@,
    ensures
        final(state_machine)@ == spec_add_anchor(old(state_machine)@, name@, state as int, class@).0,
        r as int == spec_add_anchor(old(state_machine)@, name@, state as int, class@).1,
        final(state_machine)@.wf(),
        (r as int) < final(state_machine)@.states.len(),
        old(state_machine)@.states.len() <= final(state_machine)@.states.len(),
        bindings_preserved(old(state_machine)@, final(state_machine)@),
{
    let ghost m0 = state_machine@;
    let anchor = state_machine.add_edge(state, class);
    let ghost m1 = state_machine@;
    state_machine.add_alias_edge(anchor, class_again, anchor);
    let ghost m2 = state_machine@;
    state_machine.mark_capture_begin(anchor, name);
    let ghost m3 = state_machine@;
    state_machine.mark_capture_end(anchor, name);
    proof {
        lemma_bindings_preserved_trans(m0, m1, m2);
        lemma_bindings_preserved_trans(m0, m2, m3);
        lemma_bindings_preserved_trans(m0, m3, state_machine@);
    }
    anchor
}

/// A `{name}` placeholder: one run of non-space characters, captured.
pub fn add_dynamic_segment<T>(state_machine: &mut StateMachine<T>, name: &str, state: usize) -> (r: usize)
    requires
        old(state_machine)@.wf(),
        (state as int) < old(state_machine)@.states.len(),
    ensures
        final(state_machine)@ == spec_add_dynamic_segment(old(state_machine)@, name@, state as int).0,
        r as int == spec_add_dynamic_segment(old(state_machine)@, name@, state as int).1,
        final(state_machine)@.wf(),
        (r as int) < final(state_machine)@.states.len(),
        old(state_machine)@.states.len() <= final(state_machine)@.states.len(),
        bindings_preserved(old(state_machine)@, final(state_machine)@),
{
    add_anchor(state_machine, name, state, build_dynamic_class(), build_dynamic_class())
}

/// A `name...` remainder: every remaining character, captured.
pub fn add_remaining_segment<T>(state_machine: &mut StateMachine<T>, name: &str, state: usize) -> (r: usize)
    requires
        old(state_machine)@.wf(),
        (state as int) < old(state_machine)@.states.len(),
    ensures
        final(state_machine)@ == spec_add_remaining_segment(old(state_machine)@, name@, state as int).0,
        r as int == spec_add_remaining_segment(old(state_machine)@, name@, state as int).1,
        final(state_machine)@.wf(),
        (r as int) < final(state_machine)@.states.len(),
        old(state_machine)@.states.len() <= final(state_machine)@.states.len(),
        bindings_preserved(old(state_machine)@, final(state_machine)@),
{
    add_anchor(state_machine, name, state, CharacterSet::any(), CharacterSet::any())
}

/// A run of `width` literal backtick edges.
fn add_backtick_run<T>(state_machine: &mut StateMachine<T>, state: usize, width: usize) -> (r: usize)
    requires
        old(state_machine)@.wf(),
        (state as int) < old(state_machine)@.states.len(),
    ensures
        final(state_machine)@ == spec_add_backtick_run(old(state_machine)@, state as int, width as int).0,
        r as int == spec_add_backtick_run(old(state_machine)@, state as int, width as int).1,
        final(state_machine)@.wf(),
        (r as int) < final(state_machine)@.states.len(),
        old(state_machine)@.states.len() <= final(state_machine)@.states.len(),
        bindings_preserved(old(state_machine)@, final(state_machine)@),
{
    let ghost m0 = state_machine@;
    let mut cur: usize = state;
    let mut k: usize = 0;
    while k < width
        invariant
            k <= width,
            state_machine@.wf(),
            (cur as int) < state_machine@.states.len(),
            m0.states.len() <= state_machine@.states.len(),
            bindings_preserved(m0, state_machine@),
            spec_add_backtick_run(state_machine@, cur as int, width as int - k as int)
                == spec_add_backtick_run(m0, state as int, width as int),
        decreases width - k,
    {
        let ghost m_pre = state_machine@;
        cur = state_machine.add_edge(cur, CharacterSet::from_char('`'));
        k += 1;
        proof {
            lemma_bindings_preserved_trans(m0, m_pre, state_machine@);
        }
    }
    cur
}

/// A single-line code segment: an opening fence of `n_backticks`, a captured
/// body, and a closing fence of the same width. The closing fence's first
/// edge is inserted ahead of the body's self-loop, so the first-accepting-
/// edge rule prefers closing the fence over extending the capture.
pub fn add_code_segment_single_line<T>(state_machine: &mut StateMachine<T>, name: &str, state: usize, n_backticks: usize) -> (r: usize)
    requires
        old(state_machine)@.wf(),
        (state as int) < old(state_machine)@.states.len(),
    ensures
        final(state_machine)@ == spec_add_code_segment_single_line(old(state_machine)@, name@, state as int, n_backticks as int).0,
        r as int == spec_add_code_segment_single_line(old(state_machine)@, name@, state as int, n_backticks as int).1,
        final(state_machine)@.wf(),
        (r as int) < final(state_machine)@.states.len(),
        old(state_machine)@.states.len() <= final(state_machine)@.states.len(),
        bindings_preserved(old(state_machine)@, final(state_machine)@),
{
    let ghost m0 = state_machine@;
    let opened = add_backtick_run(state_machine, state, n_backticks);
    let ghost m1 = state_machine@;
    let body = state_machine.add_edge(opened, CharacterSet::any());
    let ghost m2 = state_machine@;
    let closed = add_backtick_run(state_machine, body, n_backticks);
    let ghost m3 = state_machine@;
    state_machine.add_alias_edge(body, CharacterSet::any(), body);
    let ghost m4 = state_machine@;
    state_machine.mark_capture_begin(body, name);
    let ghost m5 = state_machine@;
    state_machine.mark_capture_end(body, name);
    proof {
        lemma_bindings_preserved_trans(m0, m1, m2);
        lemma_bindings_preserved_trans(m0, m2, m3);
        lemma_bindings_preserved_trans(m0, m3, m4);
        lemma_bindings_preserved_trans(m0, m4, m5);
        lemma_bindings_preserved_trans(m0, m5, state_machine@);
    }
    closed
}

/// A block code segment: an opening triple fence, an optional language tag
/// line, a newline, a captured multi-line body, and a closing triple fence.
/// The closing fence's first edge precedes the body's self-loop, as in the
/// single-line form.
pub fn add_code_segment_multi_line<T>(state_machine: &mut StateMachine<T>, name: &str, state: usize) -> (r: usize)
    requires
        old(state_machine)@.wf(),
        (state as int) < old(state_machine)@.states.len(),
    ensures
        final(state_machine)@ == spec_add_code_segment_multi_line(old(state_machine)@, name@, state as int).0,
        r as int == spec_add_code_segment_multi_line(old(state_machine)@, name@, state as int).1,
        final(state_machine)@.wf(),
        (r as int) < final(state_machine)@.states.len(),
        old(state_machine)@.states.len() <= final(state_machine)@.states.len(),
        bindings_preserved(old(state_machine)@, final(state_machine)@),
{
    let ghost m0 = state_machine@;
    let opened = add_backtick_run(state_machine, state, 3);
    let ghost m1 = state_machine@;
    let tag = state_machine.add_edge(opened, build_tag_class());
    let ghost m2 = state_machine@;
    state_machine.add_alias_edge(tag, build_tag_class(), tag);
    let ghost m3 = state_machine@;
    let nl = state_machine.add_edge(tag, CharacterSet::from_char('\n'));
    let ghost m4 = state_machine@;
    state_machine.add_alias_edge(opened, CharacterSet::from_char('\n'), nl);
    let ghost m5 = state_machine@;
    let body = state_machine.add_edge(nl, CharacterSet::any());
    let ghost m6 = state_machine@;
    let closed = add_backtick_run(state_machine, body, 3);
    let ghost m7 = state_machine@;
    state_machine.add_alias_edge(body, CharacterSet::any(), body);
    let ghost m8 = state_machine@;
    state_machine.mark_capture_begin(body, name);
    let ghost m9 = state_machine@;
    state_machine.mark_capture_end(body, name);
    proof {
        lemma_bindings_preserved_trans(m0, m1, m2);
        lemma_bindings_preserved_trans(m0, m2, m3);
        lemma_bindings_preserved_trans(m0, m3, m4);
        lemma_bindings_preserved_trans(m0, m4, m5);
        lemma_bindings_preserved_trans(m0, m5, m6);
        lemma_bindings_preserved_trans(m0, m6, m7);
        lemma_bindings_preserved_trans(m0, m7, m8);
        lemma_bindings_preserved_trans(m0, m8, m9);
        lemma_bindings_preserved_trans(m0, m9, state_machine@);
    }
    closed
}

/// A `name={}` flag: literal edges for the name, a literal `=`, then a
/// self-looping value capture named after the key.
pub fn add_key_value<T>(state_machine: &mut StateMachine<T>, name: &str, state: usize) -> (r: usize)
    requires
        old(state_machine)@.wf(),
        (state as int) < old(state_machine)@.states.len(),
    ensures
        final(state_machine)@ == spec_add_key_value(old(state_machine)@, name@, state as int).0,
        r as int == spec_add_key_value(old(state_machine)@, name@, state as int).1,
        final(state_machine)@.wf(),
        (r as int) < final(state_machine)@.states.len(),
        old(state_machine)@.states.len() <= final(state_machine)@.states.len(),
        bindings_preserved(old(state_machine)@, final(state_machine)@),
{
    let ghost m0 = state_machine@;
    let named = add_literal_run(state_machine, state, name);
    let ghost m1 = state_machine@;
    let eq_state = state_machine.add_edge(named, CharacterSet::from_char('='));
    let ghost m2 = state_machine@;
    let anchor = add_anchor(state_machine, name, eq_state, build_value_class(), build_value_class());
    proof {
        lemma_bindings_preserved_trans(m0, m1, m2);
        lemma_bindings_preserved_trans(m0, m2, state_machine@);
    }
    anchor
}

} // verus!

verus! {

// ---------------------------------------------------------------------------
// The router
// ---------------------------------------------------------------------------

/// The authorization guard bound to a template: either no restriction, or an
/// opaque predicate the embedding application evaluates before dispatch.
#[derive(Clone, Copy)]
pub enum Guard<G> {
    /// Every caller may run the command.
    Always,
    /// The application-supplied predicate must grant the caller first.
    Custom(G),
}

/// What a registration binds to its accepting states: the handler payload and
/// the guard gating it.
pub struct CommandBinding<H, G> {
    pub handler: H,
    pub guard: Guard<G>,
}

/// One recorded help line: the template text, its description, and the guard
/// that protects the command.
pub struct MenuEntry<G> {
    pub command: String,
    pub description: String,
    pub guard: Guard<G>,
}

/// The router: one shared automaton for all registered templates, the bound
/// handler/guard pairs, and the one-shot help listing.
pub struct Commands<H, G> {
    pub state_machine: StateMachine<usize>,
    pub bindings: Vec<CommandBinding<H, G>>,
    pub menu: Option<Vec<MenuEntry<G>>>,
}

/// Every binding stored in the automaton indexes into a table of length `n`.
pub open spec fn bindings_bounded(m: MachineView<usize>, n: int) -> bool {
    forall|s: int| #![trigger m.states[s]]
        0 <= s < m.states.len() ==> (match m.states[s].binding {
            Option::Some(b) => (b as int) < n,
            Option::None => true,
        })
}

pub proof fn lemma_bounded_preserved(m0: MachineView<usize>, m1: MachineView<usize>, n: int)
    requires
        bindings_bounded(m0, n),
        bindings_preserved(m0, m1),
    ensures
        bindings_bounded(m1, n),
{
    assert forall|s: int| 0 <= s < m1.states.len() implies (match (#[trigger] m1.states[s]).binding {
        Option::Some(b) => (b as int) < n,
        Option::None => true,
    }) by {
        if s < m0.states.len() {
            assert(m1.states[s].binding == m0.states[s].binding);
        } else {
            assert(m1.states[s].binding == Option::<usize>::None);
        }
    }
}

/// The compiler's running state over one template's segments.
#[verifier::ext_equal]
pub struct CompileFrame {
    pub machine: MachineView<usize>,
    pub state: int,
    pub lambda: Option<int>,
    pub finals: Seq<int>,
}

/// The integer views of a state-id list.
pub open spec fn ints_of(v: Seq<usize>) -> Seq<int> {
    v.map_values(|x: usize| x as int)
}

/// The frame described by the compiler's executable state.
pub open spec fn compile_frame_of(m: MachineView<usize>, state: int, lambda_state: Option<usize>, finals: Seq<usize>) -> CompileFrame {
    CompileFrame {
        machine: m,
        state,
        lambda: match lambda_state {
            Option::Some(l) => Option::Some(l as int),
            Option::None => Option::None,
        },
        finals: ints_of(finals),
    }
}

/// How segment `i` of a template transforms the compiler's frame. Key/value
/// flags share one hub state: the first creates it, each attaches from it and
/// loops back, and each prefix of the flag run stays independently final.
/// Every other segment resets the hub and compiles after the inter-segment
/// whitespace hub.
pub open spec fn spec_compile_segment(f: CompileFrame, seg: Seq<char>, i: int) -> CompileFrame {
    match spec_classify(seg) {
        SegmentKindView::KeyValue(name) => match f.lambda {
            Option::Some(l) => {
                let kv = spec_add_key_value(f.machine, name, l);
                let m2 = spec_add_alias_edge(kv.0, kv.1, space_class(), l);
                CompileFrame { machine: m2, state: kv.1, lambda: Option::Some(l), finals: f.finals.push(kv.1) }
            },
            Option::None => {
                let finals1 = f.finals.push(f.state);
                let hub = spec_add_space(f.machine, f.state, i);
                let kv = spec_add_key_value(hub.0, name, hub.1);
                let m3 = spec_add_alias_edge(kv.0, kv.1, space_class(), hub.1);
                CompileFrame { machine: m3, state: kv.1, lambda: Option::Some(hub.1), finals: finals1.push(kv.1) }
            },
        },
        SegmentKindView::BlockCode(name) => {
            let spaced = spec_add_space(f.machine, f.state, i);
            let done = spec_add_code_segment_multi_line(spaced.0, name, spaced.1);
            CompileFrame { machine: done.0, state: done.1, lambda: Option::None, finals: Seq::empty() }
        },
        SegmentKindView::InlineCode(name, width) => {
            let spaced = spec_add_space(f.machine, f.state, i);
            let done = spec_add_code_segment_single_line(spaced.0, name, spaced.1, width);
            CompileFrame { machine: done.0, state: done.1, lambda: Option::None, finals: Seq::empty() }
        },
        SegmentKindView::Placeholder(name) => {
            let spaced = spec_add_space(f.machine, f.state, i);
            let done = spec_add_dynamic_segment(spaced.0, name, spaced.1);
            CompileFrame { machine: done.0, state: done.1, lambda: Option::None, finals: Seq::empty() }
        },
        SegmentKindView::Remainder(name) => {
            let spaced = spec_add_space(f.machine, f.state, i);
            let done = spec_add_remaining_segment(spaced.0, name, spaced.1);
            CompileFrame { machine: done.0, state: done.1, lambda: Option::None, finals: Seq::empty() }
        },
        SegmentKindView::LiteralText => {
            let spaced = spec_add_space(f.machine, f.state, i);
            let done = spec_add_literal_run(spaced.0, spaced.1, seg);
            CompileFrame { machine: done.0, state: done.1, lambda: Option::None, finals: Seq::empty() }
        },
    }
}

/// The frame after compiling the segments from index `i` on.
pub open spec fn spec_compile_rec(f: CompileFrame, segs: Seq<Seq<char>>, i: int) -> CompileFrame
    decreases segs.len() - i,
{
    if i < 0 || i >= segs.len() {
        f
    } else {
        spec_compile_rec(spec_compile_segment(f, segs[i], i), segs, i + 1)
    }
}

/// The machine after marking every state of `finals` from index `i` on final
/// with `idx`.
pub open spec fn spec_mark_all(m: MachineView<usize>, finals: Seq<int>, i: int, idx: usize) -> MachineView<usize>
    decreases finals.len() - i,
{
    if i < 0 || i >= finals.len() {
        m
    } else {
        spec_mark_all(spec_mark_final(m, finals[i], idx), finals, i + 1, idx)
    }
}

/// The machine after registering `command` bound to table index `idx`: the
/// compiled path, with every accumulated key/value prefix state final when a
/// flag run ends the template, and the single terminal state final otherwise.
pub open spec fn spec_register(m: MachineView<usize>, command: Seq<char>, idx: usize) -> MachineView<usize> {
    let f = spec_compile_rec(
        CompileFrame { machine: m, state: 0, lambda: Option::None, finals: Seq::empty() },
        spec_split(command),
        0,
    );
    if f.lambda is Some {
        spec_mark_all(f.machine, f.finals, 0, idx)
    } else {
        spec_mark_final(f.machine, f.state, idx)
    }
}

/// The machine after registering the help path for the base command `base`,
/// bound to table index `idx`.
pub open spec fn spec_help_register(m: MachineView<usize>, base: Seq<char>, idx: usize) -> MachineView<usize> {
    let p = spec_add_help_menu(m, base, 0);
    spec_mark_final(p.0, p.1, idx)
}

/// Index of the first listing entry for `cmd`, scanning from `i`.
pub open spec fn spec_menu_index<G>(entries: Seq<MenuEntry<G>>, cmd: Seq<char>, i: int) -> Option<int>
    decreases entries.len() - i,
{
    if i < 0 || i >= entries.len() {
        Option::None
    } else if entries[i].command@ == cmd {
        Option::Some(i)
    } else {
        spec_menu_index(entries, cmd, i + 1)
    }
}

/// No two listing entries describe the same command: the listing behaves as a
/// map keyed by the command text.
pub open spec fn menu_commands_unique<G>(entries: Seq<MenuEntry<G>>) -> bool {
    forall|a: int, b: int| 0 <= a < b < entries.len()
        ==> (#[trigger] entries[a]).command@ != (#[trigger] entries[b]).command@
}

/// How recording (`cmd`, `desc`, `guard`) changes the listing: the entry for
/// `cmd` is overwritten in place when one exists, appended otherwise, and
/// every other entry is untouched — a later registration of the same command
/// replaces the earlier description and guard.
pub open spec fn spec_menu_put<G>(v0: Seq<MenuEntry<G>>, v1: Seq<MenuEntry<G>>, cmd: Seq<char>, desc: Seq<char>, guard: Guard<G>) -> bool {
    match spec_menu_index(v0, cmd, 0) {
        Option::Some(j) => v1.len() == v0.len()
            && (forall|k: int| 0 <= k < v1.len() && k != j ==> (#[trigger] v1[k]) == v0[k])
            && v1[j].command@ == cmd
            && v1[j].description@ == desc
            && v1[j].guard == guard,
        Option::None => v1.len() == v0.len() + 1
            && v1.drop_last() == v0
            && v1.last().command@ == cmd
            && v1.last().description@ == desc
            && v1.last().guard == guard,
    }
}

fn menu_position<G>(entries: &Vec<MenuEntry<G>>, key: &String) -> (r: Option<usize>)
    ensures
        (match r {
            Option::Some(j) => (j as int) < entries@.len()
                && spec_menu_index(entries@, key@, 0) == Option::Some(j as int)
                && entries@[j as int].command@ == key@,
            Option::None => spec_menu_index(entries@, key@, 0) is None
                && forall|k: int| 0 <= k < entries@.len() ==> (#[trigger] entries@[k]).command@ != key@,
        }),
{
    let n = entries.len();
    let mut j: usize = 0;
    while j < n
        invariant
            j <= n,
            n == entries@.len(),
            spec_menu_index(entries@, key@, 0) == spec_menu_index(entries@, key@, j as int),
            forall|k: int| 0 <= k < j ==> (#[trigger] entries@[k]).command@ != key@,
        decreases n - j,
    {
        if entries[j].command == *key {
            proof {
                assert(spec_menu_index(entries@, key@, j as int) == Option::Some(j as int));
            }
            return Option::Some(j);
        }
        j += 1;
    }
    Option::None
}

impl<H: Copy, G: Copy> Commands<H, G> {
    /// The automaton, the handler table and the help listing are consistent,
    /// and the listing holds at most one entry per command.
    pub open spec fn wf(self) -> bool {
        &&& self.state_machine@.wf()
        &&& bindings_bounded(self.state_machine@, self.bindings@.len() as int)
        &&& (match self.menu {
            Option::Some(v) => menu_commands_unique(v@),
            Option::None => true,
        })
    }

    /// A router with no registered template and an empty help listing.
    pub fn new() -> (r: Self)
        ensures
            r.wf(),
            r.state_machine@ == spec_new_machine::<usize>(),
            r.bindings@ == Seq::<CommandBinding<H, G>>::empty(),
            (match r.menu {
                Option::Some(v) => v@ == Seq::<MenuEntry<G>>::empty(),
                Option::None => false,
            }),
    {
        let r = Commands {
            state_machine: StateMachine::new(),
            bindings: Vec::new(),
            menu: Option::Some(Vec::new()),
        };
        proof {
            assert(r.bindings@ =~= Seq::<CommandBinding<H, G>>::empty());
        }
        r
    }

    /// Compile `command` into the shared automaton and bind `binding` to its
    /// accepting states. Fails fast, leaving the router untouched, when some
    /// segment is malformed.
    fn register_binding(&mut self, command: &str, binding: CommandBinding<H, G>) -> (r: Result<(), CompileError>)
        requires
            old(self).wf(),
        ensures
            final(self).wf(),
            r is Ok <==> spec_template_wf(command@),
            r is Ok ==> final(self).state_machine@
                == spec_register(old(self).state_machine@, command@, old(self).bindings@.len() as usize)
                && final(self).bindings@ == old(self).bindings@.push(binding)
                && final(self).menu == old(self).menu,
            r is Ok ==> final(self).state_machine@.states.len() >= old(self).state_machine@.states.len(),
            r is Ok ==> (forall|s: int| #![trigger final(self).state_machine@.states[s]]
                0 <= s < old(self).state_machine@.states.len()
                    ==> final(self).state_machine@.states[s].binding
                        == old(self).state_machine@.states[s].binding
                    || final(self).state_machine@.states[s].binding
                        == Option::Some(old(self).bindings@.len() as usize)),
            (match r {
                Result::Err(e) => *final(self) == *old(self)
                    && spec_first_error(spec_split(command@), 0) == Option::Some(e),
                Result::Ok(()) => true,
            }),
    {
        let segs = split_segments(command);
        let ghost segsv = spec_split(command@);
        // fail fast on a malformed segment, before any state is touched
        let mut si: usize = 0;
        while si < segs.len()
            invariant
                *self == *old(self),
                old(self).wf(),
                si <= segs@.len(),
                forall|k: int| 0 <= k < segs@.len() ==> (#[trigger] segs@[k])@ == segsv[k],
                segsv == spec_split(command@),
                segsv.len() == segs@.len(),
                spec_first_error(segsv, 0) == spec_first_error(segsv, si as int),
            decreases segs@.len() - si,
        {
            match segment_error(segs[si].as_str()) {
                Option::Some(e) => {
                    proof {
                        assert(spec_first_error(segsv, si as int) == Option::Some(e));
                    }
                    return Result::Err(e);
                },
                Option::None => {},
            }
            si += 1;
        }
        proof {
            assert(spec_first_error(segsv, si as int) is None);
            assert(spec_template_wf(command@));
        }

        let ghost m_start = self.state_machine@;
        let ghost f_init = CompileFrame {
            machine: m_start,
            state: 0,
            lambda: Option::<int>::None,
            finals: Seq::<int>::empty(),
        };
        let idx = self.bindings.len();
        let mut state: usize = 0;
        let mut lambda_state: Option<usize> = Option::None;
        let mut final_states: Vec<usize> = Vec::new();
        let mut sj: usize = 0;
        proof {
            assert(ints_of(final_states@) =~= Seq::<int>::empty());
            assert(compile_frame_of(self.state_machine@, 0, lambda_state, final_states@) =~~= f_init);
        }
        while sj < segs.len()
            invariant
                sj <= segs@.len(),
                forall|k: int| 0 <= k < segs@.len() ==> (#[trigger] segs@[k])@ == segsv[k],
                segsv.len() == segs@.len(),
                self.state_machine@.wf(),
                (state as int) < self.state_machine@.states.len(),
                (match lambda_state {
                    Option::Some(l) => (l as int) < self.state_machine@.states.len(),
                    Option::None => true,
                }),
                forall|k: int| 0 <= k < final_states@.len()
                    ==> ((#[trigger] final_states@[k]) as int) < self.state_machine@.states.len(),
                bindings_bounded(self.state_machine@, idx as int),
                bindings_preserved(m_start, self.state_machine@),
                idx == self.bindings@.len(),
                self.bindings == old(self).bindings,
                self.menu == old(self).menu,
                spec_compile_rec(compile_frame_of(self.state_machine@, state as int, lambda_state, final_states@), segsv, sj as int)
                    == spec_compile_rec(f_init, segsv, 0),
            decreases segs@.len() - sj,
        {
            let ghost f_pre = compile_frame_of(self.state_machine@, state as int, lambda_state, final_states@);
            let ghost sj0 = sj as int;
            let ghost m_pre = self.state_machine@;
            let kind = classify(segs[sj].as_str());
            match kind {
                SegmentKind::KeyValue(name) => {
                    match lambda_state {
                        Option::Some(l) => {
                            let s1 = add_key_value(&mut self.state_machine, name.as_str(), l);
                            let ghost m_mid = self.state_machine@;
                            self.state_machine.add_alias_edge(s1, build_space_class(), l);
                            let ghost pre_finals = final_states@;
                            final_states.push(s1);
                            state = s1;
                            proof {
                                lemma_bindings_preserved_trans(m_pre, m_mid, self.state_machine@);
                                lemma_bounded_preserved(m_pre, self.state_machine@, idx as int);
                                lemma_bindings_preserved_trans(m_start, m_pre, self.state_machine@);
                                assert(ints_of(final_states@) =~= ints_of(pre_finals).push(s1 as int));
                            }
                        },
                        Option::None => {
                            let ghost pre_finals0 = final_states@;
                            final_states.push(state);
                            let hub = add_space(&mut self.state_machine, state, sj);
                            let ghost m_mid1 = self.state_machine@;
                            lambda_state = Option::Some(hub);
                            let s1 = add_key_value(&mut self.state_machine, name.as_str(), hub);
                            let ghost m_mid2 = self.state_machine@;
                            self.state_machine.add_alias_edge(s1, build_space_class(), hub);
                            let ghost pre_finals1 = final_states@;
                            final_states.push(s1);
                            state = s1;
                            proof {
                                lemma_bindings_preserved_trans(m_pre, m_mid1, m_mid2);
                                lemma_bindings_preserved_trans(m_pre, m_mid2, self.state_machine@);
                                lemma_bounded_preserved(m_pre, self.state_machine@, idx as int);
                                lemma_bindings_preserved_trans(m_start, m_pre, self.state_machine@);
                                assert(ints_of(pre_finals1) =~= ints_of(pre_finals0).push(f_pre.state));
                                assert(ints_of(final_states@) =~= ints_of(pre_finals1).push(s1 as int));
                            }
                        },
                    }
                },
                SegmentKind::BlockCode(name) => {
                    lambda_state = Option::None;
                    final_states.clear();
                    let s1 = add_space(&mut self.state_machine, state, sj);
                    let ghost m_mid = self.state_machine@;
                    state = add_code_segment_multi_line(&mut self.state_machine, name.as_str(), s1);
                    proof {
                        lemma_bindings_preserved_trans(m_pre, m_mid, self.state_machine@);
                        lemma_bounded_preserved(m_pre, self.state_machine@, idx as int);
                                lemma_bindings_preserved_trans(m_start, m_pre, self.state_machine@);
                        assert(ints_of(final_states@) =~= Seq::<int>::empty());
                    }
                },
                SegmentKind::InlineCode(name, width) => {
                    lambda_state = Option::None;
                    final_states.clear();
                    let s1 = add_space(&mut self.state_machine, state, sj);
                    let ghost m_mid = self.state_machine@;
                    state = add_code_segment_single_line(&mut self.state_machine, name.as_str(), s1, width);
                    proof {
                        lemma_bindings_preserved_trans(m_pre, m_mid, self.state_machine@);
                        lemma_bounded_preserved(m_pre, self.state_machine@, idx as int);
                                lemma_bindings_preserved_trans(m_start, m_pre, self.state_machine@);
                        assert(ints_of(final_states@) =~= Seq::<int>::empty());
                    }
                },
                SegmentKind::Placeholder(name) => {
                    lambda_state = Option::None;
                    final_states.clear();
                    let s1 = add_space(&mut self.state_machine, state, sj);
                    let ghost m_mid = self.state_machine@;
                    state = add_dynamic_segment(&mut self.state_machine, name.as_str(), s1);
                    proof {
                        lemma_bindings_preserved_trans(m_pre, m_mid, self.state_machine@);
                        lemma_bounded_preserved(m_pre, self.state_machine@, idx as int);
                                lemma_bindings_preserved_trans(m_start, m_pre, self.state_machine@);
                        assert(ints_of(final_states@) =~= Seq::<int>::empty());
                    }
                },
                SegmentKind::Remainder(name) => {
                    lambda_state = Option::None;
                    final_states.clear();
                    let s1 = add_space(&mut self.state_machine, state, sj);
                    let ghost m_mid = self.state_machine@;
                    state = add_remaining_segment(&mut self.state_machine, name.as_str(), s1);
                    proof {
                        lemma_bindings_preserved_trans(m_pre, m_mid, self.state_machine@);
                        lemma_bounded_preserved(m_pre, self.state_machine@, idx as int);
                                lemma_bindings_preserved_trans(m_start, m_pre, self.state_machine@);
                        assert(ints_of(final_states@) =~= Seq::<int>::empty());
                    }
                },
                SegmentKind::LiteralText => {
                    lambda_state = Option::None;
                    final_states.clear();
                    let s1 = add_space(&mut self.state_machine, state, sj);
                    let ghost m_mid = self.state_machine@;
                    state = add_literal_run(&mut self.state_machine, s1, segs[sj].as_str());
                    proof {
                        lemma_bindings_preserved_trans(m_pre, m_mid, self.state_machine@);
                        lemma_bounded_preserved(m_pre, self.state_machine@, idx as int);
                                lemma_bindings_preserved_trans(m_start, m_pre, self.state_machine@);
                        assert(ints_of(final_states@) =~= Seq::<int>::empty());
                    }
                },
            }
            sj += 1;
            proof {
                let f_now = compile_frame_of(self.state_machine@, state as int, lambda_state, final_states@);
                assert(f_now =~~= spec_compile_segment(f_pre, segsv[sj0], sj0));
                assert(spec_compile_rec(f_pre, segsv, sj0)
                    == spec_compile_rec(spec_compile_segment(f_pre, segsv[sj0], sj0), segsv, sj0 + 1));
            }
        }
        let ghost f_end = compile_frame_of(self.state_machine@, state as int, lambda_state, final_states@);
        proof {
            assert(spec_compile_rec(f_end, segsv, sj as int) == f_end);
            assert(f_end == spec_compile_rec(f_init, segsv, 0));
        }
        self.bindings.push(binding);
        proof {
            assert(bindings_bounded(self.state_machine@, idx as int + 1)) by {
                assert forall|s: int| 0 <= s < self.state_machine@.states.len()
                    implies (match (#[trigger] self.state_machine@.states[s]).binding {
                        Option::Some(b) => (b as int) < idx as int + 1,
                        Option::None => true,
                    }) by {}
            }
        }
        if lambda_state.is_some() {
            let ghost m_marks = self.state_machine@;
            let mut k: usize = 0;
            while k < final_states.len()
                invariant
                    k <= final_states@.len(),
                    self.state_machine@.wf(),
                    self.state_machine@.states.len() == m_marks.states.len(),
                    forall|j: int| 0 <= j < final_states@.len()
                        ==> ((#[trigger] final_states@[j]) as int) < self.state_machine@.states.len(),
                    bindings_bounded(self.state_machine@, idx as int + 1),
                    bindings_preserved(m_start, m_marks),
                    forall|s: int| #![trigger self.state_machine@.states[s]]
                        0 <= s < self.state_machine@.states.len()
                            ==> self.state_machine@.states[s].binding == m_marks.states[s].binding
                            || self.state_machine@.states[s].binding == Option::Some(idx),
                    idx as int + 1 == self.bindings@.len(),
                    self.menu == old(self).menu,
                    self.bindings@ == old(self).bindings@.push(binding),
                    spec_mark_all(self.state_machine@, ints_of(final_states@), k as int, idx)
                        == spec_mark_all(m_marks, ints_of(final_states@), 0, idx),
                decreases final_states@.len() - k,
            {
                let ghost m_k = self.state_machine@;
                self.state_machine.mark_final(final_states[k], idx);
                k += 1;
                proof {
                    assert(ints_of(final_states@)[k as int - 1] == final_states@[k as int - 1] as int);
                    assert forall|s: int| 0 <= s < self.state_machine@.states.len()
                        implies (#[trigger] self.state_machine@.states[s]).binding
                            == m_marks.states[s].binding
                        || self.state_machine@.states[s].binding == Option::Some(idx) by {
                        if s != final_states@[k as int - 1] as int {
                            assert(self.state_machine@.states[s].binding == m_k.states[s].binding);
                        }
                    }
                    assert(bindings_bounded(self.state_machine@, idx as int + 1)) by {
                        assert forall|s: int| 0 <= s < self.state_machine@.states.len()
                            implies (match (#[trigger] self.state_machine@.states[s]).binding {
                                Option::Some(b) => (b as int) < idx as int + 1,
                                Option::None => true,
                            }) by {
                            assert(m_k.states[s].binding == (match m_k.states[s].binding {
                                Option::Some(b) => Option::Some(b),
                                Option::None => Option::<usize>::None,
                            }));
                        }
                    }
                }
            }
            proof {
                assert forall|s: int| 0 <= s < m_start.states.len()
                    implies (#[trigger] self.state_machine@.states[s]).binding
                        == m_start.states[s].binding
                    || self.state_machine@.states[s].binding == Option::Some(idx) by {
                    assert(m_marks.states[s].binding == m_start.states[s].binding);
                }
            }
        } else {
            let ghost m_b = self.state_machine@;
            self.state_machine.mark_final(state, idx);
            proof {
                assert(bindings_bounded(self.state_machine@, idx as int + 1)) by {
                    assert forall|s: int| 0 <= s < self.state_machine@.states.len()
                        implies (match (#[trigger] self.state_machine@.states[s]).binding {
                            Option::Some(b) => (b as int) < idx as int + 1,
                            Option::None => true,
                        }) by {}
                }
                assert forall|s: int| 0 <= s < m_start.states.len()
                    implies (#[trigger] self.state_machine@.states[s]).binding
                        == m_start.states[s].binding
                    || self.state_machine@.states[s].binding == Option::Some(idx) by {
                    if s != state as int {
                        assert(self.state_machine@.states[s].binding == m_b.states[s].binding);
                    }
                    assert(m_b.states[s].binding == m_start.states[s].binding);
                }
            }
        }
        Result::Ok(())
    }

    /// Register `command` with `handler`, gated by no guard.
    pub fn add(&mut self, command: &str, handler: H) -> (r: Result<(), CompileError>)
        requires
            old(self).wf(),
        ensures
            final(self).wf(),
            r is Ok <==> spec_template_wf(command@),
            r is Ok ==> final(self).state_machine@
                == spec_register(old(self).state_machine@, command@, old(self).bindings@.len() as usize)
                && final(self).bindings@ == old(self).bindings@.push(
                    (CommandBinding { handler, guard: Guard::<G>::Always }),
                )
                && final(self).menu == old(self).menu,
            r is Ok ==> final(self).state_machine@.states.len() >= old(self).state_machine@.states.len(),
            r is Ok ==> (forall|s: int| #![trigger final(self).state_machine@.states[s]]
                0 <= s < old(self).state_machine@.states.len()
                    ==> final(self).state_machine@.states[s].binding
                        == old(self).state_machine@.states[s].binding
                    || final(self).state_machine@.states[s].binding
                        == Option::Some(old(self).bindings@.len() as usize)),
            (match r {
                Result::Err(e) => *final(self) == *old(self)
                    && spec_first_error(spec_split(command@), 0) == Option::Some(e),
                Result::Ok(()) => true,
            }),
    {
        self.register_binding(command, CommandBinding { handler, guard: Guard::Always })
    }

    /// Register `command` with `handler`, gated by `guard`.
    pub fn add_protected(&mut self, command: &str, handler: H, guard: G) -> (r: Result<(), CompileError>)
        requires
            old(self).wf(),
        ensures
            final(self).wf(),
            r is Ok <==> spec_template_wf(command@),
            r is Ok ==> final(self).state_machine@
                == spec_register(old(self).state_machine@, command@, old(self).bindings@.len() as usize)
                && final(self).bindings@ == old(self).bindings@.push(
                    (CommandBinding { handler, guard: Guard::Custom(guard) }),
                )
                && final(self).menu == old(self).menu,
            r is Ok ==> final(self).state_machine@.states.len() >= old(self).state_machine@.states.len(),
            r is Ok ==> (forall|s: int| #![trigger final(self).state_machine@.states[s]]
                0 <= s < old(self).state_machine@.states.len()
                    ==> final(self).state_machine@.states[s].binding
                        == old(self).state_machine@.states[s].binding
                    || final(self).state_machine@.states[s].binding
                        == Option::Some(old(self).bindings@.len() as usize)),
            (match r {
                Result::Err(e) => *final(self) == *old(self)
                    && spec_first_error(spec_split(command@), 0) == Option::Some(e),
                Result::Ok(()) => true,
            }),
    {
        self.register_binding(command, CommandBinding { handler, guard: Guard::Custom(guard) })
    }
}

} // verus!

verus! {

/// A matched message, ready for dispatch: the bound handler, the guard to
/// evaluate first, and the captured parameters.
pub struct Invocation<H, G> {
    pub handler: H,
    pub guard: Guard<G>,
    pub params: Params,
}

/// What a guard's verdict means for the dispatch.
pub enum AuthorizationOutcome<E> {
    /// Run the handler.
    Granted,
    /// Invoke the unauthorized callback instead of the handler.
    Denied,
    /// Report the guard's error to the error sink; run nothing.
    Failed(E),
}

/// The outcome a guard verdict decides.
pub open spec fn spec_authorization<E>(verdict: Result<bool, E>) -> AuthorizationOutcome<E> {
    match verdict {
        Result::Ok(true) => AuthorizationOutcome::Granted,
        Result::Ok(false) => AuthorizationOutcome::Denied,
        Result::Err(e) => AuthorizationOutcome::Failed(e),
    }
}

/// Turn a guard's verdict into the dispatch decision: `Ok(true)` grants,
/// `Ok(false)` denies, and an error is reported.
pub fn evaluate_verdict<E>(verdict: Result<bool, E>) -> (r: AuthorizationOutcome<E>)
    ensures
        r == spec_authorization(verdict),
{
    match verdict {
        Result::Ok(true) => AuthorizationOutcome::Granted,
        Result::Ok(false) => AuthorizationOutcome::Denied,
        Result::Err(e) => AuthorizationOutcome::Failed(e),
    }
}

/// Each dispatch decides exactly one outcome: a grant, a denial, or an error
/// report — never two of them.
pub proof fn lemma_dispatch_outcome_exclusive<E>(verdict: Result<bool, E>)
    ensures
        (spec_authorization(verdict) is Granted) <==> verdict == Result::<bool, E>::Ok(true),
        (spec_authorization(verdict) is Denied) <==> verdict == Result::<bool, E>::Ok(false),
        (spec_authorization(verdict) is Failed) <==> verdict is Err,
{
}

/// Guard gating: on any message the router matched, a guard verdict of
/// `Ok(false)` decides a denial — never a grant, so never the handler.
pub proof fn lemma_denied_guard_never_grants<H: Copy, G: Copy, E>(
    c: Commands<H, G>,
    message: Seq<char>,
    verdict: Result<bool, E>,
)
    requires
        c.spec_find(message) is Some,
        verdict == Result::<bool, E>::Ok(false),
    ensures
        spec_authorization(verdict) is Denied,
        !(spec_authorization(verdict) is Granted),
{
}

/// What one help-listing extraction does: it returns the stored listing, the
/// router afterwards stores none, and nothing else changes.
pub open spec fn spec_menu_take<H, G>(pre: Commands<H, G>, post: Commands<H, G>, r: Option<Vec<MenuEntry<G>>>) -> bool {
    &&& r == pre.menu
    &&& post.menu is None
    &&& post.state_machine == pre.state_machine
    &&& post.bindings == pre.bindings
}

/// Idempotent help extraction: two successive extractions return the full
/// listing once; the second returns nothing.
pub proof fn lemma_help_extraction_one_shot<H, G>(
    c0: Commands<H, G>,
    c1: Commands<H, G>,
    c2: Commands<H, G>,
    r1: Option<Vec<MenuEntry<G>>>,
    r2: Option<Vec<MenuEntry<G>>>,
)
    requires
        spec_menu_take(c0, c1, r1),
        spec_menu_take(c1, c2, r2),
    ensures
        r1 == c0.menu,
        r2 is None,
{
}

impl<H: Copy, G: Copy> Commands<H, G> {
    /// Compile the `?help <base>` path for `cmd` (its leading marker
    /// stripped), record the help line, and bind `binding`. Registering help
    /// for a command already listed replaces its description and guard.
    fn help_binding(&mut self, cmd: &str, desc: &str, binding: CommandBinding<H, G>)
        requires
            old(self).wf(),
            cmd@.len() >= 1,
        ensures
            final(self).wf(),
            final(self).state_machine@ == spec_help_register(
                old(self).state_machine@,
                cmd@.subrange(1, cmd@.len() as int),
                old(self).bindings@.len() as usize,
            ),
            final(self).bindings@ == old(self).bindings@.push(binding),
            final(self).state_machine@.states.len() >= old(self).state_machine@.states.len(),
            (forall|s: int| #![trigger final(self).state_machine@.states[s]]
                0 <= s < old(self).state_machine@.states.len()
                    ==> final(self).state_machine@.states[s].binding
                        == old(self).state_machine@.states[s].binding
                    || final(self).state_machine@.states[s].binding
                        == Option::Some(old(self).bindings@.len() as usize)),
            (match (old(self).menu, final(self).menu) {
                (Option::Some(v0), Option::Some(v1)) => spec_menu_put(v0@, v1@, cmd@, desc@, binding.guard),
                (Option::None, Option::None) => true,
                _ => false,
            }),
    {
        let taken = self.menu.take();
        match taken {
            Option::Some(mut entries) => {
                let key = String::from_str(cmd);
                let ghost v0 = entries@;
                match menu_position(&entries, &key) {
                    Option::Some(j) => {
                        entries[j] = MenuEntry {
                            command: key,
                            description: String::from_str(desc),
                            guard: binding.guard,
                        };
                        proof {
                            if menu_commands_unique(v0) {
                                assert forall|a: int, b: int| 0 <= a < b < entries@.len()
                                    implies (#[trigger] entries@[a]).command@
                                        != (#[trigger] entries@[b]).command@ by {
                                    assert(v0[a].command@ != v0[b].command@);
                                    if a == j as int {
                                        assert(entries@[a].command@ == v0[a].command@);
                                        assert(entries@[b] == v0[b]);
                                    } else if b == j as int {
                                        assert(entries@[a] == v0[a]);
                                        assert(entries@[b].command@ == v0[b].command@);
                                    } else {
                                        assert(entries@[a] == v0[a]);
                                        assert(entries@[b] == v0[b]);
                                    }
                                }
                            }
                        }
                    },
                    Option::None => {
                        entries.push(MenuEntry {
                            command: key,
                            description: String::from_str(desc),
                            guard: binding.guard,
                        });
                        proof {
                            assert(entries@.drop_last() =~= v0);
                            if menu_commands_unique(v0) {
                                assert forall|a: int, b: int| 0 <= a < b < entries@.len()
                                    implies (#[trigger] entries@[a]).command@
                                        != (#[trigger] entries@[b]).command@ by {
                                    if b < v0.len() as int {
                                        assert(entries@[a] == v0[a]);
                                        assert(entries@[b] == v0[b]);
                                        assert(v0[a].command@ != v0[b].command@);
                                    } else {
                                        assert(entries@[a] == v0[a]);
                                        assert(entries@[b].command@ == cmd@);
                                        assert(v0[a].command@ != cmd@);
                                    }
                                }
                            }
                        }
                    },
                }
                self.menu = Option::Some(entries);
            },
            Option::None => {},
        }
        let n = cmd.unicode_len();
        let base = cmd.substring_char(1, n);
        let idx = self.bindings.len();
        let ghost m0 = self.state_machine@;
        let accept = add_help_menu(&mut self.state_machine, base, 0);
        let ghost m1 = self.state_machine@;
        self.state_machine.mark_final(accept, idx);
        self.bindings.push(binding);
        proof {
            lemma_bounded_preserved(m0, m1, idx as int);
            assert(bindings_bounded(self.state_machine@, idx as int + 1)) by {
                assert forall|s: int| 0 <= s < self.state_machine@.states.len()
                    implies (match (#[trigger] self.state_machine@.states[s]).binding {
                        Option::Some(b) => (b as int) < idx as int + 1,
                        Option::None => true,
                    }) by {}
            }
            assert forall|s: int| 0 <= s < m0.states.len()
                implies (#[trigger] self.state_machine@.states[s]).binding == m0.states[s].binding
                || self.state_machine@.states[s].binding == Option::Some(idx) by {
                if s != accept as int {
                    assert(self.state_machine@.states[s].binding == m1.states[s].binding);
                }
                assert(m1.states[s].binding == m0.states[s].binding);
            }
        }
    }

    /// Register the help path for `cmd` with `handler` and record its
    /// description, gated by no guard.
    pub fn help(&mut self, cmd: &str, desc: &str, handler: H)
        requires
            old(self).wf(),
            cmd@.len() >= 1,
        ensures
            final(self).wf(),
            final(self).state_machine@ == spec_help_register(
                old(self).state_machine@,
                cmd@.subrange(1, cmd@.len() as int),
                old(self).bindings@.len() as usize,
            ),
            final(self).bindings@ == old(self).bindings@.push(
                (CommandBinding { handler, guard: Guard::<G>::Always }),
            ),
            final(self).state_machine@.states.len() >= old(self).state_machine@.states.len(),
            (forall|s: int| #![trigger final(self).state_machine@.states[s]]
                0 <= s < old(self).state_machine@.states.len()
                    ==> final(self).state_machine@.states[s].binding
                        == old(self).state_machine@.states[s].binding
                    || final(self).state_machine@.states[s].binding
                        == Option::Some(old(self).bindings@.len() as usize)),
            (match (old(self).menu, final(self).menu) {
                (Option::Some(v0), Option::Some(v1)) => spec_menu_put(v0@, v1@, cmd@, desc@, Guard::<G>::Always),
                (Option::None, Option::None) => true,
                _ => false,
            }),
    {
        self.help_binding(cmd, desc, CommandBinding { handler, guard: Guard::Always })
    }

    /// Register the help path for `cmd` with `handler` and record its
    /// description, gated by `guard`.
    pub fn help_protected(&mut self, cmd: &str, desc: &str, handler: H, guard: G)
        requires
            old(self).wf(),
            cmd@.len() >= 1,
        ensures
            final(self).wf(),
            final(self).state_machine@ == spec_help_register(
                old(self).state_machine@,
                cmd@.subrange(1, cmd@.len() as int),
                old(self).bindings@.len() as usize,
            ),
            final(self).bindings@ == old(self).bindings@.push(
                (CommandBinding { handler, guard: Guard::Custom(guard) }),
            ),
            final(self).state_machine@.states.len() >= old(self).state_machine@.states.len(),
            (forall|s: int| #![trigger final(self).state_machine@.states[s]]
                0 <= s < old(self).state_machine@.states.len()
                    ==> final(self).state_machine@.states[s].binding
                        == old(self).state_machine@.states[s].binding
                    || final(self).state_machine@.states[s].binding
                        == Option::Some(old(self).bindings@.len() as usize)),
            (match (old(self).menu, final(self).menu) {
                (Option::Some(v0), Option::Some(v1)) => spec_menu_put(v0@, v1@, cmd@, desc@, Guard::<G>::Custom(guard)),
                (Option::None, Option::None) => true,
                _ => false,
            }),
    {
        self.help_binding(cmd, desc, CommandBinding { handler, guard: Guard::Custom(guard) })
    }

    /// Hand the recorded help listing out once: the first call returns the
    /// whole listing, every later call returns nothing.
    pub fn menu(&mut self) -> (r: Option<Vec<MenuEntry<G>>>)
        ensures
            spec_menu_take(*old(self), *final(self), r),
            old(self).wf() ==> final(self).wf(),
    {
        self.menu.take()
    }

    /// What dispatching `message` finds: the bound table index and captured
    /// parameters when the message carries the command marker and the
    /// automaton accepts it, and nothing otherwise.
    pub open spec fn spec_find(self, message: Seq<char>) -> Option<(usize, Map<Seq<char>, Seq<char>>)> {
        if message.len() > 0 && message[0] == '?' {
            spec_process(self.state_machine@, message)
        } else {
            Option::None
        }
    }

    /// Match `message` against every registered template: the bound handler,
    /// its guard and the captured parameters on acceptance, `None` when the
    /// message lacks the marker or no template accepts it.
    pub fn execute(&self, message: &str) -> (r: Option<Invocation<H, G>>)
        requires
            self.wf(),
        ensures
            (match self.spec_find(message@) {
                Option::Some(p) => (p.0 as int) < self.bindings@.len()
                    && (match r {
                        Option::Some(inv) => inv.handler == self.bindings@[p.0 as int].handler
                            && inv.guard == self.bindings@[p.0 as int].guard
                            && inv.params@ == p.1,
                        Option::None => false,
                    }),
                Option::None => r is None,
            }),
    {
        let n = message.unicode_len();
        if n == 0 {
            return Option::None;
        }
        if message.get_char(0) != '?' {
            return Option::None;
        }
        match self.state_machine.process(message) {
            Option::Some(mt) => {
                proof {
                    let s = choose|s: int|
                        0 <= s < self.state_machine@.states.len()
                            && #[trigger] self.state_machine@.states[s].binding == Option::Some(mt.handler);
                    assert((mt.handler as int) < self.bindings@.len());
                }
                let chosen = &self.bindings[mt.handler];
                Option::Some(Invocation { handler: chosen.handler, guard: chosen.guard, params: mt.params })
            },
            Option::None => Option::None,
        }
    }
}

} // verus!
