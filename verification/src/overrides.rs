//! Second pass over an ASS/SSA script: override blocks of dialogue text and the font
//! requests they make.
use crate::ass::{Event, EventView, Style, StyleView, copy_style, italic_of, message, quoted_message, style_entries, weight_of, lookup_style_of, diag, italic_value, lookup_style, weight_value};
use crate::subtitle::{CharUse, CharacterUsage, DiagView, Diagnostic, diag_views, FontReference, RefView, char_uses};
use crate::text::{char_is_control, char_is_space, find_char, is_ascii_alpha, is_control, is_space, normalize, normalize_chars, parse_i32, parse_i32_chars, remove_pair, char_is_ascii_alpha, remove_pair_chars, slice_chars, trim, trim_chars};
use crate::unicode::string_from_chars;
use crate::unicode::str_debug;
use vstd::prelude::*;

verus! {

/// Font attributes in effect while reading dialogue text.
pub struct TagState {
    pub font: Option<Seq<char>>,
    pub style: Option<StyleView>,
    pub weight: u16,
    pub italic: bool,
    pub drawing: bool,
}

pub open spec fn new_state(style: Option<StyleView>) -> TagState {
    TagState {
        font: match style {
            Some(s) => Some(s.font),
            None => None,
        },
        style,
        weight: match style {
            Some(s) => s.weight,
            None => 400u16,
        },
        italic: match style {
            Some(s) => s.italic,
            None => false,
        },
        drawing: false,
    }
}

/// Context of one dialogue record: its fallback style, the style table and its line.
pub struct LineContext {
    pub base: Option<StyleView>,
    pub styles: Seq<(Seq<char>, StyleView)>,
    pub line: usize,
}

/// Dialogue text after removing the `\N`, `\n` and `\h` escapes.
pub open spec fn visible_text(text: Seq<char>) -> Seq<char> {
    remove_pair(remove_pair(remove_pair(text, '\\', 'N'), '\\', 'n'), '\\', 'h')
}

pub open spec fn has_ink(s: Seq<char>) -> bool {
    exists|i: int| 0 <= i < s.len() && !is_space(#[trigger] s[i])
}

/// Characters that are recorded as dialogue characters.
pub open spec fn counted(c: char) -> bool {
    !is_space(c) && !is_control(c)
}

pub open spec fn add_line(lines: Seq<usize>, line: usize) -> Seq<usize> {
    if lines.len() > 0 && lines.last() == line {
        lines
    } else {
        lines.push(line)
    }
}

/// Number of leading entries whose character is not greater than `c`.
pub open spec fn char_pos(chars: Seq<CharUse>, c: char) -> int
    decreases chars.len(),
{
    if chars.len() == 0 || c < chars[0].character {
        0
    } else {
        1 + char_pos(chars.drop_first(), c)
    }
}

pub open spec fn record_char(chars: Seq<CharUse>, c: char, line: usize) -> Seq<CharUse> {
    let j = char_pos(chars, c);
    if j > 0 && chars[j - 1].character == c {
        chars.update(j - 1, CharUse { character: c, lines: add_line(chars[j - 1].lines, line) })
    } else {
        chars.insert(j, CharUse { character: c, lines: seq![line] })
    }
}

pub open spec fn record_chars(chars: Seq<CharUse>, visible: Seq<char>, line: usize) -> Seq<
    CharUse,
>
    decreases visible.len(),
{
    if visible.len() == 0 {
        chars
    } else {
        let prev = record_chars(chars, visible.drop_last(), line);
        let c = visible.last();
        if counted(c) {
            record_char(prev, c, line)
        } else {
            prev
        }
    }
}

/// Lexicographic order of character sequences (the order of `String`).
pub open spec fn seq_less(a: Seq<char>, b: Seq<char>) -> bool
    decreases a.len(),
{
    if a.len() == 0 {
        b.len() > 0
    } else if b.len() == 0 {
        false
    } else if a[0] != b[0] {
        a[0] < b[0]
    } else {
        seq_less(a.drop_first(), b.drop_first())
    }
}

/// Order of request keys: normalized name, then weight, then italic state.
pub open spec fn key_less(a: (Seq<char>, u16, bool), b: (Seq<char>, u16, bool)) -> bool {
    seq_less(a.0, b.0) || (a.0 == b.0 && (a.1 < b.1 || (a.1 == b.1 && !a.2 && b.2)))
}

pub open spec fn entry_key(e: (Seq<char>, RefView)) -> (Seq<char>, u16, bool) {
    (e.0, e.1.weight, e.1.italic)
}

/// Number of leading entries whose key is not greater than `k`.
pub open spec fn entry_pos(entries: Seq<(Seq<char>, RefView)>, k: (Seq<char>, u16, bool)) -> int
    decreases entries.len(),
{
    if entries.len() == 0 || key_less(k, entry_key(entries[0])) {
        0
    } else {
        1 + entry_pos(entries.drop_first(), k)
    }
}

pub open spec fn use_reference(r: RefView, line: usize, visible: Seq<char>) -> RefView {
    RefView {
        lines: add_line(r.lines, line),
        characters: record_chars(r.characters, visible, line),
        ..r
    }
}

/// Records a use of the request `k` (spelled `name`) on `line` drawing `visible`.
pub open spec fn touch_reference(
    entries: Seq<(Seq<char>, RefView)>,
    k: (Seq<char>, u16, bool),
    name: Seq<char>,
    line: usize,
    visible: Seq<char>,
) -> Seq<(Seq<char>, RefView)> {
    let j = entry_pos(entries, k);
    if j > 0 && entry_key(entries[j - 1]) == k {
        entries.update(j - 1, (k.0, use_reference(entries[j - 1].1, line, visible)))
    } else {
        let fresh = RefView {
            name,
            weight: k.1,
            italic: k.2,
            lines: seq![],
            characters: seq![],
        };
        entries.insert(j, (k.0, use_reference(fresh, line, visible)))
    }
}

/// Text drawn with the attributes `st`.
pub open spec fn collect(
    entries: Seq<(Seq<char>, RefView)>,
    text: Seq<char>,
    st: TagState,
    line: usize,
) -> Seq<(Seq<char>, RefView)> {
    let visible = visible_text(text);
    if st.drawing || !has_ink(visible) {
        entries
    } else {
        match st.font {
            Some(f) => if normalize(f).len() > 0 {
                touch_reference(entries, (normalize(f), st.weight, st.italic), trim(f), line, visible)
            } else {
                entries
            },
            None => entries,
        }
    }
}

/// Parenthesis depth before position `n` of an override block (closing parentheses
/// never make it negative).
pub open spec fn depth_at(block: Seq<char>, n: int) -> nat
    decreases n,
{
    if n <= 0 {
        0
    } else {
        let d = depth_at(block, n - 1);
        let c = block[n - 1];
        if c == '(' {
            d + 1
        } else if c == ')' {
            if d > 0 {
                (d - 1) as nat
            } else {
                0
            }
        } else {
            d
        }
    }
}

/// Positions of the backslashes outside parentheses among the first `n` characters.
pub open spec fn tag_starts(block: Seq<char>, n: int) -> Seq<int>
    decreases n,
{
    if n <= 0 {
        seq![]
    } else {
        let s = tag_starts(block, n - 1);
        if block[n - 1] == '\\' && depth_at(block, n - 1) == 0 {
            s.push(n - 1)
        } else {
            s
        }
    }
}

/// Tag boundaries: each tag runs from just after one backslash to the next boundary.
pub open spec fn tag_bounds(block: Seq<char>) -> Seq<int> {
    tag_starts(block, block.len() as int).push(block.len() as int)
}

/// The `k`-th top-level tag of a block, trimmed.
pub open spec fn tag_at(block: Seq<char>, k: int) -> Seq<char> {
    let b = tag_bounds(block);
    trim(block.subrange(b[k] + 1, b[k + 1]))
}

/// `tag` starts with `p`; the rest is an override value unless it begins with a letter
/// (so that `bord`, `be`, `blur` or `iclip` are not taken for `b` or `i`).
pub open spec fn property(tag: Seq<char>, p: char) -> Option<Seq<char>> {
    if tag.len() > 0 && tag[0] == p {
        let v = trim(tag.drop_first());
        if v.len() > 0 && is_ascii_alpha(v[0]) {
            None
        } else {
            Some(v)
        }
    } else {
        None
    }
}

pub open spec fn starts_with_fn(tag: Seq<char>) -> bool {
    tag.len() >= 2 && tag[0] == 'f' && tag[1] == 'n'
}

pub open spec fn msg_unknown_reset(name: Seq<char>) -> Seq<char> {
    "unknown reset style "@ + str_debug(name) + "; using dialogue style"@
}

pub open spec fn msg_bad_bold(tag: Seq<char>) -> Seq<char> {
    "invalid bold override "@ + str_debug(tag) + "; ignored"@
}

pub open spec fn msg_bad_italic(tag: Seq<char>) -> Seq<char> {
    "invalid italic override "@ + str_debug(tag) + "; ignored"@
}

pub open spec fn msg_unclosed() -> Seq<char> {
    "unclosed override block; treated as literal text"@
}

pub open spec fn msg_unknown_style(name: Seq<char>) -> Seq<char> {
    "unknown style "@ + str_debug(name) + "; using Default if available"@
}

/// One override tag.
pub open spec fn apply_tag(ctx: LineContext, st: TagState, diags: Seq<DiagView>, tag: Seq<char>) -> (
    TagState,
    Seq<DiagView>,
) {
    if starts_with_fn(tag) {
        let name = trim(tag.skip(2));
        let font = if name.len() == 0 {
            match st.style {
                Some(s) => Some(s.font),
                None => None,
            }
        } else {
            Some(name)
        };
        (TagState { font, ..st }, diags)
    } else if tag.len() > 0 && tag[0] == 'r' {
        let name = trim(tag.drop_first());
        if name.len() == 0 {
            (new_state(ctx.base), diags)
        } else {
            match lookup_style(ctx.styles, name) {
                Some(s) => (new_state(Some(s)), diags),
                None => (
                    new_state(ctx.base),
                    diags.push(diag(ctx.line, msg_unknown_reset(name))),
                ),
            }
        }
    } else if property(tag, 'b') is Some {
        let v = property(tag, 'b')->0;
        if v.len() == 0 {
            (
                TagState {
                    weight: match st.style {
                        Some(s) => s.weight,
                        None => 400u16,
                    },
                    ..st
                },
                diags,
            )
        } else {
            match weight_value(v) {
                Some(w) => (TagState { weight: w, ..st }, diags),
                None => (st, diags.push(diag(ctx.line, msg_bad_bold(tag)))),
            }
        }
    } else if property(tag, 'i') is Some {
        let v = property(tag, 'i')->0;
        if v.len() == 0 {
            (
                TagState {
                    italic: match st.style {
                        Some(s) => s.italic,
                        None => false,
                    },
                    ..st
                },
                diags,
            )
        } else {
            match italic_value(v) {
                Some(i) => (TagState { italic: i, ..st }, diags),
                None => (st, diags.push(diag(ctx.line, msg_bad_italic(tag)))),
            }
        }
    } else if tag.len() > 0 && tag[0] == 'p' && parse_i32(trim(tag.drop_first())) is Some {
        (TagState { drawing: parse_i32(trim(tag.drop_first()))->0 > 0, ..st }, diags)
    } else {
        (st, diags)
    }
}

/// The first `k` tags of a block, applied in order.
pub open spec fn apply_tags_upto(
    ctx: LineContext,
    st: TagState,
    diags: Seq<DiagView>,
    block: Seq<char>,
    k: int,
) -> (TagState, Seq<DiagView>)
    decreases k,
{
    if k <= 0 {
        (st, diags)
    } else {
        let prev = apply_tags_upto(ctx, st, diags, block, k - 1);
        apply_tag(ctx, prev.0, prev.1, tag_at(block, k - 1))
    }
}

/// All top-level tags of an override block (the text between `{` and `}`).
pub open spec fn apply_block(ctx: LineContext, st: TagState, diags: Seq<DiagView>, block: Seq<char>) -> (
    TagState,
    Seq<DiagView>,
) {
    apply_tags_upto(ctx, st, diags, block, tag_starts(block, block.len() as int).len() as int)
}

/// Dialogue text from the current position: literal runs are collected with the
/// attributes in effect, override blocks change them.
pub open spec fn process_text(
    ctx: LineContext,
    text: Seq<char>,
    st: TagState,
    entries: Seq<(Seq<char>, RefView)>,
    diags: Seq<DiagView>,
) -> (Seq<(Seq<char>, RefView)>, Seq<DiagView>)
    decreases text.len(),
{
    match find_char(text, '{') {
        Some(open) => if 0 <= open < text.len() {
            let e1 = collect(entries, text.take(open), st, ctx.line);
            let after = text.skip(open + 1);
            match find_char(after, '}') {
                Some(close) => if 0 <= close < after.len() {
                    let next = apply_block(ctx, st, diags, after.take(close));
                    process_text(ctx, after.skip(close + 1), next.0, e1, next.1)
                } else {
                    (entries, diags)
                },
                None => (collect(e1, text, st, ctx.line), diags.push(diag(ctx.line, msg_unclosed()))),
            }
        } else {
            (entries, diags)
        },
        None => (collect(entries, text, st, ctx.line), diags),
    }
}

/// One dialogue record: its style (or `Default`) starts the attributes, then its
/// text is read.
pub open spec fn event_step(
    styles: Seq<(Seq<char>, StyleView)>,
    entries: Seq<(Seq<char>, RefView)>,
    diags: Seq<DiagView>,
    ev: EventView,
) -> (Seq<(Seq<char>, RefView)>, Seq<DiagView>) {
    let named = lookup_style(styles, ev.style);
    let base = if named is Some {
        named
    } else {
        lookup_style(styles, "Default"@)
    };
    let diags1 = if named is None {
        diags.push(diag(ev.line, msg_unknown_style(ev.style)))
    } else {
        diags
    };
    process_text(LineContext { base, styles, line: ev.line }, ev.text, new_state(base), entries, diags1)
}

/// All dialogue records in order, starting from no requests and the given diagnostics.
pub open spec fn process_events(
    styles: Seq<(Seq<char>, StyleView)>,
    events: Seq<EventView>,
    diags: Seq<DiagView>,
) -> (Seq<(Seq<char>, RefView)>, Seq<DiagView>)
    decreases events.len(),
{
    if events.len() == 0 {
        (seq![], diags)
    } else {
        let prev = process_events(styles, events.drop_last(), diags);
        event_step(styles, prev.0, prev.1, events.last())
    }
}

/// Stable insertion of `d` into a sequence ordered by line: after every diagnostic
/// whose line is not greater.
pub open spec fn insert_by_line(s: Seq<DiagView>, d: DiagView) -> Seq<DiagView>
    decreases s.len(),
{
    if s.len() == 0 || s.last().line <= d.line {
        s.push(d)
    } else {
        insert_by_line(s.drop_last(), d).push(s.last())
    }
}

/// Stable sort by line (`sort_by_key(|d| d.line)`).
pub open spec fn sort_by_line(s: Seq<DiagView>) -> Seq<DiagView>
    decreases s.len(),
{
    if s.len() == 0 {
        seq![]
    } else {
        insert_by_line(sort_by_line(s.drop_last()), s.last())
    }
}

/// Executable attributes in effect while reading dialogue text.
pub struct Attrs {
    pub font: Option<Vec<char>>,
    pub style: Option<Style>,
    pub weight: u16,
    pub italic: bool,
    pub drawing: bool,
}

pub open spec fn opt_chars(o: Option<Vec<char>>) -> Option<Seq<char>> {
    match o {
        Some(v) => Some(v@),
        None => None,
    }
}

pub open spec fn opt_style(o: Option<Style>) -> Option<StyleView> {
    match o {
        Some(s) => Some(s@),
        None => None,
    }
}

impl View for Attrs {
    type V = TagState;

    open spec fn view(&self) -> TagState {
        TagState {
            font: opt_chars(self.font),
            style: opt_style(self.style),
            weight: self.weight,
            italic: self.italic,
            drawing: self.drawing,
        }
    }
}

pub fn copy_chars(v: &Vec<char>) -> (r: Vec<char>)
    ensures
        r@ == v@,
{
    let r = slice_chars(v, 0, v.len());
    assert(r@ =~= v@);
    r
}

pub fn new_attrs(style: &Option<Style>) -> (r: Attrs)
    ensures
        r@ == new_state(opt_style(*style)),
{
    match style {
        Some(s) => Attrs {
            font: Some(copy_chars(&s.font)),
            style: Some(copy_style(s)),
            weight: s.weight,
            italic: s.italic,
            drawing: false,
        },
        None => Attrs { font: None, style: None, weight: 400, italic: false, drawing: false },
    }
}

pub fn visible_of(text: &Vec<char>) -> (r: Vec<char>)
    ensures
        r@ == visible_text(text@),
{
    let a = remove_pair_chars(text, '\\', 'N');
    let b = remove_pair_chars(&a, '\\', 'n');
    remove_pair_chars(&b, '\\', 'h')
}

pub fn has_ink_of(s: &Vec<char>) -> (r: bool)
    ensures
        r == has_ink(s@),
{
    let mut i: usize = 0;
    while i < s.len()
        invariant
            i <= s.len(),
            forall|j: int| 0 <= j < i ==> is_space(#[trigger] s@[j]),
        decreases s.len() - i,
    {
        if !char_is_space(s[i]) {
            assert(!is_space(s@[i as int]));
            return true;
        }
        i = i + 1;
    }
    false
}

proof fn lemma_char_pos_step(s: Seq<CharUse>, c: char, j: int)
    requires
        0 <= j < s.len(),
        !(c < s[j].character),
    ensures
        char_pos(s.skip(j), c) == 1 + char_pos(s.skip(j + 1), c),
{
    assert(s.skip(j).drop_first() =~= s.skip(j + 1));
}

pub fn add_line_to(lines: &mut Vec<usize>, line: usize)
    ensures
        final(lines)@ == add_line(old(lines)@, line),
{
    let n = lines.len();
    if n == 0 || lines[n - 1] != line {
        lines.push(line);
    }
}

pub fn record_char_in(chars: &mut Vec<CharacterUsage>, c: char, line: usize)
    ensures
        char_uses(final(chars)@) == record_char(char_uses(old(chars)@), c, line),
{
    let ghost s = char_uses(chars@);
    let mut j: usize = 0;
    assert(s.skip(0) =~= s);
    while j < chars.len() && !(c < chars[j].character)
        invariant
            j <= chars.len(),
            s == char_uses(chars@),
            char_pos(s, c) == j + char_pos(s.skip(j as int), c),
        decreases chars.len() - j,
    {
        proof {
            lemma_char_pos_step(s, c, j as int);
        }
        j = j + 1;
    }
    assert(char_pos(s.skip(j as int), c) == 0);
    if j > 0 && chars[j - 1].character == c {
        let mut cell = CharacterUsage { character: c, lines: Vec::new() };
        chars.set_and_swap(j - 1, &mut cell);
        add_line_to(&mut cell.lines, line);
        let ghost cv = cell@;
        chars.set(j - 1, cell);
        assert(char_uses(chars@) =~= s.update(j - 1, cv));
    } else {
        let mut lines: Vec<usize> = Vec::new();
        lines.push(line);
        let cell = CharacterUsage { character: c, lines };
        let ghost cv = cell@;
        assert(cv.lines =~= seq![line]);
        chars.insert(j, cell);
        assert(char_uses(chars@) =~= s.insert(j as int, cv));
    }
}

pub fn record_chars_in(chars: &mut Vec<CharacterUsage>, visible: &Vec<char>, line: usize)
    ensures
        char_uses(final(chars)@) == record_chars(char_uses(old(chars)@), visible@, line),
{
    let ghost start = char_uses(chars@);
    let mut i: usize = 0;
    assert(visible@.take(0) =~= Seq::<char>::empty());
    while i < visible.len()
        invariant
            i <= visible.len(),
            char_uses(chars@) == record_chars(start, visible@.take(i as int), line),
        decreases visible.len() - i,
    {
        let c = visible[i];
        assert(visible@.take(i + 1).drop_last() =~= visible@.take(i as int));
        if !char_is_space(c) && !char_is_control(c) {
            record_char_in(chars, c, line);
        }
        i = i + 1;
    }
    assert(visible@.take(visible.len() as int) =~= visible@);
}

proof fn lemma_seq_less_step(a: Seq<char>, b: Seq<char>, i: int)
    requires
        0 <= i < a.len(),
        i < b.len(),
        a[i] == b[i],
    ensures
        seq_less(a.skip(i), b.skip(i)) == seq_less(a.skip(i + 1), b.skip(i + 1)),
{
    assert(a.skip(i).drop_first() =~= a.skip(i + 1));
    assert(b.skip(i).drop_first() =~= b.skip(i + 1));
}

pub fn seq_less_of(a: &Vec<char>, b: &Vec<char>) -> (r: bool)
    ensures
        r == seq_less(a@, b@),
{
    let mut i: usize = 0;
    assert(a@.skip(0) =~= a@);
    assert(b@.skip(0) =~= b@);
    while i < a.len() && i < b.len() && a[i] == b[i]
        invariant
            i <= a.len(),
            i <= b.len(),
            seq_less(a@, b@) == seq_less(a@.skip(i as int), b@.skip(i as int)),
        decreases a.len() - i,
    {
        proof {
            lemma_seq_less_step(a@, b@, i as int);
        }
        i = i + 1;
    }
    if i == a.len() {
        i < b.len()
    } else if i == b.len() {
        false
    } else {
        a[i] < b[i]
    }
}

pub fn key_less_of(an: &Vec<char>, aw: u16, ai: bool, bn: &Vec<char>, bw: u16, bi: bool) -> (r:
    bool)
    ensures
        r == key_less((an@, aw, ai), (bn@, bw, bi)),
{
    if seq_less_of(an, bn) {
        true
    } else if seq_less_of(bn, an) {
        false
    } else {
        let same = crate::text::chars_eq(an, bn);
        same && (aw < bw || (aw == bw && !ai && bi))
    }
}

/// A request under construction, keyed by its normalized name.
pub struct RefEntry {
    pub key: Vec<char>,
    pub reference: FontReference,
}

pub open spec fn entry_views(v: Seq<RefEntry>) -> Seq<(Seq<char>, RefView)> {
    v.map_values(|e: RefEntry| (e.key@, e.reference@))
}

proof fn lemma_entry_pos_step(s: Seq<(Seq<char>, RefView)>, k: (Seq<char>, u16, bool), j: int)
    requires
        0 <= j < s.len(),
        !key_less(k, entry_key(s[j])),
    ensures
        entry_pos(s.skip(j), k) == 1 + entry_pos(s.skip(j + 1), k),
{
    assert(s.skip(j).drop_first() =~= s.skip(j + 1));
}

pub fn use_reference_in(r: &mut FontReference, line: usize, visible: &Vec<char>)
    ensures
        final(r)@ == use_reference(old(r)@, line, visible@),
{
    add_line_to(&mut r.lines, line);
    record_chars_in(&mut r.characters, visible, line);
}

pub fn touch_reference_in(
    entries: &mut Vec<RefEntry>,
    key: &Vec<char>,
    weight: u16,
    italic: bool,
    name: &Vec<char>,
    line: usize,
    visible: &Vec<char>,
)
    ensures
        entry_views(final(entries)@) == touch_reference(
            entry_views(old(entries)@),
            (key@, weight, italic),
            name@,
            line,
            visible@,
        ),
{
    let ghost s = entry_views(entries@);
    let ghost k = (key@, weight, italic);
    let mut j: usize = 0;
    assert(s.skip(0) =~= s);
    while j < entries.len() && !key_less_of(
        key,
        weight,
        italic,
        &entries[j].key,
        entries[j].reference.weight,
        entries[j].reference.italic,
    )
        invariant
            j <= entries.len(),
            s == entry_views(entries@),
            k == (key@, weight, italic),
            entry_pos(s, k) == j + entry_pos(s.skip(j as int), k),
        decreases entries.len() - j,
    {
        proof {
            lemma_entry_pos_step(s, k, j as int);
        }
        j = j + 1;
    }
    assert(entry_pos(s.skip(j as int), k) == 0);
    if j > 0 && crate::text::chars_eq(&entries[j - 1].key, key) && entries[j - 1].reference.weight
        == weight && entries[j - 1].reference.italic == italic {
        let mut cell = RefEntry {
            key: Vec::new(),
            reference: FontReference {
                name: String::new(),
                weight: 0,
                italic: false,
                lines: Vec::new(),
                characters: Vec::new(),
            },
        };
        entries.set_and_swap(j - 1, &mut cell);
        use_reference_in(&mut cell.reference, line, visible);
        let ghost cv = (cell.key@, cell.reference@);
        entries.set(j - 1, cell);
        assert(entry_views(entries@) =~= s.update(j - 1, cv));
    } else {
        let mut reference = FontReference {
            name: string_from_chars(name),
            weight,
            italic,
            lines: Vec::new(),
            characters: Vec::new(),
        };
        assert(reference@.lines =~= Seq::<usize>::empty());
        assert(reference@.characters =~= Seq::<CharUse>::empty());
        use_reference_in(&mut reference, line, visible);
        let cell = RefEntry { key: copy_chars(key), reference };
        let ghost cv = (cell.key@, cell.reference@);
        entries.insert(j, cell);
        assert(entry_views(entries@) =~= s.insert(j as int, cv));
    }
}

pub fn collect_in(entries: &mut Vec<RefEntry>, text: &Vec<char>, st: &Attrs, line: usize)
    ensures
        entry_views(final(entries)@) == collect(entry_views(old(entries)@), text@, st@, line),
{
    if st.drawing {
        return;
    }
    let visible = visible_of(text);
    if !has_ink_of(&visible) {
        return;
    }
    match &st.font {
        Some(f) => {
            let key = normalize_chars(f);
            if key.len() > 0 {
                let name = trim_chars(f);
                touch_reference_in(entries, &key, st.weight, st.italic, &name, line, &visible);
            }
        },
        None => {},
    }
}

proof fn lemma_tag_starts_bounded(block: Seq<char>, n: int)
    requires
        0 <= n <= block.len(),
    ensures
        forall|k: int|
            0 <= k < tag_starts(block, n).len() ==> 0 <= #[trigger] tag_starts(block, n)[k] < n,
        forall|k: int, l: int|
            0 <= k < l < tag_starts(block, n).len() ==> tag_starts(block, n)[k] < tag_starts(
                block,
                n,
            )[l],
    decreases n,
{
    if n > 0 {
        lemma_tag_starts_bounded(block, n - 1);
        let s = tag_starts(block, n - 1);
        assert forall|k: int| 0 <= k < s.len() implies s[k] < n - 1 by {
            assert(0 <= s[k] < n - 1);
        }
    }
}

/// Positions of the top-level backslashes of a block.
pub fn tag_starts_of(block: &Vec<char>) -> (r: Vec<usize>)
    ensures
        r@.len() == tag_starts(block@, block.len() as int).len(),
        forall|k: int|
            0 <= k < r@.len() ==> #[trigger] r@[k] as int == tag_starts(block@, block.len() as int)[k],
{
    let mut r: Vec<usize> = Vec::new();
    let mut depth: usize = 0;
    let mut i: usize = 0;
    while i < block.len()
        invariant
            i <= block.len(),
            depth as nat == depth_at(block@, i as int),
            depth <= i,
            r@.len() == tag_starts(block@, i as int).len(),
            forall|k: int|
                0 <= k < r@.len() ==> #[trigger] r@[k] as int == tag_starts(block@, i as int)[k],
        decreases block.len() - i,
    {
        let c = block[i];
        if c == '\\' && depth == 0 {
            r.push(i);
        }
        if c == '(' {
            depth = depth + 1;
        } else if c == ')' {
            if depth > 0 {
                depth = depth - 1;
            }
        }
        i = i + 1;
    }
    r
}

pub fn property_of(tag: &Vec<char>, p: char) -> (r: Option<Vec<char>>)
    ensures
        opt_chars(r) == property(tag@, p),
{
    if tag.len() > 0 && tag[0] == p {
        let rest = slice_chars(tag, 1, tag.len());
        assert(rest@ =~= tag@.drop_first());
        let v = trim_chars(&rest);
        if v.len() > 0 && char_is_ascii_alpha(v[0]) {
            None
        } else {
            Some(v)
        }
    } else {
        None
    }
}

/// Executable context of one dialogue record.
pub struct LineInfo<'a> {
    pub base: &'a Option<Style>,
    pub styles: &'a Vec<(Vec<char>, Style)>,
    pub line: usize,
}

pub open spec fn line_context(info: LineInfo) -> LineContext {
    LineContext { base: opt_style(*info.base), styles: style_entries(info.styles@), line: info.line }
}

pub fn push_diag(diags: &mut Vec<Diagnostic>, line: usize, message: String)
    ensures
        diag_views(final(diags)@) == diag_views(old(diags)@).push(diag(line, message@)),
{
    let ghost before = diag_views(diags@);
    diags.push(Diagnostic { line, message });
    assert(diag_views(diags@) =~= before.push(diag(line, message@)));
}

pub fn apply_tag_in(info: &LineInfo, st: &mut Attrs, diags: &mut Vec<Diagnostic>, tag: &Vec<char>)
    ensures
        (final(st)@, diag_views(final(diags)@)) == apply_tag(
            line_context(*info),
            old(st)@,
            diag_views(old(diags)@),
            tag@,
        ),
{
    if tag.len() >= 2 && tag[0] == 'f' && tag[1] == 'n' {
        let rest = slice_chars(tag, 2, tag.len());
        assert(rest@ =~= tag@.skip(2));
        let name = trim_chars(&rest);
        if name.len() == 0 {
            st.font = match &st.style {
                Some(s) => Some(copy_chars(&s.font)),
                None => None,
            };
        } else {
            st.font = Some(name);
        }
        return;
    }
    if tag.len() > 0 && tag[0] == 'r' {
        let rest = slice_chars(tag, 1, tag.len());
        assert(rest@ =~= tag@.drop_first());
        let name = trim_chars(&rest);
        if name.len() == 0 {
            *st = new_attrs(info.base);
        } else {
            match lookup_style_of(info.styles, &name) {
                Some(s) => {
                    *st = new_attrs(&Some(s));
                },
                None => {
                    *st = new_attrs(info.base);
                    push_diag(
                        diags,
                        info.line,
                        quoted_message("unknown reset style ", &name, "; using dialogue style"),
                    );
                },
            }
        }
        return;
    }
    match property_of(tag, 'b') {
        Some(v) => {
            if v.len() == 0 {
                st.weight = match &st.style {
                    Some(s) => s.weight,
                    None => 400,
                };
            } else {
                match weight_of(&v) {
                    Some(w) => {
                        st.weight = w;
                    },
                    None => {
                        push_diag(
                            diags,
                            info.line,
                            quoted_message("invalid bold override ", tag, "; ignored"),
                        );
                    },
                }
            }
            return;
        },
        None => {},
    }
    match property_of(tag, 'i') {
        Some(v) => {
            if v.len() == 0 {
                st.italic = match &st.style {
                    Some(s) => s.italic,
                    None => false,
                };
            } else {
                match italic_of(&v) {
                    Some(i) => {
                        st.italic = i;
                    },
                    None => {
                        push_diag(
                            diags,
                            info.line,
                            quoted_message("invalid italic override ", tag, "; ignored"),
                        );
                    },
                }
            }
            return;
        },
        None => {},
    }
    if tag.len() > 0 && tag[0] == 'p' {
        let rest = slice_chars(tag, 1, tag.len());
        assert(rest@ =~= tag@.drop_first());
        let value = trim_chars(&rest);
        match parse_i32_chars(&value) {
            Some(n) => {
                st.drawing = n > 0;
            },
            None => {},
        }
    }
}

pub fn apply_block_in(
    info: &LineInfo,
    st: &mut Attrs,
    diags: &mut Vec<Diagnostic>,
    block: &Vec<char>,
)
    ensures
        (final(st)@, diag_views(final(diags)@)) == apply_block(
            line_context(*info),
            old(st)@,
            diag_views(old(diags)@),
            block@,
        ),
{
    let starts = tag_starts_of(block);
    proof {
        lemma_tag_starts_bounded(block@, block.len() as int);
    }
    let ghost ctx = line_context(*info);
    let ghost st0 = st@;
    let ghost d0 = diag_views(diags@);
    let ghost ts = tag_starts(block@, block.len() as int);
    let ghost bounds = tag_bounds(block@);
    let mut k: usize = 0;
    while k < starts.len()
        invariant
            k <= starts.len(),
            starts@.len() == ts.len(),
            ts == tag_starts(block@, block.len() as int),
            bounds == ts.push(block.len() as int),
            forall|j: int| 0 <= j < starts@.len() ==> #[trigger] starts@[j] as int == ts[j],
            forall|j: int| 0 <= j < ts.len() ==> 0 <= #[trigger] ts[j] < block.len(),
            forall|j: int, l: int| 0 <= j < l < ts.len() ==> ts[j] < ts[l],
            ctx == line_context(*info),
            (st@, diag_views(diags@)) == apply_tags_upto(ctx, st0, d0, block@, k as int),
        decreases starts.len() - k,
    {
        let begin = starts[k] + 1;
        let end = if k + 1 < starts.len() {
            starts[k + 1]
        } else {
            block.len()
        };
        assert(bounds[k as int] == starts@[k as int] as int);
        assert(bounds[k + 1] == end as int);
        let raw = slice_chars(block, begin, end);
        let tag = trim_chars(&raw);
        assert(tag@ == tag_at(block@, k as int));
        apply_tag_in(info, st, diags, &tag);
        k = k + 1;
    }
}

pub fn process_text_in(
    info: &LineInfo,
    text: &Vec<char>,
    st: &mut Attrs,
    entries: &mut Vec<RefEntry>,
    diags: &mut Vec<Diagnostic>,
)
    ensures
        (entry_views(final(entries)@), diag_views(final(diags)@)) == process_text(
            line_context(*info),
            text@,
            old(st)@,
            entry_views(old(entries)@),
            diag_views(old(diags)@),
        ),
{
    let ghost ctx = line_context(*info);
    let ghost goal = process_text(
        ctx,
        text@,
        st@,
        entry_views(entries@),
        diag_views(diags@),
    );
    let mut pos: usize = 0;
    assert(text@.skip(0) =~= text@);
    loop
        invariant
            pos <= text.len(),
            ctx == line_context(*info),
            goal == process_text(
                line_context(*info),
                text@,
                old(st)@,
                entry_views(old(entries)@),
                diag_views(old(diags)@),
            ),
            goal == process_text(
                ctx,
                text@.skip(pos as int),
                st@,
                entry_views(entries@),
                diag_views(diags@),
            ),
        decreases text.len() - pos,
    {
        let ghost rest = text@.skip(pos as int);
        match crate::text::find_from(text, pos, '{') {
            None => {
                let tail = slice_chars(text, pos, text.len());
                assert(tail@ =~= rest);
                let ghost e0 = entry_views(entries@);
                let ghost d0 = diag_views(diags@);
                assert(process_text(ctx, rest, st@, e0, d0) == (collect(e0, rest, st@, ctx.line), d0));
                collect_in(entries, &tail, st, info.line);
                return;
            },
            Some(open) => {
                let head = slice_chars(text, pos, open);
                assert(head@ =~= rest.take(open - pos));
                collect_in(entries, &head, st, info.line);
                let ghost after = rest.skip(open - pos + 1);
                assert(after =~= text@.skip(open + 1));
                match crate::text::find_from(text, open + 1, '}') {
                    None => {
                        let tail = slice_chars(text, pos, text.len());
                        assert(tail@ =~= rest);
                        collect_in(entries, &tail, st, info.line);
                        push_diag(
                            diags,
                            info.line,
                            message("unclosed override block; treated as literal text"),
                        );
                        return;
                    },
                    Some(close) => {
                        let block = slice_chars(text, open + 1, close);
                        assert(block@ =~= after.take(close - (open + 1)));
                        assert(after.skip(close - (open + 1) + 1) =~= text@.skip(close + 1));
                        apply_block_in(info, st, diags, &block);
                        pos = close + 1;
                    },
                }
            },
        }
    }
}

pub fn event_step_in(
    styles: &Vec<(Vec<char>, Style)>,
    entries: &mut Vec<RefEntry>,
    diags: &mut Vec<Diagnostic>,
    ev: &Event,
)
    ensures
        (entry_views(final(entries)@), diag_views(final(diags)@)) == event_step(
            style_entries(styles@),
            entry_views(old(entries)@),
            diag_views(old(diags)@),
            ev@,
        ),
{
    let named = lookup_style_of(styles, &ev.style);
    let base = match named {
        Some(s) => Some(s),
        None => {
            push_diag(
                diags,
                ev.line,
                quoted_message("unknown style ", &ev.style, "; using Default if available"),
            );
            let default_name = crate::text::chars_of("Default");
            lookup_style_of(styles, &default_name)
        },
    };
    let info = LineInfo { base: &base, styles, line: ev.line };
    let mut st = new_attrs(&base);
    process_text_in(&info, &ev.text, &mut st, entries, diags);
}

pub fn process_events_in(
    styles: &Vec<(Vec<char>, Style)>,
    events: &Vec<Event>,
    diags: &mut Vec<Diagnostic>,
) -> (r: Vec<RefEntry>)
    ensures
        (entry_views(r@), diag_views(final(diags)@)) == process_events(
            style_entries(styles@),
            crate::ass::event_views(events@),
            diag_views(old(diags)@),
        ),
{
    let ghost evs = crate::ass::event_views(events@);
    let ghost d0 = diag_views(diags@);
    let mut entries: Vec<RefEntry> = Vec::new();
    let mut i: usize = 0;
    assert(evs.take(0) =~= Seq::<EventView>::empty());
    assert(entry_views(entries@) =~= Seq::<(Seq<char>, RefView)>::empty());
    while i < events.len()
        invariant
            i <= events.len(),
            evs == crate::ass::event_views(events@),
            d0 == diag_views(old(diags)@),
            (entry_views(entries@), diag_views(diags@)) == process_events(
                style_entries(styles@),
                evs.take(i as int),
                d0,
            ),
        decreases events.len() - i,
    {
        assert(evs.take(i + 1).drop_last() =~= evs.take(i as int));
        assert(evs.take(i + 1).last() == events@[i as int]@);
        event_step_in(styles, &mut entries, diags, &events[i]);
        i = i + 1;
    }
    assert(evs.take(i as int) =~= evs);
    entries
}

proof fn lemma_insert_by_line(s: Seq<DiagView>, d: DiagView, j: int)
    requires
        0 <= j <= s.len(),
        j == 0 || s[j - 1].line <= d.line,
        forall|k: int| j <= k < s.len() ==> s[k].line > d.line,
    ensures
        insert_by_line(s, d) == s.insert(j, d),
    decreases s.len(),
{
    if s.len() == 0 || s.last().line <= d.line {
        assert(j == s.len());
        assert(s.push(d) =~= s.insert(j, d));
    } else {
        lemma_insert_by_line(s.drop_last(), d, j);
        assert(s.drop_last().insert(j, d).push(s.last()) =~= s.insert(j, d));
    }
}

pub fn insert_by_line_in(out: &mut Vec<Diagnostic>, d: Diagnostic)
    ensures
        diag_views(final(out)@) == insert_by_line(diag_views(old(out)@), d@),
{
    let ghost s = diag_views(out@);
    let mut j: usize = out.len();
    while j > 0 && out[j - 1].line > d.line
        invariant
            j <= out.len(),
            s == diag_views(out@),
            forall|k: int| j <= k < s.len() ==> s[k].line > d.line,
        decreases j,
    {
        j = j - 1;
    }
    proof {
        lemma_insert_by_line(s, d@, j as int);
    }
    let ghost dv = d@;
    out.insert(j, d);
    assert(diag_views(out@) =~= s.insert(j as int, dv));
}

pub fn sort_by_line_of(diags: &Vec<Diagnostic>) -> (r: Vec<Diagnostic>)
    ensures
        diag_views(r@) == sort_by_line(diag_views(diags@)),
{
    let ghost s = diag_views(diags@);
    let mut out: Vec<Diagnostic> = Vec::new();
    let mut i: usize = 0;
    assert(s.take(0) =~= Seq::<DiagView>::empty());
    assert(diag_views(out@) =~= Seq::<DiagView>::empty());
    while i < diags.len()
        invariant
            i <= diags.len(),
            s == diag_views(diags@),
            diag_views(out@) == sort_by_line(s.take(i as int)),
        decreases diags.len() - i,
    {
        let d = Diagnostic { line: diags[i].line, message: diags[i].message.clone() };
        assert(s.take(i + 1).drop_last() =~= s.take(i as int));
        assert(d@ == s[i as int]);
        insert_by_line_in(&mut out, d);
        i = i + 1;
    }
    assert(s.take(i as int) =~= s);
    out
}

} // verus!
