//! Order properties of extraction: requests in key order, source lines ascending and
//! unique, characters in code point order, diagnostics in line order.
use crate::ass::{EventView, ScriptState, script_line, script_state};
use crate::order::{lemma_seq_less_total, lemma_seq_less_transitive};
use crate::overrides::{
    add_line, char_pos, collect, entry_key, entry_pos, key_less, record_char, record_chars,
    seq_less, touch_reference, use_reference,
};
use crate::subtitle::{CharUse, RefView};
use crate::text::{normalize, trim, trim_end, trim_start};
use vstd::prelude::*;

verus! {

/// Strictly ascending one-based source lines, none after `max`.
pub open spec fn lines_ok(ls: Seq<usize>, max: usize) -> bool {
    &&& forall|i: int, j: int| 0 <= i < j < ls.len() ==> ls[i] < ls[j]
    &&& forall|i: int| 0 <= i < ls.len() ==> 1 <= #[trigger] ls[i] && ls[i] <= max
}

/// An explicit font weight: 100 to 900.
pub open spec fn weight_ok(w: u16) -> bool {
    100 <= w <= 900
}

/// Characters in strictly ascending order, each with lines as `lines_ok`.
pub open spec fn chars_ok(cs: Seq<CharUse>, max: usize) -> bool {
    &&& forall|i: int, j: int| 0 <= i < j < cs.len() ==> cs[i].character < cs[j].character
    &&& forall|i: int| 0 <= i < cs.len() ==> lines_ok(#[trigger] cs[i].lines, max)
}

/// A request entry: its key is its normalized name (not empty), weight and italic state;
/// its name is trimmed, its weight explicit, and its lines (at least one) and characters
/// are in order.
pub open spec fn entry_ok(e: (Seq<char>, RefView), max: usize) -> bool {
    &&& e.0 == normalize(e.1.name)
    &&& e.0.len() > 0
    &&& e.1.name == trim(e.1.name)
    &&& weight_ok(e.1.weight)
    &&& e.1.lines.len() > 0
    &&& lines_ok(e.1.lines, max)
    &&& chars_ok(e.1.characters, max)
}

/// Entries in strictly ascending key order, each as `entry_ok`.
pub open spec fn entries_ok(es: Seq<(Seq<char>, RefView)>, max: usize) -> bool {
    &&& forall|i: int, j: int|
        0 <= i < j < es.len() ==> key_less(entry_key(#[trigger] es[i]), entry_key(#[trigger] es[j]))
    &&& forall|i: int| 0 <= i < es.len() ==> entry_ok(#[trigger] es[i], max)
}

proof fn lemma_key_less_transitive(
    a: (Seq<char>, u16, bool),
    b: (Seq<char>, u16, bool),
    c: (Seq<char>, u16, bool),
)
    requires
        key_less(a, b),
        key_less(b, c),
    ensures
        key_less(a, c),
{
    if seq_less(a.0, b.0) && seq_less(b.0, c.0) {
        lemma_seq_less_transitive(a.0, b.0, c.0);
    }
}

proof fn lemma_key_less_total(a: (Seq<char>, u16, bool), b: (Seq<char>, u16, bool))
    ensures
        a == b || key_less(a, b) || key_less(b, a),
{
    lemma_seq_less_total(a.0, b.0);
}

proof fn lemma_entry_pos(es: Seq<(Seq<char>, RefView)>, k: (Seq<char>, u16, bool))
    ensures
        0 <= entry_pos(es, k) <= es.len(),
        forall|i: int| 0 <= i < entry_pos(es, k) ==> !key_less(k, entry_key(#[trigger] es[i])),
        entry_pos(es, k) < es.len() ==> key_less(k, entry_key(es[entry_pos(es, k)])),
    decreases es.len(),
{
    if es.len() > 0 && !key_less(k, entry_key(es[0])) {
        lemma_entry_pos(es.drop_first(), k);
        assert forall|i: int| 0 <= i < entry_pos(es, k) implies !key_less(
            k,
            entry_key(#[trigger] es[i]),
        ) by {
            if i > 0 {
                assert(es[i] == es.drop_first()[i - 1]);
            }
        }
        if entry_pos(es, k) < es.len() {
            assert(es[entry_pos(es, k)] == es.drop_first()[entry_pos(es, k) - 1]);
        }
    }
}

proof fn lemma_char_pos(cs: Seq<CharUse>, c: char)
    ensures
        0 <= char_pos(cs, c) <= cs.len(),
        forall|i: int| 0 <= i < char_pos(cs, c) ==> !(c < (#[trigger] cs[i]).character),
        char_pos(cs, c) < cs.len() ==> c < cs[char_pos(cs, c)].character,
    decreases cs.len(),
{
    if cs.len() > 0 && !(c < cs[0].character) {
        lemma_char_pos(cs.drop_first(), c);
        assert forall|i: int| 0 <= i < char_pos(cs, c) implies !(c < (
        #[trigger] cs[i]).character) by {
            if i > 0 {
                assert(cs[i] == cs.drop_first()[i - 1]);
            }
        }
        if char_pos(cs, c) < cs.len() {
            assert(cs[char_pos(cs, c)] == cs.drop_first()[char_pos(cs, c) - 1]);
        }
    }
}

proof fn lemma_lines_mono(ls: Seq<usize>, a: usize, b: usize)
    requires
        lines_ok(ls, a),
        a <= b,
    ensures
        lines_ok(ls, b),
{
}

proof fn lemma_add_line(ls: Seq<usize>, max: usize, line: usize)
    requires
        lines_ok(ls, max),
        max <= line,
        line >= 1,
    ensures
        lines_ok(add_line(ls, line), line),
        add_line(ls, line).len() > 0,
{
    if !(ls.len() > 0 && ls.last() == line) {
        assert forall|i: int| 0 <= i < ls.len() implies ls[i] < line by {
            if ls[i] == line && i < ls.len() - 1 {
                assert(ls[i] < ls[ls.len() - 1]);
            }
        }
    }
}

proof fn lemma_chars_mono(cs: Seq<CharUse>, a: usize, b: usize)
    requires
        chars_ok(cs, a),
        a <= b,
    ensures
        chars_ok(cs, b),
{
    assert forall|i: int| 0 <= i < cs.len() implies lines_ok(#[trigger] cs[i].lines, b) by {
        lemma_lines_mono(cs[i].lines, a, b);
    }
}

proof fn lemma_record_char(cs: Seq<CharUse>, max: usize, c: char, line: usize)
    requires
        chars_ok(cs, max),
        max <= line,
        line >= 1,
    ensures
        chars_ok(record_char(cs, c, line), line),
{
    lemma_char_pos(cs, c);
    lemma_chars_mono(cs, max, line);
    let j = char_pos(cs, c);
    let n = record_char(cs, c, line);
    if j > 0 && cs[j - 1].character == c {
        lemma_add_line(cs[j - 1].lines, max, line);
        assert forall|i: int| 0 <= i < n.len() implies lines_ok(#[trigger] n[i].lines, line) by {
            if i != j - 1 {
                assert(n[i] == cs[i]);
            }
        }
    } else {
        assert(n == cs.insert(j, CharUse { character: c, lines: seq![line] }));
        if j > 0 {
            assert(cs[j - 1].character < c);
        }
        assert forall|a: int, b: int| 0 <= a < b < n.len() implies n[a].character
            < n[b].character by {
            if b < j {
            } else if a < j && b == j {
                if a < j - 1 {
                    assert(cs[a].character < cs[j - 1].character);
                }
            } else if a < j {
                assert(n[b] == cs[b - 1]);
                if a < j - 1 {
                    assert(cs[a].character < cs[j - 1].character);
                }
                if b - 1 > j {
                    assert(cs[j].character < cs[b - 1].character);
                }
            } else if a == j {
                assert(n[b] == cs[b - 1]);
                if b - 1 > j {
                    assert(cs[j].character < cs[b - 1].character);
                }
            } else {
                assert(n[a] == cs[a - 1] && n[b] == cs[b - 1]);
            }
        }
        assert forall|i: int| 0 <= i < n.len() implies lines_ok(#[trigger] n[i].lines, line) by {
            if i < j {
                assert(n[i] == cs[i]);
            } else if i > j {
                assert(n[i] == cs[i - 1]);
            }
        }
    }
}

proof fn lemma_record_chars(cs: Seq<CharUse>, max: usize, visible: Seq<char>, line: usize)
    requires
        chars_ok(cs, max),
        max <= line,
        line >= 1,
    ensures
        chars_ok(record_chars(cs, visible, line), line),
    decreases visible.len(),
{
    if visible.len() == 0 {
        lemma_chars_mono(cs, max, line);
    } else {
        lemma_record_chars(cs, max, visible.drop_last(), line);
        let prev = record_chars(cs, visible.drop_last(), line);
        lemma_record_char(prev, line, visible.last(), line);
    }
}

proof fn lemma_use_reference(r: RefView, max: usize, line: usize, visible: Seq<char>)
    requires
        lines_ok(r.lines, max),
        chars_ok(r.characters, max),
        max <= line,
        line >= 1,
    ensures
        lines_ok(use_reference(r, line, visible).lines, line),
        use_reference(r, line, visible).lines.len() > 0,
        chars_ok(use_reference(r, line, visible).characters, line),
        use_reference(r, line, visible).name == r.name,
        use_reference(r, line, visible).weight == r.weight,
        use_reference(r, line, visible).italic == r.italic,
{
    lemma_add_line(r.lines, max, line);
    lemma_record_chars(r.characters, max, visible, line);
}

proof fn lemma_entries_mono(es: Seq<(Seq<char>, RefView)>, a: usize, b: usize)
    requires
        entries_ok(es, a),
        a <= b,
    ensures
        entries_ok(es, b),
{
    assert forall|i: int| 0 <= i < es.len() implies entry_ok(#[trigger] es[i], b) by {
        lemma_lines_mono(es[i].1.lines, a, b);
        lemma_chars_mono(es[i].1.characters, a, b);
    }
}

proof fn lemma_touch(
    es: Seq<(Seq<char>, RefView)>,
    max: usize,
    k: (Seq<char>, u16, bool),
    name: Seq<char>,
    line: usize,
    visible: Seq<char>,
)
    requires
        entries_ok(es, max),
        max <= line,
        line >= 1,
        k.0 == normalize(name),
        k.0.len() > 0,
        name == trim(name),
        weight_ok(k.1),
    ensures
        entries_ok(touch_reference(es, k, name, line, visible), line),
{
    lemma_entry_pos(es, k);
    lemma_entries_mono(es, max, line);
    let j = entry_pos(es, k);
    let n = touch_reference(es, k, name, line, visible);
    if j > 0 && entry_key(es[j - 1]) == k {
        let e = es[j - 1];
        lemma_use_reference(e.1, line, line, visible);
        assert(n == es.update(j - 1, (k.0, use_reference(e.1, line, visible))));
        assert(entry_key(n[j - 1]) == entry_key(es[j - 1]));
        assert forall|a: int, b: int| 0 <= a < b < n.len() implies key_less(
            entry_key(#[trigger] n[a]),
            entry_key(#[trigger] n[b]),
        ) by {
            assert(entry_key(n[a]) == entry_key(es[a]));
            assert(entry_key(n[b]) == entry_key(es[b]));
        }
        assert forall|i: int| 0 <= i < n.len() implies entry_ok(#[trigger] n[i], line) by {
            if i != j - 1 {
                assert(n[i] == es[i]);
            }
        }
    } else {
        let fresh = RefView { name, weight: k.1, italic: k.2, lines: seq![], characters: seq![] };
        lemma_use_reference(fresh, line, line, visible);
        let ne = (k.0, use_reference(fresh, line, visible));
        assert(n == es.insert(j, ne));
        assert(entry_key(ne) == k);
        if j > 0 {
            lemma_key_less_total(k, entry_key(es[j - 1]));
        }
        assert forall|a: int, b: int| 0 <= a < b < n.len() implies key_less(
            entry_key(#[trigger] n[a]),
            entry_key(#[trigger] n[b]),
        ) by {
            if b < j {
                assert(n[a] == es[a] && n[b] == es[b]);
            } else if a < j && b == j {
                assert(n[a] == es[a]);
                if a < j - 1 {
                    lemma_key_less_transitive(entry_key(es[a]), entry_key(es[j - 1]), k);
                }
            } else if a < j {
                assert(n[a] == es[a] && n[b] == es[b - 1]);
                if a < j - 1 {
                    lemma_key_less_transitive(entry_key(es[a]), entry_key(es[j - 1]), k);
                }
                lemma_key_less_transitive(entry_key(es[a]), k, entry_key(es[j]));
                if b - 1 > j {
                    lemma_key_less_transitive(entry_key(es[a]), entry_key(es[j]), entry_key(es[b - 1]));
                }
            } else if a == j {
                assert(n[b] == es[b - 1]);
                if b - 1 > j {
                    lemma_key_less_transitive(k, entry_key(es[j]), entry_key(es[b - 1]));
                }
            } else {
                assert(n[a] == es[a - 1] && n[b] == es[b - 1]);
            }
        }
        assert forall|i: int| 0 <= i < n.len() implies entry_ok(#[trigger] n[i], line) by {
            if i < j {
                assert(n[i] == es[i]);
            } else if i > j {
                assert(n[i] == es[i - 1]);
            }
        }
    }
}

proof fn lemma_trim_start_shape(s: Seq<char>)
    ensures
        trim_start(s).len() == 0 || !crate::text::is_space(trim_start(s)[0]),
        trim_start(trim_start(s)) == trim_start(s),
    decreases s.len(),
{
    if s.len() > 0 && crate::text::is_space(s[0]) {
        lemma_trim_start_shape(s.drop_first());
    }
}

proof fn lemma_trim_end_shape(s: Seq<char>)
    ensures
        trim_end(s).len() <= s.len(),
        trim_end(s) == s.take(trim_end(s).len() as int),
        trim_end(trim_end(s)) == trim_end(s),
    decreases s.len(),
{
    if s.len() > 0 && crate::text::is_space(s.last()) {
        lemma_trim_end_shape(s.drop_last());
        assert(s.drop_last().take(trim_end(s).len() as int) =~= s.take(trim_end(s).len() as int));
    } else {
        assert(s.take(s.len() as int) =~= s);
    }
}

/// Trimming twice trims no more than once.
pub proof fn lemma_trim_idempotent(s: Seq<char>)
    ensures
        trim(trim(s)) == trim(s),
{
    let a = trim_start(s);
    lemma_trim_start_shape(s);
    lemma_trim_end_shape(a);
    let b = trim_end(a);
    if b.len() > 0 {
        assert(b[0] == a[0]);
    }
    assert(trim_start(b) == b);
}

/// Every style of the table has an explicit weight.
pub open spec fn styles_ok(styles: Seq<(Seq<char>, crate::ass::StyleView)>) -> bool {
    forall|i: int| 0 <= i < styles.len() ==> weight_ok(#[trigger] styles[i].1.weight)
}

/// Attributes with an explicit weight, from a style with an explicit weight.
pub open spec fn state_ok(st: crate::overrides::TagState) -> bool {
    &&& weight_ok(st.weight)
    &&& (st.style matches Some(s) ==> weight_ok(s.weight))
}

/// A dialogue context whose styles have explicit weights, on a one-based line.
pub open spec fn ctx_ok(ctx: crate::overrides::LineContext) -> bool {
    &&& styles_ok(ctx.styles)
    &&& (ctx.base matches Some(s) ==> weight_ok(s.weight))
    &&& ctx.line >= 1
}

proof fn lemma_style_index(styles: Seq<(Seq<char>, crate::ass::StyleView)>, name: Seq<char>)
    ensures
        crate::ass::style_index(styles, name) matches Some(i) ==> 0 <= i < styles.len(),
    decreases styles.len(),
{
    if styles.len() > 0 && styles[0].0 != name {
        lemma_style_index(styles.drop_first(), name);
    }
}

proof fn lemma_lookup_style(styles: Seq<(Seq<char>, crate::ass::StyleView)>, name: Seq<char>)
    requires
        styles_ok(styles),
    ensures
        crate::ass::lookup_style(styles, name) matches Some(s) ==> weight_ok(s.weight),
{
    lemma_style_index(styles, name);
}

proof fn lemma_weight_value(v: Seq<char>)
    ensures
        crate::ass::weight_value(v) matches Some(w) ==> weight_ok(w),
{
}

proof fn lemma_new_state(style: Option<crate::ass::StyleView>)
    requires
        style matches Some(s) ==> weight_ok(s.weight),
    ensures
        state_ok(crate::overrides::new_state(style)),
{
}

proof fn lemma_apply_tag(
    ctx: crate::overrides::LineContext,
    st: crate::overrides::TagState,
    diags: Seq<crate::subtitle::DiagView>,
    tag: Seq<char>,
)
    requires
        ctx_ok(ctx),
        state_ok(st),
    ensures
        state_ok(crate::overrides::apply_tag(ctx, st, diags, tag).0),
{
    lemma_lookup_style(ctx.styles, trim(tag.drop_first()));
    lemma_new_state(ctx.base);
    if crate::overrides::property(tag, 'b') is Some {
        lemma_weight_value(crate::overrides::property(tag, 'b')->0);
    }
    match crate::ass::lookup_style(ctx.styles, trim(tag.drop_first())) {
        Some(s) => lemma_new_state(Some(s)),
        None => {},
    }
}

proof fn lemma_apply_tags_upto(
    ctx: crate::overrides::LineContext,
    st: crate::overrides::TagState,
    diags: Seq<crate::subtitle::DiagView>,
    block: Seq<char>,
    k: int,
)
    requires
        ctx_ok(ctx),
        state_ok(st),
    ensures
        state_ok(crate::overrides::apply_tags_upto(ctx, st, diags, block, k).0),
    decreases k,
{
    if k > 0 {
        lemma_apply_tags_upto(ctx, st, diags, block, k - 1);
        let prev = crate::overrides::apply_tags_upto(ctx, st, diags, block, k - 1);
        lemma_apply_tag(ctx, prev.0, prev.1, crate::overrides::tag_at(block, k - 1));
    }
}

proof fn lemma_collect(
    es: Seq<(Seq<char>, RefView)>,
    max: usize,
    text: Seq<char>,
    st: crate::overrides::TagState,
    line: usize,
)
    requires
        entries_ok(es, max),
        max <= line,
        line >= 1,
        state_ok(st),
    ensures
        entries_ok(collect(es, text, st, line), line),
{
    lemma_entries_mono(es, max, line);
    let visible = crate::overrides::visible_text(text);
    if !(st.drawing || !crate::overrides::has_ink(visible)) {
        match st.font {
            Some(f) => if normalize(f).len() > 0 {
                lemma_trim_idempotent(f);
                assert(normalize(trim(f)) == normalize(f));
                lemma_touch(es, line, (normalize(f), st.weight, st.italic), trim(f), line, visible);
            },
            None => {},
        }
    }
}

proof fn lemma_process_text(
    ctx: crate::overrides::LineContext,
    text: Seq<char>,
    st: crate::overrides::TagState,
    es: Seq<(Seq<char>, RefView)>,
    diags: Seq<crate::subtitle::DiagView>,
    max: usize,
)
    requires
        entries_ok(es, max),
        max <= ctx.line,
        ctx_ok(ctx),
        state_ok(st),
    ensures
        entries_ok(crate::overrides::process_text(ctx, text, st, es, diags).0, ctx.line),
    decreases text.len(),
{
    lemma_entries_mono(es, max, ctx.line);
    match crate::text::find_char(text, '{') {
        Some(open) => if 0 <= open < text.len() {
            lemma_collect(es, max, text.take(open), st, ctx.line);
            let e1 = collect(es, text.take(open), st, ctx.line);
            let after = text.skip(open + 1);
            match crate::text::find_char(after, '}') {
                Some(close) => if 0 <= close < after.len() {
                    let next = crate::overrides::apply_block(ctx, st, diags, after.take(close));
                    lemma_apply_tags_upto(
                        ctx,
                        st,
                        diags,
                        after.take(close),
                        crate::overrides::tag_starts(after.take(close), close as int).len() as int,
                    );
                    lemma_process_text(ctx, after.skip(close + 1), next.0, e1, next.1, ctx.line);
                },
                None => {
                    lemma_collect(e1, ctx.line, text, st, ctx.line);
                },
            }
        },
        None => {
            lemma_collect(es, max, text, st, ctx.line);
        },
    }
}

/// Dialogue records with strictly ascending line numbers.
pub open spec fn events_ordered(events: Seq<EventView>) -> bool {
    forall|i: int, j: int| 0 <= i < j < events.len() ==> events[i].line < events[j].line
}

pub open spec fn last_line(events: Seq<EventView>) -> usize {
    if events.len() == 0 {
        0
    } else {
        events.last().line
    }
}

proof fn lemma_process_events(
    styles: Seq<(Seq<char>, crate::ass::StyleView)>,
    events: Seq<EventView>,
    diags: Seq<crate::subtitle::DiagView>,
)
    requires
        events_ordered(events),
        styles_ok(styles),
        forall|i: int| 0 <= i < events.len() ==> (#[trigger] events[i]).line >= 1,
    ensures
        entries_ok(crate::overrides::process_events(styles, events, diags).0, last_line(events)),
    decreases events.len(),
{
    if events.len() > 0 {
        let init = events.drop_last();
        assert(events_ordered(init)) by {
            assert forall|i: int, j: int| 0 <= i < j < init.len() implies init[i].line
                < init[j].line by {
                assert(init[i] == events[i] && init[j] == events[j]);
            }
        }
        assert forall|i: int| 0 <= i < init.len() implies (#[trigger] init[i]).line >= 1 by {
            assert(init[i] == events[i]);
        }
        assert(events[events.len() - 1].line >= 1);
        lemma_process_events(styles, init, diags);
        let prev = crate::overrides::process_events(styles, init, diags);
        let ev = events.last();
        if init.len() > 0 {
            assert(init.last() == events[events.len() - 2]);
        }
        assert(last_line(init) <= ev.line);
        let named = crate::ass::lookup_style(styles, ev.style);
        let base = if named is Some {
            named
        } else {
            crate::ass::lookup_style(styles, "Default"@)
        };
        let diags1 = if named is None {
            prev.1.push(crate::ass::diag(ev.line, crate::overrides::msg_unknown_style(ev.style)))
        } else {
            prev.1
        };
        lemma_lookup_style(styles, ev.style);
        lemma_lookup_style(styles, "Default"@);
        lemma_new_state(base);
        lemma_process_text(
            crate::overrides::LineContext { base, styles, line: ev.line },
            ev.text,
            crate::overrides::new_state(base),
            prev.0,
            diags1,
            last_line(init),
        );
    }
}

proof fn lemma_script_line_events(st: ScriptState, line: usize, raw: Seq<char>)
    ensures
        script_line(st, line, raw).events == st.events || (script_line(st, line, raw).events
            == st.events.push(script_line(st, line, raw).events.last())
            && script_line(st, line, raw).events.last().line == line),
{
}

proof fn lemma_define_style(
    styles: Seq<(Seq<char>, crate::ass::StyleView)>,
    name: Seq<char>,
    style: crate::ass::StyleView,
)
    requires
        styles_ok(styles),
        weight_ok(style.weight),
    ensures
        styles_ok(crate::ass::define_style(styles, name, style)),
{
    lemma_style_index(styles, name);
    let n = crate::ass::define_style(styles, name, style);
    assert forall|i: int| 0 <= i < n.len() implies weight_ok(#[trigger] n[i].1.weight) by {
        if i < styles.len() && n[i] != styles[i] {
        } else if i < styles.len() {
            assert(weight_ok(styles[i].1.weight));
        }
    }
}

proof fn lemma_style_record(st: ScriptState, line: usize, value: Seq<char>)
    requires
        styles_ok(st.styles),
    ensures
        styles_ok(crate::ass::style_record(st, line, value).styles),
{
    let values = crate::ass::trimmed_fields(value);
    let bold = match crate::ass::field(st.style_format, values, "bold"@) {
        Some(b) => b,
        None => "0"@,
    };
    lemma_weight_value(bold);
    let name = crate::ass::field(st.style_format, values, "name"@);
    let font = crate::ass::field(st.style_format, values, "fontname"@);
    if values.len() == st.style_format.len() && name is Some && font is Some {
        let slant = match crate::ass::field(st.style_format, values, "italic"@) {
            Some(b) => b,
            None => "0"@,
        };
        let style = crate::ass::StyleView {
            font: font->0,
            weight: match crate::ass::weight_value(bold) {
                Some(w) => w,
                None => 400u16,
            },
            italic: match crate::ass::italic_value(slant) {
                Some(i) => i,
                None => false,
            },
        };
        lemma_define_style(st.styles, name->0, style);
    }
}

proof fn lemma_script_line_styles(st: ScriptState, line: usize, raw: Seq<char>)
    requires
        styles_ok(st.styles),
    ensures
        styles_ok(script_line(st, line, raw).styles),
{
    let t = trim(raw);
    match crate::text::split_once(t, ':') {
        Some((kind, value)) => {
            let k = crate::text::ascii_lower(trim(kind));
            let v = trim(value);
            let st1 = if k == "format"@ {
                ScriptState { style_format: crate::ass::columns(v), ..st }
            } else {
                st
            };
            lemma_style_record(st1, line, v);
        },
        None => {},
    }
}

/// Every style a script defines has an explicit weight.
proof fn lemma_script_styles(ls: Seq<Seq<char>>)
    ensures
        styles_ok(script_state(ls).styles),
    decreases ls.len(),
{
    if ls.len() > 0 {
        lemma_script_styles(ls.drop_last());
        lemma_script_line_styles(script_state(ls.drop_last()), ls.len() as usize, ls.last());
    }
}

/// The dialogue records of a script are in line order, numbered from one.
proof fn lemma_script_events(ls: Seq<Seq<char>>)
    requires
        ls.len() <= usize::MAX,
    ensures
        events_ordered(script_state(ls).events),
        forall|i: int|
            0 <= i < script_state(ls).events.len() ==> 1 <= (#[trigger] script_state(
                ls,
            ).events[i]).line <= ls.len(),
    decreases ls.len(),
{
    if ls.len() > 0 {
        lemma_script_events(ls.drop_last());
        let st = script_state(ls.drop_last());
        lemma_script_line_events(st, ls.len() as usize, ls.last());
        let ev = script_state(ls).events;
        assert forall|i: int| 0 <= i < ev.len() implies 1 <= (#[trigger] ev[i]).line <= ls.len() by {
            if i < st.events.len() {
                assert(ev[i] == st.events[i]);
            }
        }
        assert forall|i: int, j: int| 0 <= i < j < ev.len() implies ev[i].line < ev[j].line by {
            if j < st.events.len() {
                assert(ev[i] == st.events[i] && ev[j] == st.events[j]);
            } else {
                assert(ev[i] == st.events[i]);
            }
        }
    }
}

proof fn lemma_trim_start_char_len(s: Seq<char>, c: char)
    ensures
        crate::text::trim_start_char(s, c).len() <= s.len(),
    decreases s.len(),
{
    if s.len() > 0 && s[0] == c {
        lemma_trim_start_char_len(s.drop_first(), c);
    }
}

proof fn lemma_lines_count(s: Seq<char>)
    ensures
        crate::text::lines(s).len() <= s.len(),
    decreases s.len(),
{
    if s.len() > 0 {
        crate::text::lemma_find_char(s, '\n');
        match crate::text::find_char(s, '\n') {
            Some(i) => if 0 <= i < s.len() {
                lemma_lines_count(s.skip(i + 1));
            },
            None => {},
        }
    }
}

proof fn lemma_insert_by_line(s: Seq<crate::subtitle::DiagView>, d: crate::subtitle::DiagView)
    requires
        forall|i: int, j: int| 0 <= i < j < s.len() ==> s[i].line <= s[j].line,
    ensures
        forall|i: int, j: int|
            0 <= i < j < crate::overrides::insert_by_line(s, d).len() ==> crate::overrides::insert_by_line(
                s,
                d,
            )[i].line <= crate::overrides::insert_by_line(s, d)[j].line,
        crate::overrides::insert_by_line(s, d).to_multiset() == s.to_multiset().insert(d),
        forall|i: int|
            0 <= i < crate::overrides::insert_by_line(s, d).len() ==> (#[trigger] crate::overrides::insert_by_line(
                s,
                d,
            )[i]).line <= d.line || exists|k: int|
                0 <= k < s.len() && s[k] == crate::overrides::insert_by_line(s, d)[i],
    decreases s.len(),
{
    broadcast use vstd::seq_lib::to_multiset_build;

    let r = crate::overrides::insert_by_line(s, d);
    if s.len() == 0 || s.last().line <= d.line {
        assert forall|i: int| 0 <= i < r.len() implies (#[trigger] r[i]).line <= d.line || exists|
            k: int,
        | 0 <= k < s.len() && s[k] == r[i] by {
            if i < s.len() {
                assert(s[i] == r[i]);
            }
        }
    } else {
        let init = s.drop_last();
        lemma_insert_by_line(init, d);
        let q = crate::overrides::insert_by_line(init, d);
        assert(r == q.push(s.last()));
        assert(s.to_multiset() == init.to_multiset().insert(s.last())) by {
            assert(init.push(s.last()) =~= s);
        }
        assert(r.to_multiset() =~= s.to_multiset().insert(d));
        assert forall|i: int, j: int| 0 <= i < j < r.len() implies r[i].line <= r[j].line by {
            if j == r.len() - 1 {
                if q[i].line > d.line {
                    let k = choose|k: int| 0 <= k < init.len() && init[k] == q[i];
                    assert(init[k] == s[k]);
                }
            }
        }
        assert forall|i: int| 0 <= i < r.len() implies (#[trigger] r[i]).line <= d.line || exists|
            k: int,
        | 0 <= k < s.len() && s[k] == r[i] by {
            if i == r.len() - 1 {
                assert(s[s.len() - 1] == r[i]);
            } else if r[i].line > d.line {
                let k = choose|k: int| 0 <= k < init.len() && init[k] == q[i];
                assert(s[k] == init[k]);
            }
        }
    }
}

/// Sorting diagnostics by line gives them in ascending line order, with the same
/// diagnostics.
pub proof fn law_diagnostics_sorted(s: Seq<crate::subtitle::DiagView>)
    ensures
        forall|i: int, j: int|
            0 <= i < j < crate::overrides::sort_by_line(s).len() ==> crate::overrides::sort_by_line(
                s,
            )[i].line <= crate::overrides::sort_by_line(s)[j].line,
        crate::overrides::sort_by_line(s).to_multiset() == s.to_multiset(),
    decreases s.len(),
{
    broadcast use vstd::seq_lib::to_multiset_build;

    if s.len() > 0 {
        law_diagnostics_sorted(s.drop_last());
        lemma_insert_by_line(crate::overrides::sort_by_line(s.drop_last()), s.last());
        assert(s.drop_last().push(s.last()) =~= s);
    } else {
        assert(crate::overrides::sort_by_line(s) =~= s);
    }
}

/// Diagnostics on lines 1 to `n`.
pub open spec fn diags_within(ds: Seq<crate::subtitle::DiagView>, n: usize) -> bool {
    forall|k: int| 0 <= k < ds.len() ==> 1 <= (#[trigger] ds[k]).line && ds[k].line <= n
}

proof fn lemma_script_line_diags(st: ScriptState, line: usize, raw: Seq<char>, n: usize)
    requires
        diags_within(st.diags, n),
        1 <= line <= n,
    ensures
        diags_within(script_line(st, line, raw).diags, n),
{
}

proof fn lemma_script_diags(ls: Seq<Seq<char>>)
    requires
        ls.len() <= usize::MAX,
    ensures
        diags_within(script_state(ls).diags, ls.len() as usize),
    decreases ls.len(),
{
    if ls.len() > 0 {
        lemma_script_diags(ls.drop_last());
        lemma_script_line_diags(
            script_state(ls.drop_last()),
            ls.len() as usize,
            ls.last(),
            ls.len() as usize,
        );
    }
}

proof fn lemma_apply_tags_diags(
    ctx: crate::overrides::LineContext,
    st: crate::overrides::TagState,
    diags: Seq<crate::subtitle::DiagView>,
    block: Seq<char>,
    k: int,
    n: usize,
)
    requires
        diags_within(diags, n),
        1 <= ctx.line <= n,
    ensures
        diags_within(crate::overrides::apply_tags_upto(ctx, st, diags, block, k).1, n),
    decreases k,
{
    if k > 0 {
        lemma_apply_tags_diags(ctx, st, diags, block, k - 1, n);
    }
}

proof fn lemma_process_text_diags(
    ctx: crate::overrides::LineContext,
    text: Seq<char>,
    st: crate::overrides::TagState,
    es: Seq<(Seq<char>, RefView)>,
    diags: Seq<crate::subtitle::DiagView>,
    n: usize,
)
    requires
        diags_within(diags, n),
        1 <= ctx.line <= n,
    ensures
        diags_within(crate::overrides::process_text(ctx, text, st, es, diags).1, n),
    decreases text.len(),
{
    match crate::text::find_char(text, '{') {
        Some(open) => if 0 <= open < text.len() {
            let e1 = collect(es, text.take(open), st, ctx.line);
            let after = text.skip(open + 1);
            match crate::text::find_char(after, '}') {
                Some(close) => if 0 <= close < after.len() {
                    let next = crate::overrides::apply_block(ctx, st, diags, after.take(close));
                    lemma_apply_tags_diags(
                        ctx,
                        st,
                        diags,
                        after.take(close),
                        crate::overrides::tag_starts(after.take(close), close as int).len() as int,
                        n,
                    );
                    lemma_process_text_diags(ctx, after.skip(close + 1), next.0, e1, next.1, n);
                },
                None => {},
            }
        },
        None => {},
    }
}

proof fn lemma_process_events_diags(
    styles: Seq<(Seq<char>, crate::ass::StyleView)>,
    events: Seq<EventView>,
    diags: Seq<crate::subtitle::DiagView>,
    n: usize,
)
    requires
        diags_within(diags, n),
        forall|i: int| 0 <= i < events.len() ==> 1 <= (#[trigger] events[i]).line && events[i].line <= n,
    ensures
        diags_within(crate::overrides::process_events(styles, events, diags).1, n),
    decreases events.len(),
{
    if events.len() > 0 {
        let init = events.drop_last();
        assert forall|i: int| 0 <= i < init.len() implies 1 <= (#[trigger] init[i]).line
            && init[i].line <= n by {
            assert(init[i] == events[i]);
        }
        lemma_process_events_diags(styles, init, diags, n);
        let prev = crate::overrides::process_events(styles, init, diags);
        let ev = events.last();
        assert(ev == events[events.len() - 1]);
        let named = crate::ass::lookup_style(styles, ev.style);
        let base = if named is Some {
            named
        } else {
            crate::ass::lookup_style(styles, "Default"@)
        };
        let diags1 = if named is None {
            prev.1.push(crate::ass::diag(ev.line, crate::overrides::msg_unknown_style(ev.style)))
        } else {
            prev.1
        };
        lemma_process_text_diags(
            crate::overrides::LineContext { base, styles, line: ev.line },
            ev.text,
            crate::overrides::new_state(base),
            prev.0,
            diags1,
            n,
        );
    }
}

/// The lines of a subtitle text (after a leading byte-order mark).
pub open spec fn script_lines(text: Seq<char>) -> Seq<Seq<char>> {
    crate::text::lines(crate::text::trim_start_char(text, '\u{feff}'))
}

/// What extraction promises of its output: requests in strictly ascending order of
/// (normalized name, weight, italic state), so no two share a key; each request has a
/// trimmed name whose normalized form is not empty, an explicit weight (100 to 900), and
/// at least one source line; its lines are strictly ascending and lie between 1 and the
/// number of lines of the text; its characters are in strictly ascending code point
/// order, each with lines alike; diagnostics come in ascending line order, each on a line
/// of the text.
pub proof fn law_extraction_order(text: Seq<char>)
    requires
        text.len() <= usize::MAX,
    ensures
        ({
            let refs = crate::subtitle::extract(text).0;
            let diags = crate::subtitle::extract(text).1;
            let n = script_lines(text).len() as usize;
            &&& script_lines(text).len() <= usize::MAX
            &&& forall|i: int, j: int|
                0 <= i < j < refs.len() ==> key_less(
                    (normalize((#[trigger] refs[i]).name), refs[i].weight, refs[i].italic),
                    (normalize((#[trigger] refs[j]).name), refs[j].weight, refs[j].italic),
                )
            &&& forall|i: int|
                0 <= i < refs.len() ==> {
                    let r = #[trigger] refs[i];
                    &&& r.name == trim(r.name)
                    &&& normalize(r.name).len() > 0
                    &&& weight_ok(r.weight)
                    &&& r.lines.len() > 0
                    &&& lines_ok(r.lines, n)
                    &&& chars_ok(r.characters, n)
                }
            &&& forall|i: int, j: int| 0 <= i < j < diags.len() ==> diags[i].line <= diags[j].line
            &&& diags_within(diags, n)
        }),
{
    let body = crate::text::trim_start_char(text, '\u{feff}');
    let ls = crate::text::lines(body);
    lemma_lines_count(body);
    lemma_trim_start_char_len(text, '\u{feff}');
    lemma_script_events(ls);
    let st = script_state(ls);
    lemma_script_styles(ls);
    lemma_process_events(st.styles, st.events, st.diags);
    let done = crate::overrides::process_events(st.styles, st.events, st.diags);
    let n = ls.len() as usize;
    if st.events.len() > 0 {
        assert(st.events[st.events.len() - 1].line <= ls.len());
    }
    lemma_entries_mono(done.0, last_line(st.events), n);
    let refs = crate::subtitle::extract(text).0;
    assert(refs == done.0.map_values(|e: (Seq<char>, RefView)| e.1));
    assert forall|i: int, j: int| 0 <= i < j < refs.len() implies key_less(
        (normalize((#[trigger] refs[i]).name), refs[i].weight, refs[i].italic),
        (normalize((#[trigger] refs[j]).name), refs[j].weight, refs[j].italic),
    ) by {
        assert(entry_ok(done.0[i], n) && entry_ok(done.0[j], n));
        assert(key_less(entry_key(done.0[i]), entry_key(done.0[j])));
    }
    assert forall|i: int| 0 <= i < refs.len() implies {
        let r = #[trigger] refs[i];
        &&& r.name == trim(r.name)
        &&& normalize(r.name).len() > 0
        &&& weight_ok(r.weight)
        &&& r.lines.len() > 0
        &&& lines_ok(r.lines, n)
        &&& chars_ok(r.characters, n)
    } by {
        assert(entry_ok(done.0[i], n));
    }
    law_diagnostics_sorted(done.1);
    lemma_script_diags(ls);
    assert forall|i: int| 0 <= i < st.events.len() implies 1 <= (#[trigger] st.events[i]).line
        && st.events[i].line <= n by {
    }
    lemma_process_events_diags(st.styles, st.events, st.diags, n);
    let sorted = crate::overrides::sort_by_line(done.1);
    assert forall|k: int| 0 <= k < sorted.len() implies 1 <= (#[trigger] sorted[k]).line
        && sorted[k].line <= n by {
        broadcast use vstd::seq_lib::to_multiset_contains;

        assert(sorted.to_multiset().count(sorted[k]) > 0);
        assert(done.1.to_multiset().count(sorted[k]) > 0);
        assert(done.1.contains(sorted[k]));
        let q = choose|q: int| 0 <= q < done.1.len() && done.1[q] == sorted[k];
        assert(1 <= done.1[q].line && done.1[q].line <= n);
    }
}

/// A script without dialogue records (Dialogue lines that parse, in an `[Events]`
/// section) yields no font requests.
pub proof fn law_no_dialogue_no_requests(text: Seq<char>)
    requires
        script_state(script_lines(text)).events.len() == 0,
    ensures
        crate::subtitle::extract(text).0.len() == 0,
{
}

/// Lines all in the set `lines`.
pub open spec fn lines_in(ls: Seq<usize>, lines: Set<usize>) -> bool {
    forall|i: int| 0 <= i < ls.len() ==> lines.contains(#[trigger] ls[i])
}

/// The lines of every entry and of every character of it are in the set `lines`.
pub open spec fn entries_in(es: Seq<(Seq<char>, RefView)>, lines: Set<usize>) -> bool {
    forall|i: int|
        0 <= i < es.len() ==> lines_in((#[trigger] es[i]).1.lines, lines) && forall|k: int|
            0 <= k < es[i].1.characters.len() ==> lines_in(
                (#[trigger] es[i].1.characters[k]).lines,
                lines,
            )
}

pub open spec fn chars_in(cs: Seq<CharUse>, lines: Set<usize>) -> bool {
    forall|k: int| 0 <= k < cs.len() ==> lines_in((#[trigger] cs[k]).lines, lines)
}

proof fn lemma_add_line_in(ls: Seq<usize>, line: usize, lines: Set<usize>)
    requires
        lines_in(ls, lines),
        lines.contains(line),
    ensures
        lines_in(add_line(ls, line), lines),
{
}

proof fn lemma_record_char_in(cs: Seq<CharUse>, c: char, line: usize, lines: Set<usize>)
    requires
        chars_in(cs, lines),
        lines.contains(line),
    ensures
        chars_in(record_char(cs, c, line), lines),
{
    lemma_char_pos(cs, c);
    let j = char_pos(cs, c);
    let n = record_char(cs, c, line);
    if j > 0 && cs[j - 1].character == c {
        lemma_add_line_in(cs[j - 1].lines, line, lines);
        assert forall|k: int| 0 <= k < n.len() implies lines_in((#[trigger] n[k]).lines, lines) by {
            if k != j - 1 {
                assert(n[k] == cs[k]);
            }
        }
    } else {
        assert(n == cs.insert(j, CharUse { character: c, lines: seq![line] }));
        assert forall|k: int| 0 <= k < n.len() implies lines_in((#[trigger] n[k]).lines, lines) by {
            if k < j {
                assert(n[k] == cs[k]);
            } else if k > j {
                assert(n[k] == cs[k - 1]);
            }
        }
    }
}

proof fn lemma_record_chars_in(cs: Seq<CharUse>, visible: Seq<char>, line: usize, lines: Set<usize>)
    requires
        chars_in(cs, lines),
        lines.contains(line),
    ensures
        chars_in(record_chars(cs, visible, line), lines),
    decreases visible.len(),
{
    if visible.len() > 0 {
        lemma_record_chars_in(cs, visible.drop_last(), line, lines);
        lemma_record_char_in(record_chars(cs, visible.drop_last(), line), visible.last(), line, lines);
    }
}

proof fn lemma_touch_in(
    es: Seq<(Seq<char>, RefView)>,
    k: (Seq<char>, u16, bool),
    name: Seq<char>,
    line: usize,
    visible: Seq<char>,
    lines: Set<usize>,
)
    requires
        entries_in(es, lines),
        lines.contains(line),
    ensures
        entries_in(touch_reference(es, k, name, line, visible), lines),
{
    lemma_entry_pos(es, k);
    let j = entry_pos(es, k);
    let n = touch_reference(es, k, name, line, visible);
    if j > 0 && entry_key(es[j - 1]) == k {
        let e = es[j - 1];
        lemma_add_line_in(e.1.lines, line, lines);
        assert(chars_in(e.1.characters, lines)) by {
            assert forall|q: int| 0 <= q < e.1.characters.len() implies lines_in(
                (#[trigger] e.1.characters[q]).lines,
                lines,
            ) by {
                assert(lines_in(es[j - 1].1.characters[q].lines, lines));
            }
        }
        lemma_record_chars_in(e.1.characters, visible, line, lines);
        assert(n == es.update(j - 1, (k.0, use_reference(e.1, line, visible))));
        assert forall|i: int| 0 <= i < n.len() implies lines_in((#[trigger] n[i]).1.lines, lines)
            && forall|q: int|
            0 <= q < n[i].1.characters.len() ==> lines_in(
                (#[trigger] n[i].1.characters[q]).lines,
                lines,
            ) by {
            if i != j - 1 {
                assert(n[i] == es[i]);
            } else {
                let cs = n[i].1.characters;
                assert(chars_in(cs, lines));
                assert forall|q: int| 0 <= q < cs.len() implies lines_in((#[trigger] cs[q]).lines, lines) by {
                }
            }
        }
    } else {
        let fresh = RefView { name, weight: k.1, italic: k.2, lines: seq![], characters: seq![] };
        lemma_add_line_in(fresh.lines, line, lines);
        lemma_record_chars_in(fresh.characters, visible, line, lines);
        let ne = (k.0, use_reference(fresh, line, visible));
        assert(n == es.insert(j, ne));
        assert forall|i: int| 0 <= i < n.len() implies lines_in((#[trigger] n[i]).1.lines, lines)
            && forall|q: int|
            0 <= q < n[i].1.characters.len() ==> lines_in(
                (#[trigger] n[i].1.characters[q]).lines,
                lines,
            ) by {
            if i < j {
                assert(n[i] == es[i]);
            } else if i > j {
                assert(n[i] == es[i - 1]);
            } else {
                let cs = n[i].1.characters;
                assert(chars_in(cs, lines));
                assert forall|q: int| 0 <= q < cs.len() implies lines_in((#[trigger] cs[q]).lines, lines) by {
                }
            }
        }
    }
}

proof fn lemma_collect_in(
    es: Seq<(Seq<char>, RefView)>,
    text: Seq<char>,
    st: crate::overrides::TagState,
    line: usize,
    lines: Set<usize>,
)
    requires
        entries_in(es, lines),
        lines.contains(line),
    ensures
        entries_in(collect(es, text, st, line), lines),
{
    let visible = crate::overrides::visible_text(text);
    if !(st.drawing || !crate::overrides::has_ink(visible)) {
        match st.font {
            Some(f) => if normalize(f).len() > 0 {
                lemma_touch_in(es, (normalize(f), st.weight, st.italic), trim(f), line, visible, lines);
            },
            None => {},
        }
    }
}

proof fn lemma_process_text_in(
    ctx: crate::overrides::LineContext,
    text: Seq<char>,
    st: crate::overrides::TagState,
    es: Seq<(Seq<char>, RefView)>,
    diags: Seq<crate::subtitle::DiagView>,
    lines: Set<usize>,
)
    requires
        entries_in(es, lines),
        lines.contains(ctx.line),
    ensures
        entries_in(crate::overrides::process_text(ctx, text, st, es, diags).0, lines),
    decreases text.len(),
{
    match crate::text::find_char(text, '{') {
        Some(open) => if 0 <= open < text.len() {
            lemma_collect_in(es, text.take(open), st, ctx.line, lines);
            let e1 = collect(es, text.take(open), st, ctx.line);
            let after = text.skip(open + 1);
            match crate::text::find_char(after, '}') {
                Some(close) => if 0 <= close < after.len() {
                    let next = crate::overrides::apply_block(ctx, st, diags, after.take(close));
                    lemma_process_text_in(ctx, after.skip(close + 1), next.0, e1, next.1, lines);
                },
                None => {
                    lemma_collect_in(e1, text, st, ctx.line, lines);
                },
            }
        },
        None => {
            lemma_collect_in(es, text, st, ctx.line, lines);
        },
    }
}

proof fn lemma_process_events_in(
    styles: Seq<(Seq<char>, crate::ass::StyleView)>,
    events: Seq<EventView>,
    diags: Seq<crate::subtitle::DiagView>,
    lines: Set<usize>,
)
    requires
        forall|i: int| 0 <= i < events.len() ==> lines.contains(#[trigger] events[i].line),
    ensures
        entries_in(crate::overrides::process_events(styles, events, diags).0, lines),
    decreases events.len(),
{
    if events.len() > 0 {
        let init = events.drop_last();
        assert forall|i: int| 0 <= i < init.len() implies lines.contains(#[trigger] init[i].line) by {
            assert(init[i] == events[i]);
        }
        lemma_process_events_in(styles, init, diags, lines);
        let prev = crate::overrides::process_events(styles, init, diags);
        let ev = events.last();
        assert(ev == events[events.len() - 1]);
        let named = crate::ass::lookup_style(styles, ev.style);
        let base = if named is Some {
            named
        } else {
            crate::ass::lookup_style(styles, "Default"@)
        };
        let diags1 = if named is None {
            prev.1.push(crate::ass::diag(ev.line, crate::overrides::msg_unknown_style(ev.style)))
        } else {
            prev.1
        };
        lemma_process_text_in(
            crate::overrides::LineContext { base, styles, line: ev.line },
            ev.text,
            crate::overrides::new_state(base),
            prev.0,
            diags1,
            lines,
        );
    }
}

/// The source lines of the dialogue records of a text.
pub open spec fn dialogue_lines(text: Seq<char>) -> Set<usize> {
    Set::new(
        |l: usize|
            exists|i: int|
                0 <= i < script_state(script_lines(text)).events.len() && (#[trigger] script_state(
                    script_lines(text),
                ).events[i]).line == l,
    )
}

/// Every source line of a request, and of each of its characters, is the line of a
/// dialogue record (a Dialogue line in an `[Events]` section that parses).
pub proof fn law_request_lines_are_dialogue_lines(text: Seq<char>)
    ensures
        forall|i: int|
            0 <= i < crate::subtitle::extract(text).0.len() ==> {
                let r = #[trigger] crate::subtitle::extract(text).0[i];
                &&& lines_in(r.lines, dialogue_lines(text))
                &&& chars_in(r.characters, dialogue_lines(text))
            },
{
    let st = script_state(script_lines(text));
    let lines = dialogue_lines(text);
    assert forall|i: int| 0 <= i < st.events.len() implies lines.contains(#[trigger] st.events[i].line) by {
    }
    lemma_process_events_in(st.styles, st.events, st.diags, lines);
    let done = crate::overrides::process_events(st.styles, st.events, st.diags);
    let refs = crate::subtitle::extract(text).0;
    assert(refs == done.0.map_values(|e: (Seq<char>, RefView)| e.1));
    assert forall|i: int| 0 <= i < refs.len() implies {
        let r = #[trigger] refs[i];
        &&& lines_in(r.lines, lines)
        &&& chars_in(r.characters, lines)
    } by {
        assert(refs[i] == done.0[i].1);
        assert(lines_in(done.0[i].1.lines, lines));
        assert forall|k: int| 0 <= k < refs[i].characters.len() implies lines_in(
            (#[trigger] refs[i].characters[k]).lines,
            lines,
        ) by {
            assert(lines_in(done.0[i].1.characters[k].lines, lines));
        }
    }
}

} // verus!
