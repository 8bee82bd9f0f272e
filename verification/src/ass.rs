//! First pass over an ASS/SSA script: sections, `Format` lines, styles and dialogue
//! records.
use crate::subtitle::{DiagView, Diagnostic, diag_views};
use crate::text::{ascii_lower, normalize, normalize_chars, parse_i32, parse_i32_chars, slice_chars, split, split_chars, split_once, split_once_chars, splitn, splitn_chars, to_ascii_lower, trim, trim_chars, views, chars_of, chars_eq, lines};
use crate::unicode::{debug_quoted, str_debug, string_from_chars};
use vstd::prelude::*;

verus! {

/// Resolved font attributes of a style.
pub struct Style {
    pub font: Vec<char>,
    pub weight: u16,
    pub italic: bool,
}

pub struct StyleView {
    pub font: Seq<char>,
    pub weight: u16,
    pub italic: bool,
}

impl View for Style {
    type V = StyleView;

    open spec fn view(&self) -> StyleView {
        StyleView { font: self.font@, weight: self.weight, italic: self.italic }
    }
}

/// A dialogue record: its line, trimmed style name and override text.
pub struct Event {
    pub line: usize,
    pub style: Vec<char>,
    pub text: Vec<char>,
}

pub struct EventView {
    pub line: usize,
    pub style: Seq<char>,
    pub text: Seq<char>,
}

impl View for Event {
    type V = EventView;

    open spec fn view(&self) -> EventView {
        EventView { line: self.line, style: self.style@, text: self.text@ }
    }
}

pub open spec fn style_entries(v: Seq<(Vec<char>, Style)>) -> Seq<(Seq<char>, StyleView)> {
    v.map_values(|e: (Vec<char>, Style)| (e.0@, e.1@))
}

pub open spec fn event_views(v: Seq<Event>) -> Seq<EventView> {
    v.map_values(|e: Event| e@)
}

/// Abstract state after a prefix of the script's lines.
pub struct ScriptState {
    pub section: Seq<char>,
    pub style_format: Seq<Seq<char>>,
    pub event_format: Seq<Seq<char>>,
    /// Style definitions by name; a later definition replaces an earlier one in place.
    pub styles: Seq<(Seq<char>, StyleView)>,
    pub events: Seq<EventView>,
    pub diags: Seq<DiagView>,
}

pub open spec fn v4p_styles_header() -> Seq<char> {
    "[v4+ styles]"@
}

pub open spec fn v4_styles_header() -> Seq<char> {
    "[v4 styles]"@
}

pub open spec fn events_header() -> Seq<char> {
    "[events]"@
}

pub open spec fn v4p_style_format() -> Seq<char> {
    "Name,Fontname,Fontsize,PrimaryColour,SecondaryColour,OutlineColour,BackColour,Bold,Italic,Underline,StrikeOut,ScaleX,ScaleY,Spacing,Angle,BorderStyle,Outline,Shadow,Alignment,MarginL,MarginR,MarginV,Encoding"@
}

pub open spec fn v4_style_format() -> Seq<char> {
    "Name,Fontname,Fontsize,PrimaryColour,SecondaryColour,TertiaryColour,BackColour,Bold,Italic,BorderStyle,Outline,Shadow,Alignment,MarginL,MarginR,MarginV,AlphaLevel,Encoding"@
}

pub open spec fn default_event_format() -> Seq<char> {
    "Layer,Start,End,Style,Name,MarginL,MarginR,MarginV,Effect,Text"@
}

/// Column names of a `Format` line: comma-separated, trimmed, ASCII-lowercased.
pub open spec fn columns(s: Seq<char>) -> Seq<Seq<char>> {
    split(s, ',').map_values(|p: Seq<char>| ascii_lower(trim(p)))
}

/// First position of an element equal to `x`.
pub open spec fn position(s: Seq<Seq<char>>, x: Seq<char>) -> Option<int>
    decreases s.len(),
{
    if s.len() == 0 {
        None
    } else if s[0] == x {
        Some(0)
    } else {
        match position(s.drop_first(), x) {
            Some(i) => Some(i + 1),
            None => None,
        }
    }
}

pub proof fn lemma_position(s: Seq<Seq<char>>, x: Seq<char>)
    ensures
        match position(s, x) {
            Some(i) => 0 <= i < s.len() && s[i] == x && forall|j: int| 0 <= j < i ==> s[j] != x,
            None => forall|j: int| 0 <= j < s.len() ==> s[j] != x,
        },
    decreases s.len(),
{
    if s.len() > 0 && s[0] != x {
        lemma_position(s.drop_first(), x);
        assert forall|j: int| 1 <= j < s.len() implies s[j] == s.drop_first()[j - 1] by {}
    }
}

/// Value of the column `name` (first column of that name) in a record.
pub open spec fn field(format: Seq<Seq<char>>, values: Seq<Seq<char>>, name: Seq<char>) -> Option<
    Seq<char>,
> {
    match position(format, name) {
        Some(i) => if i < values.len() {
            Some(values[i])
        } else {
            None
        },
        None => None,
    }
}

/// `Bold` column or override value: 0 is normal, 1 and -1 are bold, 100 to 900 are explicit.
pub open spec fn weight_value(s: Seq<char>) -> Option<u16> {
    match parse_i32(trim(s)) {
        Some(n) => if n == 0 {
            Some(400u16)
        } else if n == 1 || n == -1 {
            Some(700u16)
        } else if 100 <= n <= 900 {
            Some(n as u16)
        } else {
            None
        },
        None => None,
    }
}

/// `Italic` column or override value: 0 is upright, 1 and -1 are italic.
pub open spec fn italic_value(s: Seq<char>) -> Option<bool> {
    match parse_i32(trim(s)) {
        Some(n) => if n == 0 {
            Some(false)
        } else if n == 1 || n == -1 {
            Some(true)
        } else {
            None
        },
        None => None,
    }
}

/// First position of a style named `name`.
pub open spec fn style_index(styles: Seq<(Seq<char>, StyleView)>, name: Seq<char>) -> Option<int>
    decreases styles.len(),
{
    if styles.len() == 0 {
        None
    } else if styles[0].0 == name {
        Some(0)
    } else {
        match style_index(styles.drop_first(), name) {
            Some(i) => Some(i + 1),
            None => None,
        }
    }
}

pub proof fn lemma_style_index(styles: Seq<(Seq<char>, StyleView)>, name: Seq<char>)
    ensures
        match style_index(styles, name) {
            Some(i) => 0 <= i < styles.len() && styles[i].0 == name && forall|j: int|
                0 <= j < i ==> styles[j].0 != name,
            None => forall|j: int| 0 <= j < styles.len() ==> styles[j].0 != name,
        },
    decreases styles.len(),
{
    if styles.len() > 0 && styles[0].0 != name {
        lemma_style_index(styles.drop_first(), name);
        assert forall|j: int| 1 <= j < styles.len() implies styles[j] == styles.drop_first()[j
            - 1] by {}
    }
}

pub open spec fn lookup_style(styles: Seq<(Seq<char>, StyleView)>, name: Seq<char>) -> Option<
    StyleView,
> {
    match style_index(styles, name) {
        Some(i) => Some(styles[i].1),
        None => None,
    }
}

pub open spec fn define_style(
    styles: Seq<(Seq<char>, StyleView)>,
    name: Seq<char>,
    style: StyleView,
) -> Seq<(Seq<char>, StyleView)> {
    match style_index(styles, name) {
        Some(i) => styles.update(i, (name, style)),
        None => styles.push((name, style)),
    }
}

pub open spec fn diag(line: usize, message: Seq<char>) -> DiagView {
    DiagView { line, message }
}

pub open spec fn add_diag(st: ScriptState, line: usize, message: Seq<char>) -> ScriptState {
    ScriptState { diags: st.diags.push(diag(line, message)), ..st }
}

pub open spec fn msg_style_count() -> Seq<char> {
    "style field count differs from Format"@
}

pub open spec fn msg_style_attributes() -> Seq<char> {
    "invalid Bold/Italic; invalid properties use normal defaults"@
}

pub open spec fn msg_style_name() -> Seq<char> {
    "style requires Name and Fontname"@
}

pub open spec fn msg_duplicate_style(name: Seq<char>) -> Seq<char> {
    "duplicate style "@ + str_debug(name) + "; last definition wins"@
}

pub open spec fn msg_text_last() -> Seq<char> {
    "Text must be the last event field"@
}

pub open spec fn msg_dialogue_count() -> Seq<char> {
    "dialogue field count differs from Format"@
}

pub open spec fn msg_dialogue_fields() -> Seq<char> {
    "dialogue requires Style and Text"@
}

pub open spec fn trimmed_fields(value: Seq<char>) -> Seq<Seq<char>> {
    split(value, ',').map_values(|p: Seq<char>| trim(p))
}

/// A `Style:` record in a styles section.
pub open spec fn style_record(st: ScriptState, line: usize, value: Seq<char>) -> ScriptState {
    let values = trimmed_fields(value);
    if values.len() != st.style_format.len() {
        add_diag(st, line, msg_style_count())
    } else {
        let name = field(st.style_format, values, "name"@);
        let font = field(st.style_format, values, "fontname"@);
        if name is Some && font is Some && name->0.len() > 0 && normalize(font->0).len() > 0 {
            let name = name->0;
            let bold = match field(st.style_format, values, "bold"@) {
                Some(b) => b,
                None => "0"@,
            };
            let slant = match field(st.style_format, values, "italic"@) {
                Some(b) => b,
                None => "0"@,
            };
            let st2 = if weight_value(bold) is None || italic_value(slant) is None {
                add_diag(st, line, msg_style_attributes())
            } else {
                st
            };
            let style = StyleView {
                font: font->0,
                weight: match weight_value(bold) {
                    Some(w) => w,
                    None => 400u16,
                },
                italic: match italic_value(slant) {
                    Some(i) => i,
                    None => false,
                },
            };
            let st3 = if lookup_style(st2.styles, name) is Some {
                add_diag(st2, line, msg_duplicate_style(name))
            } else {
                st2
            };
            ScriptState { styles: define_style(st3.styles, name, style), ..st3 }
        } else {
            add_diag(st, line, msg_style_name())
        }
    }
}

/// A `Dialogue:` record in the events section.
pub open spec fn dialogue_record(st: ScriptState, line: usize, value: Seq<char>) -> ScriptState {
    let format = st.event_format;
    if format.len() == 0 || format.last() != "text"@ {
        add_diag(st, line, msg_text_last())
    } else {
        let values = splitn(value, format.len(), ',');
        if values.len() != format.len() {
            add_diag(st, line, msg_dialogue_count())
        } else {
            let style = field(format, values, "style"@);
            let text = field(format, values, "text"@);
            if style is Some && text is Some {
                ScriptState {
                    events: st.events.push(
                        EventView { line, style: trim(style->0), text: text->0 },
                    ),
                    ..st
                }
            } else {
                add_diag(st, line, msg_dialogue_fields())
            }
        }
    }
}

/// A `kind: value` line.
pub open spec fn record(st: ScriptState, line: usize, kind: Seq<char>, value: Seq<char>) -> ScriptState {
    if st.section == v4_styles_header() || st.section == v4p_styles_header() {
        let st1 = if kind == "format"@ {
            ScriptState { style_format: columns(value), ..st }
        } else {
            st
        };
        if kind == "style"@ {
            style_record(st1, line, value)
        } else {
            st1
        }
    } else if st.section == events_header() {
        let st1 = if kind == "format"@ {
            ScriptState { event_format: columns(value), ..st }
        } else {
            st
        };
        if kind == "dialogue"@ {
            dialogue_record(st1, line, value)
        } else {
            st1
        }
    } else {
        st
    }
}

/// One source line.
pub open spec fn script_line(st: ScriptState, line: usize, raw: Seq<char>) -> ScriptState {
    let raw = trim(raw);
    if raw.len() == 0 || raw[0] == ';' {
        st
    } else if raw[0] == '[' && raw.last() == ']' {
        let section = ascii_lower(raw);
        let style_format = if section == v4p_styles_header() {
            columns(v4p_style_format())
        } else if section == v4_styles_header() {
            columns(v4_style_format())
        } else {
            st.style_format
        };
        ScriptState { section, style_format, ..st }
    } else {
        match split_once(raw, ':') {
            Some((kind, value)) => record(st, line, ascii_lower(trim(kind)), trim(value)),
            None => st,
        }
    }
}

pub open spec fn initial_script_state() -> ScriptState {
    ScriptState {
        section: seq![],
        style_format: seq![],
        event_format: columns(default_event_format()),
        styles: seq![],
        events: seq![],
        diags: seq![],
    }
}

/// State after the given lines, numbered from one.
pub open spec fn script_state(ls: Seq<Seq<char>>) -> ScriptState
    decreases ls.len(),
{
    if ls.len() == 0 {
        initial_script_state()
    } else {
        script_line(script_state(ls.drop_last()), ls.len() as usize, ls.last())
    }
}

/// Executable first-pass state.
pub struct Script {
    pub section: Vec<char>,
    pub style_format: Vec<Vec<char>>,
    pub event_format: Vec<Vec<char>>,
    pub styles: Vec<(Vec<char>, Style)>,
    pub events: Vec<Event>,
    pub diags: Vec<Diagnostic>,
}

impl View for Script {
    type V = ScriptState;

    open spec fn view(&self) -> ScriptState {
        ScriptState {
            section: self.section@,
            style_format: views(self.style_format@),
            event_format: views(self.event_format@),
            styles: style_entries(self.styles@),
            events: event_views(self.events@),
            diags: diag_views(self.diags@),
        }
    }
}

pub fn columns_of(s: &Vec<char>) -> (r: Vec<Vec<char>>)
    ensures
        views(r@) == columns(s@),
{
    let parts = split_chars(s, ',');
    let mut r: Vec<Vec<char>> = Vec::new();
    let mut i: usize = 0;
    while i < parts.len()
        invariant
            i <= parts.len(),
            views(r@) == views(parts@).take(i as int).map_values(
                |p: Seq<char>| ascii_lower(trim(p)),
            ),
        decreases parts.len() - i,
    {
        let t = trim_chars(&parts[i]);
        let l = to_ascii_lower(&t);
        let ghost prev = views(r@);
        r.push(l);
        proof {
            let f = |p: Seq<char>| ascii_lower(trim(p));
            assert(views(r@) =~= prev.push(l@));
            assert(views(parts@).take(i + 1) =~= views(parts@).take(i as int).push(parts@[i as int]@));
            assert(views(parts@).take(i + 1).map_values(f) =~= views(parts@).take(i as int).map_values(f).push(f(parts@[i as int]@)));
        }
        i = i + 1;
    }
    assert(views(parts@).take(i as int) =~= views(parts@));
    r
}

pub fn trimmed_fields_of(s: &Vec<char>) -> (r: Vec<Vec<char>>)
    ensures
        views(r@) == trimmed_fields(s@),
{
    let parts = split_chars(s, ',');
    let mut r: Vec<Vec<char>> = Vec::new();
    let mut i: usize = 0;
    while i < parts.len()
        invariant
            i <= parts.len(),
            views(r@) == views(parts@).take(i as int).map_values(|p: Seq<char>| trim(p)),
        decreases parts.len() - i,
    {
        let t = trim_chars(&parts[i]);
        let ghost prev = views(r@);
        r.push(t);
        proof {
            let f = |p: Seq<char>| trim(p);
            assert(views(r@) =~= prev.push(t@));
            assert(views(parts@).take(i + 1) =~= views(parts@).take(i as int).push(parts@[i as int]@));
            assert(views(parts@).take(i + 1).map_values(f) =~= views(parts@).take(i as int).map_values(f).push(f(parts@[i as int]@)));
        }
        i = i + 1;
    }
    assert(views(parts@).take(i as int) =~= views(parts@));
    r
}

pub fn position_of(s: &Vec<Vec<char>>, x: &Vec<char>) -> (r: Option<usize>)
    ensures
        match r {
            Some(i) => position(views(s@), x@) == Some(i as int) && i < s.len(),
            None => position(views(s@), x@) is None,
        },
{
    let mut i: usize = 0;
    while i < s.len()
        invariant
            i <= s.len(),
            forall|j: int| 0 <= j < i ==> views(s@)[j] != x@,
        decreases s.len() - i,
    {
        if chars_eq(&s[i], x) {
            proof {
                assert(views(s@)[i as int] == x@);
                lemma_position(views(s@), x@);
                match position(views(s@), x@) {
                    Some(k) => {
                        if k < i {
                            assert(views(s@)[k] != x@);
                        }
                    },
                    None => {
                        assert(views(s@)[i as int] == x@);
                    },
                }
            }
            return Some(i);
        }
        i = i + 1;
    }
    proof {
        lemma_position(views(s@), x@);
        match position(views(s@), x@) {
            Some(k) => {
                assert(views(s@)[k] != x@);
            },
            None => {},
        }
    }
    None
}

pub fn field_of(format: &Vec<Vec<char>>, values: &Vec<Vec<char>>, name: &str) -> (r: Option<
    Vec<char>,
>)
    ensures
        match r {
            Some(v) => field(views(format@), views(values@), name@) == Some(v@),
            None => field(views(format@), views(values@), name@) is None,
        },
{
    let n = chars_of(name);
    match position_of(format, &n) {
        Some(i) => {
            if i < values.len() {
                let v = slice_chars(&values[i], 0, values[i].len());
                assert(v@ =~= values[i as int]@);
                Some(v)
            } else {
                None
            }
        },
        None => None,
    }
}

pub fn weight_of(s: &Vec<char>) -> (r: Option<u16>)
    ensures
        r == weight_value(s@),
{
    let t = trim_chars(s);
    match parse_i32_chars(&t) {
        Some(n) => {
            if n == 0 {
                Some(400)
            } else if n == 1 || n == -1 {
                Some(700)
            } else if 100 <= n && n <= 900 {
                Some(n as u16)
            } else {
                None
            }
        },
        None => None,
    }
}

pub fn italic_of(s: &Vec<char>) -> (r: Option<bool>)
    ensures
        r == italic_value(s@),
{
    let t = trim_chars(s);
    match parse_i32_chars(&t) {
        Some(n) => {
            if n == 0 {
                Some(false)
            } else if n == 1 || n == -1 {
                Some(true)
            } else {
                None
            }
        },
        None => None,
    }
}

pub fn style_index_of(styles: &Vec<(Vec<char>, Style)>, name: &Vec<char>) -> (r: Option<usize>)
    ensures
        match r {
            Some(i) => style_index(style_entries(styles@), name@) == Some(i as int) && i
                < styles.len(),
            None => style_index(style_entries(styles@), name@) is None,
        },
{
    let ghost es = style_entries(styles@);
    let mut i: usize = 0;
    while i < styles.len()
        invariant
            i <= styles.len(),
            es == style_entries(styles@),
            forall|j: int| 0 <= j < i ==> es[j].0 != name@,
        decreases styles.len() - i,
    {
        if chars_eq(&styles[i].0, name) {
            proof {
                assert(es[i as int].0 == name@);
                lemma_style_index(es, name@);
                match style_index(es, name@) {
                    Some(k) => {
                        if k < i {
                            assert(es[k].0 != name@);
                        }
                    },
                    None => {
                        assert(es[i as int].0 == name@);
                    },
                }
            }
            return Some(i);
        }
        i = i + 1;
    }
    proof {
        lemma_style_index(es, name@);
        match style_index(es, name@) {
            Some(k) => {
                assert(es[k].0 != name@);
            },
            None => {},
        }
    }
    None
}

pub fn copy_style(s: &Style) -> (r: Style)
    ensures
        r@ == s@,
{
    let font = slice_chars(&s.font, 0, s.font.len());
    assert(font@ =~= s.font@);
    Style { font, weight: s.weight, italic: s.italic }
}

pub fn lookup_style_of(styles: &Vec<(Vec<char>, Style)>, name: &Vec<char>) -> (r: Option<Style>)
    ensures
        match r {
            Some(s) => lookup_style(style_entries(styles@), name@) == Some(s@),
            None => lookup_style(style_entries(styles@), name@) is None,
        },
{
    match style_index_of(styles, name) {
        Some(i) => Some(copy_style(&styles[i].1)),
        None => None,
    }
}

/// A string holding the characters of a literal.
pub fn message(s: &str) -> (r: String)
    ensures
        r@ == s@,
{
    String::from_str(s)
}

/// `prefix`, the `{:?}` rendering of `subject`, then `suffix`.
pub fn quoted_message(prefix: &str, subject: &Vec<char>, suffix: &str) -> (r: String)
    ensures
        r@ == prefix@ + str_debug(subject@) + suffix@,
{
    let mut m = String::from_str(prefix);
    let subject_string = string_from_chars(subject);
    let quoted = debug_quoted(subject_string.as_str());
    m.append(quoted.as_str());
    m.append(suffix);
    m
}

impl Script {
    pub fn new() -> (r: Script)
        ensures
            r@ == initial_script_state(),
    {
        let f = chars_of("Layer,Start,End,Style,Name,MarginL,MarginR,MarginV,Effect,Text");
        let event_format = columns_of(&f);
        let r = Script {
            section: Vec::new(),
            style_format: Vec::new(),
            event_format,
            styles: Vec::new(),
            events: Vec::new(),
            diags: Vec::new(),
        };
        assert(r@.section =~= Seq::<char>::empty());
        assert(r@.style_format =~= Seq::<Seq<char>>::empty());
        assert(r@.styles =~= Seq::<(Seq<char>, StyleView)>::empty());
        assert(r@.events =~= Seq::<EventView>::empty());
        assert(r@.diags =~= Seq::<DiagView>::empty());
        r
    }

    pub fn add_diag(&mut self, line: usize, message: String)
        ensures
            final(self)@ == add_diag(old(self)@, line, message@),
    {
        self.diags.push(Diagnostic { line, message });
        assert(final(self)@.diags =~= old(self)@.diags.push(diag(line, message@)));
    }

    fn style_record(&mut self, line: usize, value: &Vec<char>)
        ensures
            final(self)@ == style_record(old(self)@, line, value@),
    {
        let values = trimmed_fields_of(value);
        if values.len() != self.style_format.len() {
            self.add_diag(line, message("style field count differs from Format"));
            return;
        }
        let name = field_of(&self.style_format, &values, "name");
        let font = field_of(&self.style_format, &values, "fontname");
        match (name, font) {
            (Some(name), Some(font)) => {
                let normalized = normalize_chars(&font);
                if name.len() == 0 || normalized.len() == 0 {
                    self.add_diag(line, message("style requires Name and Fontname"));
                    return;
                }
                let bold = match field_of(&self.style_format, &values, "bold") {
                    Some(b) => b,
                    None => chars_of("0"),
                };
                let slant = match field_of(&self.style_format, &values, "italic") {
                    Some(b) => b,
                    None => chars_of("0"),
                };
                let w = weight_of(&bold);
                let it = italic_of(&slant);
                if w.is_none() || it.is_none() {
                    self.add_diag(
                        line,
                        message("invalid Bold/Italic; invalid properties use normal defaults"),
                    );
                }
                let style = Style {
                    font,
                    weight: match w {
                        Some(w) => w,
                        None => 400,
                    },
                    italic: match it {
                        Some(i) => i,
                        None => false,
                    },
                };
                let ghost before = self@;
                match style_index_of(&self.styles, &name) {
                    Some(i) => {
                        self.add_diag(
                            line,
                            quoted_message("duplicate style ", &name, "; last definition wins"),
                        );
                        let ghost mid = self@;
                        let ghost sv = style@;
                        self.styles.set(i, (name, style));
                        assert(self@.styles =~= mid.styles.update(i as int, (name@, sv)));
                    },
                    None => {
                        let ghost sv = style@;
                        self.styles.push((name, style));
                        assert(self@.styles =~= before.styles.push((name@, sv)));
                    },
                }
            },
            _ => {
                self.add_diag(line, message("style requires Name and Fontname"));
            },
        }
    }

    fn dialogue_record(&mut self, line: usize, value: &Vec<char>)
        ensures
            final(self)@ == dialogue_record(old(self)@, line, value@),
    {
        let n = self.event_format.len();
        let text_name = chars_of("text");
        if n == 0 || !chars_eq(&self.event_format[n - 1], &text_name) {
            self.add_diag(line, message("Text must be the last event field"));
            return;
        }
        let values = splitn_chars(value, n, ',');
        if values.len() != n {
            self.add_diag(line, message("dialogue field count differs from Format"));
            return;
        }
        let style = field_of(&self.event_format, &values, "style");
        let text = field_of(&self.event_format, &values, "text");
        match (style, text) {
            (Some(style), Some(text)) => {
                let style = trim_chars(&style);
                let ev = Event { line, style, text };
                let ghost before = self@;
                let ghost ev_view = ev@;
                self.events.push(ev);
                assert(self@.events =~= before.events.push(ev_view));
            },
            _ => {
                self.add_diag(line, message("dialogue requires Style and Text"));
            },
        }
    }

    fn record(&mut self, line: usize, kind: &Vec<char>, value: &Vec<char>)
        ensures
            final(self)@ == record(old(self)@, line, kind@, value@),
    {
        let v4 = chars_of("[v4 styles]");
        let v4p = chars_of("[v4+ styles]");
        let events = chars_of("[events]");
        let format = chars_of("format");
        if chars_eq(&self.section, &v4) || chars_eq(&self.section, &v4p) {
            if chars_eq(kind, &format) {
                self.style_format = columns_of(value);
            }
            let style = chars_of("style");
            if chars_eq(kind, &style) {
                self.style_record(line, value);
            }
        } else if chars_eq(&self.section, &events) {
            if chars_eq(kind, &format) {
                self.event_format = columns_of(value);
            }
            let dialogue = chars_of("dialogue");
            if chars_eq(kind, &dialogue) {
                self.dialogue_record(line, value);
            }
        }
    }

    pub fn script_line(&mut self, line: usize, raw: &Vec<char>)
        ensures
            final(self)@ == script_line(old(self)@, line, raw@),
    {
        let raw = trim_chars(raw);
        if raw.len() == 0 || raw[0] == ';' {
            return;
        }
        if raw[0] == '[' && raw[raw.len() - 1] == ']' {
            let section = to_ascii_lower(&raw);
            let v4 = chars_of("[v4 styles]");
            let v4p = chars_of("[v4+ styles]");
            if chars_eq(&section, &v4p) {
                let f = chars_of(
                    "Name,Fontname,Fontsize,PrimaryColour,SecondaryColour,OutlineColour,BackColour,Bold,Italic,Underline,StrikeOut,ScaleX,ScaleY,Spacing,Angle,BorderStyle,Outline,Shadow,Alignment,MarginL,MarginR,MarginV,Encoding",
                );
                self.style_format = columns_of(&f);
            } else if chars_eq(&section, &v4) {
                let f = chars_of(
                    "Name,Fontname,Fontsize,PrimaryColour,SecondaryColour,TertiaryColour,BackColour,Bold,Italic,BorderStyle,Outline,Shadow,Alignment,MarginL,MarginR,MarginV,AlphaLevel,Encoding",
                );
                self.style_format = columns_of(&f);
            }
            self.section = section;
            return;
        }
        match split_once_chars(&raw, ':') {
            Some((kind, value)) => {
                let kind = trim_chars(&kind);
                let kind = to_ascii_lower(&kind);
                let value = trim_chars(&value);
                self.record(line, &kind, &value);
            },
            None => {},
        }
    }
}

} // verus!
