//! Streaming events: parser events turned into lightweight structural events,
//! with comments from the raw text woven in at the right places.
use std::collections::HashMap;
use crate::ast::{Comment, ScalarStyle, Tag};
use crate::comment::{
    anchor_views, comment_views, comments_of_lines, anchors_of_lines, extract_comments_and_anchors,
    inline_from, line_offsets_spec, lines_of, scan_yaml, standalone_scan, CommentAnchorTracker,
};
use crate::text::{chars_of, decimal, push_decimal, trim, trim_bounds, utf8_len};
use saphyr_parser::ScalarStyle as SaphyrStyle;
use saphyr_parser::Tag as SaphyrTag;
use vstd::prelude::*;
use vstd::string::*;

verus! {

broadcast use vstd::std_specs::hash::group_hash_axioms;

/// An event as delivered by the YAML parser, with its anchor given by the
/// parser's numeric id (`0` for none).
#[derive(Debug, Clone)]
pub enum ParserEvent {
    /// An event that carries nothing.
    Nothing,
    /// The beginning of the stream.
    StreamStart,
    /// The end of the stream.
    StreamEnd,
    /// The beginning of a document.
    DocumentStart,
    /// The end of a document.
    DocumentEnd,
    /// A scalar value.
    Scalar { value: String, style: ScalarStyle, anchor_id: usize, tag: Option<Tag> },
    /// The beginning of a mapping.
    MappingStart { anchor_id: usize, tag: Option<Tag> },
    /// The end of a mapping.
    MappingEnd,
    /// The beginning of a sequence.
    SequenceStart { anchor_id: usize, tag: Option<Tag> },
    /// The end of a sequence.
    SequenceEnd,
    /// A reference to an earlier anchor.
    Alias { anchor_id: usize },
}

/// The type of a streaming YAML event, representing a single occurrence
/// in the YAML document stream.
#[derive(Debug, Clone, PartialEq, Eq)]
pub enum StreamEventType {
    /// The beginning of the YAML stream.
    StreamStart,
    /// The end of the YAML stream.
    StreamEnd,
    /// The beginning of a YAML document.
    DocumentStart,
    /// The end of a YAML document.
    DocumentEnd,
    /// A scalar value.
    Scalar {
        /// The scalar text value.
        value: String,
        /// The scalar style (plain, quoted, literal, folded).
        style: ScalarStyle,
        /// The anchor name, if present.
        anchor: Option<String>,
        /// The YAML tag, if present.
        tag: Option<Tag>,
    },
    /// The beginning of a mapping node.
    MappingStart {
        /// The anchor name, if present.
        anchor: Option<String>,
        /// The YAML tag, if present.
        tag: Option<Tag>,
    },
    /// The end of a mapping node.
    MappingEnd,
    /// The beginning of a sequence node.
    SequenceStart {
        /// The anchor name, if present.
        anchor: Option<String>,
        /// The YAML tag, if present.
        tag: Option<Tag>,
    },
    /// The end of a sequence node.
    SequenceEnd,
    /// An alias reference.
    Alias {
        /// The alias name.
        name: String,
    },
    /// A comment line or inline comment.
    Comment {
        /// The comment text (without the `#` prefix and leading space).
        text: String,
        /// Whether this is a standalone line comment (`true`) or an inline
        /// comment at the end of a line (`false`).
        standalone: bool,
    },
}

/// Line and column information for a YAML stream event.
#[derive(Debug, Clone, PartialEq, Eq)]
pub struct StreamEvent {
    /// The type of event that occurred.
    pub event_type: StreamEventType,
    /// The line number (0-indexed) where the event starts.
    pub line: usize,
    /// The column number (0-indexed) where the event starts.
    pub column: usize,
}

/// The mathematical value of an event type: its strings as character
/// sequences.
pub enum EventKind {
    StreamStart,
    StreamEnd,
    DocumentStart,
    DocumentEnd,
    Scalar { value: Seq<char>, style: ScalarStyle, anchor: Option<Seq<char>>, tag: Option<Tag> },
    MappingStart { anchor: Option<Seq<char>>, tag: Option<Tag> },
    MappingEnd,
    SequenceStart { anchor: Option<Seq<char>>, tag: Option<Tag> },
    SequenceEnd,
    Alias { name: Seq<char> },
    Comment { text: Seq<char>, standalone: bool },
}

/// The view of an optional string.
pub open spec fn opt_view(s: Option<String>) -> Option<Seq<char>> {
    match s {
        Some(x) => Some(x@),
        None => None,
    }
}

impl View for StreamEventType {
    type V = EventKind;

    open spec fn view(&self) -> EventKind {
        match self {
            StreamEventType::StreamStart => EventKind::StreamStart,
            StreamEventType::StreamEnd => EventKind::StreamEnd,
            StreamEventType::DocumentStart => EventKind::DocumentStart,
            StreamEventType::DocumentEnd => EventKind::DocumentEnd,
            StreamEventType::Scalar { value, style, anchor, tag } => EventKind::Scalar {
                value: value@,
                style: *style,
                anchor: opt_view(*anchor),
                tag: *tag,
            },
            StreamEventType::MappingStart { anchor, tag } => EventKind::MappingStart {
                anchor: opt_view(*anchor),
                tag: *tag,
            },
            StreamEventType::MappingEnd => EventKind::MappingEnd,
            StreamEventType::SequenceStart { anchor, tag } => EventKind::SequenceStart {
                anchor: opt_view(*anchor),
                tag: *tag,
            },
            StreamEventType::SequenceEnd => EventKind::SequenceEnd,
            StreamEventType::Alias { name } => EventKind::Alias { name: name@ },
            StreamEventType::Comment { text, standalone } => EventKind::Comment {
                text: text@,
                standalone: *standalone,
            },
        }
    }
}

impl View for StreamEvent {
    type V = (EventKind, int, int);

    open spec fn view(&self) -> (EventKind, int, int) {
        (self.event_type@, self.line as int, self.column as int)
    }
}

/// The views of a list of events.
pub open spec fn event_views(v: Seq<StreamEvent>) -> Seq<(EventKind, int, int)> {
    v.map_values(|e: StreamEvent| e@)
}

/// The 0-based line of an event whose parser position is on 1-based
/// `span_line`.
pub open spec fn event_line(span_line: usize) -> int {
    if span_line >= 1 {
        span_line - 1
    } else {
        0
    }
}

/// The anchor id an event defines (`0` for none).
pub open spec fn anchor_id_of(e: ParserEvent) -> usize {
    match e {
        ParserEvent::Scalar { anchor_id, .. } => anchor_id,
        ParserEvent::MappingStart { anchor_id, .. } => anchor_id,
        ParserEvent::SequenceStart { anchor_id, .. } => anchor_id,
        _ => 0,
    }
}

impl ParserEvent {
    /// The anchor id this event defines (`0` for none).
    pub fn anchor_id(&self) -> (res: usize)
        ensures
            res == anchor_id_of(*self),
    {
        match self {
            ParserEvent::Scalar { anchor_id, .. } => *anchor_id,
            ParserEvent::MappingStart { anchor_id, .. } => *anchor_id,
            ParserEvent::SequenceStart { anchor_id, .. } => *anchor_id,
            _ => 0,
        }
    }
}

/// The anchor a defining event receives, given the name resolved for it.
pub open spec fn anchor_of(e: ParserEvent, resolved: Option<Seq<char>>) -> Option<Seq<char>> {
    if anchor_id_of(e) == 0 {
        None
    } else {
        resolved
    }
}

/// The anchor table after an event: a defining event with a resolved name
/// registers it under its id.
pub open spec fn registered(m: Map<usize, Seq<char>>, e: ParserEvent, resolved: Option<Seq<char>>) -> Map<
    usize,
    Seq<char>,
> {
    match anchor_of(e, resolved) {
        Some(n) => m.insert(anchor_id_of(e), n),
        None => m,
    }
}

/// The name an alias gets: the registered anchor name, or `alias_` and the id.
pub open spec fn alias_name(m: Map<usize, Seq<char>>, id: usize) -> Seq<char> {
    if m.contains_key(id) {
        m[id]
    } else {
        "alias_"@ + decimal(id as nat)
    }
}

/// The stream event type of a parser event (`None` for `Nothing`).
pub open spec fn kind_of(e: ParserEvent, m: Map<usize, Seq<char>>, resolved: Option<Seq<char>>) -> Option<
    EventKind,
> {
    match e {
        ParserEvent::Nothing => None,
        ParserEvent::StreamStart => Some(EventKind::StreamStart),
        ParserEvent::StreamEnd => Some(EventKind::StreamEnd),
        ParserEvent::DocumentStart => Some(EventKind::DocumentStart),
        ParserEvent::DocumentEnd => Some(EventKind::DocumentEnd),
        ParserEvent::Scalar { value, style, tag, .. } => Some(
            EventKind::Scalar { value: value@, style, anchor: anchor_of(e, resolved), tag },
        ),
        ParserEvent::MappingStart { tag, .. } => Some(
            EventKind::MappingStart { anchor: anchor_of(e, resolved), tag },
        ),
        ParserEvent::MappingEnd => Some(EventKind::MappingEnd),
        ParserEvent::SequenceStart { tag, .. } => Some(
            EventKind::SequenceStart { anchor: anchor_of(e, resolved), tag },
        ),
        ParserEvent::SequenceEnd => Some(EventKind::SequenceEnd),
        ParserEvent::Alias { anchor_id } => Some(EventKind::Alias { name: alias_name(m, anchor_id) }),
    }
}

/// The view of an anchor table.
pub open spec fn map_view(m: Map<usize, String>) -> Map<usize, Seq<char>> {
    m.map_values(|s: String| s@)
}

/// Register `resolved` under a non-zero `anchor_id` and hand it back.
fn resolve_anchor_name(
    anchor_id: usize,
    anchor_map: &mut HashMap<usize, String>,
    resolved: Option<String>,
) -> (res: Option<String>)
    ensures
        opt_view(res) == (if anchor_id == 0 { None } else { opt_view(resolved) }),
        map_view(final(anchor_map)@) == (if anchor_id != 0 && resolved is Some {
            map_view(old(anchor_map)@).insert(anchor_id, resolved.unwrap()@)
        } else {
            map_view(old(anchor_map)@)
        }),
{
    if anchor_id == 0 {
        return None;
    }
    match resolved {
        Some(name) => {
            anchor_map.insert(anchor_id, name.clone());
            proof {
                assert(map_view(anchor_map@) =~= map_view(old(anchor_map)@).insert(anchor_id, name@));
            }
            Some(name)
        },
        None => None,
    }
}

/// Convert a parser event at 1-based line `span_line` and column `span_col`
/// into a stream event. `resolved` is the name found for the anchor the event
/// defines, if any; it is registered in `anchor_map`, where aliases are
/// looked up (an unknown alias is named `alias_` and its id). `Nothing`
/// gives `None`.
pub fn event_to_stream_event(
    event: ParserEvent,
    span_line: usize,
    span_col: usize,
    anchor_map: &mut HashMap<usize, String>,
    resolved: Option<String>,
) -> (res: Option<StreamEvent>)
    ensures
        map_view(final(anchor_map)@) == registered(map_view(old(anchor_map)@), event, opt_view(resolved)),
        match kind_of(event, map_view(old(anchor_map)@), opt_view(resolved)) {
            Some(k) => res matches Some(ev) && ev@ == (k, event_line(span_line), span_col as int),
            None => res is None,
        },
{
    let line = span_line.saturating_sub(1);
    let column = span_col;
    let ghost e = event;
    let event_type = match event {
        ParserEvent::Nothing => {
            return None;
        },
        ParserEvent::StreamStart => StreamEventType::StreamStart,
        ParserEvent::StreamEnd => StreamEventType::StreamEnd,
        ParserEvent::DocumentStart => StreamEventType::DocumentStart,
        ParserEvent::DocumentEnd => StreamEventType::DocumentEnd,
        ParserEvent::Scalar { value, style, anchor_id, tag } => {
            let anchor = resolve_anchor_name(anchor_id, anchor_map, resolved);
            StreamEventType::Scalar { value, style, anchor, tag }
        },
        ParserEvent::MappingStart { anchor_id, tag } => {
            let anchor = resolve_anchor_name(anchor_id, anchor_map, resolved);
            StreamEventType::MappingStart { anchor, tag }
        },
        ParserEvent::MappingEnd => StreamEventType::MappingEnd,
        ParserEvent::SequenceStart { anchor_id, tag } => {
            let anchor = resolve_anchor_name(anchor_id, anchor_map, resolved);
            StreamEventType::SequenceStart { anchor, tag }
        },
        ParserEvent::SequenceEnd => StreamEventType::SequenceEnd,
        ParserEvent::Alias { anchor_id } => {
            let name = match anchor_map.get(&anchor_id) {
                Some(n) => n.clone(),
                None => {
                    let mut s = String::new();
                    s.append("alias_");
                    push_decimal(&mut s, anchor_id as u64);
                    s
                },
            };
            proof {
                assert(map_view(anchor_map@).contains_key(anchor_id) == anchor_map@.contains_key(anchor_id));
            }
            StreamEventType::Alias { name }
        },
    };
    proof {
        if !(anchor_id_of(e) != 0 && resolved is Some) {
            assert(map_view(anchor_map@) =~= map_view(old(anchor_map)@));
        }
    }
    Some(StreamEvent { event_type, line, column })
}

/// Absolute index of the first `#` byte of `b` in `[from, to)`, or `to`.
pub open spec fn hash_pos(b: Seq<u8>, from: int, to: int) -> int
    decreases to - from,
{
    if from >= to {
        to
    } else if b[from] == 35u8 {
        from
    } else {
        hash_pos(b, from + 1, to)
    }
}

/// Byte index where line `line` ends: its `\n`, or the end of the text for
/// the last line.
pub open spec fn line_end(b: Seq<u8>, lo: Seq<usize>, line: int) -> int {
    if line + 1 < lo.len() {
        if lo[line + 1] >= 1 {
            lo[line + 1] - 1
        } else {
            0
        }
    } else {
        b.len() as int
    }
}

/// Where a scalar on `line` ends for the purpose of finding its line-end
/// comment: the byte column of the first `#` on that line, or the line's
/// length; for a line past the text, the byte length of the value.
pub open spec fn value_end_col(b: Seq<u8>, lo: Seq<usize>, line: int, value: Seq<char>) -> int {
    if 0 <= line < lo.len() {
        hash_pos(b, lo[line] as int, line_end(b, lo, line)) - lo[line]
    } else {
        (utf8_len(value) as usize) as int
    }
}

/// Line offsets are increasing, start at `0` and stay within the text.
pub proof fn lemma_line_offsets_bounds(b: Seq<u8>)
    requires
        b.len() <= usize::MAX,
    ensures
        line_offsets_spec(b).len() >= 1,
        line_offsets_spec(b)[0] == 0,
        forall|i: int| 0 <= i < line_offsets_spec(b).len() ==> #[trigger] line_offsets_spec(b)[i] <= b.len(),
        forall|i: int|
            0 <= i && i + 1 < line_offsets_spec(b).len() ==> #[trigger] line_offsets_spec(b)[i] < line_offsets_spec(
                b,
            )[i + 1],
    decreases b.len(),
{
    if b.len() > 0 {
        let p = b.drop_last();
        lemma_line_offsets_bounds(p);
        let lo = line_offsets_spec(b);
        let lp = line_offsets_spec(p);
        if b.last() == 10u8 {
            assert(lo == lp.push(b.len() as usize));
            assert forall|i: int| 0 <= i && i + 1 < lo.len() implies #[trigger] lo[i] < lo[i + 1] by {
                if i + 1 < lp.len() {
                    assert(lo[i] == lp[i] && lo[i + 1] == lp[i + 1]);
                } else {
                    assert(lo[i] == lp[i]);
                    assert(lp[i] <= p.len());
                }
            }
        }
    }
}

/// What the text of a receiver holds of comments: none when it has neither
/// `#` nor `&`, else those found line by line.
pub open spec fn initial_comments(yaml: &str) -> Seq<(int, int, Seq<char>, bool)> {
    if yaml.spec_bytes().contains(35u8) || yaml.spec_bytes().contains(38u8) {
        comments_of_lines(lines_of(yaml@))
    } else {
        Seq::empty()
    }
}

/// The anchor definitions a receiver hands out, in order.
pub open spec fn initial_anchors(yaml: &str) -> Seq<(int, int, Seq<char>)> {
    if yaml.spec_bytes().contains(35u8) || yaml.spec_bytes().contains(38u8) {
        anchors_of_lines(lines_of(yaml@))
    } else {
        Seq::empty()
    }
}

/// The evolving state of a receiver: the events so far, the standalone
/// comment waiting to be emitted, the positions of the comment and anchor
/// cursors, and the anchor table.
pub struct ReceiverState {
    pub events: Seq<(EventKind, int, int)>,
    pub pending: Option<(Seq<char>, bool)>,
    pub comment_pos: int,
    pub anchor_pos: int,
    pub anchors: Map<usize, Seq<char>>,
}

/// A comment event.
pub open spec fn comment_event(text: Seq<char>, standalone: bool, line: int, col: int) -> (
    EventKind,
    int,
    int,
) {
    (EventKind::Comment { text, standalone }, line, col)
}

/// The standalone comment found before `line` when a node starts there.
pub open spec fn found_standalone(
    cs: Seq<(int, int, Seq<char>, bool)>,
    pos: int,
    line: int,
) -> Option<(Seq<char>, bool)> {
    match standalone_scan(cs, pos, line).1 {
        Some(k) => Some((cs[k].2, true)),
        None => None,
    }
}

/// The comment events a pending comment gives at a place: one, or none.
pub open spec fn pending_events(c: Option<(Seq<char>, bool)>, line: int, col: int) -> Seq<(EventKind, int, int)> {
    match c {
        Some(p) => seq![comment_event(p.0, p.1, line, col)],
        None => Seq::empty(),
    }
}

/// The anchor name an event takes: for one that defines an anchor, the next
/// anchor name of the text while any is left.
pub open spec fn next_anchor(st: ReceiverState, an: Seq<(int, int, Seq<char>)>, e: ParserEvent) -> Option<Seq<char>> {
    if anchor_id_of(e) != 0 && 0 <= st.anchor_pos < an.len() {
        Some(an[st.anchor_pos].2)
    } else {
        None
    }
}

/// One event through the receiver, by the kind of event:
/// - an empty event changes nothing;
/// - the stream start is recorded;
/// - a scalar is recorded after the standalone comment found before its
///   line (if one is, the pending comment is dropped), and is followed by
///   the comment at the end of its value on that line;
/// - a mapping or sequence start: a standalone comment found before its
///   line takes the place of the pending comment, which is recorded just
///   before the event;
/// - any other event is recorded after the pending comment.
///
/// An event that defines an anchor takes the next anchor name of the text
/// and registers it under its id.
pub open spec fn receiver_step(
    st: ReceiverState,
    cs: Seq<(int, int, Seq<char>, bool)>,
    an: Seq<(int, int, Seq<char>)>,
    b: Seq<u8>,
    lo: Seq<usize>,
    e: ParserEvent,
    span_line: usize,
    span_col: usize,
) -> ReceiverState {
    let line = event_line(span_line);
    let col = span_col as int;
    let resolved = next_anchor(st, an, e);
    let here = seq![(kind_of(e, st.anchors, resolved)->0, line, col)];
    let anchor_pos = if resolved is Some {
        st.anchor_pos + 1
    } else {
        st.anchor_pos
    };
    let anchors = registered(st.anchors, e, resolved);
    match e {
        ParserEvent::Nothing => st,
        ParserEvent::StreamStart => ReceiverState { events: st.events + here, ..st },
        ParserEvent::Scalar { value, .. } => {
            let found = found_standalone(cs, st.comment_pos, line);
            let scanned = standalone_scan(cs, st.comment_pos, line).0;
            let end = value_end_col(b, lo, line, value@);
            let inline = inline_from(cs, scanned, line, end);
            ReceiverState {
                events: st.events + pending_events(found, line, col) + here + match inline {
                    Some(k) => seq![comment_event(cs[k].2, false, line, end)],
                    None => Seq::empty(),
                },
                pending: if found is Some {
                    None
                } else {
                    st.pending
                },
                comment_pos: match inline {
                    Some(k) => k,
                    None => scanned,
                },
                anchor_pos,
                anchors,
            }
        },
        ParserEvent::MappingStart { .. } | ParserEvent::SequenceStart { .. } => {
            let found = found_standalone(cs, st.comment_pos, line);
            ReceiverState {
                events: st.events + pending_events(
                    if found is Some {
                        found
                    } else {
                        st.pending
                    },
                    line,
                    col,
                ) + here,
                pending: None,
                comment_pos: standalone_scan(cs, st.comment_pos, line).0,
                anchor_pos,
                anchors,
            }
        },
        _ => ReceiverState { events: st.events + pending_events(st.pending, line, col) + here, pending: None, ..st },
    }
}

/// The view of a pending comment.
pub open spec fn pending_view(c: Option<Comment>) -> Option<(Seq<char>, bool)> {
    match c {
        Some(x) => Some((x.text@, x.standalone)),
        None => None,
    }
}

/// Event receiver that collects `StreamEvent`s from the parser.
///
/// Pending standalone comments are emitted as `StreamEventType::Comment`
/// events before the next structural event that carries anchor/tag/alias.
pub struct StreamReceiver<'a> {
    yaml_text: &'a str,
    line_offsets: Vec<usize>,
    comment_anchor_tracker: CommentAnchorTracker,
    events: Vec<StreamEvent>,
    pending_standalone_comment: Option<Comment>,
    anchors: HashMap<usize, String>,
}

impl<'a> StreamReceiver<'a> {
    /// The bytes of the text being parsed.
    pub closed spec fn text(self) -> Seq<u8> {
        self.yaml_text.spec_bytes()
    }

    /// The byte offset of each line of the text.
    pub closed spec fn offsets(self) -> Seq<usize> {
        self.line_offsets@
    }

    /// The comments found in the text.
    pub closed spec fn comments(self) -> Seq<(int, int, Seq<char>, bool)> {
        self.comment_anchor_tracker.comments()
    }

    /// The anchor definitions found in the text.
    pub closed spec fn anchor_defs(self) -> Seq<(int, int, Seq<char>)> {
        self.comment_anchor_tracker.anchors()
    }

    /// The evolving state.
    pub closed spec fn state(self) -> ReceiverState {
        ReceiverState {
            events: event_views(self.events@),
            pending: pending_view(self.pending_standalone_comment),
            comment_pos: self.comment_anchor_tracker.comment_pos(),
            anchor_pos: self.comment_anchor_tracker.anchor_pos(),
            anchors: map_view(self.anchors@),
        }
    }

    /// The line offsets belong to the text.
    pub closed spec fn wf(self) -> bool {
        self.line_offsets@ == line_offsets_spec(self.yaml_text.spec_bytes())
    }

    /// A receiver for `yaml_text`, with its comments and anchors extracted.
    pub fn new(yaml_text: &'a str) -> (res: Self)
        requires
            utf8_len(yaml_text@) <= usize::MAX,
        ensures
            res.wf(),
            res.text() == yaml_text.spec_bytes(),
            res.comments() == initial_comments(yaml_text),
            res.anchor_defs() == initial_anchors(yaml_text),
            res.state() == (ReceiverState {
                events: Seq::empty(),
                pending: None,
                comment_pos: 0,
                anchor_pos: 0,
                anchors: Map::empty(),
            }),
    {
        let scan = scan_yaml(yaml_text);
        let (comments, anchors) = if !scan.has_hash && !scan.has_amp {
            (Vec::new(), Vec::new())
        } else {
            extract_comments_and_anchors(yaml_text)
        };
        let r = StreamReceiver {
            yaml_text,
            line_offsets: scan.line_offsets,
            comment_anchor_tracker: CommentAnchorTracker::new(comments, anchors),
            events: Vec::new(),
            pending_standalone_comment: None,
            anchors: HashMap::new(),
        };
        proof {
            assert(event_views(r.events@) =~= Seq::empty());
            assert(map_view(r.anchors@) =~= Map::empty());
            assert(comment_views(Seq::<crate::comment::RawComment>::empty()) =~= Seq::empty());
            assert(anchor_views(Seq::<crate::comment::RawAnchor>::empty()) =~= Seq::empty());
        }
        r
    }

    /// The collected events.
    pub fn into_events(self) -> (res: Vec<StreamEvent>)
        ensures
            event_views(res@) == self.state().events,
    {
        self.events
    }

    fn emit_pending_comment(&mut self, line: usize, column: usize)
        ensures
            final(self).text() == old(self).text(),
            final(self).offsets() == old(self).offsets(),
            final(self).comments() == old(self).comments(),
            final(self).anchor_defs() == old(self).anchor_defs(),
            final(self).state() == (ReceiverState {
                events: old(self).state().events + match old(self).state().pending {
                    Some(p) => seq![comment_event(p.0, p.1, line as int, column as int)],
                    None => Seq::empty(),
                },
                pending: None,
                ..old(self).state()
            }),
    {
        if let Some(comment) = self.pending_standalone_comment.take() {
            self.events.push(
                StreamEvent {
                    event_type: StreamEventType::Comment {
                        text: comment.text,
                        standalone: comment.standalone,
                    },
                    line,
                    column,
                },
            );
        }
        proof {
            assert(event_views(self.events@) =~= old(self).state().events + match old(self).state().pending {
                Some(p) => seq![comment_event(p.0, p.1, line as int, column as int)],
                None => Seq::empty(),
            });
        }
    }

    /// Where a scalar with text `value` on `line` ends, for the search of its
    /// line-end comment.
    fn scalar_end_col(&self, line: usize, value: &String) -> (res: usize)
        requires
            self.wf(),
        ensures
            res as int == value_end_col(self.text(), self.offsets(), line as int, value@),
    {
        let bytes = self.yaml_text.as_bytes();
        let n = bytes.len();
        let ghost b = self.text();
        proof {
            lemma_line_offsets_bounds(b);
        }
        if line < self.line_offsets.len() {
            let start = self.line_offsets[line];
            let end = if line + 1 < self.line_offsets.len() {
                self.line_offsets[line + 1].saturating_sub(1)
            } else {
                n
            };
            proof {
                if line + 1 < self.line_offsets.len() {
                    assert(line_offsets_spec(b)[line as int] < line_offsets_spec(b)[line + 1]);
                    assert(line_offsets_spec(b)[line + 1] <= b.len());
                }
                assert(end == line_end(b, self.offsets(), line as int));
            }
            let mut k = start;
            while k < end && bytes[k] != 35u8
                invariant
                    start <= k <= end,
                    end <= n,
                    n == b.len(),
                    bytes@ == b,
                    hash_pos(b, start as int, end as int) == hash_pos(b, k as int, end as int),
                decreases end - k,
            {
                k = k + 1;
            }
            k - start
        } else {
            value.as_str().len()
        }
    }

    /// Take one parser event at 1-based line `span_line` and column
    /// `span_col`.
    pub fn on_event(&mut self, event: ParserEvent, span_line: usize, span_col: usize)
        requires
            old(self).wf(),
        ensures
            final(self).wf(),
            final(self).text() == old(self).text(),
            final(self).offsets() == old(self).offsets(),
            final(self).comments() == old(self).comments(),
            final(self).anchor_defs() == old(self).anchor_defs(),
            final(self).state() == receiver_step(
                old(self).state(),
                old(self).comments(),
                old(self).anchor_defs(),
                old(self).text(),
                old(self).offsets(),
                event,
                span_line,
                span_col,
            ),
    {
        let ghost expected = receiver_step(
            old(self).state(),
            old(self).comments(),
            old(self).anchor_defs(),
            old(self).text(),
            old(self).offsets(),
            event,
            span_line,
            span_col,
        );
        let line = span_line.saturating_sub(1);
        let column = span_col;
        let mut inline_comment: Option<Comment> = None;
        let mut value_end_col: usize = 0;
        match &event {
            ParserEvent::Scalar { value, .. } => {
                let standalone = self.comment_anchor_tracker.find_standalone_before_line(line);
                if let Some(comment) = standalone {
                    self.pending_standalone_comment = Some(comment);
                    self.emit_pending_comment(line, column);
                }
                value_end_col = self.scalar_end_col(line, value);
                inline_comment = self.comment_anchor_tracker.find_inline_comment(line, value_end_col);
            },
            ParserEvent::MappingStart { .. } | ParserEvent::SequenceStart { .. } => {
                let standalone = self.comment_anchor_tracker.find_standalone_before_line(line);
                if let Some(comment) = standalone {
                    self.pending_standalone_comment = Some(comment);
                }
            },
            _ => {},
        }
        let anchor_id = event.anchor_id();
        let resolved = if anchor_id != 0 {
            self.comment_anchor_tracker.next_anchor_name()
        } else {
            None
        };
        let stream_event = match event_to_stream_event(
            event,
            span_line,
            span_col,
            &mut self.anchors,
            resolved,
        ) {
            Some(ev) => ev,
            None => {
                return ;
            },
        };
        let needs_emit_pending = match &stream_event.event_type {
            StreamEventType::StreamStart => false,
            StreamEventType::Scalar { .. } => false,
            _ => true,
        };
        if needs_emit_pending {
            self.emit_pending_comment(line, column);
        }
        self.events.push(stream_event);
        if let Some(c) = inline_comment {
            self.events.push(
                StreamEvent {
                    event_type: StreamEventType::Comment { text: c.text, standalone: false },
                    line,
                    column: value_end_col,
                },
            );
        }
        proof {
            assert(self.state().comment_pos == expected.comment_pos);
            assert(self.state().anchor_pos == expected.anchor_pos);
            assert(self.state().anchors == expected.anchors);
            assert(self.state().pending == expected.pending);
            assert(self.state().events == expected.events);
        }
    }
}


/// Whether `yaml` holds nothing but whitespace; such a text gives no events
/// at all.
pub fn is_blank(yaml: &str) -> (res: bool)
    ensures
        res == (trim(yaml@).len() == 0),
{
    let v = chars_of(yaml);
    let (a, b) = trim_bounds(&v, 0, v.len());
    proof {
        assert(v@.subrange(0, v@.len() as int) =~= yaml@);
    }
    a == b
}

/// Taking an event never changes or drops the events already collected: they
/// stay a prefix of the events that follow.
pub proof fn law_events_append_only(
    st: ReceiverState,
    cs: Seq<(int, int, Seq<char>, bool)>,
    an: Seq<(int, int, Seq<char>)>,
    b: Seq<u8>,
    lo: Seq<usize>,
    e: ParserEvent,
    span_line: usize,
    span_col: usize,
)
    ensures
        st.events.len() <= receiver_step(st, cs, an, b, lo, e, span_line, span_col).events.len(),
        receiver_step(st, cs, an, b, lo, e, span_line, span_col).events.subrange(0, st.events.len() as int)
            == st.events,
{
    let r = receiver_step(st, cs, an, b, lo, e, span_line, span_col);
    assert(r.events.subrange(0, st.events.len() as int) =~= st.events);
}

/// The receiver state after the events `evs`, taken in order from `st`.
pub open spec fn receiver_run(
    st: ReceiverState,
    cs: Seq<(int, int, Seq<char>, bool)>,
    an: Seq<(int, int, Seq<char>)>,
    b: Seq<u8>,
    lo: Seq<usize>,
    evs: Seq<(ParserEvent, usize, usize)>,
) -> ReceiverState
    decreases evs.len(),
{
    if evs.len() == 0 {
        st
    } else {
        let last = evs.last();
        receiver_step(receiver_run(st, cs, an, b, lo, evs.drop_last()), cs, an, b, lo, last.0, last.1, last.2)
    }
}

/// The state of a receiver before any event.
pub open spec fn fresh_receiver_state() -> ReceiverState {
    ReceiverState { events: Seq::empty(), pending: None, comment_pos: 0, anchor_pos: 0, anchors: Map::empty() }
}

/// The stream events of `yaml` given the events the parser delivered for
/// it (each with its 1-based line and 0-based column): none for a blank
/// text, otherwise what a receiver over the text collects from them.
pub open spec fn stream_of(yaml: &str, evs: Seq<(ParserEvent, usize, usize)>) -> Seq<(EventKind, int, int)> {
    if trim(yaml@).len() == 0 {
        Seq::empty()
    } else {
        receiver_run(
            fresh_receiver_state(),
            initial_comments(yaml),
            initial_anchors(yaml),
            yaml.spec_bytes(),
            line_offsets_spec(yaml.spec_bytes()),
            evs,
        ).events
    }
}

/// The stream events of `yaml` from the parser's events for it (see
/// `stream_of`).
pub fn stream_from_events(yaml: &str, events: Vec<(ParserEvent, usize, usize)>) -> (res: Vec<StreamEvent>)
    requires
        utf8_len(yaml@) <= usize::MAX,
    ensures
        event_views(res@) == stream_of(yaml, events@),
{
    if is_blank(yaml) {
        let res: Vec<StreamEvent> = Vec::new();
        assert(event_views(res@) =~= Seq::<(EventKind, int, int)>::empty());
        return res;
    }
    let ghost evs = events@;
    let mut r = StreamReceiver::new(yaml);
    let ghost cs = r.comments();
    let ghost an = r.anchor_defs();
    assert(evs.take(0) =~= Seq::<(ParserEvent, usize, usize)>::empty());
    for item in it: events
        invariant
            r.wf(),
            it.seq() == evs,
            r.text() == yaml.spec_bytes(),
            r.offsets() == line_offsets_spec(yaml.spec_bytes()),
            r.comments() == cs,
            r.anchor_defs() == an,
            cs == initial_comments(yaml),
            an == initial_anchors(yaml),
            r.state() == receiver_run(
                fresh_receiver_state(),
                cs,
                an,
                yaml.spec_bytes(),
                line_offsets_spec(yaml.spec_bytes()),
                evs.take(it.index() as int),
            ),
    {
        let (e, line, col) = item;
        proof {
            assert(evs.take(it.index() + 1).drop_last() =~= evs.take(it.index() as int));
        }
        r.on_event(e, line, col);
    }
    assert(evs.take(evs.len() as int) =~= evs);
    r.into_events()
}

/// A parse failure with its position.
#[derive(Debug, Clone, PartialEq)]
pub struct ParseErrorDetail {
    pub message: String,
    pub line: usize,
    pub col: usize,
}

/// The failure reported when the parser stops with error text `detail`:
/// `YAML parse error: ` and the detail, at line 0, column 0.
pub fn parse_failure(detail: &str) -> (res: ParseErrorDetail)
    ensures
        res.message@ == "YAML parse error: "@ + detail@,
        res.line == 0,
        res.col == 0,
{
    let mut m = crate::text::string_from("YAML parse error: ");
    m.append(detail);
    ParseErrorDetail { message: m, line: 0, col: 0 }
}

/// The name of a scalar style as a host records it.
pub open spec fn style_name(s: ScalarStyle) -> Seq<char> {
    match s {
        ScalarStyle::Plain => "plain"@,
        ScalarStyle::SingleQuoted => "single_quoted"@,
        ScalarStyle::DoubleQuoted => "double_quoted"@,
        ScalarStyle::Literal => "literal"@,
        ScalarStyle::Folded => "folded"@,
    }
}

/// A tag as one text: its handle, then its suffix.
pub open spec fn tag_text(t: Option<Tag>) -> Option<Seq<char>> {
    match t {
        Some(t) => Some(t.handle@ + t.suffix@),
        None => None,
    }
}

/// What a host records of an event: its type name, then its value, style,
/// anchor and tag, each where the event has one. A comment's text is its
/// value, and its style is `standalone` or `inline`.
pub open spec fn record_of(k: EventKind) -> (
    Seq<char>,
    Option<Seq<char>>,
    Option<Seq<char>>,
    Option<Seq<char>>,
    Option<Seq<char>>,
) {
    match k {
        EventKind::StreamStart => ("stream_start"@, None, None, None, None),
        EventKind::StreamEnd => ("stream_end"@, None, None, None, None),
        EventKind::DocumentStart => ("document_start"@, None, None, None, None),
        EventKind::DocumentEnd => ("document_end"@, None, None, None, None),
        EventKind::Scalar { value, style, anchor, tag } => (
            "scalar"@,
            Some(value),
            Some(style_name(style)),
            anchor,
            tag_text(tag),
        ),
        EventKind::MappingStart { anchor, tag } => ("mapping_start"@, None, None, anchor, tag_text(tag)),
        EventKind::MappingEnd => ("mapping_end"@, None, None, None, None),
        EventKind::SequenceStart { anchor, tag } => ("sequence_start"@, None, None, anchor, tag_text(tag)),
        EventKind::SequenceEnd => ("sequence_end"@, None, None, None, None),
        EventKind::Alias { name } => ("alias"@, Some(name), None, None, None),
        EventKind::Comment { text, standalone } => (
            "comment"@,
            Some(text),
            Some(
                if standalone {
                    "standalone"@
                } else {
                    "inline"@
                },
            ),
            None,
            None,
        ),
    }
}

/// The fields of an event as a host records them.
pub struct EventRecord {
    /// The event's type name (`"scalar"`, `"mapping_start"`, ...).
    pub event_type: String,
    pub value: Option<String>,
    pub style: Option<String>,
    pub anchor: Option<String>,
    pub tag: Option<String>,
    pub line: usize,
    pub column: usize,
}

fn style_name_of(s: ScalarStyle) -> (res: String)
    ensures
        res@ == style_name(s),
{
    let t = match s {
        ScalarStyle::Plain => "plain",
        ScalarStyle::SingleQuoted => "single_quoted",
        ScalarStyle::DoubleQuoted => "double_quoted",
        ScalarStyle::Literal => "literal",
        ScalarStyle::Folded => "folded",
    };
    proof {
        reveal_strlit("plain");
        reveal_strlit("single_quoted");
        reveal_strlit("double_quoted");
        reveal_strlit("literal");
        reveal_strlit("folded");
    }
    t.to_string()
}

fn tag_text_of(t: &Option<Tag>) -> (res: Option<String>)
    ensures
        opt_view(res) == tag_text(*t),
{
    match t {
        Some(t) => {
            let mut s = t.handle.clone();
            s.append(t.suffix.as_str());
            Some(s)
        },
        None => None,
    }
}

fn clone_opt(s: &Option<String>) -> (res: Option<String>)
    ensures
        opt_view(res) == opt_view(*s),
{
    match s {
        Some(x) => Some(x.clone()),
        None => None,
    }
}

/// The record of an event (see `record_of`), with its line and column.
pub fn event_record(e: &StreamEvent) -> (res: EventRecord)
    ensures
        (res.event_type@, opt_view(res.value), opt_view(res.style), opt_view(res.anchor), opt_view(res.tag))
            == record_of(e.event_type@),
        res.line == e.line,
        res.column == e.column,
{
    let (t, value, style, anchor, tag): (&str, Option<String>, Option<String>, Option<String>, Option<String>) =
        match &e.event_type {
        StreamEventType::StreamStart => ("stream_start", None, None, None, None),
        StreamEventType::StreamEnd => ("stream_end", None, None, None, None),
        StreamEventType::DocumentStart => ("document_start", None, None, None, None),
        StreamEventType::DocumentEnd => ("document_end", None, None, None, None),
        StreamEventType::Scalar { value, style, anchor, tag } => (
            "scalar",
            Some(value.clone()),
            Some(style_name_of(*style)),
            clone_opt(anchor),
            tag_text_of(tag),
        ),
        StreamEventType::MappingStart { anchor, tag } => ("mapping_start", None, None, clone_opt(anchor), tag_text_of(tag)),
        StreamEventType::MappingEnd => ("mapping_end", None, None, None, None),
        StreamEventType::SequenceStart { anchor, tag } => ("sequence_start", None, None, clone_opt(anchor), tag_text_of(tag)),
        StreamEventType::SequenceEnd => ("sequence_end", None, None, None, None),
        StreamEventType::Alias { name } => ("alias", Some(name.clone()), None, None, None),
        StreamEventType::Comment { text, standalone } => (
            "comment",
            Some(text.clone()),
            Some(
                if *standalone {
                    "standalone".to_string()
                } else {
                    "inline".to_string()
                },
            ),
            None,
            None,
        ),
    };
    proof {
        reveal_strlit("stream_start");
        reveal_strlit("stream_end");
        reveal_strlit("document_start");
        reveal_strlit("document_end");
        reveal_strlit("scalar");
        reveal_strlit("mapping_start");
        reveal_strlit("mapping_end");
        reveal_strlit("sequence_start");
        reveal_strlit("sequence_end");
        reveal_strlit("alias");
        reveal_strlit("comment");
        reveal_strlit("standalone");
        reveal_strlit("inline");
    }
    EventRecord { event_type: t.to_string(), value, style, anchor, tag, line: e.line, column: e.column }
}

/// A parser event (`saphyr_parser::Event`).
#[verifier::external_type_specification]
#[verifier::external_body]
pub struct ExSaphyrEvent<'input>(saphyr_parser::Event<'input>);

/// A source span of a parser event (`saphyr_parser::Span`).
#[verifier::external_type_specification]
#[verifier::external_body]
pub struct ExSaphyrSpan(saphyr_parser::Span);

/// A scalar style as the parser reports it (`saphyr_parser::ScalarStyle`).
#[verifier::external_type_specification]
#[verifier::external_body]
pub struct ExSaphyrStyle(SaphyrStyle);

/// A tag as the parser reports it (`saphyr_parser::Tag`).
#[verifier::external_type_specification]
#[verifier::external_body]
pub struct ExSaphyrTag(SaphyrTag);

/// The events, each with the line and column where it starts, that
/// `saphyr_parser::Parser::load` delivers for a text (the `Err` case: the
/// text of the scan error it returns).
pub uninterp spec fn saphyr_events(yaml: Seq<char>) -> Result<Seq<(ParserEvent, usize, usize)>, Seq<char>>;

/// The library's scalar style for a `saphyr_parser::ScalarStyle`: the same
/// variant. It has no contract; Verus relies only on its type.
#[verifier::external_body]
fn style_of(style: SaphyrStyle) -> ScalarStyle {
    match style {
        SaphyrStyle::Plain => ScalarStyle::Plain,
        SaphyrStyle::SingleQuoted => ScalarStyle::SingleQuoted,
        SaphyrStyle::DoubleQuoted => ScalarStyle::DoubleQuoted,
        SaphyrStyle::Literal => ScalarStyle::Literal,
        SaphyrStyle::Folded => ScalarStyle::Folded,
    }
}

/// The library's tag for a `saphyr_parser::Tag`: the same handle and
/// suffix. It has no contract; Verus relies only on its type.
#[verifier::external_body]
fn tag_of(tag: Option<&SaphyrTag>) -> Option<Tag> {
    tag.map(|t| Tag { handle: t.handle.clone(), suffix: t.suffix.clone() })
}

/// The library's event for a `saphyr_parser::Event`: the same variant with
/// the same fields (a document start's explicitness is not kept). It has no
/// contract; what `parser_events` delivers is named by `saphyr_events`.
#[verifier::external_body]
fn event_of(event: saphyr_parser::Event<'_>) -> ParserEvent {
    match event {
        saphyr_parser::Event::Nothing => ParserEvent::Nothing,
        saphyr_parser::Event::StreamStart => ParserEvent::StreamStart,
        saphyr_parser::Event::StreamEnd => ParserEvent::StreamEnd,
        saphyr_parser::Event::DocumentStart(_) => ParserEvent::DocumentStart,
        saphyr_parser::Event::DocumentEnd => ParserEvent::DocumentEnd,
        saphyr_parser::Event::Alias(anchor_id) => ParserEvent::Alias { anchor_id },
        saphyr_parser::Event::Scalar(v, s, anchor_id, t) => ParserEvent::Scalar { value: v.to_string(), style: style_of(s), anchor_id, tag: tag_of(t.as_deref()) },
        saphyr_parser::Event::SequenceStart(anchor_id, t) => ParserEvent::SequenceStart { anchor_id, tag: tag_of(t.as_deref()) },
        saphyr_parser::Event::SequenceEnd => ParserEvent::SequenceEnd,
        saphyr_parser::Event::MappingStart(anchor_id, t) => ParserEvent::MappingStart { anchor_id, tag: tag_of(t.as_deref()) },
        saphyr_parser::Event::MappingEnd => ParserEvent::MappingEnd,
    }
}

/// The parser's events as they arrive, each with the line and column where
/// it starts.
pub struct EventLog {
    pub events: Vec<(ParserEvent, usize, usize)>,
}

impl<'input> saphyr_parser::SpannedEventReceiver<'input> for EventLog {
    /// Called by `saphyr_parser::Parser::load` for each event: records it
    /// with its start line and column. It has no contract.
    #[verifier::external_body]
    fn on_event(&mut self, event: saphyr_parser::Event<'input>, span: saphyr_parser::Span) {
        self.events.push((event_of(event), span.start.line(), span.start.col()));
    }
}

/// Runs `saphyr_parser::Parser::load` over `yaml` (several documents
/// allowed) and collects its events: the contract names what it delivers,
/// or the text of its scan error, as `saphyr_events`.
#[verifier::external_body]
fn parser_events(yaml: &str) -> (res: Result<Vec<(ParserEvent, usize, usize)>, String>)
    ensures
        match (res, saphyr_events(yaml@)) {
            (Ok(v), Ok(s)) => v@ == s,
            (Err(e), Err(m)) => e@ == m,
            _ => false,
        },
{
    let mut log = EventLog { events: Vec::new() };
    let mut parser = saphyr_parser::Parser::new_from_str(yaml);
    match parser.load(&mut log, true) {
        Ok(()) => Ok(log.events),
        Err(e) => Err(e.to_string()),
    }
}

/// Parse a YAML string into a stream of `StreamEvent`s: a blank text gives
/// no events; otherwise the parser's events turned into the stream (see
/// `stream_from_events`), or, where the parser fails, its message.
pub fn parse_stream(yaml: &str) -> (res: Result<Vec<StreamEvent>, ParseErrorDetail>)
    requires
        utf8_len(yaml@) <= usize::MAX,
    ensures
        trim(yaml@).len() == 0 ==> (res matches Ok(v) && v@.len() == 0),
        trim(yaml@).len() != 0 ==> (res is Ok <==> saphyr_events(yaml@) is Ok),
        trim(yaml@).len() != 0 ==> (saphyr_events(yaml@) matches Ok(s) ==> (res matches Ok(v) && event_views(v@)
            == stream_of(yaml, s))),
        trim(yaml@).len() != 0 ==> (saphyr_events(yaml@) matches Err(m) ==> (res matches Err(d) && d.message@
            == "YAML parse error: "@ + m && d.line == 0 && d.col == 0)),
{
    if is_blank(yaml) {
        return Ok(Vec::new());
    }
    match parser_events(yaml) {
        Ok(events) => Ok(stream_from_events(yaml, events)),
        Err(m) => Err(parse_failure(m.as_str())),
    }
}

} // verus!
