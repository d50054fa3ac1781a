//! Markdown as a flat list of blocks with inline styling, for the side-by-side preview.

use crate::text;
use pulldown_cmark::{Event, Parser, Tag, TagEnd};
use vstd::prelude::*;

verus! {

broadcast use vstd::seq_lib::group_seq_properties;

// ---------------------------------------------------------------------------
// Types
// ---------------------------------------------------------------------------

/// An inline run of text with its emphasis.
#[derive(Debug, PartialEq)]
pub struct Span {
    pub text: String,
    pub bold: bool,
    pub italic: bool,
    pub code: bool,
}

/// A block-level element of the document.
#[derive(Debug, PartialEq)]
pub enum Block {
    Heading(u8, Vec<Span>),
    Paragraph(Vec<Span>),
    /// A code block: raw text.
    Code(String),
    /// A list item with its nesting depth; 1 is the top level.
    ListItem(usize, Vec<Span>),
    Quote(Vec<Span>),
    Rule,
    /// An image: the address or path as written, and the alternative text.
    Image { src: String, alt: String },
}

/// The start of an element.
pub enum MdTag {
    Heading(u8),
    CodeBlock,
    List,
    Item,
    BlockQuote,
    Strong,
    Emphasis,
    Image(String),
    Other,
}

/// The end of an element.
#[derive(Debug, Clone, Copy, PartialEq, Eq, Structural)]
pub enum MdTagEnd {
    Heading,
    Paragraph,
    CodeBlock,
    List,
    Item,
    BlockQuote,
    Strong,
    Emphasis,
    Image,
    Other,
}

/// One event of a Markdown parser.
pub enum MdEvent {
    Start(MdTag),
    End(MdTagEnd),
    Html(String),
    Code(String),
    Text(String),
    SoftBreak,
    HardBreak,
    Rule,
    Other,
}

// ---------------------------------------------------------------------------
// Model
// ---------------------------------------------------------------------------

#[verifier::ext_equal]
pub struct SpanModel {
    pub text: Seq<char>,
    pub bold: bool,
    pub italic: bool,
    pub code: bool,
}

#[verifier::ext_equal]
pub enum BlockModel {
    Heading(u8, Seq<SpanModel>),
    Paragraph(Seq<SpanModel>),
    Code(Seq<char>),
    ListItem(nat, Seq<SpanModel>),
    Quote(Seq<SpanModel>),
    Rule,
    Image(Seq<char>, Seq<char>),
}

#[verifier::ext_equal]
pub enum TagModel {
    Heading(u8),
    CodeBlock,
    List,
    Item,
    BlockQuote,
    Strong,
    Emphasis,
    Image(Seq<char>),
    Other,
}

#[verifier::ext_equal]
pub enum EventModel {
    Start(TagModel),
    End(MdTagEnd),
    Html(Seq<char>),
    Code(Seq<char>),
    Text(Seq<char>),
    SoftBreak,
    HardBreak,
    Rule,
    Other,
}

impl Span {
    pub open spec fn model(self) -> SpanModel {
        SpanModel { text: self.text@, bold: self.bold, italic: self.italic, code: self.code }
    }
}

pub open spec fn span_models(v: Seq<Span>) -> Seq<SpanModel> {
    Seq::new(v.len(), |i: int| v[i].model())
}

impl Block {
    pub open spec fn model(self) -> BlockModel {
        match self {
            Block::Heading(n, s) => BlockModel::Heading(n, span_models(s@)),
            Block::Paragraph(s) => BlockModel::Paragraph(span_models(s@)),
            Block::Code(s) => BlockModel::Code(s@),
            Block::ListItem(n, s) => BlockModel::ListItem(n as nat, span_models(s@)),
            Block::Quote(s) => BlockModel::Quote(span_models(s@)),
            Block::Rule => BlockModel::Rule,
            Block::Image { src, alt } => BlockModel::Image(src@, alt@),
        }
    }
}

pub open spec fn block_models(v: Seq<Block>) -> Seq<BlockModel> {
    Seq::new(v.len(), |i: int| v[i].model())
}

impl MdTag {
    pub open spec fn model(self) -> TagModel {
        match self {
            MdTag::Heading(n) => TagModel::Heading(n),
            MdTag::CodeBlock => TagModel::CodeBlock,
            MdTag::List => TagModel::List,
            MdTag::Item => TagModel::Item,
            MdTag::BlockQuote => TagModel::BlockQuote,
            MdTag::Strong => TagModel::Strong,
            MdTag::Emphasis => TagModel::Emphasis,
            MdTag::Image(s) => TagModel::Image(s@),
            MdTag::Other => TagModel::Other,
        }
    }
}

impl MdEvent {
    pub open spec fn model(self) -> EventModel {
        match self {
            MdEvent::Start(t) => EventModel::Start(t.model()),
            MdEvent::End(t) => EventModel::End(t),
            MdEvent::Html(s) => EventModel::Html(s@),
            MdEvent::Code(s) => EventModel::Code(s@),
            MdEvent::Text(s) => EventModel::Text(s@),
            MdEvent::SoftBreak => EventModel::SoftBreak,
            MdEvent::HardBreak => EventModel::HardBreak,
            MdEvent::Rule => EventModel::Rule,
            MdEvent::Other => EventModel::Other,
        }
    }
}

pub open spec fn event_models(v: Seq<MdEvent>) -> Seq<EventModel> {
    Seq::new(v.len(), |i: int| v[i].model())
}

/// What a walk over the events has come to.
#[verifier::ext_equal]
pub struct MdState {
    pub out: Seq<BlockModel>,
    /// The inline runs of the block that is being read.
    pub spans: Seq<SpanModel>,
    pub bold: int,
    pub italic: int,
    pub heading: Option<u8>,
    pub in_code: bool,
    pub code: Seq<char>,
    /// The list items that are open, outermost first, and whether each is among the blocks.
    pub items: Seq<bool>,
    pub depth: nat,
    pub quote: bool,
    pub in_image: bool,
    pub img_src: Seq<char>,
    pub img_alt: Seq<char>,
}

impl MdState {
    pub open spec fn start() -> MdState {
        MdState {
            out: Seq::empty(),
            spans: Seq::empty(),
            bold: 0,
            italic: 0,
            heading: None,
            in_code: false,
            code: Seq::empty(),
            items: Seq::empty(),
            depth: 0,
            quote: false,
            in_image: false,
            img_src: Seq::empty(),
            img_alt: Seq::empty(),
        }
    }

    /// One inline run more, unless it is empty.
    pub open spec fn with_text(self, t: Seq<char>, code: bool) -> MdState {
        if t.len() == 0 {
            self
        } else {
            MdState {
                spans: self.spans.push(
                    SpanModel { text: t, bold: self.bold > 0, italic: self.italic > 0, code },
                ),
                ..self
            }
        }
    }

    /// The runs so far made into a block.
    pub open spec fn flushed(self, block: BlockModel) -> MdState {
        MdState { out: self.out.push(block), spans: Seq::empty(), ..self }
    }

    /// The innermost item is among the blocks.
    pub open spec fn item_shown(self) -> bool {
        self.items.len() > 0 && self.items.last()
    }

    /// The runs so far made into a list item, unless there are none and the item is among the
    /// blocks.
    pub open spec fn item_flushed(self) -> MdState {
        if self.item_shown() && self.spans.len() == 0 {
            self
        } else {
            self.flushed(
                BlockModel::ListItem(
                    if self.depth > 1 {
                        self.depth
                    } else {
                        1
                    },
                    self.spans,
                ),
            )
        }
    }

    pub open spec fn begin(self, tag: TagModel) -> MdState {
        match tag {
            TagModel::Heading(n) => MdState { heading: Some(n), ..self },
            TagModel::CodeBlock => MdState { in_code: true, code: Seq::empty(), ..self },
            TagModel::List => if self.items.len() > 0 {
                MdState {
                    items: self.items.drop_last().push(true),
                    depth: self.depth + 1,
                    ..self.item_flushed()
                }
            } else {
                MdState { depth: self.depth + 1, ..self }
            },
            TagModel::Item => MdState { items: self.items.push(false), ..self },
            TagModel::BlockQuote => MdState { quote: true, ..self },
            TagModel::Strong => MdState { bold: self.bold + 1, ..self },
            TagModel::Emphasis => MdState { italic: self.italic + 1, ..self },
            TagModel::Image(src) => MdState {
                in_image: true,
                img_src: src,
                img_alt: Seq::empty(),
                ..self
            },
            TagModel::Other => self,
        }
    }

    pub open spec fn finish(self, tag: MdTagEnd) -> MdState {
        match tag {
            MdTagEnd::Heading => {
                let n = match self.heading {
                    Some(n) => n,
                    None => 1,
                };
                MdState { heading: None, ..self.flushed(BlockModel::Heading(n, self.spans)) }
            },
            MdTagEnd::Paragraph => if self.items.len() > 0 {
                self
            } else if self.quote {
                self.flushed(BlockModel::Quote(self.spans))
            } else if self.spans.len() > 0 {
                self.flushed(BlockModel::Paragraph(self.spans))
            } else {
                self
            },
            MdTagEnd::CodeBlock => MdState {
                in_code: false,
                code: Seq::empty(),
                out: self.out.push(BlockModel::Code(text::trim_end(self.code))),
                ..self
            },
            MdTagEnd::List => MdState {
                depth: if self.depth > 0 {
                    (self.depth - 1) as nat
                } else {
                    0
                },
                ..self
            },
            MdTagEnd::Item => MdState {
                items: if self.items.len() > 0 {
                    self.items.drop_last()
                } else {
                    self.items
                },
                ..self.item_flushed()
            },
            MdTagEnd::BlockQuote => MdState { quote: false, ..self },
            MdTagEnd::Strong => MdState { bold: self.bold - 1, ..self },
            MdTagEnd::Emphasis => MdState { italic: self.italic - 1, ..self },
            MdTagEnd::Image => MdState {
                in_image: false,
                img_src: Seq::empty(),
                img_alt: Seq::empty(),
                out: self.out.push(BlockModel::Image(self.img_src, self.img_alt)),
                ..self
            },
            MdTagEnd::Other => self,
        }
    }

    pub open spec fn step(self, ev: EventModel) -> MdState {
        match ev {
            EventModel::Start(tag) => self.begin(tag),
            EventModel::End(tag) => self.finish(tag),
            EventModel::Html(s) => {
                let imgs = images_from(s, 0);
                MdState {
                    out: self.out + Seq::new(
                        imgs.len(),
                        |i: int| BlockModel::Image(imgs[i].0, imgs[i].1),
                    ),
                    ..self
                }
            },
            EventModel::Code(s) => self.with_text(s, true),
            EventModel::Text(s) => if self.in_code {
                MdState { code: self.code + s, ..self }
            } else if self.in_image {
                MdState { img_alt: self.img_alt + s, ..self }
            } else {
                self.with_text(s, false)
            },
            EventModel::SoftBreak => self.with_text(seq![' '], false),
            EventModel::HardBreak => self.with_text(seq!['\n'], false),
            EventModel::Rule => MdState { out: self.out.push(BlockModel::Rule), ..self },
            EventModel::Other => self,
        }
    }

    pub open spec fn run(events: Seq<EventModel>) -> MdState
        decreases events.len(),
    {
        if events.len() == 0 {
            MdState::start()
        } else {
            MdState::run(events.drop_last()).step(events.last())
        }
    }
}

// ---------------------------------------------------------------------------
// Images in raw HTML
// ---------------------------------------------------------------------------

/// Where `pat` first stands in `s` at or after `from`.
pub open spec fn find_from(s: Seq<char>, pat: Seq<char>, from: int) -> Option<int>
    decreases s.len() + 1 - from,
{
    if from < 0 || from > s.len() {
        None
    } else if text::occurs_at(s, pat, from) {
        Some(from)
    } else {
        find_from(s, pat, from + 1)
    }
}

/// Whether a character may stand right before an attribute's name without being part of it.
pub open spec fn ends_name(c: char) -> bool {
    !(('0' <= c <= '9') || ('A' <= c <= 'Z') || ('a' <= c <= 'z') || c == '-')
}

/// Where an unquoted value ends: at white space, `>` or `/`.
pub open spec fn value_end(s: Seq<char>, i: int) -> int
    decreases s.len() - i,
{
    if i < 0 || i >= s.len() {
        s.len() as int
    } else if text::is_white_space(s[i]) || s[i] == '>' || s[i] == '/' {
        i
    } else {
        value_end(s, i + 1)
    }
}

/// The value at the start of `rest`: quoted, or up to where an unquoted value ends.
pub open spec fn value_of(rest: Seq<char>) -> Option<Seq<char>> {
    if rest.len() == 0 {
        None
    } else if rest[0] == '"' || rest[0] == '\'' {
        match text::first_from(rest.skip(1), rest[0], 0) {
            Some(e) => Some(rest.skip(1).take(e)),
            None => None,
        }
    } else {
        Some(rest.take(value_end(rest, 0)))
    }
}

/// The value of the attribute whose name and equals sign are `key`, looked for from `search`
/// on, without regard to the case of the tag.
pub open spec fn attr_from(tag: Seq<char>, key: Seq<char>, search: int) -> Option<Seq<char>>
    decreases tag.len() - search,
{
    match find_from(text::ascii_lower_all(tag), key, search) {
        None => None,
        Some(at) => if search <= at && key.len() > 0 && at + key.len() <= tag.len() {
            if at == 0 || ends_name(tag[at - 1]) {
                value_of(tag.skip(at + key.len()))
            } else {
                attr_from(tag, key, at + key.len())
            }
        } else {
            None
        },
    }
}

/// The source and the alternative text of an image tag, if it has a source.
pub open spec fn image_in(tag: Seq<char>) -> Option<(Seq<char>, Seq<char>)> {
    match attr_from(tag, "src="@, 0) {
        Some(src) => Some(
            (
                src,
                match attr_from(tag, "alt="@, 0) {
                    Some(alt) => alt,
                    None => Seq::empty(),
                },
            ),
        ),
        None => None,
    }
}

/// The source and the alternative text of every image tag of `html` from `from` on.
pub open spec fn images_from(html: Seq<char>, from: int) -> Seq<(Seq<char>, Seq<char>)>
    decreases html.len() - from,
{
    let lower = text::ascii_lower_all(html);
    match find_from(lower, "<img"@, from) {
        None => Seq::empty(),
        Some(start) => {
            let end = match text::first_from(lower, '>', start) {
                Some(e) => e,
                None => lower.len() as int,
            };
            let next = if end > start + 4 {
                end
            } else {
                start + 4
            };
            if from <= start && from < next <= html.len() {
                let tag = html.subrange(start, end);
                let rest = images_from(html, next);
                match image_in(tag) {
                    Some(p) => seq![p] + rest,
                    None => rest,
                }
            } else {
                Seq::empty()
            }
        },
    }
}

/// Where `pat` first stands in `chars` at or after `from`.
fn find_text(chars: &Vec<char>, pat: &Vec<char>, from: usize) -> (r: Option<usize>)
    requires
        from <= chars@.len(),
    ensures
        match r {
            Some(i) => find_from(chars@, pat@, from as int) == Some(i as int) && from <= i && i
                + pat@.len() <= chars@.len(),
            None => find_from(chars@, pat@, from as int) is None,
        },
{
    let mut i: usize = from;
    loop
        invariant
            from <= i <= chars@.len(),
            find_from(chars@, pat@, i as int) == find_from(chars@, pat@, from as int),
        decreases chars@.len() - i,
    {
        if text::matches_at(chars, pat, i) {
            return Some(i);
        }
        if i == chars.len() {
            proof {
                assert(find_from(chars@, pat@, i + 1) is None);
            }
            return None;
        }
        i += 1;
    }
}

/// The value of the attribute `name` of an HTML tag, without regard to case.
pub fn attr(tag: &str, name: &str) -> (r: Option<String>)
    ensures
        match r {
            Some(v) => attr_from(tag@, name@.push('='), 0) == Some(v@),
            None => attr_from(tag@, name@.push('='), 0) is None,
        },
{
    let chars = text::chars_of(tag);
    let lower = text::chars_of(text::to_ascii_lowercase(tag).as_str());
    let mut key = text::chars_of(name);
    key.push('=');
    let ghost k = name@.push('=');
    let mut search: usize = 0;
    loop
        invariant
            chars@ == tag@,
            lower@ == text::ascii_lower_all(tag@),
            key@ == k,
            k == name@.push('='),
            search <= chars@.len(),
            attr_from(tag@, k, search as int) == attr_from(tag@, k, 0),
        decreases chars@.len() - search,
    {
        let at: usize = match find_text(&lower, &key, search) {
            Some(at) => at,
            None => {
                return None;
            },
        };
        let after: usize = at + key.len();
        if at > 0 && !is_name_end(chars[at - 1]) {
            search = after;
            continue;
        }
        return value_at(&chars, after);
    }
}

fn is_name_end(c: char) -> (r: bool)
    ensures
        r == ends_name(c),
{
    !(('0' <= c && c <= '9') || ('A' <= c && c <= 'Z') || ('a' <= c && c <= 'z') || c == '-')
}

/// The value that starts at `from`.
fn value_at(chars: &Vec<char>, from: usize) -> (r: Option<String>)
    requires
        from <= chars@.len(),
    ensures
        match r {
            Some(v) => value_of(chars@.skip(from as int)) == Some(v@),
            None => value_of(chars@.skip(from as int)) is None,
        },
{
    let ghost rest = chars@.skip(from as int);
    if from == chars.len() {
        return None;
    }
    let quote = chars[from];
    proof {
        assert(rest[0] == quote);
    }
    if quote == '"' || quote == '\'' {
        proof {
            assert(rest.skip(1) =~= chars@.skip(from + 1));
            lemma_first_shift(chars@, rest.skip(1), quote, from + 1, 0);
        }
        return match text::find_char(chars, quote, from + 1) {
            Some(e) => {
                proof {
                    assert(rest.skip(1).take(e - from - 1) =~= chars@.subrange(from + 1, e as int));
                }
                Some(text::substring(chars, from + 1, e))
            },
            None => None,
        };
    }
    let mut e: usize = from;
    while e < chars.len() && !(text::is_whitespace(chars[e]) || chars[e] == '>' || chars[e] == '/')
        invariant
            from <= e <= chars@.len(),
            rest == chars@.skip(from as int),
            value_end(rest, e - from) == value_end(rest, 0),
        decreases chars@.len() - e,
    {
        proof {
            assert(rest[e - from] == chars@[e as int]);
        }
        e += 1;
    }
    proof {
        if e < chars@.len() {
            assert(rest[e - from] == chars@[e as int]);
        }
        assert(rest.take(e - from) =~= chars@.subrange(from as int, e as int));
    }
    Some(text::substring(chars, from, e))
}

/// Looking for a character in the rest of a text.
proof fn lemma_first_shift(s: Seq<char>, t: Seq<char>, c: char, off: int, i: int)
    requires
        0 <= off <= s.len(),
        t == s.skip(off),
        0 <= i,
    ensures
        match text::first_from(s, c, off + i) {
            Some(k) => text::first_from(t, c, i) == Some(k - off),
            None => text::first_from(t, c, i) is None,
        },
    decreases s.len() - off - i,
{
    if i < t.len() && t[i] != c {
        lemma_first_shift(s, t, c, off, i + 1);
    }
}

pub open spec fn pairs_view(v: Seq<(String, String)>) -> Seq<(Seq<char>, Seq<char>)> {
    Seq::new(v.len(), |i: int| (v[i].0@, v[i].1@))
}

/// The source and the alternative text of an image tag, if it has a source.
fn image_of(tag: &str) -> (r: Option<(String, String)>)
    ensures
        match r {
            Some(p) => image_in(tag@) == Some((p.0@, p.1@)),
            None => image_in(tag@) is None,
        },
{
    proof {
        reveal_strlit("src=");
        reveal_strlit("alt=");
        reveal_strlit("src");
        reveal_strlit("alt");
        assert("src"@.push('=') =~= "src="@);
        assert("alt"@.push('=') =~= "alt="@);
    }
    match attr(tag, "src") {
        Some(src) => {
            let alt = match attr(tag, "alt") {
                Some(a) => a,
                None => String::new(),
            };
            Some((src, alt))
        },
        None => None,
    }
}

/// The source and the alternative text of every `<img …>` tag in a chunk of raw HTML.
pub fn extract_imgs(html: &str) -> (r: Vec<(String, String)>)
    ensures
        pairs_view(r@) == images_from(html@, 0),
{
    let chars = text::chars_of(html);
    let lower = text::chars_of(text::to_ascii_lowercase(html).as_str());
    let open = text::chars_of("<img");
    let mut out: Vec<(String, String)> = Vec::new();
    let mut from: usize = 0;
    proof {
        reveal_strlit("<img");
        assert(pairs_view(out@) =~= Seq::<(Seq<char>, Seq<char>)>::empty());
        assert(Seq::<(Seq<char>, Seq<char>)>::empty() + images_from(html@, 0) =~= images_from(html@, 0));
    }
    loop
        invariant
            chars@ == html@,
            lower@ == text::ascii_lower_all(html@),
            open@ == "<img"@,
            "<img"@.len() == 4,
            from <= chars@.len(),
            pairs_view(out@) + images_from(html@, from as int) == images_from(html@, 0),
        decreases chars@.len() - from,
    {
        let start: usize = match find_text(&lower, &open, from) {
            Some(s) => s,
            None => {
                proof {
                    assert(pairs_view(out@) + Seq::<(Seq<char>, Seq<char>)>::empty() =~= pairs_view(out@));
                }
                return out;
            },
        };
        let end: usize = match text::find_char(&lower, '>', start) {
            Some(e) => e,
            None => lower.len(),
        };
        let next: usize = if end > start + 4 {
            end
        } else {
            start + 4
        };
        let tag = text::substring(&chars, start, end);
        let ghost before = pairs_view(out@);
        let ghost rest = images_from(html@, next as int);
        proof {
            assert(tag@ == html@.subrange(start as int, end as int));
        }
        if let Some((src, alt)) = image_of(tag.as_str()) {
            let ghost p = (src@, alt@);
            out.push((src, alt));
            proof {
                assert(pairs_view(out@) =~= before.push(p));
                assert(before.push(p) + rest =~= before + (seq![p] + rest));
            }
        }
        from = next;
    }
}

// ---------------------------------------------------------------------------
// The parser
// ---------------------------------------------------------------------------

#[verifier::external_type_specification]
#[verifier::external_body]
pub struct ExTag<'a>(Tag<'a>);

#[verifier::external_type_specification]
#[verifier::external_body]
pub struct ExTagEnd(TagEnd);

/// An event whose tag is still that of the parser.
enum RawEvent<'a> {
    Start(Tag<'a>),
    End(TagEnd),
    Leaf(MdEvent),
}

/// The events of a Markdown source.
pub uninterp spec fn markdown_events(src: Seq<char>) -> Seq<EventModel>;

/// What starts with a tag.
pub uninterp spec fn tag_kind(tag: Tag<'_>) -> TagModel;

/// What ends with a tag.
pub uninterp spec fn tag_end_kind(tag: TagEnd) -> MdTagEnd;

impl<'a> RawEvent<'a> {
    spec fn model(self) -> EventModel {
        match self {
            RawEvent::Start(t) => EventModel::Start(tag_kind(t)),
            RawEvent::End(t) => EventModel::End(tag_end_kind(t)),
            RawEvent::Leaf(e) => e.model(),
        }
    }
}

spec fn raw_models(v: Seq<RawEvent<'_>>) -> Seq<EventModel> {
    Seq::new(v.len(), |i: int| v[i].model())
}

/// The variants of `pulldown_cmark::Tag`, told apart, with the level of a heading and the
/// address of an image.
#[verifier::external_body]
fn tag_of(tag: &Tag<'_>) -> (r: MdTag)
    ensures
        r.model() == tag_kind(*tag),
{
    match tag {
        Tag::Heading { level, .. } => MdTag::Heading(*level as u8),
        Tag::CodeBlock(_) => MdTag::CodeBlock,
        Tag::List(_) => MdTag::List,
        Tag::Item => MdTag::Item,
        Tag::BlockQuote(_) => MdTag::BlockQuote,
        Tag::Strong => MdTag::Strong,
        Tag::Emphasis => MdTag::Emphasis,
        Tag::Image { dest_url, .. } => MdTag::Image(dest_url.to_string()),
        _ => MdTag::Other,
    }
}

/// The variants of `pulldown_cmark::TagEnd`, told apart.
#[verifier::external_body]
fn tag_end_of(tag: &TagEnd) -> (r: MdTagEnd)
    ensures
        r == tag_end_kind(*tag),
{
    match tag {
        TagEnd::Heading(_) => MdTagEnd::Heading,
        TagEnd::Paragraph => MdTagEnd::Paragraph,
        TagEnd::CodeBlock => MdTagEnd::CodeBlock,
        TagEnd::List(_) => MdTagEnd::List,
        TagEnd::Item => MdTagEnd::Item,
        TagEnd::BlockQuote(_) => MdTagEnd::BlockQuote,
        TagEnd::Strong => MdTagEnd::Strong,
        TagEnd::Emphasis => MdTagEnd::Emphasis,
        TagEnd::Image => MdTagEnd::Image,
        _ => MdTagEnd::Other,
    }
}

/// `pulldown_cmark::Parser::new` and the events that it yields, with the default options.
///
/// Claimed: the events depend on the source alone.
#[verifier::external_body]
fn parse_events(src: &str) -> (r: Vec<RawEvent<'_>>)
    ensures
        raw_models(r@) == markdown_events(src@),
{
    let event_of = |event| match event {
        Event::Start(tag) => RawEvent::Start(tag),
        Event::End(tag) => RawEvent::End(tag),
        Event::Html(s) => RawEvent::Leaf(MdEvent::Html(s.to_string())),
        Event::InlineHtml(s) => RawEvent::Leaf(MdEvent::Html(s.to_string())),
        Event::Code(s) => RawEvent::Leaf(MdEvent::Code(s.to_string())),
        Event::Text(s) => RawEvent::Leaf(MdEvent::Text(s.to_string())),
        Event::SoftBreak => RawEvent::Leaf(MdEvent::SoftBreak),
        Event::HardBreak => RawEvent::Leaf(MdEvent::HardBreak),
        Event::Rule => RawEvent::Leaf(MdEvent::Rule),
        _ => RawEvent::Leaf(MdEvent::Other),
    };
    Parser::new(src).map(event_of).collect()
}

/// The walk over the events.
struct Walk {
    out: Vec<Block>,
    spans: Vec<Span>,
    bold: i128,
    italic: i128,
    heading: Option<u8>,
    in_code: bool,
    code: String,
    items: Vec<bool>,
    depth: usize,
    quote: bool,
    in_image: bool,
    img_src: String,
    img_alt: String,
}

impl Walk {
    spec fn model(self) -> MdState {
        MdState {
            out: block_models(self.out@),
            spans: span_models(self.spans@),
            bold: self.bold as int,
            italic: self.italic as int,
            heading: self.heading,
            in_code: self.in_code,
            code: self.code@,
            items: self.items@,
            depth: self.depth as nat,
            quote: self.quote,
            in_image: self.in_image,
            img_src: self.img_src@,
            img_alt: self.img_alt@,
        }
    }

    /// The counters are at most `n` away from 0.
    spec fn within(self, n: int) -> bool {
        -n <= self.bold <= n && -n <= self.italic <= n && self.depth <= n
    }

    fn new() -> (r: Self)
        ensures
            r.model() == MdState::start(),
            r.within(0),
    {
        let r = Walk {
            out: Vec::new(),
            spans: Vec::new(),
            bold: 0,
            italic: 0,
            heading: None,
            in_code: false,
            code: String::new(),
            items: Vec::new(),
            depth: 0,
            quote: false,
            in_image: false,
            img_src: String::new(),
            img_alt: String::new(),
        };
        proof {
            assert(block_models(r.out@) =~= Seq::<BlockModel>::empty());
            assert(span_models(r.spans@) =~= Seq::<SpanModel>::empty());
            assert(r.items@ =~= Seq::<bool>::empty());
        }
        r
    }

    /// The runs so far, which start anew.
    fn take_spans(&mut self) -> (r: Vec<Span>)
        ensures
            span_models(r@) == old(self).model().spans,
            final(self).model() == (MdState { spans: Seq::empty(), ..old(self).model() }),
    {
        let mut taken: Vec<Span> = Vec::new();
        std::mem::swap(&mut taken, &mut self.spans);
        proof {
            assert(span_models(self.spans@) =~= Seq::<SpanModel>::empty());
        }
        taken
    }

    /// One block more.
    fn emit(&mut self, block: Block)
        ensures
            final(self).model() == (MdState {
                out: old(self).model().out.push(block.model()),
                ..old(self).model()
            }),
    {
        let ghost before = block_models(self.out@);
        let ghost m = block.model();
        self.out.push(block);
        proof {
            assert(block_models(self.out@) =~= before.push(m));
        }
    }

    /// One inline run more, unless it is empty.
    fn push_text(&mut self, t: &str, code: bool)
        ensures
            final(self).model() == old(self).model().with_text(t@, code),
    {
        if t.is_empty() {
            return;
        }
        let ghost before = span_models(self.spans@);
        let span = Span {
            text: t.to_owned(),
            bold: self.bold > 0,
            italic: self.italic > 0,
            code,
        };
        let ghost m = span.model();
        self.spans.push(span);
        proof {
            assert(span_models(self.spans@) =~= before.push(m));
        }
    }

    /// The runs so far as a list item, unless there are none and the item is among the blocks.
    fn flush_item(&mut self)
        ensures
            final(self).model() == old(self).model().item_flushed(),
    {
        let shown = self.items.len() > 0 && self.items[self.items.len() - 1];
        if shown && self.spans.len() == 0 {
            return;
        }
        let depth: usize = if self.depth > 1 {
            self.depth
        } else {
            1
        };
        let spans = self.take_spans();
        self.emit(Block::ListItem(depth, spans));
    }

    fn begin(&mut self, tag: &MdTag, n: Ghost<int>)
        requires
            old(self).within(n@),
            n@ < usize::MAX,
        ensures
            final(self).model() == old(self).model().begin(tag.model()),
            final(self).within(n@ + 1),
    {
        match tag {
            MdTag::Heading(level) => {
                self.heading = Some(*level);
            },
            MdTag::CodeBlock => {
                self.in_code = true;
                self.code = String::new();
            },
            MdTag::List => {
                if self.items.len() > 0 {
                    self.flush_item();
                    self.items.pop();
                    self.items.push(true);
                }
                self.depth = self.depth + 1;
            },
            MdTag::Item => {
                self.items.push(false);
            },
            MdTag::BlockQuote => {
                self.quote = true;
            },
            MdTag::Strong => {
                self.bold = self.bold + 1;
            },
            MdTag::Emphasis => {
                self.italic = self.italic + 1;
            },
            MdTag::Image(src) => {
                self.in_image = true;
                self.img_src = src.clone();
                self.img_alt = String::new();
            },
            MdTag::Other => {},
        }
    }

    fn finish(&mut self, tag: MdTagEnd, n: Ghost<int>)
        requires
            old(self).within(n@),
            n@ < usize::MAX,
        ensures
            final(self).model() == old(self).model().finish(tag),
            final(self).within(n@ + 1),
    {
        match tag {
            MdTagEnd::Heading => {
                let level: u8 = match self.heading {
                    Some(level) => level,
                    None => 1,
                };
                self.heading = None;
                let spans = self.take_spans();
                self.emit(Block::Heading(level, spans));
            },
            MdTagEnd::Paragraph => {
                if self.items.len() > 0 {
                } else if self.quote {
                    let spans = self.take_spans();
                    self.emit(Block::Quote(spans));
                } else if self.spans.len() > 0 {
                    let spans = self.take_spans();
                    self.emit(Block::Paragraph(spans));
                }
            },
            MdTagEnd::CodeBlock => {
                self.in_code = false;
                let code = text::trim_end_str(self.code.as_str());
                self.code = String::new();
                self.emit(Block::Code(code));
            },
            MdTagEnd::List => {
                if self.depth > 0 {
                    self.depth = self.depth - 1;
                }
            },
            MdTagEnd::Item => {
                self.flush_item();
                self.items.pop();
            },
            MdTagEnd::BlockQuote => {
                self.quote = false;
            },
            MdTagEnd::Strong => {
                self.bold = self.bold - 1;
            },
            MdTagEnd::Emphasis => {
                self.italic = self.italic - 1;
            },
            MdTagEnd::Image => {
                self.in_image = false;
                let src = self.img_src.clone();
                let alt = self.img_alt.clone();
                self.img_src = String::new();
                self.img_alt = String::new();
                self.emit(Block::Image { src, alt });
            },
            MdTagEnd::Other => {},
        }
    }

    /// The images of a chunk of raw HTML.
    fn push_images(&mut self, html: &str)
        ensures
            final(self).model() == old(self).model().step(EventModel::Html(html@)),
    {
        let imgs = extract_imgs(html);
        let ghost im = images_from(html@, 0);
        let ghost before = self.model();
        let ghost blocks = Seq::new(im.len(), |i: int| BlockModel::Image(im[i].0, im[i].1));
        let mut i: usize = 0;
        proof {
            assert(before.out + blocks.take(0) =~= before.out);
        }
        while i < imgs.len()
            invariant
                i <= imgs@.len(),
                im == pairs_view(imgs@),
                blocks == Seq::new(im.len(), |i: int| BlockModel::Image(im[i].0, im[i].1)),
                self.model() == (MdState { out: before.out + blocks.take(i as int), ..before }),
            decreases imgs@.len() - i,
        {
            let src = imgs[i].0.clone();
            let alt = imgs[i].1.clone();
            self.emit(Block::Image { src, alt });
            proof {
                assert(blocks[i as int] == BlockModel::Image(src@, alt@));
                assert((before.out + blocks.take(i as int)).push(blocks[i as int]) =~= before.out
                    + blocks.take(i + 1));
            }
            i += 1;
        }
        proof {
            assert(blocks.take(blocks.len() as int) =~= blocks);
        }
    }

    fn step(&mut self, ev: &MdEvent, n: Ghost<int>)
        requires
            old(self).within(n@),
            0 <= n@ < usize::MAX,
        ensures
            final(self).model() == old(self).model().step(ev.model()),
            final(self).within(n@ + 1),
    {
        match ev {
            MdEvent::Start(tag) => self.begin(tag, n),
            MdEvent::End(tag) => self.finish(*tag, n),
            MdEvent::Html(s) => self.push_images(s.as_str()),
            MdEvent::Code(s) => self.push_text(s.as_str(), true),
            MdEvent::Text(s) => {
                if self.in_code {
                    self.code.append(s.as_str());
                } else if self.in_image {
                    self.img_alt.append(s.as_str());
                } else {
                    self.push_text(s.as_str(), false);
                }
            },
            MdEvent::SoftBreak => {
                proof {
                    reveal_strlit(" ");
                    assert(" "@ =~= seq![' ']);
                }
                self.push_text(" ", false);
            },
            MdEvent::HardBreak => {
                proof {
                    reveal_strlit("\n");
                    assert("\n"@ =~= seq!['\n']);
                }
                self.push_text("\n", false);
            },
            MdEvent::Rule => self.emit(Block::Rule),
            MdEvent::Other => {},
        }
    }
}

/// The blocks that a run of events amounts to.
pub fn blocks_of(events: &Vec<MdEvent>) -> (r: Vec<Block>)
    ensures
        block_models(r@) == MdState::run(event_models(events@)).out,
{
    let mut walk = Walk::new();
    let ghost es = event_models(events@);
    let mut i: usize = 0;
    while i < events.len()
        invariant
            i <= events@.len(),
            es == event_models(events@),
            walk.model() == MdState::run(es.take(i as int)),
            walk.within(i as int),
        decreases events@.len() - i,
    {
        proof {
            assert(es.take(i + 1).drop_last() =~= es.take(i as int));
            assert(es.take(i + 1).last() == events@[i as int].model());
        }
        walk.step(&events[i], Ghost(i as int));
        i += 1;
    }
    proof {
        assert(es.take(es.len() as int) =~= es);
    }
    walk.out
}

/// The blocks of a Markdown source.
pub fn parse(src: &str) -> (r: Vec<Block>)
    ensures
        block_models(r@) == MdState::run(markdown_events(src@)).out,
{
    let events = parse_events(src);
    let mut walk = Walk::new();
    let ghost es = markdown_events(src@);
    let mut i: usize = 0;
    while i < events.len()
        invariant
            i <= events@.len(),
            es == raw_models(events@),
            walk.model() == MdState::run(es.take(i as int)),
            walk.within(i as int),
        decreases events@.len() - i,
    {
        proof {
            assert(es.take(i + 1).drop_last() =~= es.take(i as int));
            assert(es.take(i + 1).last() == events@[i as int].model());
        }
        match &events[i] {
            RawEvent::Start(tag) => walk.step(&MdEvent::Start(tag_of(tag)), Ghost(i as int)),
            RawEvent::End(tag) => walk.step(&MdEvent::End(tag_end_of(tag)), Ghost(i as int)),
            RawEvent::Leaf(event) => walk.step(event, Ghost(i as int)),
        }
        i += 1;
    }
    proof {
        assert(es.take(es.len() as int) =~= es);
    }
    walk.out
}

/// The runs of a text: one, or none if the text is empty.
pub open spec fn plain_runs(t: Seq<char>) -> Seq<SpanModel> {
    if t.len() == 0 {
        Seq::empty()
    } else {
        seq![SpanModel { text: t, bold: false, italic: false, code: false }]
    }
}

/// A list in a list item: the outer item holds its own text and comes before the inner one,
/// which holds its own and is one deeper.
pub proof fn lemma_nested_list(outer: Seq<char>, inner: Seq<char>)
    ensures
        MdState::run(
            seq![
                EventModel::Start(TagModel::List),
                EventModel::Start(TagModel::Item),
                EventModel::Text(outer),
                EventModel::Start(TagModel::List),
                EventModel::Start(TagModel::Item),
                EventModel::Text(inner),
                EventModel::End(MdTagEnd::Item),
                EventModel::End(MdTagEnd::List),
                EventModel::End(MdTagEnd::Item),
                EventModel::End(MdTagEnd::List),
            ],
        ).out == seq![
            BlockModel::ListItem(1, plain_runs(outer)),
            BlockModel::ListItem(2, plain_runs(inner)),
        ],
{
    let start = MdState::start();
    let e0 = Seq::<EventModel>::empty();
    let e1 = e0.push(EventModel::Start(TagModel::List));
    let e2 = e1.push(EventModel::Start(TagModel::Item));
    let e3 = e2.push(EventModel::Text(outer));
    let e4 = e3.push(EventModel::Start(TagModel::List));
    let e5 = e4.push(EventModel::Start(TagModel::Item));
    let e6 = e5.push(EventModel::Text(inner));
    let e7 = e6.push(EventModel::End(MdTagEnd::Item));
    let e8 = e7.push(EventModel::End(MdTagEnd::List));
    let e9 = e8.push(EventModel::End(MdTagEnd::Item));
    let e10 = e9.push(EventModel::End(MdTagEnd::List));
    let one = seq![BlockModel::ListItem(1, plain_runs(outer))];
    let both = one.push(BlockModel::ListItem(2, plain_runs(inner)));
    let s2 = MdState { depth: 1, items: seq![false], ..start };
    let s4 = MdState { depth: 2, items: seq![true], out: one, ..start };
    let s6 = MdState { items: seq![true, false], spans: plain_runs(inner), ..s4 };
    let s7 = MdState { out: both, ..s4 };
    assert(MdState::run(e2) =~= s2) by {
        lemma_run_push(e0, EventModel::Start(TagModel::List));
        lemma_run_push(e1, EventModel::Start(TagModel::Item));
    }
    assert(MdState::run(e3) =~= (MdState { spans: plain_runs(outer), ..s2 })) by {
        lemma_run_push(e2, EventModel::Text(outer));
    }
    assert(MdState::run(e4) =~= s4) by {
        lemma_run_push(e3, EventModel::Start(TagModel::List));
    }
    assert(MdState::run(e6) =~= s6) by {
        lemma_run_push(e4, EventModel::Start(TagModel::Item));
        lemma_run_push(e5, EventModel::Text(inner));
    }
    assert(MdState::run(e7) =~= s7) by {
        lemma_run_push(e6, EventModel::End(MdTagEnd::Item));
    }
    assert(MdState::run(e8) =~= (MdState { depth: 1, ..s7 })) by {
        lemma_run_push(e7, EventModel::End(MdTagEnd::List));
    }
    assert(MdState::run(e10).out =~= both) by {
        lemma_run_push(e8, EventModel::End(MdTagEnd::Item));
        lemma_run_push(e9, EventModel::End(MdTagEnd::List));
    }
    assert(e10 =~= seq![
        EventModel::Start(TagModel::List),
        EventModel::Start(TagModel::Item),
        EventModel::Text(outer),
        EventModel::Start(TagModel::List),
        EventModel::Start(TagModel::Item),
        EventModel::Text(inner),
        EventModel::End(MdTagEnd::Item),
        EventModel::End(MdTagEnd::List),
        EventModel::End(MdTagEnd::Item),
        EventModel::End(MdTagEnd::List),
    ]);
}

proof fn lemma_run_push(es: Seq<EventModel>, e: EventModel)
    ensures
        MdState::run(es.push(e)) == MdState::run(es).step(e),
{
    assert(es.push(e).drop_last() =~= es);
}

/// A run of text in a block is never empty, and neither is a paragraph.
pub open spec fn runs_filled(s: Seq<SpanModel>) -> bool {
    forall|i: int| 0 <= i < s.len() ==> (#[trigger] s[i]).text.len() > 0
}

pub open spec fn block_filled(b: BlockModel) -> bool {
    match b {
        BlockModel::Heading(_, s) => runs_filled(s),
        BlockModel::Paragraph(s) => s.len() > 0 && runs_filled(s),
        BlockModel::ListItem(d, s) => d >= 1 && runs_filled(s),
        BlockModel::Quote(s) => runs_filled(s),
        _ => true,
    }
}

/// No block holds an empty run of text, no paragraph is empty, and list depths start at 1.
pub proof fn lemma_blocks_filled(events: Seq<EventModel>)
    ensures
        forall|i: int|
            0 <= i < MdState::run(events).out.len() ==> block_filled(
                #[trigger] MdState::run(events).out[i],
            ),
        runs_filled(MdState::run(events).spans),
    decreases events.len(),
{
    if events.len() > 0 {
        lemma_blocks_filled(events.drop_last());
        let p = MdState::run(events.drop_last());
        let s = MdState::run(events);
        assert(s == p.step(events.last()));
        assert forall|i: int| 0 <= i < s.out.len() implies block_filled(#[trigger] s.out[i]) by {
            if i < p.out.len() {
                assert(s.out[i] == p.out[i]);
            }
        }
        assert forall|i: int| 0 <= i < s.spans.len() implies (#[trigger] s.spans[i]).text.len()
            > 0 by {
            if i < p.spans.len() {
                assert(s.spans[i] == p.spans[i]);
            }
        }
    }
}

// ---------------------------------------------------------------------------
// What a reader sees of the events
// ---------------------------------------------------------------------------

/// The text of the runs, one after the other.
pub open spec fn runs_text(s: Seq<SpanModel>) -> Seq<char>
    decreases s.len(),
{
    if s.len() == 0 {
        Seq::empty()
    } else {
        runs_text(s.drop_last()) + s.last().text
    }
}

/// A run of text with its emphasis.
pub open spec fn styled(t: Seq<char>, bold: bool, italic: bool, code: bool) -> SpanModel {
    SpanModel { text: t, bold, italic, code }
}

/// The walk is between blocks: nothing is open and no text waits for its block.
pub open spec fn between_blocks(s: MdState) -> bool {
    &&& s.spans.len() == 0
    &&& s.bold == 0
    &&& s.italic == 0
    &&& s.heading is None
    &&& !s.in_code
    &&& s.code.len() == 0
    &&& s.items.len() == 0
    &&& s.depth == 0
    &&& !s.quote
    &&& !s.in_image
    &&& s.img_src.len() == 0
    &&& s.img_alt.len() == 0
}

/// Inline events put their text behind the text that waits for its block: a break within a
/// paragraph is a space, a hard one a line feed, and marks of emphasis are no text.
pub proof fn lemma_inline_text(s: MdState, t: Seq<char>)
    requires
        !s.in_code,
        !s.in_image,
    ensures
        runs_text(s.step(EventModel::Text(t)).spans) == runs_text(s.spans) + t,
        runs_text(s.step(EventModel::Code(t)).spans) == runs_text(s.spans) + t,
        runs_text(s.step(EventModel::SoftBreak).spans) == runs_text(s.spans).push(' '),
        runs_text(s.step(EventModel::HardBreak).spans) == runs_text(s.spans).push('\n'),
        s.step(EventModel::Start(TagModel::Strong)).spans == s.spans,
        s.step(EventModel::End(MdTagEnd::Strong)).spans == s.spans,
        s.step(EventModel::Start(TagModel::Emphasis)).spans == s.spans,
        s.step(EventModel::End(MdTagEnd::Emphasis)).spans == s.spans,
        s.step(EventModel::Text(t)).out == s.out,
        s.step(EventModel::Code(t)).out == s.out,
        s.step(EventModel::SoftBreak).out == s.out,
        s.step(EventModel::HardBreak).out == s.out,
        s.step(EventModel::Other) == s,
{
    lemma_with_text(s, t, false);
    lemma_with_text(s, t, true);
    lemma_with_text(s, seq![' '], false);
    lemma_with_text(s, seq!['\n'], false);
    assert(runs_text(s.spans) + seq![' '] =~= runs_text(s.spans).push(' '));
    assert(runs_text(s.spans) + seq!['\n'] =~= runs_text(s.spans).push('\n'));
}

proof fn lemma_with_text(s: MdState, t: Seq<char>, code: bool)
    ensures
        runs_text(s.with_text(t, code).spans) == runs_text(s.spans) + t,
{
    if t.len() == 0 {
        assert(runs_text(s.spans) + t =~= runs_text(s.spans));
    } else {
        let r = s.with_text(t, code).spans;
        assert(r.drop_last() =~= s.spans);
        assert(r.last().text == t);
    }
}

/// Two lines of a paragraph are one paragraph, with a space between them, or a line feed where
/// the break is a hard one; and the walk is between blocks again.
pub proof fn lemma_paragraph_text(es: Seq<EventModel>, a: Seq<char>, b: Seq<char>)
    requires
        between_blocks(MdState::run(es)),
        a.len() > 0,
        b.len() > 0,
    ensures
        ({
            let r = MdState::run(
                es.push(EventModel::Text(a)).push(EventModel::SoftBreak).push(
                    EventModel::Text(b),
                ).push(EventModel::End(MdTagEnd::Paragraph)),
            );
            &&& r.out.len() == MdState::run(es).out.len() + 1
            &&& r.out.drop_last() == MdState::run(es).out
            &&& r.out.last() matches BlockModel::Paragraph(runs) && runs_text(runs) == a + seq![' ']
                + b && (forall|i: int|
                0 <= i < runs.len() ==> !(#[trigger] runs[i]).bold && !runs[i].italic
                    && !runs[i].code)
            &&& between_blocks(r)
        }),
        ({
            let r = MdState::run(
                es.push(EventModel::Text(a)).push(EventModel::HardBreak).push(
                    EventModel::Text(b),
                ).push(EventModel::End(MdTagEnd::Paragraph)),
            );
            &&& r.out.len() == MdState::run(es).out.len() + 1
            &&& r.out.drop_last() == MdState::run(es).out
            &&& r.out.last() matches BlockModel::Paragraph(runs) && runs_text(runs) == a + seq![
                '\n',
            ] + b
            &&& between_blocks(r)
        }),
{
    let s = MdState::run(es);
    let e1 = es.push(EventModel::Text(a));
    let e2 = e1.push(EventModel::SoftBreak);
    let e3 = e2.push(EventModel::Text(b));
    let h2 = e1.push(EventModel::HardBreak);
    let h3 = h2.push(EventModel::Text(b));
    lemma_run_push(es, EventModel::Text(a));
    lemma_run_push(e1, EventModel::SoftBreak);
    lemma_run_push(e2, EventModel::Text(b));
    lemma_run_push(e3, EventModel::End(MdTagEnd::Paragraph));
    lemma_run_push(e1, EventModel::HardBreak);
    lemma_run_push(h2, EventModel::Text(b));
    lemma_run_push(h3, EventModel::End(MdTagEnd::Paragraph));
    assert(runs_text(s.spans) =~= Seq::<char>::empty());
    lemma_inline_text(s, a);
    lemma_inline_text(MdState::run(e1), a);
    lemma_inline_text(MdState::run(e2), b);
    lemma_inline_text(MdState::run(h2), b);
    assert(runs_text(s.spans) + a =~= a);
    assert(a.push(' ') =~= a + seq![' ']);
    assert(a.push('\n') =~= a + seq!['\n']);
    let r = MdState::run(e3.push(EventModel::End(MdTagEnd::Paragraph)));
    let h = MdState::run(h3.push(EventModel::End(MdTagEnd::Paragraph)));
    assert(r.out.drop_last() =~= s.out);
    assert(h.out.drop_last() =~= s.out);
}

/// The same from the start of a document.
pub proof fn lemma_soft_break_is_space(a: Seq<char>, b: Seq<char>)
    requires
        a.len() > 0,
        b.len() > 0,
    ensures
        ({
            let out = MdState::run(
                seq![
                    EventModel::Text(a),
                    EventModel::SoftBreak,
                    EventModel::Text(b),
                    EventModel::End(MdTagEnd::Paragraph),
                ],
            ).out;
            out.len() == 1 && out[0] is Paragraph && runs_text(out[0]->Paragraph_0) == a + seq![' ']
                + b
        }),
{
    let e = Seq::<EventModel>::empty();
    lemma_paragraph_text(e, a, b);
    assert(seq![
        EventModel::Text(a),
        EventModel::SoftBreak,
        EventModel::Text(b),
        EventModel::End(MdTagEnd::Paragraph),
    ] =~= e.push(EventModel::Text(a)).push(EventModel::SoftBreak).push(EventModel::Text(b)).push(
        EventModel::End(MdTagEnd::Paragraph),
    ));
}

/// Emphasis holds from its start to its end, and for nothing else: of the three runs the middle
/// one alone is bold, or italic, or code.
pub proof fn lemma_emphasis(es: Seq<EventModel>, a: Seq<char>, b: Seq<char>, c: Seq<char>)
    requires
        between_blocks(MdState::run(es)),
        a.len() > 0,
        b.len() > 0,
        c.len() > 0,
    ensures
        MdState::run(
            es.push(EventModel::Text(a)).push(EventModel::Start(TagModel::Strong)).push(
                EventModel::Text(b),
            ).push(EventModel::End(MdTagEnd::Strong)).push(EventModel::Text(c)).push(
                EventModel::End(MdTagEnd::Paragraph),
            ),
        ).out == MdState::run(es).out.push(
            BlockModel::Paragraph(
                seq![
                    styled(a, false, false, false),
                    styled(b, true, false, false),
                    styled(c, false, false, false),
                ],
            ),
        ),
        MdState::run(
            es.push(EventModel::Text(a)).push(EventModel::Start(TagModel::Emphasis)).push(
                EventModel::Text(b),
            ).push(EventModel::End(MdTagEnd::Emphasis)).push(EventModel::Text(c)).push(
                EventModel::End(MdTagEnd::Paragraph),
            ),
        ).out == MdState::run(es).out.push(
            BlockModel::Paragraph(
                seq![
                    styled(a, false, false, false),
                    styled(b, false, true, false),
                    styled(c, false, false, false),
                ],
            ),
        ),
        MdState::run(
            es.push(EventModel::Text(a)).push(EventModel::Code(b)).push(EventModel::Text(c)).push(
                EventModel::End(MdTagEnd::Paragraph),
            ),
        ).out == MdState::run(es).out.push(
            BlockModel::Paragraph(
                seq![
                    styled(a, false, false, false),
                    styled(b, false, false, true),
                    styled(c, false, false, false),
                ],
            ),
        ),
{
    lemma_three_runs(
        es,
        a,
        EventModel::Start(TagModel::Strong),
        b,
        EventModel::End(MdTagEnd::Strong),
        c,
    );
    lemma_three_runs(
        es,
        a,
        EventModel::Start(TagModel::Emphasis),
        b,
        EventModel::End(MdTagEnd::Emphasis),
        c,
    );
    lemma_code_run(es, a, b, c);
}

proof fn lemma_three_runs(
    es: Seq<EventModel>,
    a: Seq<char>,
    on: EventModel,
    b: Seq<char>,
    off: EventModel,
    c: Seq<char>,
)
    requires
        between_blocks(MdState::run(es)),
        a.len() > 0,
        b.len() > 0,
        c.len() > 0,
        on == EventModel::Start(TagModel::Strong) && off == EventModel::End(MdTagEnd::Strong) || on
            == EventModel::Start(TagModel::Emphasis) && off == EventModel::End(MdTagEnd::Emphasis),
    ensures
        MdState::run(
            es.push(EventModel::Text(a)).push(on).push(EventModel::Text(b)).push(off).push(
                EventModel::Text(c),
            ).push(EventModel::End(MdTagEnd::Paragraph)),
        ).out == MdState::run(es).out.push(
            BlockModel::Paragraph(
                seq![
                    styled(a, false, false, false),
                    styled(
                        b,
                        on == EventModel::Start(TagModel::Strong),
                        on == EventModel::Start(TagModel::Emphasis),
                        false,
                    ),
                    styled(c, false, false, false),
                ],
            ),
        ),
{
    let s = MdState::run(es);
    let strong = on == EventModel::Start(TagModel::Strong);
    let x = styled(a, false, false, false);
    let y = styled(b, strong, !strong, false);
    let z = styled(c, false, false, false);
    let e1 = es.push(EventModel::Text(a));
    let e2 = e1.push(on);
    let e3 = e2.push(EventModel::Text(b));
    let e4 = e3.push(off);
    let e5 = e4.push(EventModel::Text(c));
    let s1 = MdState { spans: seq![x], ..s };
    let s3 = MdState { spans: seq![x, y], ..s };
    let s5 = MdState { spans: seq![x, y, z], ..s };
    assert(MdState::run(e1) == s1) by {
        lemma_run_push(es, EventModel::Text(a));
        assert(s.spans.push(x) =~= seq![x]);
    }
    assert(MdState::run(e4) == s3) by {
        lemma_run_push(e1, on);
        lemma_run_push(e2, EventModel::Text(b));
        lemma_run_push(e3, off);
        assert(seq![x].push(y) =~= seq![x, y]);
    }
    assert(MdState::run(e5) == s5) by {
        lemma_run_push(e4, EventModel::Text(c));
        assert(seq![x, y].push(z) =~= seq![x, y, z]);
    }
    lemma_run_push(e5, EventModel::End(MdTagEnd::Paragraph));
}

proof fn lemma_code_run(es: Seq<EventModel>, a: Seq<char>, b: Seq<char>, c: Seq<char>)
    requires
        between_blocks(MdState::run(es)),
        a.len() > 0,
        b.len() > 0,
        c.len() > 0,
    ensures
        MdState::run(
            es.push(EventModel::Text(a)).push(EventModel::Code(b)).push(EventModel::Text(c)).push(
                EventModel::End(MdTagEnd::Paragraph),
            ),
        ).out == MdState::run(es).out.push(
            BlockModel::Paragraph(
                seq![
                    styled(a, false, false, false),
                    styled(b, false, false, true),
                    styled(c, false, false, false),
                ],
            ),
        ),
{
    let s = MdState::run(es);
    let x = styled(a, false, false, false);
    let y = styled(b, false, false, true);
    let z = styled(c, false, false, false);
    let e1 = es.push(EventModel::Text(a));
    let e2 = e1.push(EventModel::Code(b));
    let e3 = e2.push(EventModel::Text(c));
    let s1 = MdState { spans: seq![x], ..s };
    let s2 = MdState { spans: seq![x, y], ..s };
    let s3 = MdState { spans: seq![x, y, z], ..s };
    assert(MdState::run(e1) == s1) by {
        lemma_run_push(es, EventModel::Text(a));
        assert(s.spans.push(x) =~= seq![x]);
    }
    assert(MdState::run(e2) == s2) by {
        lemma_run_push(e1, EventModel::Code(b));
        assert(seq![x].push(y) =~= seq![x, y]);
    }
    assert(MdState::run(e3) == s3) by {
        lemma_run_push(e2, EventModel::Text(c));
        assert(seq![x, y].push(z) =~= seq![x, y, z]);
    }
    lemma_run_push(e3, EventModel::End(MdTagEnd::Paragraph));
}

/// A heading keeps its level, a quote is a quote up to its end, a rule is a rule, and the walk
/// goes on between blocks.
pub proof fn lemma_plain_blocks(es: Seq<EventModel>, n: u8, a: Seq<char>)
    requires
        between_blocks(MdState::run(es)),
        a.len() > 0,
    ensures
        ({
            let r = MdState::run(
                es.push(EventModel::Start(TagModel::Heading(n))).push(EventModel::Text(a)).push(
                    EventModel::End(MdTagEnd::Heading),
                ),
            );
            &&& r.out == MdState::run(es).out.push(BlockModel::Heading(n, plain_runs(a)))
            &&& between_blocks(r)
        }),
        ({
            let r = MdState::run(
                es.push(EventModel::Start(TagModel::BlockQuote)).push(EventModel::Text(a)).push(
                    EventModel::End(MdTagEnd::Paragraph),
                ).push(EventModel::End(MdTagEnd::BlockQuote)),
            );
            &&& r.out == MdState::run(es).out.push(BlockModel::Quote(plain_runs(a)))
            &&& between_blocks(r)
        }),
        ({
            let r = MdState::run(es.push(EventModel::Rule));
            &&& r.out == MdState::run(es).out.push(BlockModel::Rule)
            &&& between_blocks(r)
        }),
{
    let s = MdState::run(es);
    let none = Seq::<SpanModel>::empty();
    assert(s.spans =~= none);
    assert(none.push(styled(a, false, false, false)) =~= plain_runs(a));
    let h = EventModel::Start(TagModel::Heading(n));
    lemma_run_push(es, h);
    lemma_run_push(es.push(h), EventModel::Text(a));
    lemma_run_push(es.push(h).push(EventModel::Text(a)), EventModel::End(MdTagEnd::Heading));
    let q = EventModel::Start(TagModel::BlockQuote);
    let p = EventModel::End(MdTagEnd::Paragraph);
    lemma_run_push(es, q);
    lemma_run_push(es.push(q), EventModel::Text(a));
    lemma_run_push(es.push(q).push(EventModel::Text(a)), p);
    lemma_run_push(
        es.push(q).push(EventModel::Text(a)).push(p),
        EventModel::End(MdTagEnd::BlockQuote),
    );
    lemma_run_push(es, EventModel::Rule);
}

/// A block of code holds all its text, in order, without the white space at its end; an image
/// has the address and the text that stand in it. Neither leaves text for the next block.
pub proof fn lemma_raw_blocks(es: Seq<EventModel>, a: Seq<char>, b: Seq<char>)
    requires
        between_blocks(MdState::run(es)),
    ensures
        ({
            let r = MdState::run(
                es.push(EventModel::Start(TagModel::CodeBlock)).push(EventModel::Text(a)).push(
                    EventModel::Text(b),
                ).push(EventModel::End(MdTagEnd::CodeBlock)),
            );
            &&& r.out == MdState::run(es).out.push(BlockModel::Code(text::trim_end(a + b)))
            &&& between_blocks(r)
        }),
        ({
            let r = MdState::run(
                es.push(EventModel::Start(TagModel::Image(a))).push(EventModel::Text(b)).push(
                    EventModel::End(MdTagEnd::Image),
                ).push(EventModel::End(MdTagEnd::Paragraph)),
            );
            &&& r.out == MdState::run(es).out.push(BlockModel::Image(a, b))
            &&& between_blocks(r)
        }),
{
    let none = Seq::<char>::empty();
    let k = EventModel::Start(TagModel::CodeBlock);
    lemma_run_push(es, k);
    lemma_run_push(es.push(k), EventModel::Text(a));
    lemma_run_push(es.push(k).push(EventModel::Text(a)), EventModel::Text(b));
    lemma_run_push(
        es.push(k).push(EventModel::Text(a)).push(EventModel::Text(b)),
        EventModel::End(MdTagEnd::CodeBlock),
    );
    assert(none + a =~= a);
    assert(none + b =~= b);
    let i = EventModel::Start(TagModel::Image(a));
    lemma_run_push(es, i);
    lemma_run_push(es.push(i), EventModel::Text(b));
    lemma_run_push(es.push(i).push(EventModel::Text(b)), EventModel::End(MdTagEnd::Image));
    lemma_run_push(
        es.push(i).push(EventModel::Text(b)).push(EventModel::End(MdTagEnd::Image)),
        EventModel::End(MdTagEnd::Paragraph),
    );
}

/// An item of a list is one block, with or without a paragraph around its text, and nothing of
/// the list stays open behind it.
pub proof fn lemma_list_item(es: Seq<EventModel>, a: Seq<char>)
    requires
        between_blocks(MdState::run(es)),
        a.len() > 0,
    ensures
        ({
            let r = MdState::run(
                es.push(EventModel::Start(TagModel::List)).push(
                    EventModel::Start(TagModel::Item),
                ).push(EventModel::Text(a)).push(EventModel::End(MdTagEnd::Item)).push(
                    EventModel::End(MdTagEnd::List),
                ),
            );
            &&& r.out == MdState::run(es).out.push(BlockModel::ListItem(1, plain_runs(a)))
            &&& between_blocks(r)
        }),
        ({
            let r = MdState::run(
                es.push(EventModel::Start(TagModel::List)).push(
                    EventModel::Start(TagModel::Item),
                ).push(EventModel::Text(a)).push(EventModel::End(MdTagEnd::Paragraph)).push(
                    EventModel::End(MdTagEnd::Item),
                ).push(EventModel::End(MdTagEnd::List)),
            );
            &&& r.out == MdState::run(es).out.push(BlockModel::ListItem(1, plain_runs(a)))
            &&& between_blocks(r)
        }),
{
    let s = MdState::run(es);
    let none = Seq::<SpanModel>::empty();
    assert(s.spans =~= none);
    assert(none.push(styled(a, false, false, false)) =~= plain_runs(a));
    let l = EventModel::Start(TagModel::List);
    let i = EventModel::Start(TagModel::Item);
    let e3 = es.push(l).push(i).push(EventModel::Text(a));
    lemma_run_push(es, l);
    lemma_run_push(es.push(l), i);
    lemma_run_push(es.push(l).push(i), EventModel::Text(a));
    lemma_run_push(e3, EventModel::End(MdTagEnd::Item));
    lemma_run_push(e3.push(EventModel::End(MdTagEnd::Item)), EventModel::End(MdTagEnd::List));
    let e4 = e3.push(EventModel::End(MdTagEnd::Paragraph));
    lemma_run_push(e3, EventModel::End(MdTagEnd::Paragraph));
    lemma_run_push(e4, EventModel::End(MdTagEnd::Item));
    lemma_run_push(e4.push(EventModel::End(MdTagEnd::Item)), EventModel::End(MdTagEnd::List));
}

/// A text is found where it first stands.
pub proof fn lemma_find_from(s: Seq<char>, pat: Seq<char>, from: int, i: int)
    requires
        0 <= from <= i,
        text::occurs_at(s, pat, i),
        forall|k: int| from <= k < i ==> !text::occurs_at(s, pat, k),
    ensures
        find_from(s, pat, from) == Some(i),
    decreases i - from,
{
    if from < i {
        assert(!text::occurs_at(s, pat, from));
        lemma_find_from(s, pat, from + 1, i);
    }
}

/// A text that stands nowhere is not found.
pub proof fn lemma_find_none(s: Seq<char>, pat: Seq<char>, from: int)
    requires
        0 <= from,
        forall|k: int| from <= k ==> !text::occurs_at(s, pat, k),
    ensures
        find_from(s, pat, from) is None,
    decreases s.len() + 1 - from,
{
    if from <= s.len() {
        assert(!text::occurs_at(s, pat, from));
        lemma_find_none(s, pat, from + 1);
    }
}

/// A value in quotes goes from the first quote to the next of its kind, whatever stands between;
/// one without quotes goes up to white space, `>` or `/`.
pub proof fn lemma_value_of(q: char, v: Seq<char>, rest: Seq<char>)
    requires
        !v.contains(q),
        q == '"' || q == '\'',
    ensures
        value_of(seq![q] + v + seq![q] + rest) == Some(v),
        value_of(seq![q] + v) is None,
        value_of(Seq::empty()) is None,
{
    let s = seq![q] + v + seq![q] + rest;
    let t = s.skip(1);
    text::lemma_first_from(t, q, 0);
    let n = v.len() as int;
    assert(t[n] == q);
    assert forall|k: int| 0 <= k < n implies t[k] != q by {
        assert(t[k] == v[k]);
        assert(v.contains(v[k]));
    }
    assert(text::first_from(t, q, 0) == Some(n));
    assert(t.take(n) =~= v);
    let u = seq![q] + v;
    assert(u.skip(1) =~= v);
    text::lemma_first_from(v, q, 0);
    if let Some(k) = text::first_from(v, q, 0) {
        assert(v.contains(v[k]));
    }
}

/// A value without quotes ends at white space, `>` or `/`, or with the tag.
pub proof fn lemma_bare_value(v: Seq<char>, end: char, rest: Seq<char>)
    requires
        v.len() > 0,
        v[0] != '"',
        v[0] != '\'',
        forall|i: int|
            0 <= i < v.len() ==> !text::is_white_space(#[trigger] v[i]) && v[i] != '>' && v[i]
                != '/',
        text::is_white_space(end) || end == '>' || end == '/',
    ensures
        value_of(v + seq![end] + rest) == Some(v),
        value_of(v) == Some(v),
{
    let s = v + seq![end] + rest;
    lemma_value_end(s, 0, v.len() as int);
    assert(s.take(v.len() as int) =~= v);
    lemma_value_end(v, 0, v.len() as int);
    assert(v.take(v.len() as int) =~= v);
}

proof fn lemma_value_end(s: Seq<char>, i: int, n: int)
    requires
        0 <= i <= n <= s.len(),
        forall|k: int|
            i <= k < n ==> !text::is_white_space(#[trigger] s[k]) && s[k] != '>' && s[k] != '/',
        n < s.len() ==> text::is_white_space(s[n]) || s[n] == '>' || s[n] == '/',
    ensures
        value_end(s, i) == n,
    decreases n - i,
{
    if i < n {
        assert(!text::is_white_space(s[i]));
        lemma_value_end(s, i + 1, n);
    }
}

/// An image of raw HTML is read back: its address and the text that stands for it.
pub proof fn lemma_image_read_back(src: Seq<char>, alt: Seq<char>)
    requires
        !src.contains('"'),
        !src.contains('>'),
        !src.contains('='),
        !alt.contains('"'),
        !alt.contains('>'),
    ensures
        images_from("<img src=\""@ + src + "\" alt=\""@ + alt + "\">"@, 0) == seq![(src, alt)],
{
    reveal_strlit("<img src=\"");
    reveal_strlit("\" alt=\"");
    reveal_strlit("\">");
    reveal_strlit("<img");
    reveal_strlit("src=");
    reveal_strlit("alt=");
    let a = seq!['<', 'i', 'm', 'g', ' ', 's', 'r', 'c', '=', '"'];
    let b = seq!['"', ' ', 'a', 'l', 't', '=', '"'];
    let z = seq!['"', '>'];
    assert("<img src=\""@ =~= a);
    assert("\" alt=\""@ =~= b);
    assert("\">"@ =~= z);
    assert("<img"@ =~= seq!['<', 'i', 'm', 'g']);
    assert("src="@ =~= seq!['s', 'r', 'c', '=']);
    assert("alt="@ =~= seq!['a', 'l', 't', '=']);
    let html = a + src + b + alt + z;
    let n = src.len() as int;
    let m = alt.len() as int;
    let end = n + m + 18;
    assert(html.len() == end + 1);
    let lower = text::ascii_lower_all(html);
    assert forall|k: int| 0 <= k < html.len() implies (lower[k] == '>' <==> html[k] == '>') && (
    lower[k] == '=' <==> html[k] == '=') && (lower[k] == '"' <==> html[k] == '"') by {
        text::lemma_ascii_lower(html[k]);
    }
    assert(lower.subrange(0, 4) =~= "<img"@);
    lemma_find_from(lower, "<img"@, 0, 0);
    assert(html[end] == '>');
    assert forall|k: int| 0 <= k < end implies html[k] != '>' by {
        lemma_image_chars(a, src, b, alt, z, k);
        if 10 <= k < 10 + n {
            assert(src.contains(src[k - 10]));
        } else if 17 + n <= k < 17 + n + m {
            assert(alt.contains(alt[k - 17 - n]));
        }
    }
    text::lemma_first_from(lower, '>', 0);
    assert(text::first_from(lower, '>', 0) == Some(end));
    let tag = html.subrange(0, end);
    assert(tag =~= image_tag(src, alt));
    lemma_image_attrs(src, alt, tag);
    let next = end;
    assert(images_from(html, end) =~= Seq::<(Seq<char>, Seq<char>)>::empty()) by {
        assert forall|k: int| end <= k implies !text::occurs_at(lower, "<img"@, k) by {}
        lemma_find_none(lower, "<img"@, end);
    }
    assert(seq![(src, alt)] + images_from(html, end) =~= seq![(src, alt)]);
}

proof fn lemma_image_chars(
    a: Seq<char>,
    src: Seq<char>,
    b: Seq<char>,
    alt: Seq<char>,
    z: Seq<char>,
    k: int,
)
    requires
        a.len() == 10,
        b.len() == 7,
        0 <= k < 17 + src.len() + alt.len() + z.len(),
    ensures
        ({
            let html = a + src + b + alt + z;
            let n = src.len();
            let m = alt.len();
            html[k] == (if k < 10 {
                a[k]
            } else if k < 10 + n {
                src[k - 10]
            } else if k < 17 + n {
                b[k - 10 - n]
            } else if k < 17 + n + m {
                alt[k - 17 - n]
            } else {
                z[k - 17 - n - m]
            })
        }),
{
}

/// The tag of an image with an address and a text.
spec fn image_tag(src: Seq<char>, alt: Seq<char>) -> Seq<char> {
    seq!['<', 'i', 'm', 'g', ' ', 's', 'r', 'c', '=', '"'] + src + seq![
        '"',
        ' ',
        'a',
        'l',
        't',
        '=',
        '"',
    ] + alt + seq!['"']
}

proof fn lemma_image_attrs(src: Seq<char>, alt: Seq<char>, tag: Seq<char>)
    requires
        !src.contains('"'),
        !src.contains('='),
        !alt.contains('"'),
        tag == image_tag(src, alt),
    ensures
        image_in(tag) == Some((src, alt)),
{
    lemma_image_src(src, alt);
    lemma_image_alt(src, alt);
}

proof fn lemma_image_src(src: Seq<char>, alt: Seq<char>)
    requires
        !src.contains('"'),
    ensures
        attr_from(image_tag(src, alt), "src="@, 0) == Some(src),
{
    reveal_strlit("src=");
    assert("src="@ =~= seq!['s', 'r', 'c', '=']);
    let tag = image_tag(src, alt);
    let a = seq!['<', 'i', 'm', 'g', ' ', 's', 'r', 'c', '=', '"'];
    let tail = seq![' ', 'a', 'l', 't', '=', '"'] + alt + seq!['"'];
    let q = seq!['"'];
    let lower = text::ascii_lower_all(tag);
    assert forall|k: int| 0 <= k < 10 implies tag[k] == a[k] by {}
    assert(lower.subrange(5, 9) =~= "src="@);
    assert forall|k: int| 0 <= k < 5 implies !text::occurs_at(lower, "src="@, k) by {
        if text::occurs_at(lower, "src="@, k) {
            assert(lower.subrange(k, k + 4)[0] == 's');
            assert(lower[k] == 's');
            assert(tag[k] == a[k]);
        }
    }
    lemma_find_from(lower, "src="@, 0, 5);
    assert(tag[4] == ' ');
    assert(tag.skip(9) =~= q + src + q + tail);
    lemma_value_of('"', src, tail);
}

proof fn lemma_image_alt(src: Seq<char>, alt: Seq<char>)
    requires
        !src.contains('='),
        !alt.contains('"'),
    ensures
        attr_from(image_tag(src, alt), "alt="@, 0) == Some(alt),
{
    reveal_strlit("alt=");
    assert("alt="@ =~= seq!['a', 'l', 't', '=']);
    let tag = image_tag(src, alt);
    let a = seq!['<', 'i', 'm', 'g', ' ', 's', 'r', 'c', '=', '"'];
    let b = seq!['"', ' ', 'a', 'l', 't', '=', '"'];
    let q = seq!['"'];
    let none = Seq::<char>::empty();
    let n = src.len() as int;
    let lower = text::ascii_lower_all(tag);
    let p = 12 + n;
    assert forall|k: int| 0 <= k < 17 + n implies #[trigger] tag[k] == (if k < 10 {
        a[k]
    } else if k < 10 + n {
        src[k - 10]
    } else {
        b[k - 10 - n]
    }) by {
        lemma_image_chars(a, src, b, alt, q, k);
    }
    assert(tag[p] == b[2] && tag[p + 1] == b[3] && tag[p + 2] == b[4] && tag[p + 3] == b[5]);
    assert(lower.subrange(p, p + 4) =~= "alt="@);
    assert forall|k: int| 0 <= k < p implies !text::occurs_at(lower, "alt="@, k) by {
        if text::occurs_at(lower, "alt="@, k) {
            let w = lower.subrange(k, k + 4);
            assert(w[0] == 'a' && w[3] == '=');
            assert(lower[k] == 'a' && lower[k + 3] == '=');
            text::lemma_ascii_lower(tag[k + 3]);
            assert(tag[k + 3] == '=');
            if 10 <= k + 3 < 10 + n {
                assert(src.contains(src[k + 3 - 10]));
            }
            assert(k + 3 == 8);
            assert(tag[k] == a[5]);
        }
    }
    lemma_find_from(lower, "alt="@, 0, p);
    assert(tag[p - 1] == b[1]);
    assert(tag.skip(p + 4) =~= q + alt + q + none);
    lemma_value_of('"', alt, none);
}

/// Text without an image tag holds no image.
pub proof fn lemma_no_image(html: Seq<char>)
    requires
        !html.contains('<'),
    ensures
        images_from(html, 0).len() == 0,
{
    reveal_strlit("<img");
    assert("<img"@ =~= seq!['<', 'i', 'm', 'g']);
    let lower = text::ascii_lower_all(html);
    assert forall|k: int| 0 <= k implies !text::occurs_at(lower, "<img"@, k) by {
        if text::occurs_at(lower, "<img"@, k) {
            assert(lower.subrange(k, k + 4)[0] == '<');
            assert(lower[k] == '<');
            text::lemma_ascii_lower(html[k]);
            assert(html.contains(html[k]));
        }
    }
    lemma_find_none(lower, "<img"@, 0);
}

/// The part of a name before an attribute's does not count: letters, digits and hyphens belong
/// to a name, and everything else ends it.
pub proof fn lemma_ends_name(c: char)
    ensures
        ends_name(c) <==> !('a' <= c <= 'z') && !('A' <= c <= 'Z') && !('0' <= c <= '9') && c != '-',
{
}

} // verus!
