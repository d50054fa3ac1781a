//! The rendered Markdown of the split preview: its blocks, the plain text that a selection
//! refers to, and the order in which text and images appear.

use crate::buffer;
use crate::markdown;
use crate::markdown::{Block, BlockModel, Span, SpanModel};
use crate::path;
use crate::text;
use std::ops::Range;
use vstd::prelude::*;
use vstd::utf8::encode_utf8;

verus! {

broadcast use vstd::seq_lib::group_seq_properties;

// ---------------------------------------------------------------------------
// Types
// ---------------------------------------------------------------------------

/// The color of a run of rendered text.
#[derive(Debug, Clone, Copy, PartialEq, Eq, Structural)]
pub enum MdColor {
    Text,
    Code,
    Bullet,
    Secondary,
}

/// A run of rendered text in one style.
#[derive(Debug, Clone, Copy, PartialEq, Eq, Structural)]
pub struct MdRun {
    /// How many bytes it covers.
    pub len: usize,
    pub bold: bool,
    pub italic: bool,
    /// In the code font.
    pub code: bool,
    pub color: MdColor,
    /// Shown as selected.
    pub selected: bool,
}

/// One block as it is rendered. Sizes are in pixels.
pub struct MdBlock {
    pub text: String,
    pub runs: Vec<MdRun>,
    pub size: u32,
    pub top_pad: u32,
    pub indent: u128,
    /// Painted on a filled background.
    pub filled: bool,
    /// Painted with a line at its left.
    pub bordered: bool,
    /// Where its text starts in the plain text.
    pub byte_start: usize,
}

/// One entry of the document, in order.
pub enum MdItem {
    /// Consecutive text blocks.
    Text(Range<usize>),
    /// An image in its place.
    Image { src: String, alt: String },
}

/// A Markdown document that is shown and can be selected from.
pub struct MarkdownView {
    /// The source that was parsed last.
    pub src: String,
    pub blocks: Vec<MdBlock>,
    /// The texts of the blocks, each with a newline after it.
    pub doc: String,
    /// The selection, in bytes of `doc`.
    pub sel: Range<usize>,
    /// Where a drag began.
    pub anchor: usize,
    pub selecting: bool,
    pub layout: Vec<MdItem>,
    /// The directory that image paths are relative to.
    pub base_dir: Option<String>,
}

/// Where an image comes from.
pub enum ImageSource {
    /// Fetched from this address.
    Remote(String),
    /// Read from this path, if it exists.
    Local(String),
    /// Nowhere: only the label is shown.
    Unavailable,
}

// ---------------------------------------------------------------------------
// Model
// ---------------------------------------------------------------------------

#[verifier::ext_equal]
pub struct RunModel {
    pub len: int,
    pub bold: bool,
    pub italic: bool,
    pub code: bool,
    pub color: MdColor,
    pub selected: bool,
}

impl MdRun {
    pub open spec fn model(self) -> RunModel {
        RunModel {
            len: self.len as int,
            bold: self.bold,
            italic: self.italic,
            code: self.code,
            color: self.color,
            selected: self.selected,
        }
    }
}

pub open spec fn run_models(v: Seq<MdRun>) -> Seq<RunModel> {
    Seq::new(v.len(), |i: int| v[i].model())
}

#[verifier::ext_equal]
pub struct MdBlockModel {
    pub text: Seq<char>,
    pub runs: Seq<RunModel>,
    pub size: u32,
    pub top_pad: u32,
    pub indent: nat,
    pub filled: bool,
    pub bordered: bool,
    pub byte_start: int,
}

impl MdBlock {
    pub open spec fn model(self) -> MdBlockModel {
        MdBlockModel {
            text: self.text@,
            runs: run_models(self.runs@),
            size: self.size,
            top_pad: self.top_pad,
            indent: self.indent as nat,
            filled: self.filled,
            bordered: self.bordered,
            byte_start: self.byte_start as int,
        }
    }
}

pub open spec fn mdblock_models(v: Seq<MdBlock>) -> Seq<MdBlockModel> {
    Seq::new(v.len(), |i: int| v[i].model())
}

#[verifier::ext_equal]
pub enum ItemModel {
    Text(int, int),
    Image(Seq<char>, Seq<char>),
}

impl MdItem {
    pub open spec fn model(self) -> ItemModel {
        match self {
            MdItem::Text(r) => ItemModel::Text(r.start as int, r.end as int),
            MdItem::Image { src, alt } => ItemModel::Image(src@, alt@),
        }
    }
}

pub open spec fn item_models(v: Seq<MdItem>) -> Seq<ItemModel> {
    Seq::new(v.len(), |i: int| v[i].model())
}

/// The texts of the spans put together.
pub open spec fn spans_text(s: Seq<SpanModel>) -> Seq<char>
    decreases s.len(),
{
    if s.len() == 0 {
        Seq::empty()
    } else {
        spans_text(s.drop_last()) + s.last().text
    }
}

/// One run per span, code in its own color.
pub open spec fn spans_runs(s: Seq<SpanModel>, color: MdColor, bold_all: bool) -> Seq<RunModel> {
    Seq::new(
        s.len(),
        |i: int|
            RunModel {
                len: text::blen(s[i].text) as int,
                bold: s[i].bold || bold_all,
                italic: s[i].italic,
                code: s[i].code,
                color: if s[i].code {
                    MdColor::Code
                } else {
                    color
                },
                selected: false,
            },
    )
}

/// The bullet before a list item.
pub open spec fn bullet() -> Seq<char> {
    seq!['\u{2022}', ' ']
}

/// How a text block is rendered when its text starts at `at`; images are no text blocks.
pub open spec fn rendered(b: BlockModel, at: int) -> Option<MdBlockModel> {
    match b {
        BlockModel::Heading(level, s) => Some(
            MdBlockModel {
                text: spans_text(s),
                runs: spans_runs(s, MdColor::Text, true),
                size: if level == 1 {
                    26
                } else if level == 2 {
                    21
                } else if level == 3 {
                    18
                } else {
                    15
                },
                top_pad: 10,
                indent: 0,
                filled: false,
                bordered: false,
                byte_start: at,
            },
        ),
        BlockModel::Paragraph(s) => Some(
            MdBlockModel {
                text: spans_text(s),
                runs: spans_runs(s, MdColor::Text, false),
                size: 14,
                top_pad: 4,
                indent: 0,
                filled: false,
                bordered: false,
                byte_start: at,
            },
        ),
        BlockModel::Code(t) => Some(
            MdBlockModel {
                text: t,
                runs: seq![
                    RunModel {
                        len: text::blen(t) as int,
                        bold: false,
                        italic: false,
                        code: true,
                        color: MdColor::Text,
                        selected: false,
                    },
                ],
                size: 13,
                top_pad: 4,
                indent: 0,
                filled: true,
                bordered: false,
                byte_start: at,
            },
        ),
        BlockModel::ListItem(depth, s) => Some(
            MdBlockModel {
                text: bullet() + spans_text(s),
                runs: seq![
                    RunModel {
                        len: text::blen(bullet()) as int,
                        bold: false,
                        italic: false,
                        code: false,
                        color: MdColor::Bullet,
                        selected: false,
                    },
                ] + spans_runs(s, MdColor::Text, false),
                size: 14,
                top_pad: 2,
                indent: depth * 14,
                filled: false,
                bordered: false,
                byte_start: at,
            },
        ),
        BlockModel::Quote(s) => Some(
            MdBlockModel {
                text: spans_text(s),
                runs: spans_runs(s, MdColor::Secondary, false),
                size: 14,
                top_pad: 4,
                indent: 12,
                filled: false,
                bordered: true,
                byte_start: at,
            },
        ),
        BlockModel::Rule => Some(
            MdBlockModel {
                text: Seq::empty(),
                runs: Seq::empty(),
                size: 8,
                top_pad: 8,
                indent: 0,
                filled: false,
                bordered: false,
                byte_start: at,
            },
        ),
        BlockModel::Image(_, _) => None,
    }
}

/// What a document is made of.
#[verifier::ext_equal]
pub struct Built {
    pub blocks: Seq<MdBlockModel>,
    pub doc: Seq<char>,
    pub layout: Seq<ItemModel>,
    /// How many blocks the layout covers so far.
    pub covered: int,
}

/// The document so far: text blocks follow each other, each with a newline after its text, and
/// an image closes the run of blocks before it.
pub open spec fn built(blocks: Seq<BlockModel>) -> Built
    decreases blocks.len(),
{
    if blocks.len() == 0 {
        Built { blocks: Seq::empty(), doc: Seq::empty(), layout: Seq::empty(), covered: 0 }
    } else {
        let p = built(blocks.drop_last());
        match blocks.last() {
            BlockModel::Image(src, alt) => {
                let q = closed(p);
                Built { layout: q.layout.push(ItemModel::Image(src, alt)), ..q }
            },
            b => {
                let r = rendered(b, text::blen(p.doc) as int)->0;
                Built { blocks: p.blocks.push(r), doc: p.doc + r.text.push('\n'), ..p }
            },
        }
    }
}

/// The run of blocks that the layout does not cover yet, added to it.
pub open spec fn closed(p: Built) -> Built {
    if p.blocks.len() > p.covered {
        Built {
            layout: p.layout.push(ItemModel::Text(p.covered, p.blocks.len() as int)),
            covered: p.blocks.len() as int,
            ..p
        }
    } else {
        p
    }
}

/// The whole document.
pub open spec fn document(blocks: Seq<BlockModel>) -> Built {
    closed(built(blocks))
}

/// The bytes that runs cover together.
pub open spec fn total_len(r: Seq<RunModel>) -> int
    decreases r.len(),
{
    if r.len() == 0 {
        0
    } else {
        total_len(r.drop_last()) + r.last().len
    }
}

proof fn lemma_total_nonneg(r: Seq<RunModel>, n: int)
    requires
        0 <= n <= r.len(),
        forall|i: int| 0 <= i < r.len() ==> (#[trigger] r[i]).len >= 0,
    ensures
        0 <= total_len(r.take(n)) <= total_len(r),
    decreases r.len(),
{
    if n == r.len() {
        assert(r.take(n) =~= r);
        if r.len() > 0 {
            let d = r.drop_last();
            assert forall|i: int| 0 <= i < d.len() implies (#[trigger] d[i]).len >= 0 by {
                assert(r[i].len >= 0);
            }
            lemma_total_nonneg(d, d.len() as int);
            assert(d.take(d.len() as int) =~= d);
            assert(r[r.len() - 1].len >= 0);
        }
    } else {
        let d = r.drop_last();
        assert forall|i: int| 0 <= i < d.len() implies (#[trigger] d[i]).len >= 0 by {
            assert(r[i].len >= 0);
        }
        lemma_total_nonneg(d, n);
        assert(d.take(n) =~= r.take(n));
        assert(r[r.len() - 1].len >= 0);
    }
}

proof fn lemma_total_concat(a: Seq<RunModel>, b: Seq<RunModel>)
    ensures
        total_len(a + b) == total_len(a) + total_len(b),
    decreases b.len(),
{
    if b.len() == 0 {
        assert(a + b =~= a);
    } else {
        lemma_total_concat(a, b.drop_last());
        assert((a + b).drop_last() =~= a + b.drop_last());
    }
}

proof fn lemma_spans_len(s: Seq<SpanModel>, color: MdColor, bold_all: bool)
    ensures
        total_len(spans_runs(s, color, bold_all)) == text::blen(spans_text(s)),
    decreases s.len(),
{
    if s.len() > 0 {
        lemma_spans_len(s.drop_last(), color, bold_all);
        assert(spans_runs(s, color, bold_all).drop_last() =~= spans_runs(
            s.drop_last(),
            color,
            bold_all,
        ));
        text::lemma_encode_concat(spans_text(s.drop_last()), s.last().text);
    }
}

/// The runs of a rendered block cover exactly its text.
pub proof fn lemma_runs_cover_text(b: BlockModel, at: int)
    ensures
        rendered(b, at) matches Some(r) ==> total_len(r.runs) == text::blen(r.text),
{
    match b {
        BlockModel::Heading(_, s) => {
            lemma_spans_len(s, MdColor::Text, true);
        },
        BlockModel::Paragraph(s) => {
            lemma_spans_len(s, MdColor::Text, false);
        },
        BlockModel::Code(t) => {
            reveal_with_fuel(total_len, 2);
            let r = rendered(b, at)->0.runs;
            assert(r.drop_last() =~= Seq::<RunModel>::empty());
        },
        BlockModel::ListItem(_, s) => {
            lemma_spans_len(s, MdColor::Text, false);
            let first = seq![
                RunModel {
                    len: text::blen(bullet()) as int,
                    bold: false,
                    italic: false,
                    code: false,
                    color: MdColor::Bullet,
                    selected: false,
                },
            ];
            lemma_total_concat(first, spans_runs(s, MdColor::Text, false));
            reveal_with_fuel(total_len, 2);
            assert(first.drop_last() =~= Seq::<RunModel>::empty());
            text::lemma_encode_concat(bullet(), spans_text(s));
        },
        BlockModel::Quote(s) => {
            lemma_spans_len(s, MdColor::Secondary, false);
        },
        _ => {},
    }
}

/// Where each block's text stands in the plain text: at the block's start, with a newline
/// after it.
pub open spec fn block_in_doc(b: MdBlockModel, doc: Seq<char>) -> bool {
    exists|n: int|
        0 <= n && n + b.text.len() < doc.len() && b.byte_start == text::blen(
            #[trigger] doc.take(n),
        ) && doc.subrange(n, n + b.text.len()) == b.text && doc[n + b.text.len()] == '\n'
}

/// Every block's text stands in the plain text where the block says.
pub proof fn lemma_blocks_in_doc(blocks: Seq<BlockModel>)
    ensures
        forall|i: int|
            0 <= i < built(blocks).blocks.len() ==> block_in_doc(
                #[trigger] built(blocks).blocks[i],
                built(blocks).doc,
            ),
    decreases blocks.len(),
{
    if blocks.len() > 0 {
        lemma_blocks_in_doc(blocks.drop_last());
        let p = built(blocks.drop_last());
        let q = built(blocks);
        if !(blocks.last() is Image) {
            let r = rendered(blocks.last(), text::blen(p.doc) as int)->0;
            assert forall|i: int| 0 <= i < q.blocks.len() implies block_in_doc(
                #[trigger] q.blocks[i],
                q.doc,
            ) by {
                if i < p.blocks.len() {
                    let b = p.blocks[i];
                    assert(q.blocks[i] == b);
                    assert(block_in_doc(b, p.doc));
                    let n = choose|n: int|
                        0 <= n && n + b.text.len() < p.doc.len() && b.byte_start == text::blen(
                            #[trigger] p.doc.take(n),
                        ) && p.doc.subrange(n, n + b.text.len()) == b.text && p.doc[n
                            + b.text.len()] == '\n';
                    assert(q.doc.take(n) =~= p.doc.take(n));
                    assert(q.doc.subrange(n, n + b.text.len()) =~= p.doc.subrange(
                        n,
                        n + b.text.len(),
                    ));
                } else {
                    let n = p.doc.len() as int;
                    assert(q.doc.take(n) =~= p.doc);
                    assert(q.doc.subrange(n, n + r.text.len()) =~= r.text);
                }
            }
        }
    }
}

/// The text entries of a layout cover the blocks from 0 on, one after the other.
pub open spec fn covers_blocks(layout: Seq<ItemModel>) -> int
    decreases layout.len(),
{
    if layout.len() == 0 {
        0
    } else {
        let c = covers_blocks(layout.drop_last());
        match layout.last() {
            ItemModel::Text(a, b) => if c >= 0 && a == c && b > a {
                b
            } else {
                -1
            },
            _ => c,
        }
    }
}

proof fn lemma_layout_step(blocks: Seq<BlockModel>)
    ensures
        covers_blocks(built(blocks).layout) == built(blocks).covered,
        0 <= built(blocks).covered <= built(blocks).blocks.len(),
    decreases blocks.len(),
{
    reveal_with_fuel(covers_blocks, 3);
    if blocks.len() > 0 {
        lemma_layout_step(blocks.drop_last());
        let p = built(blocks.drop_last());
        if let BlockModel::Image(src, alt) = blocks.last() {
            let q = closed(p);
            let l = q.layout.push(ItemModel::Image(src, alt));
            assert(l.drop_last() =~= q.layout);
            if p.blocks.len() > p.covered {
                assert(q.layout.drop_last() =~= p.layout);
            }
        }
    }
}

/// The layout shows every text block exactly once, in order.
pub proof fn lemma_layout_covers(blocks: Seq<BlockModel>)
    ensures
        covers_blocks(document(blocks).layout) == document(blocks).blocks.len(),
{
    lemma_layout_step(blocks);
    reveal_with_fuel(covers_blocks, 2);
    let p = built(blocks);
    if p.blocks.len() > p.covered {
        assert(document(blocks).layout.drop_last() =~= p.layout);
    }
}

// ---------------------------------------------------------------------------
// Building
// ---------------------------------------------------------------------------

/// The text and the runs of a block's inline spans.
pub fn spans_to_runs(spans: &Vec<Span>, color: MdColor, bold_all: bool) -> (r: (
    String,
    Vec<MdRun>,
))
    ensures
        r.0@ == spans_text(markdown::span_models(spans@)),
        run_models(r.1@) == spans_runs(markdown::span_models(spans@), color, bold_all),
{
    let ghost sm = markdown::span_models(spans@);
    let mut out = String::new();
    let mut runs: Vec<MdRun> = Vec::new();
    let mut i: usize = 0;
    proof {
        assert(run_models(runs@) =~= spans_runs(sm.take(0), color, bold_all));
    }
    while i < spans.len()
        invariant
            i <= spans@.len(),
            sm == markdown::span_models(spans@),
            out@ == spans_text(sm.take(i as int)),
            run_models(runs@) == spans_runs(sm.take(i as int), color, bold_all),
        decreases spans@.len() - i,
    {
        let sp = &spans[i];
        proof {
            assert(sm.take(i + 1).drop_last() =~= sm.take(i as int));
            assert(sm.take(i + 1).last() == sp.model());
        }
        let ghost before = run_models(runs@);
        let run = MdRun {
            len: buffer::byte_len(sp.text.as_str()),
            bold: sp.bold || bold_all,
            italic: sp.italic,
            code: sp.code,
            color: if sp.code {
                MdColor::Code
            } else {
                color
            },
            selected: false,
        };
        runs.push(run);
        out.append(sp.text.as_str());
        proof {
            assert(run_models(runs@) =~= before.push(run.model()));
            assert(spans_runs(sm.take(i + 1), color, bold_all) =~= before.push(run.model()));
        }
        i += 1;
    }
    proof {
        assert(sm.take(sm.len() as int) =~= sm);
    }
    (out, runs)
}

/// How a text block is rendered when its text starts at `at`; images are no text blocks.
fn render_block(b: &Block, at: usize) -> (r: Option<MdBlock>)
    ensures
        match r {
            Some(m) => rendered(b.model(), at as int) == Some(m.model()),
            None => rendered(b.model(), at as int) is None,
        },
{
    match b {
        Block::Heading(level, spans) => {
            let size: u32 = match *level {
                1 => 26,
                2 => 21,
                3 => 18,
                _ => 15,
            };
            let (t, runs) = spans_to_runs(spans, MdColor::Text, true);
            Some(
                MdBlock {
                    text: t,
                    runs,
                    size,
                    top_pad: 10,
                    indent: 0,
                    filled: false,
                    bordered: false,
                    byte_start: at,
                },
            )
        },
        Block::Paragraph(spans) => {
            let (t, runs) = spans_to_runs(spans, MdColor::Text, false);
            Some(
                MdBlock {
                    text: t,
                    runs,
                    size: 14,
                    top_pad: 4,
                    indent: 0,
                    filled: false,
                    bordered: false,
                    byte_start: at,
                },
            )
        },
        Block::Code(code) => {
            let mut runs: Vec<MdRun> = Vec::new();
            let run = MdRun {
                len: buffer::byte_len(code.as_str()),
                bold: false,
                italic: false,
                code: true,
                color: MdColor::Text,
                selected: false,
            };
            runs.push(run);
            proof {
                assert(run_models(runs@) =~= seq![run.model()]);
            }
            Some(
                MdBlock {
                    text: code.clone(),
                    runs,
                    size: 13,
                    top_pad: 4,
                    indent: 0,
                    filled: true,
                    bordered: false,
                    byte_start: at,
                },
            )
        },
        Block::ListItem(depth, spans) => {
            proof {
                reveal_strlit("\u{2022} ");
                assert("\u{2022} "@ =~= bullet());
            }
            let (t, rest) = spans_to_runs(spans, MdColor::Text, false);
            let ghost rm = run_models(rest@);
            let mut runs = rest;
            let first = MdRun {
                len: buffer::byte_len("\u{2022} "),
                bold: false,
                italic: false,
                code: false,
                color: MdColor::Bullet,
                selected: false,
            };
            runs.insert(0, first);
            proof {
                assert(run_models(runs@) =~= seq![first.model()] + rm);
            }
            let mut all = String::from_str("\u{2022} ");
            all.append(t.as_str());
            let indent: u128 = (*depth as u128) * 14;
            Some(
                MdBlock {
                    text: all,
                    runs,
                    size: 14,
                    top_pad: 2,
                    indent,
                    filled: false,
                    bordered: false,
                    byte_start: at,
                },
            )
        },
        Block::Quote(spans) => {
            let (t, runs) = spans_to_runs(spans, MdColor::Secondary, false);
            Some(
                MdBlock {
                    text: t,
                    runs,
                    size: 14,
                    top_pad: 4,
                    indent: 12,
                    filled: false,
                    bordered: true,
                    byte_start: at,
                },
            )
        },
        Block::Rule => {
            let runs: Vec<MdRun> = Vec::new();
            proof {
                assert(run_models(runs@) =~= Seq::<RunModel>::empty());
            }
            Some(
                MdBlock {
                    text: String::new(),
                    runs,
                    size: 8,
                    top_pad: 8,
                    indent: 0,
                    filled: false,
                    bordered: false,
                    byte_start: at,
                },
            )
        },
        Block::Image { src, alt } => None,
    }
}

/// Adds an entry to a layout.
fn push_item(layout: &mut Vec<MdItem>, item: MdItem)
    ensures
        item_models(final(layout)@) == item_models(old(layout)@).push(item.model()),
{
    let ghost before = item_models(layout@);
    let ghost m = item.model();
    layout.push(item);
    proof {
        assert(item_models(layout@) =~= before.push(m));
    }
}

/// The rendered blocks, the plain text and the layout of a list of blocks.
pub fn build_blocks(list: &Vec<Block>) -> (r: (Vec<MdBlock>, String, Vec<MdItem>))
    ensures
        ({
            let d = document(markdown::block_models(list@));
            &&& mdblock_models(r.0@) == d.blocks
            &&& r.1@ == d.doc
            &&& item_models(r.2@) == d.layout
        }),
{
    let ghost bm = markdown::block_models(list@);
    let mut blocks: Vec<MdBlock> = Vec::new();
    let mut doc = String::new();
    let mut layout: Vec<MdItem> = Vec::new();
    let mut covered: usize = 0;
    let mut i: usize = 0;
    proof {
        assert(mdblock_models(blocks@) =~= Seq::<MdBlockModel>::empty());
        assert(item_models(layout@) =~= Seq::<ItemModel>::empty());
    }
    while i < list.len()
        invariant
            i <= list@.len(),
            bm == markdown::block_models(list@),
            covered <= blocks@.len(),
            (Built {
                blocks: mdblock_models(blocks@),
                doc: doc@,
                layout: item_models(layout@),
                covered: covered as int,
            }) == built(bm.take(i as int)),
        decreases list@.len() - i,
    {
        let b = &list[i];
        proof {
            assert(bm.take(i + 1).drop_last() =~= bm.take(i as int));
            assert(bm.take(i + 1).last() == b.model());
        }
        let at: usize = buffer::byte_len(doc.as_str());
        match render_block(b, at) {
            Some(m) => {
                let ghost before = mdblock_models(blocks@);
                let ghost mm = m.model();
                doc.append(m.text.as_str());
                doc.append("\n");
                blocks.push(m);
                proof {
                    reveal_strlit("\n");
                    assert(mdblock_models(blocks@) =~= before.push(mm));
                    let p = built(bm.take(i as int));
                    assert(doc@ =~= p.doc + mm.text.push('\n'));
                }
            },
            None => {
                if let Block::Image { src, alt } = b {
                    if blocks.len() > covered {
                        push_item(&mut layout, MdItem::Text(covered..blocks.len()));
                        covered = blocks.len();
                    }
                    push_item(&mut layout, MdItem::Image { src: src.clone(), alt: alt.clone() });
                }
            },
        }
        i += 1;
    }
    proof {
        assert(bm.take(bm.len() as int) =~= bm);
    }
    if blocks.len() > covered {
        push_item(&mut layout, MdItem::Text(covered..blocks.len()));
    }
    (blocks, doc, layout)
}

/// The rendered blocks, the plain text and the layout of a Markdown source.
pub fn build(src: &str) -> (r: (Vec<MdBlock>, String, Vec<MdItem>))
    ensures
        ({
            let d = document(markdown::MdState::run(markdown::markdown_events(src@)).out);
            &&& mdblock_models(r.0@) == d.blocks
            &&& r.1@ == d.doc
            &&& item_models(r.2@) == d.layout
        }),
{
    let list = markdown::parse(src);
    build_blocks(&list)
}

// ---------------------------------------------------------------------------
// Selection
// ---------------------------------------------------------------------------

/// Puts `x` between `lo` and `hi`.
pub open spec fn clamp(x: int, lo: int, hi: int) -> int {
    if x < lo {
        lo
    } else if x > hi {
        hi
    } else {
        x
    }
}

/// The part of a run from `s` to `e`, marked as selected if `hot`; nothing if it is empty.
pub open spec fn run_part(run: RunModel, s: int, e: int, hot: bool) -> Seq<RunModel> {
    if e > s {
        seq![RunModel { len: e - s, selected: run.selected || hot, ..run }]
    } else {
        Seq::empty()
    }
}

/// A run that starts at `start`, split where the selection `a..b` begins and ends.
pub open spec fn split_run(run: RunModel, start: int, a: int, b: int) -> Seq<RunModel> {
    let end = start + run.len;
    run_part(run, start, clamp(a, start, end), false) + run_part(
        run,
        clamp(a, start, end),
        clamp(b, start, end),
        true,
    ) + run_part(run, clamp(b, start, end), end, false)
}

/// All runs split at the selection.
pub open spec fn split_runs(base: Seq<RunModel>, a: int, b: int) -> Seq<RunModel>
    decreases base.len(),
{
    if base.len() == 0 {
        Seq::empty()
    } else {
        split_runs(base.drop_last(), a, b) + split_run(
            base.last(),
            total_len(base.drop_last()),
            a,
            b,
        )
    }
}

/// The runs of a block in which the bytes `a..b` are selected.
pub open spec fn selected_runs(base: Seq<RunModel>, a: int, b: int) -> Seq<RunModel> {
    if a >= b {
        base
    } else {
        split_runs(base, a, b)
    }
}

/// The run that shows the byte at `p`, without its length.
pub open spec fn style_at(r: Seq<RunModel>, p: int) -> RunModel
    decreases r.len(),
{
    if r.len() == 0 {
        arbitrary()
    } else if p >= total_len(r.drop_last()) {
        RunModel { len: 0, ..r.last() }
    } else {
        style_at(r.drop_last(), p)
    }
}

pub open spec fn lens_nonneg(r: Seq<RunModel>) -> bool {
    forall|i: int| 0 <= i < r.len() ==> (#[trigger] r[i]).len >= 0
}

proof fn lemma_style_concat(x: Seq<RunModel>, y: Seq<RunModel>, p: int)
    requires
        lens_nonneg(y),
        0 <= p < total_len(x) + total_len(y),
    ensures
        style_at(x + y, p) == if p < total_len(x) {
            style_at(x, p)
        } else {
            style_at(y, p - total_len(x))
        },
    decreases y.len(),
{
    if y.len() == 0 {
        assert(x + y =~= x);
    } else {
        let d = y.drop_last();
        assert((x + y).drop_last() =~= x + d);
        lemma_total_concat(x, d);
        assert(lens_nonneg(d)) by {
            assert forall|i: int| 0 <= i < d.len() implies (#[trigger] d[i]).len >= 0 by {
                assert(y[i].len >= 0);
            }
        }
        lemma_total_nonneg(d, 0);
        assert(d.take(0) =~= Seq::<RunModel>::empty());
        if p < total_len(x + d) {
            lemma_style_concat(x, d, p);
        }
    }
}

proof fn lemma_run_part(run: RunModel, s: int, e: int, hot: bool)
    ensures
        total_len(run_part(run, s, e, hot)) == if e > s {
            e - s
        } else {
            0
        },
        lens_nonneg(run_part(run, s, e, hot)),
        forall|p: int|
            0 <= p < e - s ==> (#[trigger] style_at(run_part(run, s, e, hot), p)) == (RunModel {
                len: 0,
                selected: run.selected || hot,
                ..run
            }),
{
    reveal_with_fuel(total_len, 2);
    let r = run_part(run, s, e, hot);
    if e > s {
        assert(r.drop_last() =~= Seq::<RunModel>::empty());
    }
}

proof fn lemma_split_run(run: RunModel, start: int, a: int, b: int)
    requires
        run.len >= 0,
        a < b,
    ensures
        total_len(split_run(run, start, a, b)) == run.len,
        lens_nonneg(split_run(run, start, a, b)),
        forall|p: int|
            0 <= p < run.len ==> (#[trigger] style_at(split_run(run, start, a, b), p)) == (
            RunModel { len: 0, selected: run.selected || a <= start + p < b, ..run }),
{
    let end = start + run.len;
    let (ca, cb) = (clamp(a, start, end), clamp(b, start, end));
    let p1 = run_part(run, start, ca, false);
    let p2 = run_part(run, ca, cb, true);
    let p3 = run_part(run, cb, end, false);
    lemma_run_part(run, start, ca, false);
    lemma_run_part(run, ca, cb, true);
    lemma_run_part(run, cb, end, false);
    lemma_total_concat(p1, p2);
    lemma_total_concat(p1 + p2, p3);
    assert forall|p: int| 0 <= p < run.len implies (#[trigger] style_at(
        split_run(run, start, a, b),
        p,
    )) == (RunModel { len: 0, selected: run.selected || a <= start + p < b, ..run }) by {
        lemma_style_concat(p1 + p2, p3, p);
        if p < total_len(p1 + p2) {
            lemma_style_concat(p1, p2, p);
        }
    }
}

/// Marking a selection keeps the length of a block's runs and the style of every byte, and
/// marks exactly the bytes `a..b`.
pub proof fn lemma_selection_exact(base: Seq<RunModel>, a: int, b: int)
    requires
        lens_nonneg(base),
        forall|i: int| 0 <= i < base.len() ==> !(#[trigger] base[i]).selected,
    ensures
        total_len(selected_runs(base, a, b)) == total_len(base),
        forall|p: int|
            0 <= p < total_len(base) ==> (#[trigger] style_at(selected_runs(base, a, b), p)) == (
            RunModel { selected: a <= p < b, ..style_at(base, p) }),
    decreases base.len(),
{
    if base.len() > 0 {
        let d = base.drop_last();
        let l = base.last();
        assert(base[base.len() - 1] == l);
        assert forall|i: int| 0 <= i < d.len() implies (#[trigger] d[i]).len >= 0
            && !d[i].selected by {
            assert(base[i].len >= 0 && !base[i].selected);
        }
        lemma_selection_exact(d, a, b);
        lemma_total_nonneg(d, 0);
        assert(d.take(0) =~= Seq::<RunModel>::empty());
        let t = total_len(d);
        if a < b {
            lemma_split_run(l, t, a, b);
            lemma_total_concat(split_runs(d, a, b), split_run(l, t, a, b));
            assert forall|p: int| 0 <= p < total_len(base) implies (#[trigger] style_at(
                selected_runs(base, a, b),
                p,
            )) == (RunModel { selected: a <= p < b, ..style_at(base, p) }) by {
                lemma_style_concat(split_runs(d, a, b), split_run(l, t, a, b), p);
                if p < t {
                    assert(style_at(selected_runs(d, a, b), p) == (RunModel {
                        selected: a <= p < b,
                        ..style_at(d, p)
                    }));
                } else {
                    assert(style_at(split_run(l, t, a, b), p - t) == (RunModel {
                        len: 0,
                        selected: l.selected || a <= t + (p - t) < b,
                        ..l
                    }));
                }
            }
        } else {
            assert forall|p: int| 0 <= p < total_len(base) implies (#[trigger] style_at(
                selected_runs(base, a, b),
                p,
            )) == (RunModel { selected: a <= p < b, ..style_at(base, p) }) by {
                if p < t {
                    assert(style_at(selected_runs(d, a, b), p) == (RunModel {
                        selected: a <= p < b,
                        ..style_at(d, p)
                    }));
                }
            }
        }
    }
}

fn clamp_usize(x: usize, lo: usize, hi: usize) -> (r: usize)
    requires
        lo <= hi,
    ensures
        r == clamp(x as int, lo as int, hi as int),
        lo <= r <= hi,
{
    if x < lo {
        lo
    } else if x > hi {
        hi
    } else {
        x
    }
}

fn push_part(out: &mut Vec<MdRun>, run: MdRun, s: usize, e: usize, hot: bool)
    ensures
        run_models(final(out)@) == run_models(old(out)@) + run_part(
            run.model(),
            s as int,
            e as int,
            hot,
        ),
{
    let ghost before = run_models(out@);
    if e > s {
        let part = MdRun { len: e - s, selected: run.selected || hot, ..run };
        out.push(part);
        proof {
            assert(run_models(out@) =~= before + seq![part.model()]);
        }
    } else {
        proof {
            assert(before + Seq::<RunModel>::empty() =~= before);
        }
    }
}

/// The runs of a block in which the bytes `a..b` are selected, split so that the selection
/// starts and ends with a run.
pub fn runs_with_selection(base: &Vec<MdRun>, a: usize, b: usize) -> (out: Vec<MdRun>)
    requires
        total_len(run_models(base@)) <= usize::MAX,
    ensures
        run_models(out@) == selected_runs(run_models(base@), a as int, b as int),
{
    let ghost bm = run_models(base@);
    if a >= b {
        return clone_runs(base);
    }
    let mut out: Vec<MdRun> = Vec::new();
    let mut pos: usize = 0;
    let mut i: usize = 0;
    proof {
        assert(run_models(out@) =~= Seq::<RunModel>::empty());
        assert(bm.take(0) =~= Seq::<RunModel>::empty());
    }
    while i < base.len()
        invariant
            i <= base@.len(),
            a < b,
            bm == run_models(base@),
            total_len(bm) <= usize::MAX,
            pos == total_len(bm.take(i as int)),
            run_models(out@) == split_runs(bm.take(i as int), a as int, b as int),
        decreases base@.len() - i,
    {
        let run = base[i];
        proof {
            assert(bm.take(i + 1).drop_last() =~= bm.take(i as int));
            assert(bm.take(i + 1).last() == run.model());
            assert forall|j: int| 0 <= j < bm.len() implies (#[trigger] bm[j]).len >= 0 by {
                assert(bm[j] == base@[j].model());
            }
            lemma_total_nonneg(bm, i + 1);
        }
        let start: usize = pos;
        let end: usize = pos + run.len;
        pos = end;
        let ca: usize = clamp_usize(a, start, end);
        let cb: usize = clamp_usize(b, start, end);
        let ghost before = run_models(out@);
        push_part(&mut out, run, start, ca, false);
        push_part(&mut out, run, ca, cb, true);
        push_part(&mut out, run, cb, end, false);
        proof {
            assert(run_models(out@) =~= before + split_run(
                run.model(),
                start as int,
                a as int,
                b as int,
            ));
        }
        i += 1;
    }
    proof {
        assert(bm.take(bm.len() as int) =~= bm);
    }
    out
}

fn clone_runs(base: &Vec<MdRun>) -> (out: Vec<MdRun>)
    ensures
        out@ == base@,
{
    let mut out: Vec<MdRun> = Vec::new();
    let mut i: usize = 0;
    while i < base.len()
        invariant
            i <= base@.len(),
            out@ == base@.take(i as int),
        decreases base@.len() - i,
    {
        out.push(base[i]);
        proof {
            assert(base@.take(i + 1) =~= base@.take(i as int).push(base@[i as int]));
        }
        i += 1;
    }
    proof {
        assert(base@.take(base@.len() as int) =~= base@);
    }
    out
}

/// How a position lies to a laid-out block.
#[derive(Debug, Clone, Copy, PartialEq, Eq, Structural)]
pub enum Hit {
    Above,
    /// Inside it, closest to this byte of its text.
    Inside(usize),
    Below,
}

/// A laid-out block and how the position that is asked about lies to it.
#[derive(Debug, Clone, Copy, PartialEq, Eq, Structural)]
pub struct LaidBlock {
    pub byte_start: usize,
    pub text_len: usize,
    pub hit: Hit,
}

/// The offset that a position stands for, asked of the blocks from `i` on, where `best` is the
/// end of the block before.
pub open spec fn offset_of_hits(laid: Seq<LaidBlock>, i: int, best: int) -> int
    decreases laid.len() - i,
{
    if i >= laid.len() {
        best
    } else {
        match laid[i].hit {
            Hit::Above => laid[i].byte_start as int,
            Hit::Inside(k) => laid[i].byte_start + if k < laid[i].text_len {
                k as int
            } else {
                laid[i].text_len as int
            },
            Hit::Below => offset_of_hits(laid, i + 1, laid[i].byte_start + laid[i].text_len),
        }
    }
}

/// The offset in the plain text nearest to a position: the start of the first block that it is
/// above, the byte it is closest to in the block that it is inside, or the end of the last one.
pub fn offset_for_position(laid: &Vec<LaidBlock>) -> (r: usize)
    requires
        forall|i: int|
            0 <= i < laid@.len() ==> (#[trigger] laid@[i]).byte_start + laid@[i].text_len
                <= usize::MAX,
    ensures
        r == offset_of_hits(laid@, 0, 0),
{
    let mut best: usize = 0;
    let mut i: usize = 0;
    while i < laid.len()
        invariant
            i <= laid@.len(),
            offset_of_hits(laid@, 0, 0) == offset_of_hits(laid@, i as int, best as int),
            forall|i: int|
                0 <= i < laid@.len() ==> (#[trigger] laid@[i]).byte_start + laid@[i].text_len
                    <= usize::MAX,
        decreases laid@.len() - i,
    {
        let b = laid[i];
        match b.hit {
            Hit::Above => {
                return b.byte_start;
            },
            Hit::Inside(k) => {
                let within: usize = if k < b.text_len {
                    k
                } else {
                    b.text_len
                };
                return b.byte_start + within;
            },
            Hit::Below => {
                best = b.byte_start + b.text_len;
            },
        }
        i += 1;
    }
    best
}

// ---------------------------------------------------------------------------
// The view
// ---------------------------------------------------------------------------

/// What a view shows of a Markdown source.
pub open spec fn shown(src: Seq<char>) -> Built {
    document(markdown::MdState::run(markdown::markdown_events(src)).out)
}

pub open spec fn option_view(o: Option<String>) -> Option<Seq<char>> {
    match o {
        Some(s) => Some(s@),
        None => None,
    }
}

impl MarkdownView {
    /// The view shows what its source says.
    pub open spec fn wf(&self) -> bool {
        let d = shown(self.src@);
        &&& mdblock_models(self.blocks@) == d.blocks
        &&& self.doc@ == d.doc
        &&& item_models(self.layout@) == d.layout
        &&& self.sel.start <= self.sel.end
    }

    /// Nothing but the selection differs.
    pub open spec fn same_text(&self, other: &Self) -> bool {
        &&& self.src@ == other.src@
        &&& self.blocks@ == other.blocks@
        &&& self.doc@ == other.doc@
        &&& self.layout@ == other.layout@
        &&& option_view(self.base_dir) == option_view(other.base_dir)
    }

    pub fn new(text: &str, base_dir: Option<String>) -> (v: Self)
        ensures
            v.wf(),
            v.src@ == text@,
            v.sel == (0usize..0usize),
            v.anchor == 0,
            !v.selecting,
            v.base_dir == base_dir,
    {
        let (blocks, doc, layout) = build(text);
        MarkdownView {
            src: String::from_str(text),
            blocks,
            doc,
            sel: 0..0,
            anchor: 0,
            selecting: false,
            layout,
            base_dir,
        }
    }

    /// Shows another text. The selection stays where it is if the text is the same. Returns
    /// whether the view has to be drawn again.
    pub fn set_text(&mut self, text: &str, base_dir: Option<String>) -> (r: bool)
        requires
            old(self).wf(),
        ensures
            final(self).wf(),
            final(self).src@ == text@,
            final(self).base_dir == base_dir,
            final(self).anchor == old(self).anchor,
            final(self).selecting == old(self).selecting,
            r == (old(self).src@ != text@),
            final(self).sel == if old(self).src@ == text@ {
                old(self).sel
            } else {
                0usize..0usize
            },
    {
        self.base_dir = base_dir;
        if text::str_eq(self.src.as_str(), text) {
            return false;
        }
        let (blocks, doc, layout) = build(text);
        self.src = String::from_str(text);
        self.blocks = blocks;
        self.doc = doc;
        self.layout = layout;
        self.sel = 0..0;
        true
    }

    /// The selected text, for the clipboard: nothing if the selection is empty or does not
    /// start and end at a character.
    pub fn copy(&self) -> (r: Option<String>)
        requires
            self.wf(),
        ensures
            match r {
                Some(s) => self.sel.start != self.sel.end && buffer::char_range(
                    encode_utf8(self.doc@),
                    self.sel.start as int,
                    self.sel.end as int,
                ) && encode_utf8(s@) == encode_utf8(self.doc@).subrange(
                    self.sel.start as int,
                    self.sel.end as int,
                ),
                None => self.sel.start == self.sel.end || !buffer::char_range(
                    encode_utf8(self.doc@),
                    self.sel.start as int,
                    self.sel.end as int,
                ),
            },
    {
        if self.sel.start == self.sel.end {
            return None;
        }
        buffer::get(self.doc.as_str(), self.sel.start, self.sel.end)
    }

    pub fn select_all(&mut self)
        requires
            old(self).wf(),
        ensures
            final(self).wf(),
            final(self).same_text(old(self)),
            final(self).sel.start == 0,
            final(self).sel.end == text::blen(old(self).doc@),
            final(self).anchor == old(self).anchor,
            final(self).selecting == old(self).selecting,
    {
        let end: usize = buffer::byte_len(self.doc.as_str());
        self.sel = 0..end;
    }

    /// Starts a selection at `off`.
    pub fn on_mouse_down(&mut self, off: usize)
        requires
            old(self).wf(),
        ensures
            final(self).wf(),
            final(self).same_text(old(self)),
            final(self).sel == (off..off),
            final(self).anchor == off,
            final(self).selecting,
    {
        self.anchor = off;
        self.sel = off..off;
        self.selecting = true;
    }

    /// Moves the end of a selection that is being made to `off`. Returns whether one is.
    pub fn on_mouse_move(&mut self, off: usize, dragging: bool) -> (r: bool)
        requires
            old(self).wf(),
        ensures
            final(self).wf(),
            final(self).same_text(old(self)),
            final(self).anchor == old(self).anchor,
            final(self).selecting == old(self).selecting,
            r == (old(self).selecting && dragging),
            final(self).sel == if !r {
                old(self).sel
            } else {
                dragged(old(self).anchor, off)
            },
    {
        if self.selecting && dragging {
            if off < self.anchor {
                self.sel = off..self.anchor;
            } else {
                self.sel = self.anchor..off;
            }
            true
        } else {
            false
        }
    }

    /// Ends the making of a selection.
    pub fn on_mouse_up(&mut self)
        requires
            old(self).wf(),
        ensures
            final(self).wf(),
            final(self).same_text(old(self)),
            final(self).sel == old(self).sel,
            final(self).anchor == old(self).anchor,
            !final(self).selecting,
    {
        self.selecting = false;
    }

    /// The runs of a block, with the part of the selection that lies in it.
    pub fn block_runs(&self, i: usize) -> (out: Vec<MdRun>)
        requires
            self.wf(),
            i < self.blocks@.len(),
        ensures
            ({
                let b = self.blocks@[i as int].model();
                let end = b.byte_start + text::blen(b.text) as int;
                run_models(out@) == selected_runs(
                    b.runs,
                    clamp(self.sel.start as int, b.byte_start, end) - b.byte_start,
                    clamp(self.sel.end as int, b.byte_start, end) - b.byte_start,
                )
            }),
    {
        proof {
            lemma_built_bounds(
                markdown::MdState::run(markdown::markdown_events(self.src@)).out,
                i as int,
            );
            assert(mdblock_models(self.blocks@)[i as int] == self.blocks@[i as int].model());
        }
        let doc_len: usize = buffer::byte_len(self.doc.as_str());
        let b = &self.blocks[i];
        let bs: usize = b.byte_start;
        let be: usize = bs + buffer::byte_len(b.text.as_str());
        let la: usize = clamp_usize(self.sel.start, bs, be) - bs;
        let lb: usize = clamp_usize(self.sel.end, bs, be) - bs;
        runs_with_selection(&b.runs, la, lb)
    }

    /// Where an image comes from: an address is fetched if the program can do so, another source
    /// is a path relative to the directory of the file.
    pub fn image_source(&self, src: &str, remote_images: bool) -> (r: ImageSource)
        ensures
            match r {
                ImageSource::Remote(u) => is_remote(src@) && remote_images && u@ == src@,
                ImageSource::Local(p) => !is_remote(src@) && self.base_dir is Some && p@
                    == path::join(self.base_dir->0@, src@),
                ImageSource::Unavailable => if is_remote(src@) {
                    !remote_images
                } else {
                    self.base_dir is None
                },
            },
    {
        if text::str_starts_with(src, "http://") || text::str_starts_with(src, "https://") {
            if remote_images {
                return ImageSource::Remote(String::from_str(src));
            }
            return ImageSource::Unavailable;
        }
        match &self.base_dir {
            Some(dir) => ImageSource::Local(path::join_paths(dir.as_str(), src)),
            None => ImageSource::Unavailable,
        }
    }
}

/// An image that is fetched from an address.
pub open spec fn is_remote(src: Seq<char>) -> bool {
    text::begins_with(src, "http://"@) || text::begins_with(src, "https://"@)
}

/// What is shown in place of an image that cannot be loaded: its description, or its source.
pub fn image_label(src: &str, alt: &str) -> (r: String)
    ensures
        r@ == label_of(src@, alt@),
{
    let mut s = String::from_str("\u{1F5BC} ");
    if alt.is_empty() {
        s.append(src);
    } else {
        s.append(alt);
    }
    s
}

/// Each block lies within the plain text, and its runs cover its text.
proof fn lemma_built_bounds(blocks: Seq<BlockModel>, i: int)
    requires
        0 <= i < built(blocks).blocks.len(),
    ensures
        ({
            let b = built(blocks).blocks[i];
            &&& 0 <= b.byte_start
            &&& b.byte_start + text::blen(b.text) < text::blen(built(blocks).doc)
            &&& total_len(b.runs) == text::blen(b.text)
        }),
    decreases blocks.len(),
{
    let p = built(blocks.drop_last());
    let q = built(blocks);
    if !(blocks.last() is Image) {
        let r = rendered(blocks.last(), text::blen(p.doc) as int)->0;
        text::lemma_encode_concat(p.doc, r.text.push('\n'));
        text::lemma_encode_push(r.text, '\n');
        text::lemma_char_len('\n');
        if i < p.blocks.len() {
            lemma_built_bounds(blocks.drop_last(), i);
        } else {
            lemma_runs_cover_text(blocks.last(), text::blen(p.doc) as int);
        }
    } else {
        lemma_built_bounds(blocks.drop_last(), i);
    }
}

// ---------------------------------------------------------------------------
// What a reader sees
// ---------------------------------------------------------------------------

/// A block shows its own text: a list item behind a bullet, a rule and an image no text.
pub proof fn lemma_rendered_text(s: Seq<SpanModel>, t: Seq<char>, n: nat, level: u8, at: int)
    ensures
        rendered(BlockModel::Heading(level, s), at)->0.text == markdown::runs_text(s),
        rendered(BlockModel::Paragraph(s), at)->0.text == markdown::runs_text(s),
        rendered(BlockModel::Quote(s), at)->0.text == markdown::runs_text(s),
        rendered(BlockModel::ListItem(n, s), at)->0.text == seq!['\u{2022}', ' ']
            + markdown::runs_text(s),
        rendered(BlockModel::Code(t), at)->0.text == t,
        rendered(BlockModel::Rule, at)->0.text.len() == 0,
        rendered(BlockModel::Image(t, t), at) is None,
{
    lemma_spans_text(s);
}

proof fn lemma_spans_text(s: Seq<SpanModel>)
    ensures
        spans_text(s) == markdown::runs_text(s),
    decreases s.len(),
{
    if s.len() > 0 {
        lemma_spans_text(s.drop_last());
    }
}

/// How blocks look: a heading is larger the higher its level and never smaller than a paragraph;
/// code alone has a background and a quote alone a border; an item stands further in the deeper
/// it is.
pub proof fn lemma_rendered_look(
    b: BlockModel,
    s: Seq<SpanModel>,
    n: nat,
    level: u8,
    lower: u8,
    at: int,
)
    ensures
        1 <= level < lower <= 4 ==> rendered(BlockModel::Heading(level, s), at)->0.size > rendered(
            BlockModel::Heading(lower, s),
            at,
        )->0.size,
        rendered(BlockModel::Heading(level, s), at)->0.size > rendered(
            BlockModel::Paragraph(s),
            at,
        )->0.size,
        rendered(b, at) matches Some(r) ==> (r.filled <==> b is Code) && (r.bordered <==> b is Quote)
            && r.byte_start == at,
        rendered(BlockModel::ListItem(n + 1, s), at)->0.indent > rendered(
            BlockModel::ListItem(n, s),
            at,
        )->0.indent,
        rendered(BlockModel::Paragraph(s), at)->0.indent == 0,
{
}

/// A run keeps the emphasis of its part of the text; those of a heading are bold besides, and
/// code has its own color.
pub proof fn lemma_rendered_runs(s: Seq<SpanModel>, level: u8, n: nat, at: int, i: int)
    requires
        0 <= i < s.len(),
    ensures
        ({
            let h = rendered(BlockModel::Heading(level, s), at)->0.runs;
            let p = rendered(BlockModel::Paragraph(s), at)->0.runs;
            let q = rendered(BlockModel::Quote(s), at)->0.runs;
            let l = rendered(BlockModel::ListItem(n, s), at)->0.runs;
            &&& h.len() == s.len() && p.len() == s.len() && q.len() == s.len() && l.len() == s.len()
                + 1
            &&& h[i].bold
            &&& p[i].bold == s[i].bold && q[i].bold == s[i].bold && l[i + 1].bold == s[i].bold
            &&& h[i].italic == s[i].italic && p[i].italic == s[i].italic
            &&& p[i].code == s[i].code && h[i].code == s[i].code
            &&& p[i].len == text::blen(s[i].text)
            &&& s[i].code ==> p[i].color == MdColor::Code && q[i].color == MdColor::Code
            &&& !s[i].code ==> p[i].color == MdColor::Text && q[i].color == MdColor::Secondary
            &&& l[0].color == MdColor::Bullet
            &&& !p[i].selected && !h[i].selected && !q[i].selected && !l[i + 1].selected
        }),
{
    let l = rendered(BlockModel::ListItem(n, s), at)->0.runs;
    let own = spans_runs(s, MdColor::Text, false);
    assert(l[i + 1] == own[i]);
}

/// The texts of the text blocks.
pub open spec fn block_texts(b: Built) -> Seq<Seq<char>> {
    Seq::new(b.blocks.len(), |i: int| b.blocks[i].text)
}

/// The text blocks, in order.
pub open spec fn text_blocks(blocks: Seq<BlockModel>) -> Seq<BlockModel>
    decreases blocks.len(),
{
    if blocks.len() == 0 {
        Seq::empty()
    } else if blocks.last() is Image {
        text_blocks(blocks.drop_last())
    } else {
        text_blocks(blocks.drop_last()).push(blocks.last())
    }
}

/// The images, in order.
pub open spec fn image_blocks(blocks: Seq<BlockModel>) -> Seq<ItemModel>
    decreases blocks.len(),
{
    if blocks.len() == 0 {
        Seq::empty()
    } else {
        let r = image_blocks(blocks.drop_last());
        match blocks.last() {
            BlockModel::Image(src, alt) => r.push(ItemModel::Image(src, alt)),
            _ => r,
        }
    }
}

/// The images of a layout, in order.
pub open spec fn layout_images(layout: Seq<ItemModel>) -> Seq<ItemModel>
    decreases layout.len(),
{
    if layout.len() == 0 {
        Seq::empty()
    } else if layout.last() is Image {
        layout_images(layout.drop_last()).push(layout.last())
    } else {
        layout_images(layout.drop_last())
    }
}

/// The document shows every block once and in order: each text block as it is rendered, each
/// image with its address and its text. Its plain text is that of the text blocks, a newline
/// behind each.
pub proof fn lemma_document_shows(blocks: Seq<BlockModel>)
    ensures
        ({
            let d = document(blocks);
            let t = text_blocks(blocks);
            &&& d.blocks.len() == t.len()
            &&& forall|i: int|
                0 <= i < t.len() ==> rendered(t[i], d.blocks[i].byte_start) == Some(
                    #[trigger] d.blocks[i],
                )
            &&& d.doc == text::ended_with(block_texts(d), '\n')
            &&& layout_images(d.layout) == image_blocks(blocks)
        }),
{
    lemma_built_shows(blocks);
    let p = built(blocks);
    lemma_closed_images(p);
    assert(block_texts(closed(p)) =~= block_texts(p));
}

proof fn lemma_closed_images(p: Built)
    ensures
        layout_images(closed(p).layout) == layout_images(p.layout),
{
    let q = closed(p);
    if p.blocks.len() > p.covered {
        assert(q.layout.drop_last() =~= p.layout);
    }
}

proof fn lemma_built_shows(blocks: Seq<BlockModel>)
    ensures
        ({
            let d = built(blocks);
            let t = text_blocks(blocks);
            &&& d.blocks.len() == t.len()
            &&& forall|i: int|
                0 <= i < t.len() ==> rendered(t[i], d.blocks[i].byte_start) == Some(
                    #[trigger] d.blocks[i],
                )
            &&& d.doc == text::ended_with(block_texts(d), '\n')
            &&& layout_images(d.layout) == image_blocks(blocks)
        }),
    decreases blocks.len(),
{
    let d = built(blocks);
    if blocks.len() == 0 {
        assert(block_texts(d) =~= Seq::<Seq<char>>::empty());
    } else {
        let p = built(blocks.drop_last());
        lemma_built_shows(blocks.drop_last());
        match blocks.last() {
            BlockModel::Image(src, alt) => {
                let q = closed(p);
                lemma_closed_images(p);
                assert(d.layout.drop_last() =~= q.layout);
                assert(block_texts(d) =~= block_texts(p));
            },
            _ => {
                let t = text_blocks(blocks);
                let td = text_blocks(blocks.drop_last());
                let x = d.blocks.last();
                assert(block_texts(d).drop_last() =~= block_texts(p));
                assert(block_texts(d).last() == x.text);
                assert forall|i: int| 0 <= i < t.len() implies rendered(
                    t[i],
                    d.blocks[i].byte_start,
                ) == Some(#[trigger] d.blocks[i]) by {
                    if i < td.len() {
                        assert(d.blocks[i] == p.blocks[i]);
                        assert(t[i] == td[i]);
                    }
                }
            },
        }
    }
}

/// A position in a block stands for the offset that the block says, at most its end; one above
/// it for its start; and one below all of them for the end of the last.
pub proof fn lemma_offset_of_hits(laid: Seq<LaidBlock>, i: int, k: int, best: int)
    requires
        0 <= i <= k <= laid.len(),
        forall|j: int| i <= j < k ==> (#[trigger] laid[j]).hit is Below,
        k < laid.len() ==> !(laid[k].hit is Below),
    ensures
        k < laid.len() && laid[k].hit is Above ==> offset_of_hits(laid, i, best)
            == laid[k].byte_start,
        k < laid.len() ==> (laid[k].hit matches Hit::Inside(x) ==> offset_of_hits(laid, i, best)
            == laid[k].byte_start + (if x < laid[k].text_len {
            x as int
        } else {
            laid[k].text_len as int
        })),
        k == laid.len() && i < k ==> offset_of_hits(laid, i, best) == laid[k - 1].byte_start
            + laid[k - 1].text_len,
        k == laid.len() && i == k ==> offset_of_hits(laid, i, best) == best,
    decreases k - i,
{
    if i < k {
        assert(laid[i].hit is Below);
        lemma_offset_of_hits(laid, i + 1, k, laid[i].byte_start + laid[i].text_len);
    }
}

/// An address of the web is remote, and a path is not.
pub proof fn lemma_is_remote(rest: Seq<char>, src: Seq<char>)
    ensures
        is_remote("http://"@ + rest),
        is_remote("https://"@ + rest),
        is_remote(src) ==> src.len() >= 7 && src[0] == 'h' && src[1] == 't' && src[2] == 't'
            && src[3] == 'p',
        src.len() > 0 && (src[0] == '/' || src[0] == '.') ==> !is_remote(src),
{
    reveal_strlit("http://");
    reveal_strlit("https://");
    assert("http://"@ =~= seq!['h', 't', 't', 'p', ':', '/', '/']);
    assert("https://"@ =~= seq!['h', 't', 't', 'p', 's', ':', '/', '/']);
    let a = "http://"@ + rest;
    let b = "https://"@ + rest;
    assert(a.subrange(0, 7) =~= "http://"@);
    assert(b.subrange(0, 8) =~= "https://"@);
    if text::begins_with(src, "http://"@) {
        let s = src.subrange(0, 7);
        assert(s[0] == src[0] && s[1] == src[1] && s[2] == src[2] && s[3] == src[3]);
    }
    if text::begins_with(src, "https://"@) {
        let s = src.subrange(0, 8);
        assert(s[0] == src[0] && s[1] == src[1] && s[2] == src[2] && s[3] == src[3]);
    }
}

/// The measures of the blocks: headings by their level, and the rest by their kind.
pub proof fn lemma_block_measures(s: Seq<SpanModel>, t: Seq<char>, n: nat, level: u8, at: int)
    ensures
        rendered(BlockModel::Heading(1, s), at)->0.size == 26,
        rendered(BlockModel::Heading(2, s), at)->0.size == 21,
        rendered(BlockModel::Heading(3, s), at)->0.size == 18,
        level != 1 && level != 2 && level != 3 ==> rendered(
            BlockModel::Heading(level, s),
            at,
        )->0.size == 15,
        rendered(BlockModel::Paragraph(s), at)->0.size == 14,
        rendered(BlockModel::ListItem(n, s), at)->0.size == 14,
        rendered(BlockModel::Quote(s), at)->0.size == 14,
        rendered(BlockModel::Code(t), at)->0.size == 13,
        rendered(BlockModel::Rule, at)->0.size == 8,
        rendered(BlockModel::Heading(level, s), at)->0.top_pad == 10,
        rendered(BlockModel::Paragraph(s), at)->0.top_pad == 4,
        rendered(BlockModel::Code(t), at)->0.top_pad == 4,
        rendered(BlockModel::Quote(s), at)->0.top_pad == 4,
        rendered(BlockModel::ListItem(n, s), at)->0.top_pad == 2,
        rendered(BlockModel::Rule, at)->0.top_pad == 8,
        rendered(BlockModel::ListItem(n, s), at)->0.indent == 14 * n,
        rendered(BlockModel::Quote(s), at)->0.indent == 12,
        rendered(BlockModel::Code(t), at)->0.indent == 0,
        rendered(BlockModel::Code(t), at)->0.runs.len() == 1,
        rendered(BlockModel::Code(t), at)->0.runs[0].code,
{
}

/// The selection of a drag from `anchor` to `off`, in either direction.
pub open spec fn dragged(anchor: usize, off: usize) -> Range<usize> {
    if off < anchor {
        off..anchor
    } else {
        anchor..off
    }
}

/// A drag selects what lies between its two ends, whichever comes first.
pub proof fn lemma_dragged(a: usize, b: usize)
    ensures
        dragged(a, b) == dragged(b, a),
        dragged(a, b).start <= dragged(a, b).end,
        a <= b ==> dragged(a, b).start == a && dragged(a, b).end == b,
{
}

/// What stands for an image that is not shown: a sign, and its text, or its address if it has no
/// text.
pub open spec fn label_of(src: Seq<char>, alt: Seq<char>) -> Seq<char> {
    "\u{1F5BC} "@ + if alt.len() == 0 {
        src
    } else {
        alt
    }
}

/// Behind the sign stands the text of the image, and its address only where there is no text.
pub proof fn lemma_label_of(src: Seq<char>, alt: Seq<char>)
    ensures
        text::begins_with(label_of(src, alt), "\u{1F5BC} "@),
        alt.len() > 0 ==> label_of(src, alt).skip("\u{1F5BC} "@.len() as int) == alt,
        alt.len() == 0 ==> label_of(src, alt).skip("\u{1F5BC} "@.len() as int) == src,
{
    let p = "\u{1F5BC} "@;
    let s = label_of(src, alt);
    assert(s.subrange(0, p.len() as int) =~= p);
    assert(s.skip(p.len() as int) =~= if alt.len() == 0 {
        src
    } else {
        alt
    });
}

} // verus!
