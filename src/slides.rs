use crate::parser::{
    block_at, block_text, blocks_from, heading_at, paragraph_html, parse_blocks, Block, Node,
    Parser, MAX_LEVEL,
};
use crate::scanner::{lemma_run_covers, lemma_run_end, lemma_run_end_inside, run_end, Run};
use vstd::prelude::*;

verus! {

/// A slide as a value: its title and its paragraphs, in order.
pub struct SlideView {
    pub title: Seq<char>,
    pub paragraphs: Seq<Seq<char>>,
}

/// A deck as a value: its slides, and the cursor, `-1` before the first
/// step.
pub struct DeckView {
    pub slides: Seq<SlideView>,
    pub current: int,
}

/// Closes the open slide, if there is one.
pub open spec fn close(done: Seq<SlideView>, open: Option<SlideView>) -> Seq<SlideView> {
    match open {
        Some(sl) => done.push(sl),
        None => done,
    }
}

/// One step of the grouping: a heading closes the open slide and opens a
/// new one under its title; a paragraph joins the open slide, opening one
/// without a title if there is none.
pub open spec fn group_step(done: Seq<SlideView>, open: Option<SlideView>, b: Block) -> (
    Seq<SlideView>,
    Option<SlideView>,
) {
    match b {
        Block::Heading { text, .. } => (
            close(done, open),
            Some(SlideView { title: text, paragraphs: seq![] }),
        ),
        Block::Paragraph { text } => (
            done,
            Some(
                match open {
                    Some(sl) => SlideView { title: sl.title, paragraphs: sl.paragraphs.push(text) },
                    None => SlideView { title: seq![], paragraphs: seq![text] },
                },
            ),
        ),
    }
}

/// The closed slides and the open one after grouping the blocks `bs`.
pub open spec fn group_state(bs: Seq<Block>) -> (Seq<SlideView>, Option<SlideView>)
    decreases bs.len(),
{
    if bs.len() == 0 {
        (seq![], None)
    } else {
        let st = group_state(bs.drop_last());
        group_step(st.0, st.1, bs.last())
    }
}

/// The slides that the blocks `bs` are grouped into.
pub open spec fn group(bs: Seq<Block>) -> Seq<SlideView> {
    close(group_state(bs).0, group_state(bs).1)
}

/// The slides of a text.
pub open spec fn slides_of(s: Seq<char>) -> Seq<SlideView> {
    group(parse_blocks(s))
}

/// The lines of `s` from `p` on that are not empty, in order.
pub open spec fn lines_from(s: Seq<char>, p: int) -> Seq<Seq<char>>
    decreases s.len() - p,
{
    if p < 0 || p >= s.len() {
        seq![]
    } else if s[p] == '\n' {
        lines_from(s, p + 1)
    } else {
        proof {
            lemma_run_end(s, p + 1, Run::Text);
        }
        seq![s.subrange(p, run_end(s, p, Run::Text))] + lines_from(s, run_end(s, p, Run::Text))
    }
}

/// `q` is where a line of `s` starts.
pub open spec fn line_start(s: Seq<char>, q: int) -> bool {
    0 <= q < s.len() && (q == 0 || s[q - 1] == '\n')
}

/// No line of `s` is read as a heading.
pub open spec fn no_heading_line(s: Seq<char>) -> bool {
    forall|q: int| line_start(s, q) ==> !heading_at(s, q)
}

proof fn lemma_headingless_blocks(s: Seq<char>, p: int)
    requires
        0 <= p,
        p == 0 || p >= s.len() || s[p - 1] == '\n' || s[p] == '\n',
        no_heading_line(s),
    ensures
        forall|i: int|
            0 <= i < blocks_from(s, p).len() ==> (#[trigger] blocks_from(s, p)[i]) is Paragraph,
        blocks_from(s, p).map_values(|b: Block| block_text(b)) == lines_from(s, p),
    decreases s.len() - p,
{
    if p < s.len() {
        if s[p] == '\n' {
            lemma_headingless_blocks(s, p + 1);
            assert(blocks_from(s, p) == blocks_from(s, p + 1));
        } else {
            let e = run_end(s, p, Run::Text);
            lemma_run_end(s, p, Run::Text);
            lemma_run_end(s, p + 1, Run::Text);
            assert(line_start(s, p));
            lemma_headingless_blocks(s, e);
            let rest = blocks_from(s, e);
            let all = blocks_from(s, p);
            assert(all == seq![block_at(s, p, e)] + rest);
            assert forall|i: int| 0 <= i < all.len() implies (#[trigger] all[i]) is Paragraph by {
                if i > 0 {
                    assert(all[i] == rest[i - 1]);
                }
            }
            assert(all.map_values(|b: Block| block_text(b)) =~= seq![s.subrange(p, e)]
                + rest.map_values(|b: Block| block_text(b)));
        }
    }
}

proof fn lemma_some_block(s: Seq<char>, p: int, q: int)
    requires
        0 <= p <= q < s.len(),
        s[q] != '\n',
    ensures
        blocks_from(s, p).len() > 0,
    decreases q - p,
{
    if s[p] == '\n' {
        lemma_some_block(s, p + 1, q);
    }
}

/// A text with no heading line and at least one line that is not empty
/// makes exactly one slide: no title, and every line that is not empty,
/// in order, as its paragraphs.
pub proof fn law_headingless_text(s: Seq<char>)
    requires
        no_heading_line(s),
        exists|q: int| 0 <= q < s.len() && s[q] != '\n',
    ensures
        slides_of(s) == seq![SlideView { title: seq![], paragraphs: lines_from(s, 0) }],
{
    let q = choose|q: int| 0 <= q < s.len() && s[q] != '\n';
    lemma_some_block(s, 0, q);
    lemma_headingless_blocks(s, 0);
    law_headingless_single_slide(parse_blocks(s));
}

/// How many headings there are among the blocks.
pub open spec fn heading_count(bs: Seq<Block>) -> nat
    decreases bs.len(),
{
    if bs.len() == 0 {
        0
    } else {
        heading_count(bs.drop_last()) + if bs.last() is Heading {
            1nat
        } else {
            0nat
        }
    }
}

/// The blocks open with text that comes before any heading.
pub open spec fn leads_with_text(bs: Seq<Block>) -> bool {
    bs.len() > 0 && bs[0] is Paragraph
}

proof fn lemma_count_state(bs: Seq<Block>)
    ensures
        group_state(bs).0.len() + (if group_state(bs).1 is Some {
            1int
        } else {
            0int
        }) == heading_count(bs) + (if leads_with_text(bs) {
            1int
        } else {
            0int
        }),
        group_state(bs).1 is None <==> bs.len() == 0,
    decreases bs.len(),
{
    if bs.len() > 0 {
        lemma_count_state(bs.drop_last());
        if bs.len() > 1 {
            assert(bs.drop_last()[0] == bs[0]);
        }
    }
}

/// There is one slide per heading, and one more when text comes before
/// the first heading; back-to-back headings give a slide each.
pub proof fn law_slide_count(bs: Seq<Block>)
    ensures
        group(bs).len() == heading_count(bs) + (if leads_with_text(bs) {
            1int
        } else {
            0int
        }),
{
    lemma_count_state(bs);
}

proof fn lemma_closed_prefix(bs: Seq<Block>, j: int, k: int)
    requires
        0 <= j <= k <= bs.len(),
    ensures
        group_state(bs.take(j)).0.len() <= group_state(bs.take(k)).0.len(),
        forall|x: int|
            0 <= x < group_state(bs.take(j)).0.len() ==> #[trigger] group_state(bs.take(k)).0[x]
                == group_state(bs.take(j)).0[x],
    decreases k - j,
{
    if j < k {
        lemma_closed_prefix(bs, j, k - 1);
        assert(bs.take(k).drop_last() =~= bs.take(k - 1));
    }
}

/// Of two headings in a row, the first gives a slide with its title and
/// no paragraphs, at the place that the headings before it and any
/// leading text leave for it.
pub proof fn law_back_to_back_headings(bs: Seq<Block>, i: int)
    requires
        0 <= i,
        i + 1 < bs.len(),
        bs[i] is Heading,
        bs[i + 1] is Heading,
    ensures
        ({
            let k = heading_count(bs.take(i + 1)) + (if leads_with_text(bs) {
                1int
            } else {
                0int
            }) - 1;
            &&& 0 <= k < group(bs).len()
            &&& group(bs)[k] == SlideView { title: block_text(bs[i]), paragraphs: seq![] }
        }),
{
    let first = bs.take(i + 1);
    let second = bs.take(i + 2);
    assert(first.drop_last() =~= bs.take(i));
    assert(second.drop_last() =~= first);
    assert(first.last() == bs[i]);
    assert(second.last() == bs[i + 1]);
    lemma_count_state(first);
    assert(first[0] == bs[0]);
    lemma_closed_prefix(bs, i + 2, bs.len() as int);
    assert(bs.take(bs.len() as int) =~= bs);
}

/// How many lines of `s` from `p` on are heading lines.
pub open spec fn heading_lines(s: Seq<char>, p: int) -> nat
    decreases s.len() - p,
{
    if p < 0 || p >= s.len() {
        0
    } else if s[p] == '\n' {
        heading_lines(s, p + 1)
    } else {
        proof {
            lemma_run_end(s, p + 1, Run::Text);
        }
        (if heading_at(s, p) {
            1nat
        } else {
            0nat
        }) + heading_lines(s, run_end(s, p, Run::Text))
    }
}

/// The first line of `s` from `p` on that is not empty is not a heading.
pub open spec fn text_before_heading(s: Seq<char>, p: int) -> bool
    decreases s.len() - p,
{
    if p < 0 || p >= s.len() {
        false
    } else if s[p] == '\n' {
        text_before_heading(s, p + 1)
    } else {
        !heading_at(s, p)
    }
}

proof fn lemma_heading_count_concat(a: Seq<Block>, b: Seq<Block>)
    ensures
        heading_count(a + b) == heading_count(a) + heading_count(b),
    decreases b.len(),
{
    if b.len() > 0 {
        lemma_heading_count_concat(a, b.drop_last());
        assert((a + b).drop_last() =~= a + b.drop_last());
        assert((a + b).last() == b.last());
    } else {
        assert(a + b =~= a);
    }
}

proof fn lemma_heading_lines(s: Seq<char>, p: int)
    requires
        0 <= p,
    ensures
        heading_count(blocks_from(s, p)) == heading_lines(s, p),
        leads_with_text(blocks_from(s, p)) == text_before_heading(s, p),
    decreases s.len() - p,
{
    if p < s.len() {
        if s[p] == '\n' {
            lemma_heading_lines(s, p + 1);
            assert(blocks_from(s, p) == blocks_from(s, p + 1));
        } else {
            let e = run_end(s, p, Run::Text);
            lemma_run_end(s, p + 1, Run::Text);
            lemma_heading_lines(s, e);
            let first = seq![block_at(s, p, e)];
            assert(first.drop_last() =~= Seq::<Block>::empty());
            assert(heading_count(Seq::<Block>::empty()) == 0);
            assert(block_at(s, p, e) is Heading <==> heading_at(s, p));
            assert(heading_count(first) == if heading_at(s, p) {
                1nat
            } else {
                0nat
            });
            lemma_heading_count_concat(first, blocks_from(s, e));
            assert(blocks_from(s, p) == first + blocks_from(s, e));
            assert(blocks_from(s, p)[0] == block_at(s, p, e));
        }
    } else {
        assert(blocks_from(s, p) == Seq::<Block>::empty());
    }
}

/// There is one slide per heading line of the text, and one more when a
/// line of text comes before the first heading line.
pub proof fn law_slide_count_text(s: Seq<char>)
    ensures
        slides_of(s).len() == heading_lines(s, 0) + (if text_before_heading(s, 0) {
            1int
        } else {
            0int
        }),
{
    lemma_heading_lines(s, 0);
    law_slide_count(parse_blocks(s));
}

/// Blocks without a heading, and at least one of them, make exactly one
/// slide: no title, and every paragraph in order.
pub proof fn law_headingless_single_slide(bs: Seq<Block>)
    requires
        bs.len() > 0,
        forall|i: int| 0 <= i < bs.len() ==> (#[trigger] bs[i]) is Paragraph,
    ensures
        group(bs) == seq![
            SlideView { title: seq![], paragraphs: bs.map_values(|b: Block| block_text(b)) },
        ],
    decreases bs.len(),
{
    lemma_headingless_state(bs);
    assert(group(bs) =~= seq![
        SlideView { title: seq![], paragraphs: bs.map_values(|b: Block| block_text(b)) },
    ]);
}

proof fn lemma_headingless_state(bs: Seq<Block>)
    requires
        bs.len() > 0,
        forall|i: int| 0 <= i < bs.len() ==> (#[trigger] bs[i]) is Paragraph,
    ensures
        group_state(bs).0.len() == 0,
        group_state(bs).1 == Some(
            SlideView { title: seq![], paragraphs: bs.map_values(|b: Block| block_text(b)) },
        ),
    decreases bs.len(),
{
    let last = bs.last();
    assert(bs[bs.len() - 1] is Paragraph);
    if bs.len() > 1 {
        let init = bs.drop_last();
        assert forall|i: int| 0 <= i < init.len() implies (#[trigger] init[i]) is Paragraph by {
            assert(init[i] == bs[i]);
        }
        lemma_headingless_state(init);
        assert(bs.map_values(|b: Block| block_text(b)) =~= init.map_values(
            |b: Block| block_text(b),
        ).push(block_text(last)));
    } else {
        assert(bs.map_values(|b: Block| block_text(b)) =~= seq![block_text(last)]);
    }
}

/// A text of one heading line and one paragraph line.
pub open spec fn heading_then_body(level: nat, title: Seq<char>, body: Seq<char>) -> Seq<char> {
    Seq::new(level, |i: int| '#') + seq![' '] + title + seq!['\n'] + body
}

/// A heading line at any level followed by a paragraph line makes one
/// slide, which renders the title as a second-level heading and then the
/// paragraph.
proof fn lemma_one_paragraph_html(title: Seq<char>, body: Seq<char>)
    ensures
        slide_html(SlideView { title, paragraphs: seq![body] }) == "<h2>"@ + title + "</h2>\n"@
            + "<p>"@ + body + "</p>\n"@,
{
    let ps = seq![body];
    assert(ps.drop_last() =~= Seq::<Seq<char>>::empty());
    assert(paragraphs_html(Seq::<Seq<char>>::empty()) == Seq::<char>::empty());
    assert(ps.last() == body);
    assert(paragraphs_html(ps) =~= "<p>"@ + body + "</p>\n"@);
    assert(slide_html(SlideView { title, paragraphs: ps }) =~= "<h2>"@ + title + "</h2>\n"@
        + "<p>"@ + body + "</p>\n"@);
}

proof fn lemma_heading_then_body_blocks(level: nat, title: Seq<char>, body: Seq<char>)
    requires
        1 <= level <= MAX_LEVEL,
        title.len() > 0,
        title[0] != ' ',
        forall|i: int| 0 <= i < title.len() ==> title[i] != '\n',
        body.len() > 0,
        body[0] != '#',
        forall|i: int| 0 <= i < body.len() ==> body[i] != '\n',
    ensures
        parse_blocks(heading_then_body(level, title, body)) == seq![
            Block::Heading { level, text: title },
            Block::Paragraph { text: body },
        ],
{
    let s = heading_then_body(level, title, body);
    let l = level as int;
    let e = l + 1 + title.len();
    assert(s.len() == e + 1 + body.len());
    assert forall|i: int| 0 <= i < l implies s[i] == '#' by {}
    assert(s[l] == ' ');
    assert(s[l + 1] == title[0]);
    assert forall|i: int| l + 1 <= i < e implies s[i] == title[i - l - 1] by {}
    assert(s[e] == '\n');
    assert forall|i: int| e + 1 <= i < s.len() implies s[i] == body[i - e - 1] by {}

    // The marker run, the space after it, and the line.
    lemma_run_covers(s, 0, l, Run::Marker);
    lemma_run_end_inside(s, 0, l, Run::Marker);
    lemma_run_covers(s, l, l + 1, Run::Space);
    lemma_run_end_inside(s, l, l + 1, Run::Space);
    assert forall|i: int| 0 <= i < e implies Run::Text.admits(s[i]) by {
        if l + 1 <= i {
            assert(s[i] == title[i - l - 1]);
        }
    }
    lemma_run_covers(s, 0, e, Run::Text);
    lemma_run_end_inside(s, 0, e, Run::Text);
    assert(heading_at(s, 0));
    assert(block_at(s, 0, e) == Block::Heading { level, text: title }) by {
        assert(s.subrange(l + 1, e) =~= title);
    }

    // The body line.
    let b = e + 1;
    assert(s[b] == body[0]);
    assert(run_end(s, b, Run::Marker) == b);
    assert forall|i: int| b <= i < s.len() implies Run::Text.admits(s[i]) by {
        assert(s[i] == body[i - b]);
    }
    lemma_run_covers(s, b, s.len() as int, Run::Text);
    lemma_run_end(s, b, Run::Text);
    assert(!heading_at(s, b));
    assert(s.subrange(b, s.len() as int) =~= body);
    assert(block_at(s, b, s.len() as int) == Block::Paragraph { text: body });
    assert(blocks_from(s, s.len() as int) == Seq::<Block>::empty());
    let h = Block::Heading { level, text: title };
    let pg = Block::Paragraph { text: body };
    assert(blocks_from(s, b) =~= seq![pg]);
    assert(blocks_from(s, e) == blocks_from(s, b));
    assert(parse_blocks(s) =~= seq![h, pg]);

}

pub proof fn law_heading_then_body(level: nat, title: Seq<char>, body: Seq<char>)
    requires
        1 <= level <= MAX_LEVEL,
        title.len() > 0,
        title[0] != ' ',
        forall|i: int| 0 <= i < title.len() ==> title[i] != '\n',
        body.len() > 0,
        body[0] != '#',
        forall|i: int| 0 <= i < body.len() ==> body[i] != '\n',
    ensures
        slides_of(heading_then_body(level, title, body)) == seq![
            SlideView { title, paragraphs: seq![body] },
        ],
        slide_html(SlideView { title, paragraphs: seq![body] }) == "<h2>"@ + title + "</h2>\n"@
            + "<p>"@ + body + "</p>\n"@,
{
    lemma_heading_then_body_blocks(level, title, body);
    let h = Block::Heading { level, text: title };
    let pg = Block::Paragraph { text: body };
    let bs = seq![h, pg];
    assert(bs.drop_last() =~= seq![h]);
    assert(seq![h].drop_last() =~= Seq::<Block>::empty());
    let sl = SlideView { title, paragraphs: seq![body] };
    let opened = SlideView { title, paragraphs: seq![] };
    assert(group_state(Seq::<Block>::empty()) == (Seq::<SlideView>::empty(), None::<SlideView>));
    assert(group_state(seq![h]) == (Seq::<SlideView>::empty(), Some(opened)));
    assert(opened.paragraphs.push(body) =~= seq![body]);
    assert(group_state(bs) == (Seq::<SlideView>::empty(), Some(sl)));
    assert(group(bs) =~= seq![sl]);
    assert(sl.paragraphs.drop_last() =~= Seq::<Seq<char>>::empty());
    lemma_one_paragraph_html(title, body);
}

/// Paragraphs as markup, one after the other.
pub open spec fn paragraphs_html(ps: Seq<Seq<char>>) -> Seq<char>
    decreases ps.len(),
{
    if ps.len() == 0 {
        seq![]
    } else {
        paragraphs_html(ps.drop_last()) + paragraph_html(ps.last())
    }
}

/// A slide as markup: the title always as a second-level heading, then
/// the paragraphs.
pub open spec fn slide_html(sl: SlideView) -> Seq<char> {
    "<h2>"@ + sl.title + "</h2>\n"@ + paragraphs_html(sl.paragraphs)
}

/// One slide: a title (possibly empty) and its paragraphs.
pub struct Slide {
    title: String,
    paragraphs: Vec<String>,
}

impl View for Slide {
    type V = SlideView;

    closed spec fn view(&self) -> SlideView {
        SlideView { title: self.title@, paragraphs: self.paragraphs@.map_values(|p: String| p@) }
    }
}

impl Slide {
    /// The title; empty for a slide of text that came before any heading.
    pub fn title(&self) -> (r: &str)
        ensures
            r@ == self@.title,
    {
        self.title.as_str()
    }

    /// How many paragraphs the slide has.
    pub fn paragraph_count(&self) -> (r: usize)
        ensures
            r == self@.paragraphs.len(),
    {
        self.paragraphs.len()
    }

    /// The paragraph at `i`.
    pub fn paragraph(&self, i: usize) -> (r: &str)
        requires
            i < self@.paragraphs.len(),
        ensures
            r@ == self@.paragraphs[i as int],
    {
        self.paragraphs[i].as_str()
    }

    /// Renders the slide as markup; the text goes in unescaped.
    pub fn to_html(&self) -> (r: String)
        ensures
            r@ == slide_html(self@),
    {
        let mut result = String::new();

        result.append("<h2>");
        result.append(self.title.as_str());
        result.append("</h2>\n");
        let ghost head = result@;
        let n = self.paragraphs.len();
        for i in 0..n
            invariant
                n == self.paragraphs@.len(),
                head == "<h2>"@ + self.title@ + "</h2>\n"@,
                result@ == head + paragraphs_html(self@.paragraphs.take(i as int)),
        {
            result.append("<p>");
            result.append(self.paragraphs[i].as_str());
            result.append("</p>\n");
            proof {
                let ps = self@.paragraphs;
                assert(ps.take(i + 1).drop_last() =~= ps.take(i as int));
                assert(ps.take(i + 1).last() == ps[i as int]);
            }
        }
        proof {
            assert(self@.paragraphs.take(n as int) =~= self@.paragraphs);
        }
        result
    }
}

/// The slides as values.
pub open spec fn views(v: Seq<Slide>) -> Seq<SlideView> {
    v.map_values(|sl: Slide| sl@)
}

pub open spec fn view_opt(o: Option<Slide>) -> Option<SlideView> {
    match o {
        Some(sl) => Some(sl@),
        None => None,
    }
}

/// Groups the blocks of a text into a deck, positioned before its first
/// slide.
pub fn md_to_slides(input: String) -> (r: Slides)
    ensures
        r@.slides == slides_of(input@),
        r@.current == -1,
{
    let parser = Parser::new(input).parse();
    let nodes = parser.nodes();
    let text = parser.input().as_str();
    let ghost bs = parser.blocks();
    proof {
        parser.lemma_wf();
    }

    let mut slides: Vec<Slide> = Vec::new();
    let mut next_slide: Option<Slide> = None;

    let n = nodes.len();
    for i in 0..n
        invariant
            n == nodes@.len(),
            nodes@ == parser.node_seq(),
            text@ == parser.text(),
            parser.nodes_fit(),
            bs == parser.blocks(),
            views(slides@) == group_state(bs.take(i as int)).0,
            view_opt(next_slide) == group_state(bs.take(i as int)).1,
    {
        proof {
            assert(bs.take(i + 1).drop_last() =~= bs.take(i as int));
            assert(bs.take(i + 1).last() == bs[i as int]);
            assert(nodes@[i as int].fits(text@.len() as int));
        }
        match &nodes[i] {
            Node::Heading { range, .. } => {
                if let Some(slide) = next_slide {
                    slides.push(slide);
                    proof {
                        assert(views(slides@) =~= views(slides@.drop_last()).push(slide@));
                    }
                }
                let title = text.substring_char(range.start, range.end).to_owned();
                next_slide = Some(Slide { title, paragraphs: Vec::new() });
                proof {
                    assert(next_slide.unwrap()@.paragraphs =~= Seq::<Seq<char>>::empty());
                }
            },
            Node::Paragraph { range } => {
                let paragraph = text.substring_char(range.start, range.end).to_owned();
                let ghost old_next = next_slide;
                let mut slide = match next_slide {
                    Some(sl) => sl,
                    None => Slide { title: String::new(), paragraphs: Vec::new() },
                };
                let ghost before = slide@;
                proof {
                    assert(view_opt(old_next) is None ==> before.title =~= Seq::<char>::empty());
                    assert(view_opt(old_next) is None ==> before.paragraphs =~= Seq::<Seq<char>>::empty());
                }
                slide.paragraphs.push(paragraph);
                proof {
                    assert(slide@.paragraphs =~= before.paragraphs.push(paragraph@));
                    assert(slide@.title == before.title);
                }
                next_slide = Some(slide);
            },
        }
    }
    proof {
        assert(bs.take(n as int) =~= bs);
    }
    if let Some(slide) = next_slide {
        slides.push(slide);
    }
    Slides { current: None, slides }
}

/// A deck of slides with a cursor that steps through it.
pub struct Slides {
    current: Option<usize>,
    slides: Vec<Slide>,
}

impl View for Slides {
    type V = DeckView;

    closed spec fn view(&self) -> DeckView {
        DeckView {
            slides: views(self.slides@),
            current: match self.current {
                Some(i) => i as int,
                None => -1,
            },
        }
    }
}

/// Where the cursor goes on a step forward: one on, unless it is on the
/// last slide already.
pub open spec fn next_cursor(len: int, current: int) -> int {
    if current < len - 1 {
        current + 1
    } else {
        current
    }
}

/// Where the cursor goes on a step back: one back, unless it is on the
/// first slide or before it.
pub open spec fn previous_cursor(current: int) -> int {
    if current > 0 {
        current - 1
    } else {
        current
    }
}

/// The slide under the cursor, if the cursor is on one.
pub open spec fn shown(slides: Seq<SlideView>, current: int) -> Option<SlideView> {
    if 0 <= current < slides.len() {
        Some(slides[current])
    } else {
        None
    }
}

/// An empty deck shows no slide, whatever steps are taken.
pub proof fn law_empty_deck_shows_nothing(current: int)
    ensures
        shown(seq![], next_cursor(0, current)) is None,
        shown(seq![], previous_cursor(current)) is None,
{
}

pub open spec fn ref_view(r: Option<&Slide>) -> Option<SlideView> {
    match r {
        Some(sl) => Some(sl@),
        None => None,
    }
}

impl Slides {
    #[verifier::type_invariant]
    spec fn cursor_in_deck(&self) -> bool {
        match self.current {
            Some(i) => i < self.slides@.len(),
            None => true,
        }
    }

    /// An empty deck, before its first step.
    pub fn new() -> (r: Self)
        ensures
            r@.slides.len() == 0,
            r@.current == -1,
    {
        Slides { current: None, slides: Vec::new() }
    }

    /// Steps forward, stopping on the last slide, and returns the slide
    /// under the cursor; `None` only for an empty deck.
    pub fn next(&mut self) -> (r: Option<&Slide>)
        ensures
            final(self)@.slides == old(self)@.slides,
            final(self)@.current == next_cursor(old(self)@.slides.len() as int, old(self)@.current),
            final(self)@.current == -1 || 0 <= final(self)@.current < final(self)@.slides.len(),
            ref_view(r) == shown(final(self)@.slides, final(self)@.current),
    {
        proof {
            use_type_invariant(&*self);
        }
        let len = self.slides.len();
        match self.current {
            None => {
                if len > 0 {
                    self.current = Some(0);
                }
            },
            Some(i) => {
                if i + 1 < len {
                    self.current = Some(i + 1);
                }
            },
        }
        self.slide_at_cursor()
    }

    /// Steps back, stopping on the first slide, and returns the slide under
    /// the cursor; `None` before the first step forward.
    pub fn previous(&mut self) -> (r: Option<&Slide>)
        ensures
            final(self)@.slides == old(self)@.slides,
            final(self)@.current == previous_cursor(old(self)@.current),
            final(self)@.current == -1 || 0 <= final(self)@.current < final(self)@.slides.len(),
            ref_view(r) == shown(final(self)@.slides, final(self)@.current),
    {
        proof {
            use_type_invariant(&*self);
        }
        if let Some(i) = self.current {
            if i > 0 {
                self.current = Some(i - 1);
            }
        }
        self.slide_at_cursor()
    }

    /// How many slides the deck holds.
    pub fn len(&self) -> (r: usize)
        ensures
            r == self@.slides.len(),
    {
        self.slides.len()
    }

    fn slide_at_cursor(&self) -> (r: Option<&Slide>)
        ensures
            ref_view(r) == shown(self@.slides, self@.current),
    {
        proof {
            use_type_invariant(self);
        }
        match self.current {
            Some(i) => Some(&self.slides[i]),
            None => None,
        }
    }
}

} // verus!
