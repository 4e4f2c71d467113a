use crate::scanner::{lemma_run_covers, lemma_run_end, lemma_run_end_inside, run_end, Run, Scanner};
use std::ops::Range;
use vstd::prelude::*;

verus! {

/// The deepest heading level that the marker run can give.
pub const MAX_LEVEL: usize = 6;

/// What one line of the text is read as, with the text it carries.
pub enum Block {
    Heading { level: nat, text: Seq<char> },
    Paragraph { text: Seq<char> },
}

/// The line starting at `p` opens with 1 to 6 markers, then optional
/// spaces, then at least one more character before the line ends.
pub open spec fn heading_at(s: Seq<char>, p: int) -> bool {
    let m = run_end(s, p, Run::Marker);
    let t = run_end(s, m, Run::Space);
    p < m && m - p <= MAX_LEVEL && t < run_end(s, p, Run::Text)
}

/// How the line `s[p..e]` is read: a heading whose title follows the
/// markers and spaces, or else a paragraph holding the whole line.
pub open spec fn block_at(s: Seq<char>, p: int, e: int) -> Block {
    let m = run_end(s, p, Run::Marker);
    let t = run_end(s, m, Run::Space);
    if heading_at(s, p) {
        Block::Heading { level: (m - p) as nat, text: s.subrange(t, e) }
    } else {
        Block::Paragraph { text: s.subrange(p, e) }
    }
}

/// The blocks of `s` from position `p` on: a line break is skipped, and
/// every line that is not empty gives one block.
pub open spec fn blocks_from(s: Seq<char>, p: int) -> Seq<Block>
    decreases s.len() - p,
{
    if p < 0 || p >= s.len() {
        seq![]
    } else if s[p] == '\n' {
        blocks_from(s, p + 1)
    } else {
        proof {
            lemma_run_end(s, p + 1, Run::Text);
        }
        seq![block_at(s, p, run_end(s, p, Run::Text))] + blocks_from(s, run_end(s, p, Run::Text))
    }
}

/// The text that a block carries.
pub open spec fn block_text(b: Block) -> Seq<char> {
    match b {
        Block::Heading { text, .. } => text,
        Block::Paragraph { text } => text,
    }
}

/// A line break where a line would start is skipped: it gives no block.
pub proof fn law_blank_line_skipped(s: Seq<char>, p: int)
    requires
        0 <= p < s.len(),
        s[p] == '\n',
    ensures
        blocks_from(s, p) == blocks_from(s, p + 1),
{
}

/// Every block carries text, and none of it spans a line break: blank
/// lines give no empty paragraphs.
pub proof fn law_blocks_hold_text(s: Seq<char>, p: int)
    requires
        0 <= p,
    ensures
        forall|i: int|
            0 <= i < blocks_from(s, p).len() ==> {
                let t = block_text(#[trigger] blocks_from(s, p)[i]);
                &&& t.len() > 0
                &&& forall|j: int| 0 <= j < t.len() ==> t[j] != '\n'
            },
    decreases s.len() - p,
{
    if p < s.len() {
        if s[p] == '\n' {
            law_blocks_hold_text(s, p + 1);
            assert(blocks_from(s, p) == blocks_from(s, p + 1));
        } else {
            let e = run_end(s, p, Run::Text);
            lemma_run_end(s, p, Run::Text);
            lemma_run_end(s, p + 1, Run::Text);
            law_blocks_hold_text(s, e);
            let m = run_end(s, p, Run::Marker);
            let t = run_end(s, m, Run::Space);
            lemma_run_end(s, p, Run::Marker);
            lemma_run_end(s, m, Run::Space);
            if heading_at(s, p) {
                lemma_run_covers(s, p, t, Run::Text);
            }
            let rest = blocks_from(s, e);
            assert forall|i: int| 0 <= i < blocks_from(s, p).len() implies {
                let t = block_text(#[trigger] blocks_from(s, p)[i]);
                &&& t.len() > 0
                &&& forall|j: int| 0 <= j < t.len() ==> t[j] != '\n'
            } by {
                if i > 0 {
                    assert(blocks_from(s, p)[i] == rest[i - 1]);
                } else {
                    let b = block_at(s, p, e);
                    assert(blocks_from(s, p)[0] == b);
                    let lo = if heading_at(s, p) { t } else { p };
                    assert(block_text(b) =~= s.subrange(lo, e));
                    assert forall|j: int| 0 <= j < e - lo implies s.subrange(lo, e)[j] != '\n' by {
                        assert(Run::Text.admits(s[lo + j]));
                    }
                }
            }
        }
    }
}

/// A run of seven or more markers opens no heading (a heading attempt
/// there fails): the line is read as a paragraph, markers included.
pub proof fn law_seven_markers_paragraph(s: Seq<char>, p: int)
    requires
        0 <= p,
        p + MAX_LEVEL + 1 <= s.len(),
        forall|j: int| p <= j < p + MAX_LEVEL + 1 ==> s[j] == '#',
    ensures
        !heading_at(s, p),
        blocks_from(s, p) == seq![
            Block::Paragraph { text: s.subrange(p, run_end(s, p, Run::Text)) },
        ] + blocks_from(s, run_end(s, p, Run::Text)),
        nodes_from(s, p) == seq![Node::Paragraph { range: span(p, run_end(s, p, Run::Text)) }]
            + nodes_from(s, run_end(s, p, Run::Text)),
{
    lemma_run_covers(s, p, p + MAX_LEVEL + 1, Run::Marker);
}

/// Markers (and spaces) with no title after them before the line ends
/// open no heading (a heading attempt there fails): the line is read as a
/// paragraph.
pub proof fn law_bare_markers_paragraph(s: Seq<char>, p: int)
    requires
        0 <= p < s.len(),
        s[p] == '#',
        run_end(s, run_end(s, p, Run::Marker), Run::Space) == s.len() || s[run_end(
            s,
            run_end(s, p, Run::Marker),
            Run::Space,
        )] == '\n',
    ensures
        !heading_at(s, p),
        blocks_from(s, p) == seq![
            Block::Paragraph { text: s.subrange(p, run_end(s, p, Run::Text)) },
        ] + blocks_from(s, run_end(s, p, Run::Text)),
        nodes_from(s, p) == seq![Node::Paragraph { range: span(p, run_end(s, p, Run::Text)) }]
            + nodes_from(s, run_end(s, p, Run::Text)),
{
    let m = run_end(s, p, Run::Marker);
    let t = run_end(s, m, Run::Space);
    lemma_run_end(s, p, Run::Marker);
    lemma_run_end(s, m, Run::Space);
    lemma_run_covers(s, p, t, Run::Text);
    lemma_run_end_inside(s, p, t, Run::Text);
}

/// The range from `start` to `end`, as positions.
pub open spec fn span(start: int, end: int) -> Range<usize> {
    Range { start: start as usize, end: end as usize }
}

/// The node that the line `s[p..e]` is read as: a heading whose range is
/// its title, from after the markers and spaces to the end of the line,
/// or else a paragraph whose range is the whole line.
pub open spec fn node_at(s: Seq<char>, p: int, e: int) -> Node {
    let m = run_end(s, p, Run::Marker);
    let t = run_end(s, m, Run::Space);
    if heading_at(s, p) {
        Node::Heading { level: (m - p) as usize, range: span(t, e) }
    } else {
        Node::Paragraph { range: span(p, e) }
    }
}

/// The nodes of `s` from position `p` on, line by line as
/// [`blocks_from`] reads the blocks.
pub open spec fn nodes_from(s: Seq<char>, p: int) -> Seq<Node>
    decreases s.len() - p,
{
    if p < 0 || p >= s.len() {
        seq![]
    } else if s[p] == '\n' {
        nodes_from(s, p + 1)
    } else {
        proof {
            lemma_run_end(s, p + 1, Run::Text);
        }
        seq![node_at(s, p, run_end(s, p, Run::Text))] + nodes_from(s, run_end(s, p, Run::Text))
    }
}

/// Nodes lie in `s` at or after `p`, each on one line and not empty, in
/// the order of the text without overlapping; headings have levels 1 to 6.
pub open spec fn nodes_in_order(nodes: Seq<Node>, s: Seq<char>, p: int) -> bool {
    &&& forall|i: int|
        0 <= i < nodes.len() ==> {
            let r = (#[trigger] nodes[i]).range_of();
            &&& p <= r.start < r.end <= s.len()
            &&& forall|j: int| r.start <= j < r.end ==> s[j] != '\n'
            &&& nodes[i] matches Node::Heading { level, .. } ==> 1 <= level <= MAX_LEVEL
        }
    &&& forall|i: int|
        0 <= i < nodes.len() - 1 ==> (#[trigger] nodes[i]).range_of().end < nodes[i
            + 1].range_of().start
}

/// The nodes of a text come in its order, one per line that is not
/// empty, with ranges that do not overlap.
pub proof fn law_nodes_in_order(s: Seq<char>, p: int)
    requires
        0 <= p,
        s.len() <= usize::MAX,
    ensures
        nodes_in_order(nodes_from(s, p), s, p),
    decreases s.len() - p,
{
    if p < s.len() {
        if s[p] == '\n' {
            law_nodes_in_order(s, p + 1);
            assert(nodes_from(s, p) == nodes_from(s, p + 1));
        } else {
            let e = run_end(s, p, Run::Text);
            let m = run_end(s, p, Run::Marker);
            let t = run_end(s, m, Run::Space);
            lemma_run_end(s, p, Run::Text);
            lemma_run_end(s, p + 1, Run::Text);
            lemma_run_end(s, p, Run::Marker);
            lemma_run_end(s, m, Run::Space);
            if heading_at(s, p) {
                lemma_run_covers(s, p, t, Run::Text);
            }
            let n0 = node_at(s, p, e);
            let lo = if heading_at(s, p) { t } else { p };
            assert(n0.range_of().start == lo && n0.range_of().end == e);
            let rest = nodes_from(s, e);
            let bound = if e < s.len() { e + 1 } else { e };
            if e < s.len() {
                law_nodes_in_order(s, e + 1);
                assert(rest == nodes_from(s, e + 1));
            }
            let all = nodes_from(s, p);
            assert(all == seq![n0] + rest);
            assert forall|i: int| 0 <= i < all.len() implies {
                let r = (#[trigger] all[i]).range_of();
                &&& p <= r.start < r.end <= s.len()
                &&& forall|j: int| r.start <= j < r.end ==> s[j] != '\n'
                &&& all[i] matches Node::Heading { level, .. } ==> 1 <= level <= MAX_LEVEL
            } by {
                if i > 0 {
                    assert(all[i] == rest[i - 1]);
                } else {
                    assert forall|j: int| lo <= j < e implies s[j] != '\n' by {
                        assert(Run::Text.admits(s[j]));
                    }
                }
            }
            assert forall|i: int| 0 <= i < all.len() - 1 implies (#[trigger] all[i]).range_of().end
                < all[i + 1].range_of().start by {
                assert(all[i + 1] == rest[i]);
                if i > 0 {
                    assert(all[i] == rest[i - 1]);
                } else {
                    assert(bound <= rest[0].range_of().start);
                }
            }
        }
    }
}

/// The blocks of a whole text.
pub open spec fn parse_blocks(s: Seq<char>) -> Seq<Block> {
    blocks_from(s, 0)
}

pub open spec fn heading_open(level: nat) -> Seq<char> {
    if level == 1 {
        "<h1>"@
    } else if level == 2 {
        "<h2>"@
    } else if level == 3 {
        "<h3>"@
    } else if level == 4 {
        "<h4>"@
    } else if level == 5 {
        "<h5>"@
    } else {
        "<h6>"@
    }
}

pub open spec fn heading_close(level: nat) -> Seq<char> {
    if level == 1 {
        "</h1>\n"@
    } else if level == 2 {
        "</h2>\n"@
    } else if level == 3 {
        "</h3>\n"@
    } else if level == 4 {
        "</h4>\n"@
    } else if level == 5 {
        "</h5>\n"@
    } else {
        "</h6>\n"@
    }
}

/// A paragraph's text between paragraph tags, with a line break after.
pub open spec fn paragraph_html(text: Seq<char>) -> Seq<char> {
    "<p>"@ + text + "</p>\n"@
}

/// One block as markup; the text goes in as it is, unescaped.
pub open spec fn block_html(b: Block) -> Seq<char> {
    match b {
        Block::Heading { level, text } => heading_open(level) + text + heading_close(level),
        Block::Paragraph { text } => paragraph_html(text),
    }
}

/// The markup of blocks, one after the other.
pub open spec fn blocks_html(bs: Seq<Block>) -> Seq<char>
    decreases bs.len(),
{
    if bs.len() == 0 {
        seq![]
    } else {
        blocks_html(bs.drop_last()) + block_html(bs.last())
    }
}

/// A heading or a paragraph, as a range of character positions into the
/// text it was read from (the line break that ends it is not included).
pub enum Node {
    Heading { level: usize, range: Range<usize> },
    Paragraph { range: Range<usize> },
}

impl Node {
    pub open spec fn range_of(&self) -> Range<usize> {
        match self {
            Node::Heading { range, .. } => *range,
            Node::Paragraph { range } => *range,
        }
    }

    /// The range lies inside a text of length `len`.
    pub open spec fn fits(&self, len: int) -> bool {
        self.range_of().start <= self.range_of().end <= len
    }

    /// The block that this node stands for in the text `s`.
    pub open spec fn block_in(&self, s: Seq<char>) -> Block {
        match self {
            Node::Heading { level, range } => Block::Heading {
                level: *level as nat,
                text: s.subrange(range.start as int, range.end as int),
            },
            Node::Paragraph { range } => Block::Paragraph {
                text: s.subrange(range.start as int, range.end as int),
            },
        }
    }
}

/// Renders a text of the markdown dialect as markup, block by block.
pub fn md_to_html(input: String) -> (r: String)
    ensures
        r@ == blocks_html(parse_blocks(input@)),
{
    Parser::new(input).parse().to_html()
}

fn heading_open_tag(level: usize) -> (r: &'static str)
    ensures
        r@ == heading_open(level as nat),
{
    match level {
        1 => "<h1>",
        2 => "<h2>",
        3 => "<h3>",
        4 => "<h4>",
        5 => "<h5>",
        _ => "<h6>",
    }
}

fn heading_close_tag(level: usize) -> (r: &'static str)
    ensures
        r@ == heading_close(level as nat),
{
    match level {
        1 => "</h1>\n",
        2 => "</h2>\n",
        3 => "</h3>\n",
        4 => "</h4>\n",
        5 => "</h5>\n",
        _ => "</h6>\n",
    }
}

/// Every node lies inside a text of length `len`.
pub open spec fn all_fit(nodes: Seq<Node>, len: int) -> bool {
    forall|i: int| 0 <= i < nodes.len() ==> (#[trigger] nodes[i]).fits(len)
}

/// Reads a text into a flat sequence of nodes.
pub struct Parser {
    input: String,
    scanner: Scanner,
    nodes: Vec<Node>,
}

impl Parser {
    pub closed spec fn text(&self) -> Seq<char> {
        self.input@
    }

    /// The nodes read so far, as ranges.
    pub closed spec fn node_seq(&self) -> Seq<Node> {
        self.nodes@
    }

    pub closed spec fn pos(&self) -> int {
        self.scanner.pos()
    }

    /// The blocks read so far.
    pub open spec fn blocks(&self) -> Seq<Block> {
        self.node_seq().map_values(|n: Node| n.block_in(self.text()))
    }

    /// Every node read so far lies inside the text.
    pub open spec fn nodes_fit(&self) -> bool {
        all_fit(self.node_seq(), self.text().len() as int)
    }

    pub closed spec fn wf(&self) -> bool {
        &&& self.scanner.wf()
        &&& self.scanner.text() == self.input@
        &&& self.nodes_fit()
    }

    pub proof fn lemma_wf(&self)
        requires
            self.wf(),
        ensures
            0 <= self.pos() <= self.text().len(),
            self.nodes_fit(),
    {
    }

    /// The nodes, for the grouping into slides.
    pub fn nodes(&self) -> (r: &Vec<Node>)
        ensures
            r@ == self.node_seq(),
    {
        &self.nodes
    }

    /// The text that the nodes' ranges point into.
    pub fn input(&self) -> (r: &String)
        ensures
            r@ == self.text(),
    {
        &self.input
    }

    pub fn new(input: String) -> (p: Parser)
        ensures
            p.wf(),
            p.text() == input@,
            p.pos() == 0,
            p.node_seq().len() == 0,
    {
        Parser { scanner: Scanner::new(input.clone()), input, nodes: Vec::new() }
    }

    /// Reads the whole text: at each position a heading is tried first,
    /// then a paragraph line, then a line break is skipped.
    pub fn parse(self) -> (r: Self)
        requires
            self.wf(),
            self.pos() == 0,
            self.node_seq().len() == 0,
        ensures
            r.wf(),
            r.text() == self.text(),
            r.pos() == r.text().len(),
            r.node_seq() == nodes_from(self.text(), 0),
            nodes_in_order(r.node_seq(), r.text(), 0),
            r.blocks() == parse_blocks(self.text()),
    {
        let mut parser = self;
        let ghost s = parser.input@;
        assert(parser.blocks() + blocks_from(s, 0) =~= parse_blocks(s));
        assert(parser.node_seq() + nodes_from(s, 0) =~= nodes_from(s, 0));
        loop
            invariant
                parser.wf(),
                parser.text() == s,
                parser.blocks() + blocks_from(s, parser.pos()) == parse_blocks(s),
                parser.node_seq() + nodes_from(s, parser.pos()) == nodes_from(s, 0),
            ensures
                parser.wf(),
                parser.text() == s,
                parser.pos() == s.len(),
                parser.blocks() == parse_blocks(s),
                parser.node_seq() == nodes_from(s, 0),
            decreases s.len() - parser.pos(),
        {
            let ghost p = parser.pos();
            let ghost before = parser.blocks();
            let ghost before_nodes = parser.node_seq();
            proof {
                parser.lemma_wf();
                lemma_run_end(s, p, Run::Marker);
                lemma_run_end(s, p, Run::Text);
            }
            if let Some(heading) = parser.parse_heading() {
                parser.nodes.push(heading);
                proof {
                    parser.lemma_pushed(before, before_nodes, s, heading, p);
                    parser.lemma_pushed_node(before_nodes, s, heading, p);
                }
            } else if let Some(paragraph) = parser.parse_paragraph() {
                parser.nodes.push(paragraph);
                proof {
                    parser.lemma_pushed(before, before_nodes, s, paragraph, p);
                    parser.lemma_pushed_node(before_nodes, s, paragraph, p);
                }
            } else if let Some(_) = parser.scanner.peek() {
                parser.scanner.advance();
            } else {
                assert(parser.blocks() + blocks_from(s, parser.pos()) =~= parser.blocks());
                assert(parser.node_seq() + nodes_from(s, parser.pos()) =~= parser.node_seq());
                break;
            }
        }
        proof {
            parser.lemma_wf();
            law_nodes_in_order(s, 0);
        }
        parser
    }

    proof fn lemma_pushed_node(&self, before_nodes: Seq<Node>, s: Seq<char>, n: Node, p: int)
        requires
            0 <= p < s.len(),
            s[p] != '\n',
            self.node_seq() == before_nodes.push(n),
            n == node_at(s, p, run_end(s, p, Run::Text)),
            before_nodes + nodes_from(s, p) == nodes_from(s, 0),
        ensures
            self.node_seq() + nodes_from(s, run_end(s, p, Run::Text)) == nodes_from(s, 0),
    {
        let e = run_end(s, p, Run::Text);
        assert(before_nodes + nodes_from(s, p) =~= self.node_seq() + nodes_from(s, e));
    }

    proof fn lemma_pushed(
        &self,
        before: Seq<Block>,
        before_nodes: Seq<Node>,
        s: Seq<char>,
        n: Node,
        p: int,
    )
        requires
            self.text() == s,
            0 <= p < s.len(),
            s[p] != '\n',
            self.node_seq() == before_nodes.push(n),
            before_nodes.map_values(|n: Node| n.block_in(s)) == before,
            n.block_in(s) == block_at(s, p, run_end(s, p, Run::Text)),
            before + blocks_from(s, p) == parse_blocks(s),
        ensures
            self.blocks() + blocks_from(s, run_end(s, p, Run::Text)) == parse_blocks(s),
    {
        let e = run_end(s, p, Run::Text);
        assert(self.blocks() =~= before.push(n.block_in(s)));
        assert(before + blocks_from(s, p) =~= self.blocks() + blocks_from(s, e));
    }

    /// Renders every node as markup, in order.
    pub fn to_html(&self) -> (r: String)
        requires
            self.wf(),
        ensures
            r@ == blocks_html(self.blocks()),
    {
        let mut result = String::new();
        let n = self.nodes.len();
        for i in 0..n
            invariant
                n == self.node_seq().len(),
                self.wf(),
                result@ == blocks_html(self.blocks().take(i as int)),
        {
            proof {
                assert(self.node_seq()[i as int].fits(self.text().len() as int));
            }
            match &self.nodes[i] {
                Node::Heading { level, range } => {
                    result.append(heading_open_tag(*level));
                    result.append(self.input.as_str().substring_char(range.start, range.end));
                    result.append(heading_close_tag(*level));
                },
                Node::Paragraph { range } => {
                    result.append("<p>");
                    result.append(self.input.as_str().substring_char(range.start, range.end));
                    result.append("</p>\n");
                },
            }
            proof {
                let bs = self.blocks();
                assert(bs.take(i + 1).drop_last() =~= bs.take(i as int));
                assert(bs.take(i + 1).last() == bs[i as int]);
            }
        }
        proof {
            assert(self.blocks().take(n as int) =~= self.blocks());
        }
        result
    }

    /// Tries to read a heading at the cursor; on failure the cursor is
    /// back where it was. The line break after the title is not consumed.
    fn parse_heading(&mut self) -> (r: Option<Node>)
        requires
            old(self).wf(),
        ensures
            final(self).wf(),
            final(self).input == old(self).input,
            final(self).nodes == old(self).nodes,
            r is Some <==> heading_at(old(self).text(), old(self).pos()),
            r is None ==> final(self).pos() == old(self).pos(),
            r matches Some(n) ==> ({
                let s = old(self).text();
                let p = old(self).pos();
                &&& final(self).pos() == run_end(s, p, Run::Text)
                &&& n.fits(s.len() as int)
                &&& n == node_at(s, p, run_end(s, p, Run::Text))
                &&& n.block_in(s) == block_at(s, p, run_end(s, p, Run::Text))
            }),
    {
        let ghost s = self.input@;
        let ghost p = self.scanner.pos();
        self.scanner.save_cursor();

        let level_start = self.scanner.cursor();
        proof {
            lemma_run_end(s, p, Run::Marker);
        }
        self.scanner.take_while(Run::Marker);
        let level_end = self.scanner.cursor();

        let level = level_end - level_start;
        if !(level_end > level_start && level <= MAX_LEVEL) {
            self.scanner.restore_cursor();
            return None;
        }

        self.scanner.take_while(Run::Space);

        let start = self.scanner.cursor();
        proof {
            let m = level_end as int;
            lemma_run_end(s, m, Run::Space);
            lemma_run_end(s, p, Run::Text);
            lemma_run_covers(s, p, start as int, Run::Text);
            lemma_run_end_inside(s, p, start as int, Run::Text);
        }
        if !self.scanner.take_while(Run::Text) {
            self.scanner.restore_cursor();
            return None;
        }
        let end = self.scanner.cursor();

        Some(Node::Heading { level, range: start..end })
    }

    /// Tries to read a paragraph line at the cursor; on failure (an empty
    /// line, or the end of the text) the cursor is back where it was.
    fn parse_paragraph(&mut self) -> (r: Option<Node>)
        requires
            old(self).wf(),
        ensures
            final(self).wf(),
            final(self).input == old(self).input,
            final(self).nodes == old(self).nodes,
            r is Some <==> (old(self).pos() < old(self).text().len() && old(self).text()[old(
                self,
            ).pos()] != '\n'),
            r is None ==> final(self).pos() == old(self).pos(),
            r matches Some(n) ==> ({
                let s = old(self).text();
                let p = old(self).pos();
                &&& final(self).pos() == run_end(s, p, Run::Text)
                &&& n.fits(s.len() as int)
                &&& n == Node::Paragraph { range: span(p, run_end(s, p, Run::Text)) }
                &&& n.block_in(s) == Block::Paragraph { text: s.subrange(p, run_end(s, p, Run::Text)) }
            }),
    {
        self.scanner.save_cursor();

        let start = self.scanner.cursor();
        proof {
            lemma_run_end(self.input@, start as int, Run::Text);
        }
        if !self.scanner.take_while(Run::Text) {
            self.scanner.restore_cursor();
            return None;
        }
        let end = self.scanner.cursor();

        Some(Node::Paragraph { range: start..end })
    }
}

} // verus!
