use crate::base::OperatorKind;
use crate::literal::{decimal_text, Literal};
use vstd::prelude::*;

verus! {

/// An expression tree: a number, or an operator over two subtrees that it
/// owns.
#[derive(Debug, PartialEq, Eq)]
pub enum Node {
    Number(Literal),
    Operation(OperatorKind, Box<Node>, Box<Node>),
}

/// The mathematical form of an expression tree.
pub enum Expr {
    Number(nat),
    Operation(OperatorKind, Box<Expr>, Box<Expr>),
}

impl Node {
    /// The tree as a mathematical value.
    pub open spec fn expr(&self) -> Expr
        decreases self,
    {
        match self {
            Node::Number(n) => Expr::Number(n@),
            Node::Operation(op, left, right) => Expr::Operation(
                *op,
                Box::new(left.expr()),
                Box::new(right.expr()),
            ),
        }
    }
}

impl View for Node {
    type V = Expr;

    open spec fn view(&self) -> Expr {
        self.expr()
    }
}

impl Expr {
    /// The number of operators on the longest path from the root to a leaf.
    pub open spec fn depth(self) -> nat
        decreases self,
    {
        match self {
            Expr::Number(_) => 0,
            Expr::Operation(_, left, right) => {
                let l = left.depth();
                let r = right.depth();
                1 + if l >= r {
                    l
                } else {
                    r
                }
            },
        }
    }
}

impl Node {
    /// Whether the tree is at most `limit` operators deep.
    pub fn depth_within(&self, limit: usize) -> (b: bool)
        ensures
            b == (self@.depth() <= limit),
        decreases self,
    {
        match self {
            Node::Number(_) => true,
            Node::Operation(_, left, right) => {
                limit >= 1 && left.depth_within(limit - 1) && right.depth_within(limit - 1)
            },
        }
    }
}

/// Whether the columns of the entries `0..=k` ascend strictly.
pub open spec fn ascending_to(bars: Seq<(usize, usize)>, k: int) -> bool {
    forall|a: int, b: int| #![trigger bars[a], bars[b]] 0 <= a < b <= k ==> bars[a].0 < bars[b].0
}

/// Whether a bar is drawn in `column`: some entry stands at that column, and
/// the entries up to it ascend strictly. (The entries are taken in order, so
/// one that does not lie to the right of its predecessors hides itself and
/// all that follow it.)
pub open spec fn bar_at(bars: Seq<(usize, usize)>, column: int) -> bool {
    exists|k: int| 0 <= k < bars.len() && #[trigger] bars[k].0 == column && ascending_to(bars, k)
}

/// The character in `column` of a padding that is `width` wide: a bar where
/// one is drawn; else a dash in the last four columns of a padding that leads
/// to a node; else a blank.
pub open spec fn padding_char(
    bars: Seq<(usize, usize)>,
    column: int,
    width: int,
    is_end: bool,
) -> char {
    if bar_at(bars, column) {
        '|'
    } else if width - column <= 4 && !is_end {
        '-'
    } else {
        ' '
    }
}

/// The padding of `width` columns for the given pending bars.
pub open spec fn padding_text(bars: Seq<(usize, usize)>, width: nat, is_end: bool) -> Seq<char> {
    Seq::new(width, |column: int| padding_char(bars, column, width as int, is_end))
}

/// The pending bars after a padding was drawn. A padding that leads to a node
/// uses up one of the children that the innermost bar waits for, and the bar
/// leaves when none is left; a closing padding changes nothing.
pub open spec fn bars_after(bars: Seq<(usize, usize)>, is_end: bool) -> Seq<(usize, usize)> {
    if is_end || bars.len() == 0 {
        bars
    } else if bars.last().1 == 1 {
        bars.drop_last()
    } else {
        bars.drop_last().push((bars.last().0, (bars.last().1 - 1) as usize))
    }
}

/// Draws the padding of `padding_size` columns that stands before a node
/// (`is_end` false) or closes an operator's block (`is_end` true), and
/// updates the pending bars. Each entry of `bar_position` is a column and
/// the number of children still to come below it.
pub fn make_padding(
    bar_position: &mut Vec<(usize, usize)>,
    padding_size: usize,
    is_end: bool,
) -> (padding: String)
    requires
        !is_end && old(bar_position).len() > 0 ==> old(bar_position)@.last().1 > 0,
    ensures
        padding@ == padding_text(old(bar_position)@, padding_size as nat, is_end),
        final(bar_position)@ == bars_after(old(bar_position)@, is_end),
{
    let ghost bars = bar_position@;
    let ghost text = padding_text(bars, padding_size as nat, is_end);
    let mut padding = String::new();
    let mut bar: usize = 0;
    let mut i: usize = 0;
    while i < padding_size
        invariant
            bar_position@ == bars,
            text == padding_text(bars, padding_size as nat, is_end),
            i <= padding_size,
            bar <= bars.len(),
            padding@ == text.take(i as int),
            ascending_to(bars, bar - 1),
            forall|j: int| 0 <= j < bar ==> (#[trigger] bars[j]).0 < i,
            bar < bars.len() && ascending_to(bars, bar as int) ==> bars[bar as int].0 >= i,
        decreases padding_size - i,
    {
        if bar < bar_position.len() && bar_position[bar].0 == i {
            proof {
                assert(ascending_to(bars, bar as int));
                assert(bar_at(bars, i as int));
            }
            padding.push('|');
            bar += 1;
        } else {
            proof {
                assert(!bar_at(bars, i as int)) by {
                    if bar_at(bars, i as int) {
                        let k = choose|k: int|
                            0 <= k < bars.len() && #[trigger] bars[k].0 == i && ascending_to(
                                bars,
                                k,
                            );
                        if k > bar {
                            assert(ascending_to(bars, bar as int));
                            assert(bars[bar as int].0 < bars[k].0);
                        }
                    }
                }
            }
            padding.push(
                if padding_size - i <= 4 && !is_end {
                    '-'
                } else {
                    ' '
                },
            );
        }
        proof {
            assert(text.take(i + 1) =~= text.take(i as int).push(text[i as int]));
        }
        i += 1;
    }
    proof {
        assert(text.take(i as int) =~= text);
    }
    if !is_end {
        let n = bar_position.len();
        if n > 0 {
            let (column, count) = bar_position[n - 1];
            bar_position.pop();
            if count > 1 {
                bar_position.push((column, count - 1));
            }
        }
    }
    padding
}

/// The bars that are pending once the node under the ancestors `guides` is
/// drawn. `guides[j]` tells whether the ancestor at depth `j` has a child
/// still to come; such an ancestor keeps a bar in column `4 * j`.
pub open spec fn pending(guides: Seq<bool>) -> Seq<(usize, usize)>
    decreases guides.len(),
{
    if guides.len() == 0 {
        Seq::empty()
    } else if guides.last() {
        pending(guides.drop_last()).push(((4 * (guides.len() - 1)) as usize, 1usize))
    } else {
        pending(guides.drop_last())
    }
}

/// The bars that are pending when the node under the ancestors `guides` is
/// about to be drawn: its parent still waits for it.
pub open spec fn awaiting(guides: Seq<bool>) -> Seq<(usize, usize)> {
    if guides.len() == 0 {
        Seq::empty()
    } else {
        pending(guides.drop_last()).push(
            (
                (4 * (guides.len() - 1)) as usize,
                if guides.last() {
                    2usize
                } else {
                    1usize
                },
            ),
        )
    }
}

/// The closing padding under the ancestors `guides`: four columns for each
/// ancestor, a bar in the first of them where the ancestor has a child still
/// to come, blanks elsewhere.
pub open spec fn rails(guides: Seq<bool>) -> Seq<char> {
    Seq::new(
        4 * guides.len(),
        |column: int|
            if column % 4 == 0 && guides[column / 4] {
                '|'
            } else {
                ' '
            },
    )
}

/// The padding before a node under the ancestors `guides`: as `rails`, but
/// the parent's four columns are a bar and three dashes.
pub open spec fn lead(guides: Seq<bool>) -> Seq<char> {
    Seq::new(
        4 * guides.len(),
        |column: int|
            if column / 4 == guides.len() - 1 {
                if column % 4 == 0 {
                    '|'
                } else {
                    '-'
                }
            } else if column % 4 == 0 && guides[column / 4] {
                '|'
            } else {
                ' '
            },
    )
}

/// The diagram of a tree that stands under the ancestors `guides`. A number
/// is one line: its lead and its decimal digits. An operator is its lead and
/// its symbol, then the diagram of its left subtree, then that of its right
/// subtree, then the closing padding, each on a line of its own.
pub open spec fn diagram_under(e: Expr, guides: Seq<bool>) -> Seq<char>
    decreases e,
{
    match e {
        Expr::Number(n) => lead(guides) + decimal_text(n),
        Expr::Operation(op, left, right) => lead(guides) + seq![op.spec_symbol(), '\n']
            + diagram_under(*left, guides.push(true)) + seq!['\n'] + diagram_under(
            *right,
            guides.push(false),
        ) + seq!['\n'] + rails(guides),
    }
}

/// The diagram of a whole tree.
pub open spec fn diagram(e: Expr) -> Seq<char> {
    diagram_under(e, Seq::empty())
}

proof fn lemma_pending(guides: Seq<bool>)
    requires
        4 * guides.len() <= usize::MAX,
    ensures
        forall|k: int|
            0 <= k < pending(guides).len() ==> {
                let column = (#[trigger] pending(guides)[k]).0 as int;
                &&& column % 4 == 0
                &&& column / 4 < guides.len()
                &&& guides[column / 4]
            },
        ascending_to(pending(guides), pending(guides).len() - 1),
        forall|j: int|
            0 <= j < guides.len() && #[trigger] guides[j] ==> bar_at(pending(guides), 4 * j),
    decreases guides.len(),
{
    if guides.len() > 0 {
        let front = guides.drop_last();
        lemma_pending(front);
        let p = pending(front);
        let q = pending(guides);
        let top = 4 * (guides.len() - 1);
        assert forall|j: int| 0 <= j < guides.len() && #[trigger] guides[j] implies bar_at(
            q,
            4 * j,
        ) by {
            if j < front.len() {
                assert(front[j]);
                let k = choose|k: int|
                    0 <= k < p.len() && #[trigger] p[k].0 == 4 * j && ascending_to(p, k);
                assert(q[k].0 == 4 * j);
                assert(ascending_to(q, k));
            } else {
                assert(q[q.len() - 1].0 == top);
                assert(ascending_to(q, q.len() - 1));
            }
        }
    }
}

proof fn lemma_bar_at_pending(guides: Seq<bool>, column: int)
    requires
        4 * guides.len() <= usize::MAX,
    ensures
        bar_at(pending(guides), column) <==> (0 <= column < 4 * guides.len() && column % 4 == 0
            && guides[column / 4]),
{
    lemma_pending(guides);
    if bar_at(pending(guides), column) {
        let k = choose|k: int|
            0 <= k < pending(guides).len() && #[trigger] pending(guides)[k].0 == column
                && ascending_to(pending(guides), k);
        assert(guides[column / 4]);
    }
    if 0 <= column < 4 * guides.len() && column % 4 == 0 && guides[column / 4] {
        assert(4 * (column / 4) == column);
    }
}

proof fn lemma_bar_at_awaiting(guides: Seq<bool>, column: int)
    requires
        4 * guides.len() <= usize::MAX,
        guides.len() > 0,
    ensures
        bar_at(awaiting(guides), column) <==> (column == 4 * (guides.len() - 1) || bar_at(
            pending(guides.drop_last()),
            column,
        )),
{
    let front = guides.drop_last();
    let p = pending(front);
    let a = awaiting(guides);
    let top = 4 * (guides.len() - 1);
    lemma_pending(front);
    if bar_at(a, column) {
        let k = choose|k: int|
            0 <= k < a.len() && #[trigger] a[k].0 == column && ascending_to(a, k);
        if k < p.len() {
            assert(p[k].0 == column);
            assert(ascending_to(p, k));
        }
    }
    if column == top {
        assert(a[a.len() - 1].0 == top);
        assert(ascending_to(a, a.len() - 1));
    }
    if bar_at(p, column) {
        let k = choose|k: int|
            0 <= k < p.len() && #[trigger] p[k].0 == column && ascending_to(p, k);
        assert(a[k].0 == column);
        assert(ascending_to(a, k));
    }
}

/// With the bars that await a node, the padding before it is its lead, and
/// drawing it leaves the bars that are pending under the node.
proof fn lemma_lead(guides: Seq<bool>)
    requires
        4 * guides.len() <= usize::MAX,
    ensures
        padding_text(awaiting(guides), 4 * guides.len(), false) == lead(guides),
        bars_after(awaiting(guides), false) == pending(guides),
        awaiting(guides).len() > 0 ==> awaiting(guides).last().1 > 0,
{
    let text = padding_text(awaiting(guides), 4 * guides.len(), false);
    if guides.len() > 0 {
        let front = guides.drop_last();
        assert forall|column: int| 0 <= column < text.len() implies text[column] == lead(
            guides,
        )[column] by {
            lemma_bar_at_awaiting(guides, column);
            lemma_bar_at_pending(front, column);
        }
        assert(awaiting(guides).drop_last() =~= pending(front));
    }
    assert(text =~= lead(guides));
    assert(bars_after(awaiting(guides), false) =~= pending(guides));
}

/// With the bars that are pending under a node, its closing padding is its
/// rails.
proof fn lemma_rails(guides: Seq<bool>)
    requires
        4 * guides.len() <= usize::MAX,
    ensures
        padding_text(pending(guides), 4 * guides.len(), true) == rails(guides),
{
    let text = padding_text(pending(guides), 4 * guides.len(), true);
    assert forall|column: int| 0 <= column < text.len() implies text[column] == rails(
        guides,
    )[column] by {
        lemma_bar_at_pending(guides, column);
    }
    assert(text =~= rails(guides));
}

fn draw_string_internal(
    node: &Node,
    padding_size: usize,
    bar_position: &mut Vec<(usize, usize)>,
    Ghost(guides): Ghost<Seq<bool>>,
) -> (text: String)
    requires
        padding_size == 4 * guides.len(),
        padding_size + 4 * node@.depth() <= usize::MAX,
        old(bar_position)@ == awaiting(guides),
    ensures
        text@ == diagram_under(node@, guides),
        final(bar_position)@ == pending(guides),
    decreases node,
{
    proof {
        lemma_lead(guides);
        lemma_rails(guides);
    }
    let mut text = make_padding(bar_position, padding_size, false);
    match node {
        Node::Number(num) => {
            let digits = num.to_string();
            text.append(digits.as_str());
        },
        Node::Operation(op, left, right) => {
            bar_position.push((padding_size, 2));
            proof {
                assert(guides.push(true).drop_last() =~= guides);
                assert(guides.push(false).drop_last() =~= guides);
            }
            let left = draw_string_internal(
                left,
                padding_size + 4,
                bar_position,
                Ghost(guides.push(true)),
            );
            let right = draw_string_internal(
                right,
                padding_size + 4,
                bar_position,
                Ghost(guides.push(false)),
            );
            let padding_end = make_padding(bar_position, padding_size, true);
            text.push(op.symbol());
            text.push('\n');
            text.append(left.as_str());
            text.push('\n');
            text.append(right.as_str());
            text.push('\n');
            text.append(padding_end.as_str());
            proof {
                assert(text@ =~= diagram_under(node@, guides));
            }
        },
    }
    text
}

/// Draws the diagram of a tree.
pub fn draw_string(node: &Node) -> (text: String)
    requires
        4 * node@.depth() <= usize::MAX,
    ensures
        text@ == diagram(node@),
{
    let mut bar_position: Vec<(usize, usize)> = Vec::new();
    draw_string_internal(node, 0, &mut bar_position, Ghost(Seq::empty()))
}

/// The outline of a tree, the plain way to show it: every node on a line of
/// its own after the indentation `tab`, an operator before its left and its
/// right subtree, and each level one tab further in. No line follows the
/// last one.
pub open spec fn outline(e: Expr, tab: Seq<char>) -> Seq<char>
    decreases e,
{
    match e {
        Expr::Number(n) => tab + decimal_text(n),
        Expr::Operation(op, left, right) => tab + seq![op.spec_symbol(), '\n'] + outline(
            *left,
            tab.push('\t'),
        ) + seq!['\n'] + outline(*right, tab.push('\t')),
    }
}

/// Draws the outline of a tree that is indented by `tab`.
pub fn draw_outline(node: &Node, tab: String) -> (text: String)
    ensures
        text@ == outline(node@, tab@),
    decreases node,
{
    let ghost indent = tab@;
    let mut text = tab.clone();
    match node {
        Node::Number(num) => {
            let digits = num.to_string();
            text.append(digits.as_str());
        },
        Node::Operation(op, left, right) => {
            let mut inner = tab;
            inner.push('\t');
            let left = draw_outline(left, inner.clone());
            let right = draw_outline(right, inner);
            text.push(op.symbol());
            text.push('\n');
            text.append(left.as_str());
            text.push('\n');
            text.append(right.as_str());
            proof {
                assert(text@ =~= outline(node@, indent));
            }
        },
    }
    text
}

} // verus!
