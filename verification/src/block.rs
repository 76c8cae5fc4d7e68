//! The blocks of an RTL module that suspicious cover points are mapped to:
//! ports, `always` blocks and continuous assignments, with the source lines
//! each covers.
use vstd::prelude::*;

use crate::state_tracker::str_eq;

verus! {

/// Whether an `always` block is combinational or sequential.
#[derive(Clone, Copy, Debug, PartialEq, Eq, Hash, Structural)]
pub enum CircuitType {
    COMB,
    SEQ,
}

/// The kind of a block.
#[derive(Clone, Copy, Debug, PartialEq, Eq, Hash, Structural)]
pub enum BlockType {
    ModuleInput,
    ModuleOutput,
    Always(CircuitType),
    Assign,
}

/// A parsed RTL block: only the metadata needed for fault localization.
pub trait Block {
    fn bid(&self) -> u64;

    fn module_name(&self) -> &str;

    fn scope(&self) -> &str;

    fn block_type(&self) -> &BlockType;

    /// The source lines the block covers.
    fn line_ranges(&self) -> Vec<u32>;
}

/// A block of a module instance.
#[derive(Clone, Debug)]
pub struct DataFlowBlock {
    bid: u64,
    module_name: String,
    scope: String,
    block_type: BlockType,
    lines: Vec<u32>,
}

impl DataFlowBlock {
    pub closed spec fn bid_view(&self) -> u64 {
        self.bid
    }

    pub closed spec fn module_name_view(&self) -> Seq<char> {
        self.module_name@
    }

    pub closed spec fn scope_view(&self) -> Seq<char> {
        self.scope@
    }

    pub closed spec fn block_type_view(&self) -> BlockType {
        self.block_type
    }

    pub closed spec fn lines_view(&self) -> Seq<u32> {
        self.lines@
    }

    /// A block with no lines yet.
    pub fn new(bid: u64, module_name: &str, scope: &str, block_type: BlockType) -> (b: Self)
        ensures
            b.bid_view() == bid,
            b.module_name_view() == module_name@,
            b.scope_view() == scope@,
            b.block_type_view() == block_type,
            b.lines_view() == Seq::<u32>::empty(),
    {
        DataFlowBlock {
            bid,
            module_name: module_name.to_owned(),
            scope: scope.to_owned(),
            block_type,
            lines: Vec::new(),
        }
    }

    /// Records that the block covers `line`, once.
    pub fn add_line(&mut self, line: u32)
        ensures
            final(self).bid_view() == old(self).bid_view(),
            final(self).module_name_view() == old(self).module_name_view(),
            final(self).scope_view() == old(self).scope_view(),
            final(self).block_type_view() == old(self).block_type_view(),
            final(self).lines_view() == (if old(self).lines_view().contains(line) {
                old(self).lines_view()
            } else {
                old(self).lines_view().push(line)
            }),
    {
        let mut i: usize = 0;
        while i < self.lines.len()
            invariant
                i <= self.lines@.len(),
                forall|k: int| 0 <= k < i ==> #[trigger] self.lines@[k] != line,
            decreases self.lines@.len() - i,
        {
            if self.lines[i] == line {
                assert(self.lines@[i as int] == line);
                return;
            }
            i += 1;
        }
        self.lines.push(line);
    }
}

impl Block for DataFlowBlock {
    fn bid(&self) -> (r: u64)
        ensures
            r == self.bid_view(),
    {
        self.bid
    }

    fn module_name(&self) -> (r: &str)
        ensures
            r@ == self.module_name_view(),
    {
        self.module_name.as_str()
    }

    fn scope(&self) -> (r: &str)
        ensures
            r@ == self.scope_view(),
    {
        self.scope.as_str()
    }

    fn block_type(&self) -> (r: &BlockType)
        ensures
            *r == self.block_type_view(),
    {
        &self.block_type
    }

    fn line_ranges(&self) -> (r: Vec<u32>)
        ensures
            r@ == self.lines_view(),
    {
        let mut v: Vec<u32> = Vec::new();
        let mut i: usize = 0;
        while i < self.lines.len()
            invariant
                i <= self.lines@.len(),
                v@ == self.lines@.take(i as int),
            decreases self.lines@.len() - i,
        {
            v.push(self.lines[i]);
            proof {
                assert(self.lines@.take(i + 1) =~= self.lines@.take(i as int).push(self.lines@[i as int]));
            }
            i += 1;
        }
        proof {
            assert(self.lines@.take(i as int) =~= self.lines@);
        }
        v
    }
}

/// The number of newline bytes among the first `n` bytes.
pub open spec fn newlines(code: Seq<u8>, n: nat) -> nat
    decreases n,
{
    if n == 0 {
        0
    } else {
        newlines(code, (n - 1) as nat) + if code[n - 1] == 0x0a {
            1nat
        } else {
            0nat
        }
    }
}

/// Counting newlines over a longer prefix counts no fewer.
pub proof fn lemma_newlines_monotone(code: Seq<u8>, a: nat, b: nat)
    requires
        a <= b <= code.len(),
    ensures
        newlines(code, a) <= newlines(code, b),
    decreases b - a,
{
    if a < b {
        lemma_newlines_monotone(code, a, (b - 1) as nat);
    }
}

/// The 1-based line of the byte at `offset` of the source text, `None`
/// past its end. The line is at most one more than the number of newlines
/// in the whole text.
pub fn line_from_offset(code: &[u8], offset: usize) -> (r: Option<u32>)
    requires
        code@.len() < usize::MAX,
    ensures
        offset > code@.len() ==> r is None,
        offset <= code@.len() ==> r == Some((newlines(code@, offset as nat) + 1) as u32),
        offset <= code@.len() ==> newlines(code@, offset as nat) <= newlines(code@, code@.len()),
{
    proof {
        if offset <= code@.len() {
            lemma_newlines_monotone(code@, offset as nat, code@.len());
        }
    }
    if offset > code.len() {
        return None;
    }
    let mut count: usize = 0;
    let mut i: usize = 0;
    while i < offset
        invariant
            i <= offset <= code@.len(),
            code@.len() < usize::MAX,
            count == newlines(code@, i as nat),
            count <= i,
        decreases offset - i,
    {
        if code[i] == 0x0a {
            count += 1;
        }
        i += 1;
    }
    Some(#[verifier::truncate] ((count + 1) as u32))
}

/// The direction of a port declaration.
#[derive(Clone, Copy, Debug, PartialEq, Eq, Structural)]
pub enum PortDirection {
    Input,
    Output,
    Inout,
    Ref,
}

/// What block building reads of one node of a module's syntax tree, in
/// tree order, with the source lines of the node's tokens.
#[derive(Clone, Debug)]
pub enum ModuleNode {
    /// An ANSI net port declaration, with its direction if written.
    AnsiPortNet { direction: Option<PortDirection>, lines: Vec<u32> },
    /// An ANSI variable port declaration, with its direction if written.
    AnsiPortVariable { direction: Option<PortDirection>, lines: Vec<u32> },
    /// An `always` construct.
    Always { circuit: CircuitType, lines: Vec<u32> },
    /// A continuous assignment.
    NetAssignment { lines: Vec<u32> },
    /// A net declaration, with the lines of its first declaration that has
    /// an initializer, if any.
    NetDeclaration { assignment_lines: Option<Vec<u32>> },
}

/// `lines` with repeats dropped, first occurrences in order.
pub open spec fn dedup_lines(lines: Seq<u32>) -> Seq<u32>
    decreases lines.len(),
{
    if lines.len() == 0 {
        Seq::empty()
    } else {
        let prev = dedup_lines(lines.drop_last());
        if prev.contains(lines.last()) {
            prev
        } else {
            prev.push(lines.last())
        }
    }
}

/// The kind and lines of the block a node makes, given the last written
/// port direction; `None` for a node that makes no block.
pub open spec fn node_block(node: ModuleNode, last: Option<PortDirection>) -> Option<(BlockType, Seq<u32>)> {
    match node {
        ModuleNode::AnsiPortNet { direction, lines } | ModuleNode::AnsiPortVariable {
            direction,
            lines,
        } => {
            let effective = if direction is Some {
                direction
            } else {
                last
            };
            match effective {
                Some(PortDirection::Input) => Some((BlockType::ModuleInput, lines@)),
                Some(PortDirection::Output) => Some((BlockType::ModuleOutput, lines@)),
                _ => None,
            }
        },
        ModuleNode::Always { circuit, lines } => Some((BlockType::Always(circuit), lines@)),
        ModuleNode::NetAssignment { lines } => Some((BlockType::Assign, lines@)),
        ModuleNode::NetDeclaration { assignment_lines } => match assignment_lines {
            Some(lines) => Some((BlockType::Assign, lines@)),
            None => None,
        },
    }
}

/// The last port direction written among the first `n` nodes.
pub open spec fn last_direction(nodes: Seq<ModuleNode>, n: nat) -> Option<PortDirection>
    decreases n,
{
    if n == 0 {
        None
    } else {
        let prev = last_direction(nodes, (n - 1) as nat);
        match nodes[n - 1] {
            ModuleNode::AnsiPortNet { direction, .. } | ModuleNode::AnsiPortVariable {
                direction,
                ..
            } => if direction is Some {
                direction
            } else {
                prev
            },
            _ => prev,
        }
    }
}

/// The kinds and lines of the blocks the first `n` nodes make, in order.
pub open spec fn module_blocks(nodes: Seq<ModuleNode>, n: nat) -> Seq<(BlockType, Seq<u32>)>
    decreases n,
{
    if n == 0 {
        Seq::empty()
    } else {
        let prev = module_blocks(nodes, (n - 1) as nat);
        match node_block(nodes[n - 1], last_direction(nodes, (n - 1) as nat)) {
            Some((t, lines)) => prev.push((t, dedup_lines(lines))),
            None => prev,
        }
    }
}

/// The direction written on a port declaration node, net or variable.
pub open spec fn written_direction(node: ModuleNode) -> Option<PortDirection> {
    match node {
        ModuleNode::AnsiPortNet { direction, .. } => direction,
        ModuleNode::AnsiPortVariable { direction, .. } => direction,
        _ => None,
    }
}

/// Whether a node is a port declaration, net or variable, and its lines.
pub open spec fn port_lines(node: ModuleNode) -> Option<Seq<u32>> {
    match node {
        ModuleNode::AnsiPortNet { lines, .. } => Some(lines@),
        ModuleNode::AnsiPortVariable { lines, .. } => Some(lines@),
        _ => None,
    }
}

/// The direction in force after the first `n` nodes is the one written on
/// the nearest preceding port declaration that writes one, whether a net
/// or a variable port, and none when no port so far writes one.
pub proof fn lemma_last_direction_nearest(nodes: Seq<ModuleNode>, n: nat)
    requires
        n <= nodes.len(),
    ensures
        (forall|k: int| 0 <= k < n ==> #[trigger] written_direction(nodes[k]) is None) ==> last_direction(
            nodes,
            n,
        ) is None,
        forall|j: int|
            0 <= j < n && #[trigger] written_direction(nodes[j]) is Some && (forall|k: int|
                j < k < n ==> #[trigger] written_direction(nodes[k]) is None) ==> last_direction(nodes, n)
                == written_direction(nodes[j]),
    decreases n,
{
    if n > 0 {
        lemma_last_direction_nearest(nodes, (n - 1) as nat);
        let m = n - 1;
        assert forall|j: int|
            0 <= j < n && #[trigger] written_direction(nodes[j]) is Some && (forall|k: int|
                j < k < n ==> #[trigger] written_direction(nodes[k]) is None) implies last_direction(nodes, n)
            == written_direction(nodes[j]) by {
            if j < m {
                assert(written_direction(nodes[m]) is None);
            }
        }
        if forall|k: int| 0 <= k < n ==> #[trigger] written_direction(nodes[k]) is None {
            assert(written_direction(nodes[m]) is None);
        }
    }
}

/// A port declaration without a written direction makes the block of the
/// direction written on the nearest preceding port declaration that
/// writes one, net or variable: an output port after an `output` one, an
/// input port after an `input` one.
pub proof fn lemma_port_inherits_direction(nodes: Seq<ModuleNode>, n: nat, j: int)
    requires
        n < nodes.len(),
        port_lines(nodes[n as int]) is Some,
        written_direction(nodes[n as int]) is None,
        0 <= j < n,
        written_direction(nodes[j]) is Some,
        forall|k: int| j < k < n ==> #[trigger] written_direction(nodes[k]) is None,
    ensures
        written_direction(nodes[j]) == Some(PortDirection::Output) ==> module_blocks(nodes, n + 1)
            == module_blocks(nodes, n).push(
            (BlockType::ModuleOutput, dedup_lines(port_lines(nodes[n as int])->0)),
        ),
        written_direction(nodes[j]) == Some(PortDirection::Input) ==> module_blocks(nodes, n + 1)
            == module_blocks(nodes, n).push(
            (BlockType::ModuleInput, dedup_lines(port_lines(nodes[n as int])->0)),
        ),
{
    lemma_last_direction_nearest(nodes, n);
    assert(last_direction(nodes, n) == written_direction(nodes[j]));
    assert((n + 1 - 1) as nat == n);
}

/// Adds each of `lines` to the block.
fn add_lines(block: &mut DataFlowBlock, lines: &Vec<u32>)
    requires
        old(block).lines_view() == Seq::<u32>::empty(),
    ensures
        final(block).lines_view() == dedup_lines(lines@),
        final(block).bid_view() == old(block).bid_view(),
        final(block).module_name_view() == old(block).module_name_view(),
        final(block).scope_view() == old(block).scope_view(),
        final(block).block_type_view() == old(block).block_type_view(),
{
    let mut i: usize = 0;
    while i < lines.len()
        invariant
            i <= lines@.len(),
            block.lines_view() == dedup_lines(lines@.take(i as int)),
            block.bid_view() == old(block).bid_view(),
            block.module_name_view() == old(block).module_name_view(),
            block.scope_view() == old(block).scope_view(),
            block.block_type_view() == old(block).block_type_view(),
        decreases lines@.len() - i,
    {
        proof {
            assert(lines@.take(i + 1).drop_last() =~= lines@.take(i as int));
        }
        block.add_line(lines[i]);
        i += 1;
    }
    proof {
        assert(lines@.take(i as int) =~= lines@);
    }
}

/// The blocks of one module instance, numbered from 0 in tree order: a
/// port declaration whose direction (written, or carried over from the
/// previous port) is input or output, each `always` construct, each
/// continuous assignment, and each net declaration with an initializer.
pub fn blocks_from_nodes(module_name: &str, scope: &str, nodes: &[ModuleNode]) -> (r: Vec<DataFlowBlock>)
    requires
        nodes@.len() <= u64::MAX,
    ensures
        r@.len() == module_blocks(nodes@, nodes@.len()).len(),
        forall|k: int|
            0 <= k < r@.len() ==> {
                &&& (#[trigger] r@[k]).bid_view() == k
                &&& r@[k].module_name_view() == module_name@
                &&& r@[k].scope_view() == scope@
                &&& r@[k].block_type_view() == module_blocks(nodes@, nodes@.len())[k].0
                &&& r@[k].lines_view() == module_blocks(nodes@, nodes@.len())[k].1
            },
{
    let mut blocks: Vec<DataFlowBlock> = Vec::new();
    let mut bid_counter: u64 = 0;
    let mut last_port_direction: Option<PortDirection> = None;
    let mut i: usize = 0;
    while i < nodes.len()
        invariant
            i <= nodes@.len() <= u64::MAX,
            last_port_direction == last_direction(nodes@, i as nat),
            blocks@.len() == module_blocks(nodes@, i as nat).len(),
            bid_counter == blocks@.len(),
            blocks@.len() <= i,
            forall|k: int|
                0 <= k < blocks@.len() ==> {
                    &&& (#[trigger] blocks@[k]).bid_view() == k
                    &&& blocks@[k].module_name_view() == module_name@
                    &&& blocks@[k].scope_view() == scope@
                    &&& blocks@[k].block_type_view() == module_blocks(nodes@, i as nat)[k].0
                    &&& blocks@[k].lines_view() == module_blocks(nodes@, i as nat)[k].1
                },
        decreases nodes@.len() - i,
    {
        let ghost prev = module_blocks(nodes@, i as nat);
        let made: Option<(BlockType, &Vec<u32>)> = match &nodes[i] {
            ModuleNode::AnsiPortNet { direction, lines } | ModuleNode::AnsiPortVariable {
                direction,
                lines,
            } => {
                if direction.is_some() {
                    last_port_direction = *direction;
                }
                let effective = if direction.is_some() {
                    *direction
                } else {
                    last_port_direction
                };
                match effective {
                    Some(PortDirection::Input) => Some((BlockType::ModuleInput, lines)),
                    Some(PortDirection::Output) => Some((BlockType::ModuleOutput, lines)),
                    _ => None,
                }
            },
            ModuleNode::Always { circuit, lines } => Some((BlockType::Always(*circuit), lines)),
            ModuleNode::NetAssignment { lines } => Some((BlockType::Assign, lines)),
            ModuleNode::NetDeclaration { assignment_lines } => match assignment_lines {
                Some(lines) => Some((BlockType::Assign, lines)),
                None => None,
            },
        };
        match made {
            Some((block_type, lines)) => {
                let mut block = DataFlowBlock::new(bid_counter, module_name, scope, block_type);
                add_lines(&mut block, lines);
                blocks.push(block);
                bid_counter += 1;
                proof {
                    assert forall|k: int| 0 <= k < blocks@.len() implies {
                        &&& (#[trigger] blocks@[k]).bid_view() == k
                        &&& blocks@[k].module_name_view() == module_name@
                        &&& blocks@[k].scope_view() == scope@
                        &&& blocks@[k].block_type_view() == module_blocks(nodes@, (i + 1) as nat)[k].0
                        &&& blocks@[k].lines_view() == module_blocks(nodes@, (i + 1) as nat)[k].1
                    } by {
                        if k < prev.len() {
                            assert(module_blocks(nodes@, (i + 1) as nat)[k] == prev[k]);
                        }
                    }
                }
            },
            None => {},
        }
        i += 1;
    }
    blocks
}

/// What the walk of a module's syntax tree meets that names the scopes of
/// its submodule instances: entering a named generate block, leaving a
/// generate block, and an instance of `module` called `name`.
#[derive(Clone, Debug)]
pub enum InstanceEvent {
    EnterGenerate { name: String },
    LeaveGenerate,
    Instance { module: String, name: String },
}

/// The character views of `parts`.
pub open spec fn views(parts: Seq<String>) -> Seq<Seq<char>> {
    parts.map_values(|p: String| p@)
}

/// `parts` joined with dots.
pub open spec fn join_dots(parts: Seq<Seq<char>>) -> Seq<char>
    decreases parts.len(),
{
    if parts.len() == 0 {
        Seq::empty()
    } else if parts.len() == 1 {
        parts[0]
    } else {
        join_dots(parts.drop_last()) + seq!['.'] + parts.last()
    }
}

/// The scope of instance `dut` inside `scope`, under the generate blocks
/// named in `prefix`: `scope.dut`, or `scope.p.dut` where `p` is the
/// prefix joined with dots and is not empty.
pub open spec fn child_scope(scope: Seq<char>, prefix: Seq<Seq<char>>, dut: Seq<char>) -> Seq<char> {
    let p = join_dots(prefix);
    if p.len() == 0 {
        scope + seq!['.'] + dut
    } else {
        scope + seq!['.'] + p + seq!['.'] + dut
    }
}

/// The names of the generate blocks open after `events`, innermost last
/// (leaving with none open changes nothing), and the (scope, module) of
/// each instance met, in order.
pub open spec fn scope_walk(scope: Seq<char>, events: Seq<InstanceEvent>) -> (
    Seq<Seq<char>>,
    Seq<(Seq<char>, Seq<char>)>,
)
    decreases events.len(),
{
    if events.len() == 0 {
        (Seq::empty(), Seq::empty())
    } else {
        let prev = scope_walk(scope, events.drop_last());
        match events.last() {
            InstanceEvent::EnterGenerate { name } => (prev.0.push(name@), prev.1),
            InstanceEvent::LeaveGenerate => (
                if prev.0.len() > 0 {
                    prev.0.drop_last()
                } else {
                    prev.0
                },
                prev.1,
            ),
            InstanceEvent::Instance { module, name } => (
                prev.0,
                prev.1.push((child_scope(scope, prev.0, name@), module@)),
            ),
        }
    }
}

/// The (scope, module) of each submodule instance of a module at `scope`.
pub open spec fn child_scopes_spec(scope: Seq<char>, events: Seq<InstanceEvent>) -> Seq<
    (Seq<char>, Seq<char>),
> {
    scope_walk(scope, events).1
}

fn join_with_dots(parts: &Vec<String>) -> (r: String)
    ensures
        r@ == join_dots(views(parts@)),
{
    proof {
        reveal_strlit(".");
    }
    let mut acc = String::new();
    let mut i: usize = 0;
    while i < parts.len()
        invariant
            i <= parts@.len(),
            ".".view() == seq!['.'],
            acc@ == join_dots(views(parts@).take(i as int)),
        decreases parts@.len() - i,
    {
        proof {
            assert(views(parts@).take(i + 1).drop_last() =~= views(parts@).take(i as int));
            assert(views(parts@).take(i + 1).last() == parts@[i as int]@);
        }
        if i > 0 {
            acc.append(".");
        }
        acc.append(parts[i].as_str());
        i += 1;
    }
    proof {
        assert(views(parts@).take(i as int) =~= views(parts@));
    }
    acc
}

/// The scope of each submodule instance of a module at `scope`, with the
/// module it instantiates, from the events of the walk of its syntax tree.
pub fn child_scopes(scope: &str, events: &[InstanceEvent]) -> (r: Vec<(String, String)>)
    ensures
        r@.len() == child_scopes_spec(scope@, events@).len(),
        forall|i: int|
            0 <= i < r@.len() ==> (#[trigger] r@[i]).0@ == child_scopes_spec(scope@, events@)[i].0
                && r@[i].1@ == child_scopes_spec(scope@, events@)[i].1,
{
    proof {
        reveal_strlit(".");
    }
    let mut stack: Vec<String> = Vec::new();
    let mut out: Vec<(String, String)> = Vec::new();
    let mut i: usize = 0;
    while i < events.len()
        invariant
            i <= events@.len(),
            ".".view() == seq!['.'],
            views(stack@) == scope_walk(scope@, events@.take(i as int)).0,
            out@.len() == scope_walk(scope@, events@.take(i as int)).1.len(),
            forall|k: int|
                0 <= k < out@.len() ==> (#[trigger] out@[k]).0@ == scope_walk(
                    scope@,
                    events@.take(i as int),
                ).1[k].0 && out@[k].1@ == scope_walk(scope@, events@.take(i as int)).1[k].1,
        decreases events@.len() - i,
    {
        let ghost prev = scope_walk(scope@, events@.take(i as int));
        proof {
            assert(events@.take(i + 1).drop_last() =~= events@.take(i as int));
            assert(events@.take(i + 1).last() == events@[i as int]);
        }
        match &events[i] {
            InstanceEvent::EnterGenerate { name } => {
                stack.push(name.clone());
                proof {
                    assert(views(stack@) =~= prev.0.push(name@));
                }
            },
            InstanceEvent::LeaveGenerate => {
                if stack.len() > 0 {
                    let _ = stack.pop();
                    proof {
                        assert(views(stack@) =~= prev.0.drop_last());
                    }
                }
            },
            InstanceEvent::Instance { module, name } => {
                let p = join_with_dots(&stack);
                let mut next = scope.to_owned();
                next.append(".");
                if !p.as_str().is_empty() {
                    next.append(p.as_str());
                    next.append(".");
                }
                next.append(name.as_str());
                out.push((next, module.clone()));
            },
        }
        i += 1;
    }
    proof {
        assert(events@.take(i as int) =~= events@);
    }
    out
}

/// Whether no key before the `i`-th equals it.
pub open spec fn is_first_key(keys: Seq<(String, u64)>, i: int) -> bool {
    forall|j: int| 0 <= j < i ==> !(keys[j].0@ == keys[i].0@ && keys[j].1 == keys[i].1)
}

/// For each (scope, block id) key, whether it is the first of its value:
/// a block is ranked once, at its best place.
pub fn first_occurrences(keys: &[(String, u64)]) -> (r: Vec<bool>)
    ensures
        r@.len() == keys@.len(),
        forall|i: int| 0 <= i < keys@.len() ==> r@[i] == is_first_key(keys@, i),
{
    let mut r: Vec<bool> = Vec::new();
    let mut i: usize = 0;
    while i < keys.len()
        invariant
            i <= keys@.len(),
            r@.len() == i,
            forall|k: int| 0 <= k < i ==> r@[k] == is_first_key(keys@, k),
        decreases keys@.len() - i,
    {
        let mut first = true;
        let mut j: usize = 0;
        while j < i
            invariant
                j <= i < keys@.len(),
                first == (forall|m: int|
                    0 <= m < j ==> !(keys@[m].0@ == keys@[i as int].0@ && keys@[m].1
                        == keys@[i as int].1)),
            decreases i - j,
        {
            if str_eq(keys[j].0.as_str(), keys[i].0.as_str()) && keys[j].1 == keys[i].1 {
                first = false;
            }
            j += 1;
        }
        r.push(first);
        i += 1;
    }
    r
}

} // verus!
