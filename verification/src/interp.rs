//! The `%{ ... }%` interpolation format: its parser and its evaluator.
use vstd::prelude::*;
use crate::text::{bytes_of, on_boundary, substr, lemma_encode_concat, lemma_encode_ascii};
use vstd::utf8::{encode_utf8, decode_utf8, encode_utf8_decode_utf8};
use vstd::string::StringExecFns;

verus! {

/// One node of a parsed interpolation format.
#[derive(Debug, Clone, Copy)]
pub enum ParseNode<'a> {
    Raw(&'a str),
    RawInterp(&'a str),
    EscapedOpen,
    EscapedClose,
    /// `usize` here is the offset to the end.
    /// You can get the range by `index_of_interp+1..index_of_interp+offset`.
    Interp(usize),
}

/// A `ParseNode` with its text taken as bytes.
pub enum NodeView {
    Raw(Seq<u8>),
    RawInterp(Seq<u8>),
    EscapedOpen,
    EscapedClose,
    Interp(usize),
}

impl<'a> View for ParseNode<'a> {
    type V = NodeView;

    open spec fn view(&self) -> NodeView {
        match *self {
            ParseNode::Raw(s) => NodeView::Raw(bytes_of(s)),
            ParseNode::RawInterp(s) => NodeView::RawInterp(bytes_of(s)),
            ParseNode::EscapedOpen => NodeView::EscapedOpen,
            ParseNode::EscapedClose => NodeView::EscapedClose,
            ParseNode::Interp(n) => NodeView::Interp(n),
        }
    }
}

pub open spec fn nodes_view(nodes: Seq<ParseNode<'_>>) -> Seq<NodeView> {
    nodes.map_values(|n: ParseNode| n@)
}

/// A type with no values: an interpolation parse never fails with a user error.
pub type Never = core::convert::Infallible;

/// What can go wrong while parsing or evaluating an interpolation format.
#[derive(Debug)]
pub enum InterpError<E = Never> {
    /// Open token without a close token; the index is that of the open node in the output.
    MismatchedOpen(usize),
    /// Close token without an open token; the index is a byte offset into the source.
    MismatchedClose(usize),
    /// An error of the interpolator.
    User(E),
}

/// The state of the interpolation scanner: the byte being looked at, the start of the
/// pending raw text, the nodes emitted so far and the output positions of the open `%{`.
pub struct InterpScan {
    pub index: int,
    pub raw_start: int,
    pub out: Seq<NodeView>,
    pub stack: Seq<int>,
}

/// How a scan of an interpolation format ends.
pub enum InterpOutcome {
    Done(Seq<NodeView>),
    Failed(InterpError<Never>, Seq<NodeView>),
    /// The scan reached the middle of a multi-byte character.
    Panics,
}

pub open spec fn interp_start() -> InterpScan {
    InterpScan { index: 0, raw_start: 0, out: Seq::empty(), stack: Seq::empty() }
}

/// `src` holds the bytes `a b c` at `i`.
pub open spec fn has3(src: Seq<u8>, i: int, a: u8, b: u8, c: u8) -> bool {
    0 <= i && i + 3 <= src.len() && src[i] == a && src[i + 1] == b && src[i + 2] == c
}

/// `src` holds the bytes `a b` at `i`.
pub open spec fn has2(src: Seq<u8>, i: int, a: u8, b: u8) -> bool {
    0 <= i && i + 2 <= src.len() && src[i] == a && src[i + 1] == b
}

/// The nodes after the pending raw text, if any, is emitted.
pub open spec fn flush_raw(src: Seq<u8>, st: InterpScan) -> Seq<NodeView> {
    if st.raw_start != st.index {
        st.out.push(NodeView::Raw(src.subrange(st.raw_start, st.index)))
    } else {
        st.out
    }
}

/// The result of one step of the scanner: the next state, or how the scan ends.
pub enum InterpStep {
    Next(InterpScan),
    Stop(InterpOutcome),
}

/// One step of the scan at a byte of `src`: `\%{` and `\}%` are escapes, `%{` opens an
/// interpolation and `}%` closes the innermost one.  An interpolation closed before any
/// node follows its opening becomes a `RawInterp` of the text in between, unless it is the
/// first node of the output.
pub open spec fn interp_step(src: Seq<u8>, st: InterpScan) -> InterpStep {
    let i = st.index;
    if !on_boundary(src, i) {
        InterpStep::Stop(InterpOutcome::Panics)
    } else if has3(src, i, 92, 37, 123) {
        InterpStep::Next(InterpScan {
            index: i + 3, raw_start: i + 3,
            out: flush_raw(src, st).push(NodeView::EscapedOpen), stack: st.stack,
        })
    } else if has3(src, i, 92, 125, 37) {
        InterpStep::Next(InterpScan {
            index: i + 3, raw_start: i + 3,
            out: flush_raw(src, st).push(NodeView::EscapedClose), stack: st.stack,
        })
    } else if has2(src, i, 37, 123) {
        let out1 = flush_raw(src, st);
        InterpStep::Next(InterpScan {
            index: i + 2, raw_start: i + 2,
            out: out1.push(NodeView::Interp(usize::MAX)), stack: st.stack.push(out1.len() as int),
        })
    } else if has2(src, i, 125, 37) {
        if st.stack.len() == 0 {
            InterpStep::Stop(InterpOutcome::Failed(InterpError::MismatchedClose(i as usize), st.out))
        } else if st.out.len() > 1 && st.out.last() is Interp {
            InterpStep::Next(InterpScan {
                index: i + 2, raw_start: i + 2,
                out: st.out.update(st.out.len() - 1, NodeView::RawInterp(src.subrange(st.raw_start, i))),
                stack: st.stack.drop_last(),
            })
        } else {
            let out1 = flush_raw(src, st);
            let open = st.stack.last();
            InterpStep::Next(InterpScan {
                index: i + 2, raw_start: i + 2,
                out: out1.update(open, NodeView::Interp((out1.len() - open) as usize)),
                stack: st.stack.drop_last(),
            })
        }
    } else {
        InterpStep::Next(InterpScan { index: i + 1, ..st })
    }
}

/// The scan of `src` from state `st`.
pub open spec fn interp_run(src: Seq<u8>, st: InterpScan) -> InterpOutcome
    decreases src.len() - st.index,
{
    if 0 <= st.index < src.len() {
        match interp_step(src, st) {
            InterpStep::Next(n) => if st.index < n.index {
                interp_run(src, n)
            } else {
                InterpOutcome::Panics
            },
            InterpStep::Stop(o) => o,
        }
    } else if st.stack.len() > 0 {
        InterpOutcome::Failed(InterpError::MismatchedOpen(st.stack.last() as usize), st.out)
    } else {
        InterpOutcome::Done(flush_raw(src, st))
    }
}

/// The scan of a whole format.
pub open spec fn spec_parse_interp(src: Seq<u8>) -> InterpOutcome {
    interp_run(src, interp_start())
}

spec fn stack_view(bt: Seq<usize>) -> Seq<int> {
    bt.map_values(|x: usize| x as int)
}

spec fn scan_of(index: usize, raw_start: usize, out: Seq<ParseNode<'_>>, bt: Seq<usize>) -> InterpScan {
    InterpScan { index: index as int, raw_start: raw_start as int, out: nodes_view(out), stack: stack_view(bt) }
}

/// Parses `source` into `output`, which is cleared first.
pub fn parse_interp<'a>(
    output: &mut Vec<ParseNode<'a>>,
    source: &'a str,
) -> (r: Result<(), InterpError<Never>>)
    requires
        !(spec_parse_interp(bytes_of(source)) is Panics),
    ensures
        match spec_parse_interp(bytes_of(source)) {
            InterpOutcome::Done(nodes) => r is Ok && nodes_view(final(output)@) == nodes,
            InterpOutcome::Failed(e, nodes) => r == Err::<(), InterpError<Never>>(e)
                && nodes_view(final(output)@) == nodes,
            InterpOutcome::Panics => false,
        },
        !(r matches Err(InterpError::User(_))),
        r is Ok ==> wf_nodes(nodes_view(final(output)@)),
        r is Ok ==> render_nodes(nodes_view(final(output)@)) == Some(bytes_of(source)),
        r is Ok ==> raws_nonempty(nodes_view(final(output)@)),
        r is Ok <==> markers_balanced(bytes_of(source)),
{
    let ghost src = bytes_of(source);
    proof {
        lemma_parse_interp_succeeds(src);
    }
    output.clear();
    let bytes = source.as_bytes();
    let len = bytes.len();
    let mut backtrack: Vec<usize> = Vec::new();
    let mut index: usize = 0;
    let mut raw_start: usize = 0;
    proof {
        assert(nodes_view(output@) =~= Seq::<NodeView>::empty());
        assert(stack_view(backtrack@) =~= Seq::<int>::empty());
        assert(scan_of(index, raw_start, output@, backtrack@) == interp_start());
    }
    while index < len
        invariant
            len == src.len(),
            bytes@ == src,
            src == bytes_of(source),
            raw_start <= index <= len,
            raw_start == index || on_boundary(src, raw_start as int),
            forall|j: int| 0 <= j < backtrack@.len() ==> backtrack@[j] < output@.len(),
            interp_run(src, scan_of(index, raw_start, output@, backtrack@))
                == spec_parse_interp(src),
            !(spec_parse_interp(src) is Panics),
            (spec_parse_interp(src) is Done) == markers_balanced(src),
        decreases len - index,
    {
        let ghost st = scan_of(index, raw_start, output@, backtrack@);
        assert(on_boundary(src, index as int));
        let c = bytes[index];
        if c == 92 && len - index > 2 && bytes[index + 1] == 37 && bytes[index + 2] == 123 {
            if raw_start != index {
                output.push(ParseNode::Raw(substr(source, raw_start, index)));
            }
            raw_start = index + 3;
            index = raw_start;
            output.push(ParseNode::EscapedOpen);
            proof {
                assert(nodes_view(output@) =~= flush_raw(src, st).push(NodeView::EscapedOpen));
            }
        } else if c == 92 && len - index > 2 && bytes[index + 1] == 125 && bytes[index + 2] == 37 {
            if raw_start != index {
                output.push(ParseNode::Raw(substr(source, raw_start, index)));
            }
            raw_start = index + 3;
            index = raw_start;
            output.push(ParseNode::EscapedClose);
            proof {
                assert(nodes_view(output@) =~= flush_raw(src, st).push(NodeView::EscapedClose));
            }
        } else if c == 37 && len - index > 1 && bytes[index + 1] == 123 {
            if raw_start != index {
                output.push(ParseNode::Raw(substr(source, raw_start, index)));
            }
            raw_start = index + 2;
            index = raw_start;
            let open_index = output.len();
            backtrack.push(open_index);
            output.push(ParseNode::Interp(usize::MAX));
            proof {
                assert(nodes_view(output@) =~= flush_raw(src, st).push(NodeView::Interp(usize::MAX)));
                assert(stack_view(backtrack@) =~= st.stack.push(open_index as int));
            }
        } else if c == 125 && len - index > 1 && bytes[index + 1] == 37 {
            if backtrack.len() == 0 {
                return Err(InterpError::MismatchedClose(index));
            }
            let top = output.len();
            let last_is_interp = top > 1 && match output[top - 1] {
                ParseNode::Interp(_) => true,
                _ => false,
            };
            if last_is_interp {
                backtrack.pop();
                let raw = substr(source, raw_start, index);
                output.set(top - 1, ParseNode::RawInterp(raw));
                raw_start = index + 2;
                index = raw_start;
                proof {
                    assert(nodes_view(output@) =~= st.out.update(st.out.len() - 1,
                        NodeView::RawInterp(src.subrange(st.raw_start, st.index))));
                    assert(stack_view(backtrack@) =~= st.stack.drop_last());
                }
                continue;
            }
            if raw_start != index {
                output.push(ParseNode::Raw(substr(source, raw_start, index)));
            }
            raw_start = index + 2;
            index = raw_start;
            let open_index = backtrack.pop().unwrap();
            let close_index = output.len();
            let difference = close_index - open_index;
            output.set(open_index, ParseNode::Interp(difference));
            proof {
                let out1 = flush_raw(src, st);
                assert(nodes_view(output@) =~= out1.update(open_index as int,
                    NodeView::Interp((out1.len() - open_index) as usize)));
                assert(stack_view(backtrack@) =~= st.stack.drop_last());
            }
        } else {
            index = index + 1;
        }
    }
    if backtrack.len() > 0 {
        let open = backtrack.pop().unwrap();
        return Err(InterpError::MismatchedOpen(open));
    }
    let ghost st_end = scan_of(index, raw_start, output@, backtrack@);
    if raw_start != index {
        output.push(ParseNode::Raw(substr(source, raw_start, index)));
    }
    proof {
        assert(nodes_view(output@) =~= flush_raw(src, st_end));
        lemma_parse_interp_well_formed(src);
        lemma_parse_interp_roundtrip(src);
        lemma_parse_interp_raws_nonempty(src);
    }
    Ok(())
}

} // verus!

verus! {

/// The offset that an `Interp` node carries.
pub open spec fn interp_len(n: NodeView) -> int {
    match n {
        NodeView::Interp(k) => k as int,
        _ => 0,
    }
}

/// Every `Interp` node spans at least itself and ends inside the sequence, and the spans
/// of the nodes inside it end inside it too.
pub open spec fn wf_nodes(s: Seq<NodeView>) -> bool {
    forall|i: int| 0 <= i < s.len() && (#[trigger] s[i]) is Interp ==> {
        &&& 1 <= interp_len(s[i])
        &&& i + interp_len(s[i]) <= s.len()
        &&& forall|j: int| i < j < i + interp_len(s[i]) && (#[trigger] s[j]) is Interp
                ==> j + interp_len(s[j]) <= i + interp_len(s[i])
    }
}

/// What the scanner keeps true: the open interpolations are on the stack in increasing
/// order, every other interpolation spans well-nested nodes that contain no open one, and
/// a trailing interpolation is the innermost open one.
pub open spec fn interp_inv(st: InterpScan) -> bool {
    let out = st.out;
    let stack = st.stack;
    &&& forall|a: int, b: int| 0 <= a < b < stack.len() ==> stack[a] < stack[b]
    &&& forall|a: int| 0 <= a < stack.len() ==> 0 <= #[trigger] stack[a] < out.len()
    &&& forall|a: int| 0 <= a < stack.len() ==> out[#[trigger] stack[a]] is Interp
    &&& forall|i: int| 0 <= i < out.len() && (#[trigger] out[i]) is Interp && !stack.contains(i) ==> {
        &&& 1 <= interp_len(out[i])
        &&& i + interp_len(out[i]) <= out.len()
        &&& forall|j: int| i < j < i + interp_len(out[i]) && (#[trigger] out[j]) is Interp
                ==> !stack.contains(j) && j + interp_len(out[j]) <= i + interp_len(out[i])
    }
    &&& stack.len() > 0 && out.len() > 0 && out.last() is Interp ==> out.len() - 1 == stack.last()
}

proof fn lemma_flush_inv(src: Seq<u8>, st: InterpScan)
    requires
        interp_inv(st),
    ensures
        interp_inv(InterpScan { out: flush_raw(src, st), ..st }),
        flush_raw(src, st).len() >= st.out.len(),
        forall|i: int| 0 <= i < st.out.len() ==> flush_raw(src, st)[i] == st.out[i],
        flush_raw(src, st).len() > st.out.len() ==> !(flush_raw(src, st).last() is Interp),
        st.out.len() <= st.raw_start <= st.index ==> flush_raw(src, st).len() <= st.index,
{
    let out1 = flush_raw(src, st);
    let s1 = InterpScan { out: out1, ..st };
    if st.raw_start != st.index {
        assert forall|i: int| 0 <= i < out1.len() && (#[trigger] out1[i]) is Interp && !st.stack.contains(i) implies {
            &&& 1 <= interp_len(out1[i])
            &&& i + interp_len(out1[i]) <= out1.len()
            &&& forall|j: int| i < j < i + interp_len(out1[i]) && (#[trigger] out1[j]) is Interp
                    ==> !st.stack.contains(j) && j + interp_len(out1[j]) <= i + interp_len(out1[i])
        } by {
            assert(out1[i] == st.out[i]);
            assert forall|j: int| i < j < i + interp_len(out1[i]) && (#[trigger] out1[j]) is Interp
                implies !st.stack.contains(j) && j + interp_len(out1[j]) <= i + interp_len(out1[i]) by {
                assert(out1[j] == st.out[j]);
            }
        }
    }
}

proof fn lemma_push_plain_inv(st: InterpScan, n: NodeView)
    requires
        interp_inv(st),
        !(n is Interp),
    ensures
        interp_inv(InterpScan { out: st.out.push(n), ..st }),
{
    let out1 = st.out.push(n);
    assert forall|i: int| 0 <= i < out1.len() && (#[trigger] out1[i]) is Interp && !st.stack.contains(i) implies {
        &&& 1 <= interp_len(out1[i])
        &&& i + interp_len(out1[i]) <= out1.len()
        &&& forall|j: int| i < j < i + interp_len(out1[i]) && (#[trigger] out1[j]) is Interp
                ==> !st.stack.contains(j) && j + interp_len(out1[j]) <= i + interp_len(out1[i])
    } by {
        assert(out1[i] == st.out[i]);
        assert forall|j: int| i < j < i + interp_len(out1[i]) && (#[trigger] out1[j]) is Interp
            implies !st.stack.contains(j) && j + interp_len(out1[j]) <= i + interp_len(out1[i]) by {
            assert(out1[j] == st.out[j]);
        }
    }
}

/// Each step of the scan keeps `interp_inv`.
#[verifier::spinoff_prover]
#[verifier::rlimit(40)]
proof fn lemma_interp_step_inv(src: Seq<u8>, st: InterpScan)
    requires
        interp_inv(st),
        0 <= st.raw_start <= st.index < src.len(),
        st.out.len() <= st.raw_start,
        src.len() <= usize::MAX,
    ensures
        interp_step(src, st) matches InterpStep::Next(n) ==> {
            &&& interp_inv(n)
            &&& 0 <= n.raw_start <= n.index
            &&& n.out.len() <= n.raw_start
            &&& st.index < n.index
        },
{
    let i = st.index;
    let out1 = flush_raw(src, st);
    lemma_flush_inv(src, st);
    let s1 = InterpScan { out: out1, ..st };
    {
        if !on_boundary(src, i) {
        } else if has3(src, i, 92, 37, 123) {
            lemma_push_plain_inv(s1, NodeView::EscapedOpen);
        } else if has3(src, i, 92, 125, 37) {
            lemma_push_plain_inv(s1, NodeView::EscapedClose);
        } else if has2(src, i, 37, 123) {
            let out2 = out1.push(NodeView::Interp(usize::MAX));
            let stack2 = st.stack.push(out1.len() as int);
            let s2 = InterpScan { index: i + 2, raw_start: i + 2, out: out2, stack: stack2 };
            assert forall|a: int| 0 <= a < stack2.len() implies out2[#[trigger] stack2[a]] is Interp by {
                if a < st.stack.len() {
                    assert(stack2[a] == st.stack[a]);
                }
            }
            assert forall|i2: int| 0 <= i2 < out2.len() && (#[trigger] out2[i2]) is Interp && !stack2.contains(i2) implies {
                &&& 1 <= interp_len(out2[i2])
                &&& i2 + interp_len(out2[i2]) <= out2.len()
                &&& forall|j: int| i2 < j < i2 + interp_len(out2[i2]) && (#[trigger] out2[j]) is Interp
                        ==> !stack2.contains(j) && j + interp_len(out2[j]) <= i2 + interp_len(out2[i2])
            } by {
                if i2 == out1.len() {
                    assert(stack2[stack2.len() - 1] == i2);
                }
                assert(out2[i2] == out1[i2]);
                assert(!st.stack.contains(i2)) by {
                    if st.stack.contains(i2) {
                        let a = choose|a: int| 0 <= a < st.stack.len() && st.stack[a] == i2;
                        assert(stack2[a] == i2);
                    }
                }
                assert forall|j: int| i2 < j < i2 + interp_len(out2[i2]) && (#[trigger] out2[j]) is Interp
                    implies !stack2.contains(j) && j + interp_len(out2[j]) <= i2 + interp_len(out2[i2]) by {
                    assert(out2[j] == out1[j]);
                    if stack2.contains(j) {
                        let a = choose|a: int| 0 <= a < stack2.len() && stack2[a] == j;
                        if a < st.stack.len() {
                            assert(st.stack[a] == j);
                        }
                    }
                }
            }
            
        } else if has2(src, i, 125, 37) {
            if st.stack.len() == 0 {
            } else if st.out.len() > 1 && st.out.last() is Interp {
                let t = st.out.len() - 1;
                let out2 = st.out.update(t, NodeView::RawInterp(src.subrange(st.raw_start, i)));
                let stack2 = st.stack.drop_last();
                let s2 = InterpScan { index: i + 2, raw_start: i + 2, out: out2, stack: stack2 };
                assert(st.stack.last() == t);
                assert forall|a: int| 0 <= a < stack2.len() implies out2[#[trigger] stack2[a]] is Interp by {
                    assert(stack2[a] == st.stack[a]);
                    assert(st.stack[a] < st.stack[st.stack.len() - 1]);
                }
                assert forall|i2: int| 0 <= i2 < out2.len() && (#[trigger] out2[i2]) is Interp && !stack2.contains(i2) implies {
                    &&& 1 <= interp_len(out2[i2])
                    &&& i2 + interp_len(out2[i2]) <= out2.len()
                    &&& forall|j: int| i2 < j < i2 + interp_len(out2[i2]) && (#[trigger] out2[j]) is Interp
                            ==> !stack2.contains(j) && j + interp_len(out2[j]) <= i2 + interp_len(out2[i2])
                } by {
                    assert(i2 != t);
                    assert(out2[i2] == st.out[i2]);
                    assert(!st.stack.contains(i2)) by {
                        if st.stack.contains(i2) {
                            let a = choose|a: int| 0 <= a < st.stack.len() && st.stack[a] == i2;
                            if a < stack2.len() {
                                assert(stack2[a] == i2);
                            }
                        }
                    }
                    assert forall|j: int| i2 < j < i2 + interp_len(out2[i2]) && (#[trigger] out2[j]) is Interp
                        implies !stack2.contains(j) && j + interp_len(out2[j]) <= i2 + interp_len(out2[i2]) by {
                        assert(j != t);
                        assert(out2[j] == st.out[j]);
                        if stack2.contains(j) {
                            let a = choose|a: int| 0 <= a < stack2.len() && stack2[a] == j;
                            assert(st.stack[a] == j);
                        }
                    }
                }
                
            } else {
                let o = st.stack.last();
                let l1 = out1.len() as int;
                let out2 = out1.update(o, NodeView::Interp((l1 - o) as usize));
                let stack2 = st.stack.drop_last();
                let s2 = InterpScan { index: i + 2, raw_start: i + 2, out: out2, stack: stack2 };
                assert(0 <= o < st.out.len());
                assert forall|a: int| 0 <= a < stack2.len() implies out2[#[trigger] stack2[a]] is Interp by {
                    assert(stack2[a] == st.stack[a]);
                    assert(st.stack[a] < st.stack[st.stack.len() - 1]);
                    assert(out1[stack2[a]] == st.out[stack2[a]]);
                }
                assert(!stack2.contains(o)) by {
                    if stack2.contains(o) {
                        let a = choose|a: int| 0 <= a < stack2.len() && stack2[a] == o;
                        assert(st.stack[a] < st.stack[st.stack.len() - 1]);
                    }
                }
                assert forall|i2: int| 0 <= i2 < out2.len() && (#[trigger] out2[i2]) is Interp && !stack2.contains(i2) implies {
                    &&& 1 <= interp_len(out2[i2])
                    &&& i2 + interp_len(out2[i2]) <= out2.len()
                    &&& forall|j: int| i2 < j < i2 + interp_len(out2[i2]) && (#[trigger] out2[j]) is Interp
                            ==> !stack2.contains(j) && j + interp_len(out2[j]) <= i2 + interp_len(out2[i2])
                } by {
                    if i2 == o {
                        assert forall|j: int| i2 < j < i2 + interp_len(out2[i2]) && (#[trigger] out2[j]) is Interp
                            implies !stack2.contains(j) && j + interp_len(out2[j]) <= i2 + interp_len(out2[i2]) by {
                            assert(out2[j] == out1[j]);
                            if stack2.contains(j) {
                                let a = choose|a: int| 0 <= a < stack2.len() && stack2[a] == j;
                                assert(st.stack[a] < st.stack[st.stack.len() - 1]);
                            }
                            assert(!st.stack.contains(j)) by {
                                if st.stack.contains(j) {
                                    let a = choose|a: int| 0 <= a < st.stack.len() && st.stack[a] == j;
                                    if a < st.stack.len() - 1 {
                                        assert(st.stack[a] < st.stack[st.stack.len() - 1]);
                                    }
                                }
                            }
                        }
                    } else {
                        assert(out2[i2] == out1[i2]);
                        assert(!st.stack.contains(i2)) by {
                            if st.stack.contains(i2) {
                                let a = choose|a: int| 0 <= a < st.stack.len() && st.stack[a] == i2;
                                if a < stack2.len() {
                                    assert(stack2[a] == i2);
                                }
                            }
                        }
                        assert(st.stack[st.stack.len() - 1] == o);
                        assert(!(i2 < o && o < i2 + interp_len(out1[i2])));
                        assert forall|j: int| i2 < j < i2 + interp_len(out2[i2]) && (#[trigger] out2[j]) is Interp
                            implies !stack2.contains(j) && j + interp_len(out2[j]) <= i2 + interp_len(out2[i2]) by {
                            assert(j != o);
                            assert(out2[j] == out1[j]);
                            if stack2.contains(j) {
                                let a = choose|a: int| 0 <= a < stack2.len() && stack2[a] == j;
                                assert(st.stack[a] == j);
                            }
                        }
                    }
                }
                assert(stack2.len() > 0 && out2.len() > 0 && out2.last() is Interp ==> out2.len() - 1 == stack2.last()) by {
                    if stack2.len() > 0 && out2.last() is Interp {
                        if out2.len() - 1 == o {
                            assert(out1.len() == st.out.len());
                            assert(st.out.last() is Interp);
                            assert(st.stack[0] < st.stack[st.stack.len() - 1]);
                        } else {
                            assert(out1.last() is Interp);
                            assert(out1.len() == st.out.len());
                        }
                    }
                }
                
            }
        } else {
        }
    }
}

/// Every scan that ends without error from a state that keeps `interp_inv` gives well-formed nodes.
proof fn lemma_interp_run_wf(src: Seq<u8>, st: InterpScan)
    requires
        interp_inv(st),
        0 <= st.raw_start <= st.index,
        st.out.len() <= st.raw_start,
        src.len() <= usize::MAX,
    ensures
        interp_run(src, st) matches InterpOutcome::Done(nodes) ==> wf_nodes(nodes),
    decreases src.len() - st.index,
{
    if 0 <= st.index < src.len() {
        lemma_interp_step_inv(src, st);
        if let InterpStep::Next(n) = interp_step(src, st) {
            lemma_interp_run_wf(src, n);
        }
    } else if st.stack.len() == 0 {
        let out1 = flush_raw(src, st);
        lemma_flush_inv(src, st);
        assert forall|i2: int| 0 <= i2 < out1.len() && (#[trigger] out1[i2]) is Interp implies {
            &&& 1 <= interp_len(out1[i2])
            &&& i2 + interp_len(out1[i2]) <= out1.len()
            &&& forall|j: int| i2 < j < i2 + interp_len(out1[i2]) && (#[trigger] out1[j]) is Interp
                    ==> j + interp_len(out1[j]) <= i2 + interp_len(out1[i2])
        } by {
            assert(!st.stack.contains(i2));
        }
    }
}

/// A successful parse gives well-nested interpolations: each `Interp(k)` node at `i`
/// spans `k >= 1` nodes ending inside the output, and the nodes inside it end inside it.
pub proof fn lemma_parse_interp_well_formed(src: Seq<u8>)
    requires
        src.len() <= usize::MAX,
    ensures
        spec_parse_interp(src) matches InterpOutcome::Done(nodes) ==> wf_nodes(nodes),
{
    lemma_interp_run_wf(src, interp_start());
}

} // verus!

verus! {

/// `map_user` on an error that is not a user error.
pub open spec fn spec_map_user<E>(e: InterpError<Never>) -> InterpError<E> {
    match e {
        InterpError::MismatchedOpen(i) => InterpError::MismatchedOpen(i),
        InterpError::MismatchedClose(i) => InterpError::MismatchedClose(i),
        InterpError::User(_) => arbitrary(),
    }
}

impl InterpError<Never> {
    /// The same error, for interpolators whose errors are `E`.
    pub fn map_user<E>(self) -> (r: InterpError<E>)
        requires
            !(self is User),
        ensures
            r == spec_map_user::<E>(self),
    {
        match self {
            InterpError::MismatchedOpen(index) => InterpError::MismatchedOpen(index),
            InterpError::MismatchedClose(index) => InterpError::MismatchedClose(index),
            InterpError::User(_) => vstd::pervasive::unreached(),
        }
    }

    /// `map_user` on the error of `result`.
    pub fn map_result<T, E>(result: Result<T, Self>) -> (r: Result<T, InterpError<E>>)
        requires
            !(result matches Err(InterpError::User(_))),
        ensures
            match result {
                Ok(v) => r == Ok::<T, InterpError<E>>(v),
                Err(e) => r == Err::<T, InterpError<E>>(spec_map_user::<E>(e)),
            },
    {
        match result {
            Ok(ok) => Ok(ok),
            Err(err) => Err(err.map_user()),
        }
    }
}

impl<E> InterpError<E> {
    /// An interpolator's error as a `User` error.
    pub fn map_e_result<T>(result: Result<T, E>) -> (r: Result<T, InterpError<E>>)
        ensures
            match result {
                Ok(v) => r == Ok::<T, InterpError<E>>(v),
                Err(e) => r == Err::<T, InterpError<E>>(InterpError::User(e)),
            },
    {
        match result {
            Ok(ok) => Ok(ok),
            Err(err) => Err(InterpError::User(err)),
        }
    }
}

/// No node of `s` asks the interpolator for anything.
pub open spec fn no_interp(s: Seq<NodeView>) -> bool {
    forall|i: int| 0 <= i < s.len() ==> !(#[trigger] s[i] is Interp) && !(s[i] is RawInterp)
}

/// The text that the nodes without interpolation stand for: raw text as it is, and the
/// escapes as the `%{` and `}%` they escape.
pub open spec fn plain_bytes(s: Seq<NodeView>) -> Seq<u8>
    decreases s.len(),
{
    if s.len() == 0 {
        Seq::empty()
    } else {
        plain_head(s[0]) + plain_bytes(s.drop_first())
    }
}

/// The text that one node without interpolation stands for.
pub open spec fn plain_head(n: NodeView) -> Seq<u8> {
    match n {
        NodeView::Raw(b) => b,
        NodeView::EscapedOpen => seq![37u8, 123u8],
        NodeView::EscapedClose => seq![125u8, 37u8],
        _ => Seq::empty(),
    }
}

proof fn lemma_plain_bytes_push(s: Seq<NodeView>, n: NodeView)
    ensures
        plain_bytes(s.push(n)) == plain_bytes(s) + plain_head(n),
    decreases s.len(),
{
    if s.len() == 0 {
        assert(s.push(n) =~= seq![n]);
        assert(seq![n].drop_first() =~= Seq::<NodeView>::empty());
        reveal_with_fuel(plain_bytes, 2);
        assert(seq![n][0] == n);
        assert(plain_bytes(seq![n]) =~= plain_head(n) + plain_bytes(Seq::<NodeView>::empty()));
    } else {
        lemma_plain_bytes_push(s.drop_first(), n);
        assert(s.push(n).drop_first() =~= s.drop_first().push(n));
    }
}

proof fn lemma_wf_children(s: Seq<NodeView>, i: int)
    requires
        wf_nodes(s),
        0 <= i < s.len(),
        s[i] is Interp,
    ensures
        wf_nodes(s.subrange(i + 1, i + interp_len(s[i]))),
{
    let k = interp_len(s[i]);
    let c = s.subrange(i + 1, i + k);
    assert forall|a: int| 0 <= a < c.len() && (#[trigger] c[a]) is Interp implies {
        &&& 1 <= interp_len(c[a])
        &&& a + interp_len(c[a]) <= c.len()
        &&& forall|b: int| a < b < a + interp_len(c[a]) && (#[trigger] c[b]) is Interp
                ==> b + interp_len(c[b]) <= a + interp_len(c[a])
    } by {
        assert(c[a] == s[i + 1 + a]);
        assert forall|b: int| a < b < a + interp_len(c[a]) && (#[trigger] c[b]) is Interp
            implies b + interp_len(c[b]) <= a + interp_len(c[a]) by {
            assert(c[b] == s[i + 1 + b]);
        }
    }
}

/// Holds of every function from interpolation keys to values; it names such a function in
/// the quantifiers of the contracts.
pub open spec fn lookup(g: spec_fn(Seq<char>) -> Seq<char>) -> bool {
    true
}

/// The text that nodes evaluate to, from node `i` on, when each interpolation key `k`
/// (after the interpolations inside it) is replaced by `g(k)`: raw text as it is, and the
/// escapes as `%{` and `}%`.
pub open spec fn eval_from(s: Seq<NodeView>, i: int, g: spec_fn(Seq<char>) -> Seq<char>) -> Seq<char>
    decreases s.len(), s.len() - i,
{
    if 0 <= i < s.len() {
        match s[i] {
            NodeView::Raw(b) => decode_utf8(b) + eval_from(s, i + 1, g),
            NodeView::RawInterp(b) => g(decode_utf8(b)) + eval_from(s, i + 1, g),
            NodeView::EscapedOpen => seq!['%', '{'] + eval_from(s, i + 1, g),
            NodeView::EscapedClose => seq!['}', '%'] + eval_from(s, i + 1, g),
            NodeView::Interp(k) => if k >= 1 && i + k <= s.len() {
                g(eval_from(s.subrange(i + 1, i + k), 0, g)) + eval_from(s, i + k, g)
            } else {
                Seq::empty()
            },
        }
    } else {
        Seq::empty()
    }
}

/// Every call of the interpolator `f` fails with `e`.
pub open spec fn always_fails_with<E, F: FnMut(&mut String, &str) -> Result<(), E>>(f: F, e: E) -> bool {
    forall|b: &mut String, k: &str, r2: Result<(), E>| #[trigger] call_ensures(f, (b, k), r2)
        ==> r2 == Err::<(), E>(e)
}

/// Some call of the interpolator `f` can fail with `e`.
pub open spec fn can_fail_with<E, F: FnMut(&mut String, &str) -> Result<(), E>>(f: F, e: E) -> bool {
    exists|b: &mut String, k: &str| #[trigger] call_ensures(f, (b, k), Err::<(), E>(e))
}

/// Holds of every function from interpolation keys to a value or an error; it names such a
/// function in the quantifiers of the contracts.
pub open spec fn lookup_result<E>(h: spec_fn(Seq<char>) -> Result<Seq<char>, E>) -> bool {
    true
}

/// `a` in front of the text of `r`, or the error of `r`.
pub open spec fn prepend<E>(a: Seq<char>, r: Result<Seq<char>, E>) -> Result<Seq<char>, E> {
    match r {
        Ok(x) => Ok(a + x),
        Err(e) => Err(e),
    }
}

proof fn lemma_prepend_prepend<E>(a: Seq<char>, b: Seq<char>, r: Result<Seq<char>, E>)
    ensures
        prepend(a, prepend(b, r)) == prepend(a + b, r),
{
    if let Ok(x) = r {
        assert(a + (b + x) =~= (a + b) + x);
    }
}

/// What the nodes evaluate to from node `i` on when the key `k` of each interpolation
/// (after the interpolations inside it) gives `h(k)`: the text, or the error of the first
/// key, in the order of evaluation, for which `h` gives one.
pub open spec fn eval_res<E>(s: Seq<NodeView>, i: int, h: spec_fn(Seq<char>) -> Result<Seq<char>, E>)
    -> Result<Seq<char>, E>
    decreases s.len(), s.len() - i,
{
    if 0 <= i < s.len() {
        match s[i] {
            NodeView::Raw(b) => prepend(decode_utf8(b), eval_res(s, i + 1, h)),
            NodeView::RawInterp(b) => match h(decode_utf8(b)) {
                Ok(v) => prepend(v, eval_res(s, i + 1, h)),
                Err(e) => Err(e),
            },
            NodeView::EscapedOpen => prepend(seq!['%', '{'], eval_res(s, i + 1, h)),
            NodeView::EscapedClose => prepend(seq!['}', '%'], eval_res(s, i + 1, h)),
            NodeView::Interp(k) => if k >= 1 && i + k <= s.len() {
                match eval_res(s.subrange(i + 1, i + k), 0, h) {
                    Ok(c) => match h(c) {
                        Ok(v) => prepend(v, eval_res(s, i + k, h)),
                        Err(e) => Err(e),
                    },
                    Err(e) => Err(e),
                }
            } else {
                Ok(Seq::empty())
            },
        }
    } else {
        Ok(Seq::empty())
    }
}

/// Evaluates parsed nodes: raw text is copied, escapes give `%{` and `}%`, and each
/// interpolation is handed to `f` (the inner nodes of `Interp` evaluated first).
fn interp_nodes<E, F: FnMut(&mut String, &str) -> Result<(), E>>(
    nodes: &[ParseNode<'_>],
    f: &mut F,
) -> (r: Result<Option<String>, InterpError<E>>)
    requires
        wf_nodes(nodes_view(nodes@)),
        forall|b: &mut String, k: &str| call_requires(*old(f), (b, k)),
    ensures
        nodes@.len() == 0 ==> r matches Ok(None),
        nodes@.len() > 0 ==> r is Err ==> r matches Err(InterpError::User(_)),
        nodes@.len() > 0 && no_interp(nodes_view(nodes@)) ==> (r matches Ok(Some(s))
            && encode_utf8(s@) == plain_bytes(nodes_view(nodes@))),
        nodes@.len() > 0 ==> r is Ok ==> r matches Ok(Some(_)),
        r matches Err(InterpError::User(e)) ==> can_fail_with(*old(f), e),
        forall|e0: E| #[trigger] always_fails_with(*old(f), e0) && !no_interp(nodes_view(nodes@))
            ==> r == Err::<Option<String>, InterpError<E>>(InterpError::User(e0)),
        forall|g: spec_fn(Seq<char>) -> Seq<char>| #[trigger] lookup(g) &&
            (forall|b: &mut String, k: &str, r2: Result<(), E>| #[trigger] call_ensures(*old(f), (b, k), r2)
                ==> r2 is Ok && mut_ref_future(b)@ == mut_ref_current(b)@ + g(k@))
            ==> (r is Ok && (nodes@.len() > 0 ==> (r matches Ok(Some(s)) && s@ == eval_from(nodes_view(nodes@), 0, g)))),
        forall|h: spec_fn(Seq<char>) -> Result<Seq<char>, E>| #[trigger] lookup_result(h) &&
            (forall|b: &mut String, k: &str, r2: Result<(), E>| #[trigger] call_ensures(*old(f), (b, k), r2)
                ==> match h(k@) {
                    Ok(v) => r2 is Ok && mut_ref_future(b)@ == mut_ref_current(b)@ + v,
                    Err(e) => r2 == Err::<(), E>(e),
                })
            ==> (nodes@.len() > 0 ==> match eval_res(nodes_view(nodes@), 0, h) {
                Ok(x) => (r matches Ok(Some(s)) && s@ == x),
                Err(e) => r == Err::<Option<String>, InterpError<E>>(InterpError::User(e)),
            }),
        *final(f) == *old(f),
    decreases nodes@.len(),
{
    broadcast use vstd::function::group_function_axioms;
    if nodes.len() == 0 {
        return Ok(None);
    }
    let ghost nv = nodes_view(nodes@);
    let mut buffer = String::new();
    let mut i: usize = 0;
    proof {
        assert(nv.subrange(0, 0) =~= Seq::<NodeView>::empty());
        assert(encode_utf8(buffer@) =~= Seq::<u8>::empty());
        assert forall|h: spec_fn(Seq<char>) -> Result<Seq<char>, E>| #[trigger] lookup_result(h)
            implies eval_res(nv, 0, h) == prepend(buffer@, eval_res(nv, 0, h)) by {
            if let Ok(x) = eval_res(nv, 0, h) {
                assert(buffer@ + x =~= x);
            }
        }
    }
    while i < nodes.len()
        invariant
            nv == nodes_view(nodes@),
            wf_nodes(nv),
            i <= nodes.len(),
            forall|b: &mut String, k: &str| call_requires(*f, (b, k)),
            *f == *old(f),
            no_interp(nv) ==> encode_utf8(buffer@) == plain_bytes(nv.subrange(0, i as int)),
            forall|e0: E| #[trigger] always_fails_with(*old(f), e0) ==> forall|j: int| 0 <= j < i
                ==> !(#[trigger] nv[j] is Interp) && !(nv[j] is RawInterp),
            forall|g: spec_fn(Seq<char>) -> Seq<char>| #[trigger] lookup(g) &&
                (forall|b: &mut String, k: &str, r2: Result<(), E>| #[trigger] call_ensures(*old(f), (b, k), r2)
                    ==> r2 is Ok && mut_ref_future(b)@ == mut_ref_current(b)@ + g(k@))
                ==> buffer@ + eval_from(nv, i as int, g) == eval_from(nv, 0, g),
            forall|h: spec_fn(Seq<char>) -> Result<Seq<char>, E>| #[trigger] lookup_result(h) &&
                (forall|b: &mut String, k: &str, r2: Result<(), E>| #[trigger] call_ensures(*old(f), (b, k), r2)
                ==> match h(k@) {
                    Ok(v) => r2 is Ok && mut_ref_future(b)@ == mut_ref_current(b)@ + v,
                    Err(e) => r2 == Err::<(), E>(e),
                })
                ==> eval_res(nv, 0, h) == prepend(buffer@, eval_res(nv, i as int, h)),
        decreases nodes.len() - i,
    {
        let node = nodes[i];
        let ghost before = buffer@;
        proof {
            assert(nv[i as int] == node@);
            if no_interp(nv) {
                assert(nv.subrange(0, i + 1) =~= nv.subrange(0, i as int).push(node@));
                lemma_plain_bytes_push(nv.subrange(0, i as int), node@);
            }
        }
        match node {
            ParseNode::Raw(raw) => {
                buffer.append(raw);
                proof {
                    lemma_encode_concat(before, raw@);
                    encode_utf8_decode_utf8(raw@);
                    assert forall|g: spec_fn(Seq<char>) -> Seq<char>| #[trigger] lookup(g) &&
                        (forall|b: &mut String, k: &str, r2: Result<(), E>| #[trigger] call_ensures(*old(f), (b, k), r2)
                            ==> r2 is Ok && mut_ref_future(b)@ == mut_ref_current(b)@ + g(k@))
                        implies buffer@ + eval_from(nv, i + 1, g) == eval_from(nv, 0, g) by {
                        assert(buffer@ + eval_from(nv, i + 1, g) =~= before + eval_from(nv, i as int, g));
                    }
                    assert forall|h: spec_fn(Seq<char>) -> Result<Seq<char>, E>| #[trigger] lookup_result(h) &&
                        (forall|b: &mut String, k: &str, r2: Result<(), E>| #[trigger] call_ensures(*old(f), (b, k), r2)
                ==> match h(k@) {
                    Ok(v) => r2 is Ok && mut_ref_future(b)@ == mut_ref_current(b)@ + v,
                    Err(e) => r2 == Err::<(), E>(e),
                })
                        implies eval_res(nv, 0, h) == prepend(buffer@, eval_res(nv, i + 1, h)) by {
                        lemma_prepend_prepend(before, raw@, eval_res(nv, i + 1, h));
                    }
                }
                i += 1;
            },
            ParseNode::RawInterp(raw) => {
                let res = f(&mut buffer, raw);
                proof {
                    encode_utf8_decode_utf8(raw@);
                    assert forall|g: spec_fn(Seq<char>) -> Seq<char>| #[trigger] lookup(g) &&
                        (forall|b: &mut String, k: &str, r2: Result<(), E>| #[trigger] call_ensures(*old(f), (b, k), r2)
                            ==> r2 is Ok && mut_ref_future(b)@ == mut_ref_current(b)@ + g(k@))
                        implies res is Ok && buffer@ + eval_from(nv, i + 1, g) == eval_from(nv, 0, g) by {
                        assert(buffer@ + eval_from(nv, i + 1, g) =~= before + eval_from(nv, i as int, g));
                    }
                    assert forall|h: spec_fn(Seq<char>) -> Result<Seq<char>, E>| #[trigger] lookup_result(h) &&
                        (forall|b: &mut String, k: &str, r2: Result<(), E>| #[trigger] call_ensures(*old(f), (b, k), r2)
                ==> match h(k@) {
                    Ok(v) => r2 is Ok && mut_ref_future(b)@ == mut_ref_current(b)@ + v,
                    Err(e) => r2 == Err::<(), E>(e),
                })
                        implies (res is Ok ==> eval_res(nv, 0, h) == prepend(buffer@, eval_res(nv, i + 1, h)))
                            && (res matches Err(e) ==> eval_res(nv, 0, h) == Err::<Seq<char>, E>(e)) by {
                        if let Ok(v) = h(raw@) {
                            lemma_prepend_prepend(before, v, eval_res(nv, i + 1, h));
                        }
                    }
                }
                match InterpError::map_e_result(res) {
                    Ok(_) => {},
                    Err(e) => {
                        return Err(e);
                    },
                }
                i += 1;
            },
            ParseNode::EscapedOpen => {
                let esc: &str = "%{";
                proof {
                    reveal_strlit("%{");
                    lemma_encode_concat(before, esc@);
                    assert(esc@ =~= seq!['%', '{']);
                    lemma_encode_ascii(esc@);
                    assert(encode_utf8(esc@) =~= seq![37u8, 123u8]);
                }
                buffer.append(esc);
                proof {
                    assert forall|g: spec_fn(Seq<char>) -> Seq<char>| #[trigger] lookup(g) &&
                        (forall|b: &mut String, k: &str, r2: Result<(), E>| #[trigger] call_ensures(*old(f), (b, k), r2)
                            ==> r2 is Ok && mut_ref_future(b)@ == mut_ref_current(b)@ + g(k@))
                        implies buffer@ + eval_from(nv, i + 1, g) == eval_from(nv, 0, g) by {
                        assert(buffer@ + eval_from(nv, i + 1, g) =~= before + eval_from(nv, i as int, g));
                    }
                    assert forall|h: spec_fn(Seq<char>) -> Result<Seq<char>, E>| #[trigger] lookup_result(h) &&
                        (forall|b: &mut String, k: &str, r2: Result<(), E>| #[trigger] call_ensures(*old(f), (b, k), r2)
                ==> match h(k@) {
                    Ok(v) => r2 is Ok && mut_ref_future(b)@ == mut_ref_current(b)@ + v,
                    Err(e) => r2 == Err::<(), E>(e),
                })
                        implies eval_res(nv, 0, h) == prepend(buffer@, eval_res(nv, i + 1, h)) by {
                        lemma_prepend_prepend(before, esc@, eval_res(nv, i + 1, h));
                    }
                }
                i += 1;
            },
            ParseNode::EscapedClose => {
                let esc: &str = "}%";
                proof {
                    reveal_strlit("}%");
                    lemma_encode_concat(before, esc@);
                    assert(esc@ =~= seq!['}', '%']);
                    lemma_encode_ascii(esc@);
                    assert(encode_utf8(esc@) =~= seq![125u8, 37u8]);
                }
                buffer.append(esc);
                proof {
                    assert forall|g: spec_fn(Seq<char>) -> Seq<char>| #[trigger] lookup(g) &&
                        (forall|b: &mut String, k: &str, r2: Result<(), E>| #[trigger] call_ensures(*old(f), (b, k), r2)
                            ==> r2 is Ok && mut_ref_future(b)@ == mut_ref_current(b)@ + g(k@))
                        implies buffer@ + eval_from(nv, i + 1, g) == eval_from(nv, 0, g) by {
                        assert(buffer@ + eval_from(nv, i + 1, g) =~= before + eval_from(nv, i as int, g));
                    }
                    assert forall|h: spec_fn(Seq<char>) -> Result<Seq<char>, E>| #[trigger] lookup_result(h) &&
                        (forall|b: &mut String, k: &str, r2: Result<(), E>| #[trigger] call_ensures(*old(f), (b, k), r2)
                ==> match h(k@) {
                    Ok(v) => r2 is Ok && mut_ref_future(b)@ == mut_ref_current(b)@ + v,
                    Err(e) => r2 == Err::<(), E>(e),
                })
                        implies eval_res(nv, 0, h) == prepend(buffer@, eval_res(nv, i + 1, h)) by {
                        lemma_prepend_prepend(before, esc@, eval_res(nv, i + 1, h));
                    }
                }
                i += 1;
            },
            ParseNode::Interp(offset) => {
                proof {
                    lemma_wf_children(nv, i as int);
                }
                let end = i + offset;
                let children = vstd::slice::slice_subrange(nodes, i + 1, end);
                proof {
                    assert(nodes_view(children@) =~= nv.subrange(i + 1, i + offset));
                }
                let ghost cv = nodes_view(children@);
                let interp = match interp_nodes(children, f) {
                    Ok(interp) => interp,
                    Err(e) => {
                        proof {
                            assert forall|h: spec_fn(Seq<char>) -> Result<Seq<char>, E>| #[trigger] lookup_result(h) &&
                                (forall|b: &mut String, k: &str, r2: Result<(), E>| #[trigger] call_ensures(*old(f), (b, k), r2)
                ==> match h(k@) {
                    Ok(v) => r2 is Ok && mut_ref_future(b)@ == mut_ref_current(b)@ + v,
                    Err(e) => r2 == Err::<(), E>(e),
                })
                                implies (e matches InterpError::User(e2) && eval_res(nv, 0, h) == Err::<Seq<char>, E>(e2)) by {
                                if cv.len() == 0 {
                                    assert(eval_res(cv, 0, h) == Ok::<Seq<char>, E>(Seq::empty()));
                                }
                            }
                        }
                        return Err(e);
                    },
                };
                let res = match interp {
                    Some(interp) => f(&mut buffer, interp.as_str()),
                    None => {
                        let empty: &str = "";
                        proof {
                            reveal_strlit("");
                            assert(cv =~= Seq::<NodeView>::empty());
                            assert(empty@ =~= eval_from(cv, 0, |k: Seq<char>| k));
                        }
                        f(&mut buffer, empty)
                    },
                };
                proof {
                    assert forall|g: spec_fn(Seq<char>) -> Seq<char>| #[trigger] lookup(g) &&
                        (forall|b: &mut String, k: &str, r2: Result<(), E>| #[trigger] call_ensures(*old(f), (b, k), r2)
                            ==> r2 is Ok && mut_ref_future(b)@ == mut_ref_current(b)@ + g(k@))
                        implies res is Ok && buffer@ + eval_from(nv, i + offset, g) == eval_from(nv, 0, g) by {
                        if cv.len() == 0 {
                            assert(eval_from(cv, 0, g) =~= Seq::<char>::empty());
                        }
                        assert(buffer@ + eval_from(nv, i + offset, g) =~= before + eval_from(nv, i as int, g));
                    }
                    assert forall|h: spec_fn(Seq<char>) -> Result<Seq<char>, E>| #[trigger] lookup_result(h) &&
                        (forall|b: &mut String, k: &str, r2: Result<(), E>| #[trigger] call_ensures(*old(f), (b, k), r2)
                ==> match h(k@) {
                    Ok(v) => r2 is Ok && mut_ref_future(b)@ == mut_ref_current(b)@ + v,
                    Err(e) => r2 == Err::<(), E>(e),
                })
                        implies (res is Ok ==> eval_res(nv, 0, h) == prepend(buffer@, eval_res(nv, i + offset, h)))
                            && (res matches Err(e) ==> eval_res(nv, 0, h) == Err::<Seq<char>, E>(e)) by {
                        if cv.len() == 0 {
                            assert(eval_res(cv, 0, h) == Ok::<Seq<char>, E>(Seq::empty()));
                            assert(Seq::<char>::empty() =~= eval_from(cv, 0, |k: Seq<char>| k));
                        }
                        if let Ok(c) = eval_res(cv, 0, h) {
                            if let Ok(v) = h(c) {
                                lemma_prepend_prepend(before, v, eval_res(nv, i + offset, h));
                            }
                        }
                    }
                }
                match InterpError::map_e_result(res) {
                    Ok(_) => {},
                    Err(e) => {
                        return Err(e);
                    },
                }
                i = end;
            },
        }
    }
    proof {
        assert(nv.subrange(0, i as int) =~= nv);
        assert forall|g: spec_fn(Seq<char>) -> Seq<char>| #[trigger] lookup(g) &&
            (forall|b: &mut String, k: &str, r2: Result<(), E>| #[trigger] call_ensures(*old(f), (b, k), r2)
                ==> r2 is Ok && mut_ref_future(b)@ == mut_ref_current(b)@ + g(k@))
            implies buffer@ == eval_from(nv, 0, g) by {
            assert(buffer@ + eval_from(nv, i as int, g) =~= buffer@);
        }
        assert forall|h: spec_fn(Seq<char>) -> Result<Seq<char>, E>| #[trigger] lookup_result(h) &&
            (forall|b: &mut String, k: &str, r2: Result<(), E>| #[trigger] call_ensures(*old(f), (b, k), r2)
                ==> match h(k@) {
                    Ok(v) => r2 is Ok && mut_ref_future(b)@ == mut_ref_current(b)@ + v,
                    Err(e) => r2 == Err::<(), E>(e),
                })
            implies eval_res(nv, 0, h) == Ok::<Seq<char>, E>(buffer@) by {
            assert(buffer@ + Seq::<char>::empty() =~= buffer@);
        }
    }
    Ok(Some(buffer))
}

/// Interpolates `format`: each `%{key}%` is handed to `interpolator` with the output
/// built so far, after the interpolations inside `key` are done; `\%{` and `\}%` give
/// `%{` and `}%`.
pub fn interpolate<E, F: FnMut(&mut String, &str) -> Result<(), E>>(
    format: &str,
    interpolator: &mut F,
) -> (r: Result<String, InterpError<E>>)
    requires
        !(spec_parse_interp(bytes_of(format)) is Panics),
        forall|b: &mut String, k: &str| call_requires(*old(interpolator), (b, k)),
    ensures
        spec_parse_interp(bytes_of(format)) matches InterpOutcome::Failed(e, _)
            ==> r == Err::<String, InterpError<E>>(spec_map_user::<E>(e)),
        spec_parse_interp(bytes_of(format)) matches InterpOutcome::Done(nodes) ==> {
            &&& (r is Err ==> r matches Err(InterpError::User(_)))
            &&& (r matches Err(InterpError::User(e)) ==> can_fail_with(*old(interpolator), e))
            &&& forall|e0: E| #[trigger] always_fails_with(*old(interpolator), e0) && !no_interp(nodes)
                ==> r == Err::<String, InterpError<E>>(InterpError::User(e0))
            &&& (no_interp(nodes) ==> (r matches Ok(s) && encode_utf8(s@) == plain_bytes(nodes)))
            &&& forall|g: spec_fn(Seq<char>) -> Seq<char>| #[trigger] lookup(g) &&
                (forall|b: &mut String, k: &str, r2: Result<(), E>| #[trigger] call_ensures(*old(interpolator), (b, k), r2)
                    ==> r2 is Ok && mut_ref_future(b)@ == mut_ref_current(b)@ + g(k@))
                ==> (r matches Ok(s) && s@ == eval_from(nodes, 0, g))
            &&& forall|h: spec_fn(Seq<char>) -> Result<Seq<char>, E>| #[trigger] lookup_result(h) &&
                (forall|b: &mut String, k: &str, r2: Result<(), E>| #[trigger] call_ensures(*old(interpolator), (b, k), r2)
                    ==> match h(k@) {
                        Ok(v) => r2 is Ok && mut_ref_future(b)@ == mut_ref_current(b)@ + v,
                        Err(e) => r2 == Err::<(), E>(e),
                    })
                ==> match eval_res(nodes, 0, h) {
                    Ok(x) => (r matches Ok(s) && s@ == x),
                    Err(e) => r == Err::<String, InterpError<E>>(InterpError::User(e)),
                }
        },
{
    let mut nodes = Vec::new();
    let parsed = parse_interp(&mut nodes, format);
    InterpError::map_result(parsed)?;
    let evaluated = match interp_nodes(nodes.as_slice(), interpolator) {
        Ok(v) => v,
        Err(e) => {
            return Err(e);
        },
    };
    match evaluated {
        Some(result) => Ok(result),
        None => {
            let empty = String::new();
            proof {
                assert(nodes_view(nodes@) =~= Seq::<NodeView>::empty());
                assert(encode_utf8(empty@) =~= Seq::<u8>::empty());
                assert forall|g: spec_fn(Seq<char>) -> Seq<char>| #[trigger] lookup(g)
                    implies eval_from(nodes_view(nodes@), 0, g) == empty@ by {
                    assert(eval_from(nodes_view(nodes@), 0, g) =~= Seq::<char>::empty());
                }
                assert forall|h: spec_fn(Seq<char>) -> Result<Seq<char>, E>| #[trigger] lookup_result(h)
                    implies eval_res(nodes_view(nodes@), 0, h) == Ok::<Seq<char>, E>(empty@) by {
                    assert(empty@ =~= Seq::<char>::empty());
                }
            }
            Ok(empty)
        },
    }
}


/// The source text of a node before the nodes inside it.
pub open spec fn node_head(n: NodeView) -> Seq<u8> {
    match n {
        NodeView::Raw(b) => b,
        NodeView::RawInterp(b) => seq![37u8, 123u8] + b + seq![125u8, 37u8],
        NodeView::EscapedOpen => seq![92u8, 37u8, 123u8],
        NodeView::EscapedClose => seq![92u8, 125u8, 37u8],
        NodeView::Interp(_) => seq![37u8, 123u8],
    }
}

/// The source text of a node after the nodes inside it.
pub open spec fn node_tail(n: NodeView) -> Seq<u8> {
    if n is Interp {
        seq![125u8, 37u8]
    } else {
        Seq::empty()
    }
}

/// How many nodes a node spans: itself and, for an `Interp`, the nodes inside it.
pub open spec fn node_unit(n: NodeView) -> int {
    match n {
        NodeView::Interp(k) => k as int,
        _ => 1,
    }
}

/// The format text that the nodes stand for, each interpolation written back as `%{`, its
/// nodes and `}%`.  `None` where an `Interp` spans no node or more nodes than there are.
pub open spec fn render_nodes(s: Seq<NodeView>) -> Option<Seq<u8>>
    decreases s.len(),
{
    if s.len() == 0 {
        Some(Seq::empty())
    } else {
        let e = node_unit(s[0]);
        if e < 1 || e > s.len() {
            None
        } else {
            match (render_nodes(s.subrange(1, e)), render_nodes(s.subrange(e, s.len() as int))) {
                (Some(inner), Some(rest)) => Some(node_head(s[0]) + inner + node_tail(s[0]) + rest),
                _ => None,
            }
        }
    }
}

proof fn lemma_render_nodes_concat(a: Seq<NodeView>, b: Seq<NodeView>)
    requires
        render_nodes(a) is Some,
        render_nodes(b) is Some,
    ensures
        render_nodes(a + b) == Some(render_nodes(a)->Some_0 + render_nodes(b)->Some_0),
    decreases a.len(),
{
    if a.len() == 0 {
        assert(a + b =~= b);
        assert(render_nodes(a)->Some_0 + render_nodes(b)->Some_0 =~= render_nodes(b)->Some_0);
    } else {
        let ab = a + b;
        let e = node_unit(a[0]);
        assert(ab[0] == a[0]);
        assert(ab.subrange(1, e) =~= a.subrange(1, e));
        assert(ab.subrange(e, ab.len() as int) =~= a.subrange(e, a.len() as int) + b);
        lemma_render_nodes_concat(a.subrange(e, a.len() as int), b);
        let inner = render_nodes(a.subrange(1, e))->Some_0;
        let rest = render_nodes(a.subrange(e, a.len() as int))->Some_0;
        let rb = render_nodes(b)->Some_0;
        assert(node_head(a[0]) + inner + node_tail(a[0]) + (rest + rb)
            =~= (node_head(a[0]) + inner + node_tail(a[0]) + rest) + rb);
    }
}

proof fn lemma_render_nodes_push(a: Seq<NodeView>, x: NodeView)
    requires
        render_nodes(a) is Some,
        !(x is Interp),
    ensures
        render_nodes(a.push(x)) == Some(render_nodes(a)->Some_0 + node_head(x)),
{
    let t = seq![x];
    assert(t[0] == x);
    assert(t.subrange(1, 1) =~= Seq::<NodeView>::empty());
    assert(render_nodes(Seq::<NodeView>::empty()) == Some(Seq::<u8>::empty()));
    assert(node_head(x) + Seq::<u8>::empty() + Seq::<u8>::empty() + Seq::<u8>::empty() =~= node_head(x));
    lemma_render_nodes_concat(a, t);
    assert(a + t =~= a.push(x));
}

/// The open interpolations are output positions in increasing order, each of an `Interp`.
pub open spec fn open_ok(out: Seq<NodeView>, stack: Seq<int>) -> bool {
    &&& forall|a: int, b: int| 0 <= a < b < stack.len() ==> stack[a] < stack[b]
    &&& forall|a: int| 0 <= a < stack.len() ==> 0 <= #[trigger] stack[a] < out.len()
    &&& forall|a: int| 0 <= a < stack.len() ==> out[#[trigger] stack[a]] is Interp
}

/// The format text of the nodes so far when the open interpolations are not closed yet.
pub open spec fn prender_nodes(out: Seq<NodeView>, stack: Seq<int>) -> Option<Seq<u8>>
    decreases stack.len(),
{
    if stack.len() == 0 {
        render_nodes(out)
    } else {
        let t = stack.last();
        if 0 <= t < out.len() {
            match (prender_nodes(out.subrange(0, t), stack.drop_last()), render_nodes(out.subrange(t + 1, out.len() as int))) {
                (Some(a), Some(b)) => Some(a + node_head(out[t]) + b),
                _ => None,
            }
        } else {
            None
        }
    }
}

proof fn lemma_open_ok_prefix(out: Seq<NodeView>, stack: Seq<int>)
    requires
        open_ok(out, stack),
        stack.len() > 0,
    ensures
        open_ok(out.subrange(0, stack.last()), stack.drop_last()),
{
    let t = stack.last();
    let s2 = stack.drop_last();
    assert(stack[stack.len() - 1] == t);
    assert forall|a: int| 0 <= a < s2.len() implies 0 <= #[trigger] s2[a] < out.subrange(0, t).len() by {
        assert(s2[a] == stack[a]);
        assert(stack[a] < stack[stack.len() - 1]);
    }
    assert forall|a: int| 0 <= a < s2.len() implies out.subrange(0, t)[#[trigger] s2[a]] is Interp by {
        assert(s2[a] == stack[a]);
        assert(stack[a] < stack[stack.len() - 1]);
    }
}

proof fn lemma_prender_nodes_push(out: Seq<NodeView>, stack: Seq<int>, x: NodeView)
    requires
        open_ok(out, stack),
        prender_nodes(out, stack) is Some,
        !(x is Interp),
    ensures
        prender_nodes(out.push(x), stack) == Some(prender_nodes(out, stack)->Some_0 + node_head(x)),
        open_ok(out.push(x), stack),
{
    let t2 = out.push(x);
    assert forall|a: int| 0 <= a < stack.len() implies t2[#[trigger] stack[a]] is Interp by {
        assert(t2[stack[a]] == out[stack[a]]);
    }
    if stack.len() == 0 {
        lemma_render_nodes_push(out, x);
    } else {
        let t = stack.last();
        assert(stack[stack.len() - 1] == t);
        assert(t2.subrange(0, t) =~= out.subrange(0, t));
        assert(t2.subrange(t + 1, t2.len() as int) =~= out.subrange(t + 1, out.len() as int).push(x));
        assert(t2[t] == out[t]);
        lemma_render_nodes_push(out.subrange(t + 1, out.len() as int), x);
        let a = prender_nodes(out.subrange(0, t), stack.drop_last())->Some_0;
        let b = render_nodes(out.subrange(t + 1, out.len() as int))->Some_0;
        assert(a + node_head(out[t]) + (b + node_head(x)) =~= (a + node_head(out[t]) + b) + node_head(x));
    }
}

proof fn lemma_prender_nodes_open(out: Seq<NodeView>, stack: Seq<int>, g: NodeView)
    requires
        open_ok(out, stack),
        prender_nodes(out, stack) is Some,
        g is Interp,
    ensures
        prender_nodes(out.push(g), stack.push(out.len() as int)) == Some(prender_nodes(out, stack)->Some_0 + node_head(g)),
        open_ok(out.push(g), stack.push(out.len() as int)),
{
    let t2 = out.push(g);
    let s2 = stack.push(out.len() as int);
    let n = out.len() as int;
    assert(s2.drop_last() =~= stack);
    assert(t2.subrange(0, n) =~= out);
    assert(t2.subrange(n + 1, t2.len() as int) =~= Seq::<NodeView>::empty());
    assert(render_nodes(Seq::<NodeView>::empty()) == Some(Seq::<u8>::empty()));
    assert(prender_nodes(out, stack)->Some_0 + node_head(g) + Seq::<u8>::empty() =~= prender_nodes(out, stack)->Some_0 + node_head(g));
    assert forall|a: int, b: int| 0 <= a < b < s2.len() implies s2[a] < s2[b] by {
        assert(s2[a] == stack[a] || a == s2.len() - 1);
        if b < stack.len() {
            assert(s2[b] == stack[b]);
        }
    }
    assert forall|a: int| 0 <= a < s2.len() implies 0 <= #[trigger] s2[a] < t2.len() by {
        if a < stack.len() {
            assert(s2[a] == stack[a]);
        }
    }
    assert forall|a: int| 0 <= a < s2.len() implies t2[#[trigger] s2[a]] is Interp by {
        if a < stack.len() {
            assert(s2[a] == stack[a]);
            assert(t2[stack[a]] == out[stack[a]]);
        }
    }
}

proof fn lemma_prender_nodes_close_deep(out: Seq<NodeView>, out2: Seq<NodeView>, stack: Seq<int>, g: NodeView)
    requires
        open_ok(out, stack),
        stack.len() > 1,
        prender_nodes(out, stack) is Some,
        out2 == out.update(stack.last(), g),
        render_nodes(out2.subrange(stack.last(), out2.len() as int)) is Some,
    ensures
        prender_nodes(out2, stack.drop_last()) == Some(prender_nodes(out.subrange(0, stack.last()), stack.drop_last())->Some_0
            + render_nodes(out2.subrange(stack.last(), out2.len() as int))->Some_0),
{
    let ti = stack.last();
    let s2 = stack.drop_last();
    assert(stack[stack.len() - 1] == stack.last());
    let t1 = s2.last();
    assert(s2[s2.len() - 1] == s2.last());
    assert(s2.last() == stack[stack.len() - 2]);
    assert(t1 < ti);
    let pre = out.subrange(0, ti);
    let tail2 = out2.subrange(ti, out2.len() as int);
    assert(pre.subrange(0, t1) =~= out.subrange(0, t1));
    assert(pre[t1] == out[t1]);
    assert(pre.subrange(t1 + 1, pre.len() as int) =~= out.subrange(t1 + 1, ti));
    assert(out2.subrange(0, t1) =~= out.subrange(0, t1));
    assert(out2[t1] == out[t1]);
    assert(out2.subrange(t1 + 1, out2.len() as int) =~= out.subrange(t1 + 1, ti) + tail2);
    let a1 = prender_nodes(out.subrange(0, t1), s2.drop_last())->Some_0;
    let m = render_nodes(out.subrange(t1 + 1, ti))->Some_0;
    let gr = render_nodes(tail2)->Some_0;
    lemma_render_nodes_concat(out.subrange(t1 + 1, ti), tail2);
    assert(a1 + node_head(out[t1]) + (m + gr) =~= (a1 + node_head(out[t1]) + m) + gr);
}

proof fn lemma_prender_nodes_close(out: Seq<NodeView>, stack: Seq<int>)
    requires
        open_ok(out, stack),
        stack.len() > 0,
        prender_nodes(out, stack) is Some,
        out.len() <= usize::MAX,
    ensures
        ({
            let o = stack.last();
            let out2 = out.update(o, NodeView::Interp((out.len() - o) as usize));
            &&& prender_nodes(out2, stack.drop_last())
                == Some(prender_nodes(out, stack)->Some_0 + seq![125u8, 37u8])
            &&& open_ok(out2, stack.drop_last())
        }),
{
    let ti = stack.last();
    assert(stack[stack.len() - 1] == stack.last());
    let g = NodeView::Interp((out.len() - ti) as usize);
    let out2 = out.update(ti, g);
    let s2 = stack.drop_last();
    let inner = out.subrange(ti + 1, out.len() as int);
    let a = prender_nodes(out.subrange(0, ti), s2)->Some_0;
    let r = render_nodes(inner)->Some_0;
    let tail2 = out2.subrange(ti, out2.len() as int);
    assert(tail2 =~= seq![g] + inner);
    assert(tail2[0] == g);
    assert(tail2.subrange(1, tail2.len() as int) =~= inner);
    assert(tail2.subrange(tail2.len() as int, tail2.len() as int) =~= Seq::<NodeView>::empty());
    assert(render_nodes(Seq::<NodeView>::empty()) == Some(Seq::<u8>::empty()));
    let gr = node_head(g) + r + node_tail(g);
    assert(render_nodes(tail2) == Some(gr + Seq::<u8>::empty()));
    assert(gr + Seq::<u8>::empty() =~= gr);
    assert(out2.subrange(0, ti) =~= out.subrange(0, ti));
    assert forall|x: int| 0 <= x < s2.len() implies 0 <= #[trigger] s2[x] < out2.len() by {
        assert(s2[x] == stack[x]);
    }
    assert forall|x: int| 0 <= x < s2.len() implies out2[#[trigger] s2[x]] is Interp by {
        assert(s2[x] == stack[x]);
        assert(stack[x] < stack[stack.len() - 1]);
    }
    if s2.len() == 0 {
        assert(out2 =~= out2.subrange(0, ti) + tail2);
        lemma_render_nodes_concat(out.subrange(0, ti), tail2);
    } else {
        lemma_prender_nodes_close_deep(out, out2, stack, g);
    }
    assert(a + gr =~= a + node_head(out[ti]) + r + seq![125u8, 37u8]);
}


/// What the scanner keeps true for the round trip: the nodes so far with the pending raw
/// text, followed by the rest of the format, give the whole format back.
pub open spec fn interp_rt_inv(src: Seq<u8>, st: InterpScan) -> bool {
    &&& interp_inv(st)
    &&& 0 <= st.raw_start <= st.index <= src.len() <= usize::MAX
    &&& st.out.len() <= st.raw_start
    &&& prender_nodes(st.out, st.stack) is Some
    &&& prender_nodes(st.out, st.stack)->Some_0 + src.subrange(st.raw_start, st.index)
            + src.subrange(st.index, src.len() as int) == src
}

proof fn lemma_flush_rt(src: Seq<u8>, st: InterpScan)
    requires
        interp_rt_inv(src, st),
    ensures
        open_ok(flush_raw(src, st), st.stack),
        prender_nodes(flush_raw(src, st), st.stack) == Some(prender_nodes(st.out, st.stack)->Some_0
            + src.subrange(st.raw_start, st.index)),
{
    assert(open_ok(st.out, st.stack));
    if st.raw_start != st.index {
        lemma_prender_nodes_push(st.out, st.stack, NodeView::Raw(src.subrange(st.raw_start, st.index)));
    } else {
        let p = prender_nodes(st.out, st.stack)->Some_0;
        assert(p + src.subrange(st.raw_start, st.index) =~= p);
    }
}

#[verifier::spinoff_prover]
proof fn lemma_rt_escape(src: Seq<u8>, st: InterpScan, x: NodeView)
    requires
        interp_rt_inv(src, st),
        st.index + 3 <= src.len(),
        x is EscapedOpen || x is EscapedClose,
        src.subrange(st.index, st.index + 3) == node_head(x),
    ensures
        prender_nodes(flush_raw(src, st).push(x), st.stack)->Some_0
            + src.subrange(st.index + 3, st.index + 3) + src.subrange(st.index + 3, src.len() as int) == src,
        prender_nodes(flush_raw(src, st).push(x), st.stack) is Some,
{
    let i = st.index;
    let p1 = prender_nodes(st.out, st.stack)->Some_0 + src.subrange(st.raw_start, i);
    lemma_flush_rt(src, st);
    lemma_prender_nodes_push(flush_raw(src, st), st.stack, x);
    let rest = src.subrange(i, src.len() as int);
    assert(rest =~= src.subrange(i, i + 3) + src.subrange(i + 3, src.len() as int));
    assert(p1 + node_head(x) + src.subrange(i + 3, i + 3) + src.subrange(i + 3, src.len() as int) =~= p1 + rest);
}

#[verifier::spinoff_prover]
proof fn lemma_rt_open(src: Seq<u8>, st: InterpScan)
    requires
        interp_rt_inv(src, st),
        has2(src, st.index, 37, 123),
    ensures
        ({
            let out1 = flush_raw(src, st);
            let n_out = out1.push(NodeView::Interp(usize::MAX));
            let n_stack = st.stack.push(out1.len() as int);
            &&& prender_nodes(n_out, n_stack) is Some
            &&& prender_nodes(n_out, n_stack)->Some_0 + src.subrange(st.index + 2, st.index + 2)
                + src.subrange(st.index + 2, src.len() as int) == src
        }),
{
    let i = st.index;
    let p1 = prender_nodes(st.out, st.stack)->Some_0 + src.subrange(st.raw_start, i);
    let out1 = flush_raw(src, st);
    lemma_flush_rt(src, st);
    lemma_prender_nodes_open(out1, st.stack, NodeView::Interp(usize::MAX));
    let rest = src.subrange(i, src.len() as int);
    assert(rest =~= seq![37u8, 123u8] + src.subrange(i + 2, src.len() as int));
    assert(p1 + seq![37u8, 123u8] + src.subrange(i + 2, i + 2) + src.subrange(i + 2, src.len() as int) =~= p1 + rest);
}

#[verifier::spinoff_prover]
proof fn lemma_rt_raw_interp(src: Seq<u8>, st: InterpScan)
    requires
        interp_rt_inv(src, st),
        has2(src, st.index, 125, 37),
        st.stack.len() > 0,
        st.out.len() > 1,
        st.out.last() is Interp,
    ensures
        ({
            let n_out = st.out.update(st.out.len() - 1, NodeView::RawInterp(src.subrange(st.raw_start, st.index)));
            &&& prender_nodes(n_out, st.stack.drop_last()) is Some
            &&& prender_nodes(n_out, st.stack.drop_last())->Some_0 + src.subrange(st.index + 2, st.index + 2)
                + src.subrange(st.index + 2, src.len() as int) == src
        }),
{
    let i = st.index;
    let p = prender_nodes(st.out, st.stack)->Some_0;
    let pend = src.subrange(st.raw_start, i);
    let rest = src.subrange(i, src.len() as int);
    assert(rest =~= seq![125u8, 37u8] + src.subrange(i + 2, src.len() as int));
    let t = st.out.len() - 1;
    assert(st.stack[st.stack.len() - 1] == t);
    let s2 = st.stack.drop_last();
    let pre = st.out.subrange(0, t);
    assert(open_ok(st.out, st.stack));
    lemma_open_ok_prefix(st.out, st.stack);
    assert(st.out.subrange(t + 1, st.out.len() as int) =~= Seq::<NodeView>::empty());
    assert(render_nodes(Seq::<NodeView>::empty()) == Some(Seq::<u8>::empty()));
    let a = prender_nodes(pre, s2)->Some_0;
    assert(p == a + seq![37u8, 123u8] + Seq::<u8>::empty());
    let x = NodeView::RawInterp(pend);
    lemma_prender_nodes_push(pre, s2, x);
    assert(st.out.update(t, x) =~= pre.push(x));
    assert(a + node_head(x) + src.subrange(i + 2, i + 2) + src.subrange(i + 2, src.len() as int)
        =~= (a + seq![37u8, 123u8] + Seq::<u8>::empty()) + pend + rest);
}

#[verifier::spinoff_prover]
proof fn lemma_rt_close(src: Seq<u8>, st: InterpScan)
    requires
        interp_rt_inv(src, st),
        has2(src, st.index, 125, 37),
        st.stack.len() > 0,
        flush_raw(src, st).len() <= usize::MAX,
    ensures
        ({
            let out1 = flush_raw(src, st);
            let o = st.stack.last();
            let n_out = out1.update(o, NodeView::Interp((out1.len() - o) as usize));
            &&& prender_nodes(n_out, st.stack.drop_last()) is Some
            &&& prender_nodes(n_out, st.stack.drop_last())->Some_0 + src.subrange(st.index + 2, st.index + 2)
                + src.subrange(st.index + 2, src.len() as int) == src
        }),
{
    let i = st.index;
    let p1 = prender_nodes(st.out, st.stack)->Some_0 + src.subrange(st.raw_start, i);
    let out1 = flush_raw(src, st);
    lemma_flush_rt(src, st);
    lemma_prender_nodes_close(out1, st.stack);
    let rest = src.subrange(i, src.len() as int);
    assert(rest =~= seq![125u8, 37u8] + src.subrange(i + 2, src.len() as int));
    assert(p1 + seq![125u8, 37u8] + src.subrange(i + 2, i + 2) + src.subrange(i + 2, src.len() as int) =~= p1 + rest);
}

proof fn lemma_interp_step_rt(src: Seq<u8>, st: InterpScan)
    requires
        interp_rt_inv(src, st),
        st.index < src.len(),
    ensures
        interp_step(src, st) matches InterpStep::Next(n) ==> interp_rt_inv(src, n),
{
    let i = st.index;
    lemma_interp_step_inv(src, st);
    lemma_flush_inv(src, st);
    if !on_boundary(src, i) {
    } else if has3(src, i, 92, 37, 123) {
        assert(src.subrange(i, i + 3) =~= node_head(NodeView::EscapedOpen));
        lemma_rt_escape(src, st, NodeView::EscapedOpen);
    } else if has3(src, i, 92, 125, 37) {
        assert(src.subrange(i, i + 3) =~= node_head(NodeView::EscapedClose));
        lemma_rt_escape(src, st, NodeView::EscapedClose);
    } else if has2(src, i, 37, 123) {
        lemma_rt_open(src, st);
    } else if has2(src, i, 125, 37) {
        if st.stack.len() == 0 {
        } else if st.out.len() > 1 && st.out.last() is Interp {
            lemma_rt_raw_interp(src, st);
        } else {
            lemma_rt_close(src, st);
        }
    } else {
        let p = prender_nodes(st.out, st.stack)->Some_0;
        let pend = src.subrange(st.raw_start, i);
        assert(src.subrange(st.raw_start, i + 1) =~= pend.push(src[i]));
        assert(src.subrange(i, src.len() as int) =~= seq![src[i]] + src.subrange(i + 1, src.len() as int));
        assert(p + src.subrange(st.raw_start, i + 1) + src.subrange(i + 1, src.len() as int)
            =~= p + pend + src.subrange(i, src.len() as int));
    }
}

proof fn lemma_interp_run_rt(src: Seq<u8>, st: InterpScan)
    requires
        interp_rt_inv(src, st),
    ensures
        interp_run(src, st) matches InterpOutcome::Done(nodes) ==> render_nodes(nodes) == Some(src),
    decreases src.len() - st.index,
{
    if 0 <= st.index < src.len() {
        lemma_interp_step_rt(src, st);
        if let InterpStep::Next(n) = interp_step(src, st) {
            if st.index < n.index {
                lemma_interp_run_rt(src, n);
            }
        }
    } else if st.stack.len() == 0 {
        lemma_flush_rt(src, st);
        let p = prender_nodes(st.out, st.stack)->Some_0;
        assert(src.subrange(st.index, src.len() as int) =~= Seq::<u8>::empty());
        assert(p + src.subrange(st.raw_start, st.index) + Seq::<u8>::empty() =~= p + src.subrange(st.raw_start, st.index));
    }
}

/// A format that parses without error is given back by its nodes: raw text as it is, the
/// escapes and raw interpolations as they were written, and each interpolation as `%{`,
/// its nodes and `}%`.
pub proof fn lemma_parse_interp_roundtrip(src: Seq<u8>)
    requires
        src.len() <= usize::MAX,
    ensures
        spec_parse_interp(src) matches InterpOutcome::Done(nodes) ==> render_nodes(nodes) == Some(src),
{
    assert(render_nodes(Seq::<NodeView>::empty()) == Some(Seq::<u8>::empty()));
    assert(src.subrange(0, 0) =~= Seq::<u8>::empty());
    assert(src.subrange(0, src.len() as int) =~= src);
    assert(Seq::<u8>::empty() + Seq::<u8>::empty() + src =~= src);
    lemma_interp_run_rt(src, interp_start());
}


/// Every byte of `src` is ASCII.
pub open spec fn all_ascii(src: Seq<u8>) -> bool {
    forall|i: int| 0 <= i < src.len() ==> #[trigger] src[i] < 128
}

proof fn lemma_interp_run_ascii(src: Seq<u8>, st: InterpScan)
    requires
        all_ascii(src),
    ensures
        !(interp_run(src, st) is Panics),
    decreases src.len() - st.index,
{
    if 0 <= st.index < src.len() {
        assert(src[st.index] < 128);
        if let InterpStep::Next(n) = interp_step(src, st) {
            assert(st.index < n.index);
            lemma_interp_run_ascii(src, n);
        }
    }
}

/// The parser only panics on text that is not ASCII.
pub proof fn lemma_parse_interp_ascii(src: Seq<u8>)
    requires
        all_ascii(src),
    ensures
        !(spec_parse_interp(src) is Panics),
{
    lemma_interp_run_ascii(src, interp_start());
}

} // verus!

verus! {

/// No raw-text node is empty.
pub open spec fn raws_nonempty(s: Seq<NodeView>) -> bool {
    forall|i: int| 0 <= i < s.len() && (#[trigger] s[i]) is Raw ==> s[i]->Raw_0.len() > 0
}

proof fn lemma_flush_raws(src: Seq<u8>, st: InterpScan)
    requires
        raws_nonempty(st.out),
        0 <= st.raw_start <= st.index <= src.len(),
    ensures
        raws_nonempty(flush_raw(src, st)),
        flush_raw(src, st).len() >= st.out.len(),
        forall|j: int| 0 <= j < st.out.len() ==> flush_raw(src, st)[j] == st.out[j],
{
    let f = flush_raw(src, st);
    assert forall|j: int| 0 <= j < f.len() && (#[trigger] f[j]) is Raw implies f[j]->Raw_0.len() > 0 by {
        if j < st.out.len() {
            assert(f[j] == st.out[j]);
        }
    }
}

proof fn lemma_step_raws(src: Seq<u8>, st: InterpScan)
    requires
        raws_nonempty(st.out),
        interp_inv(st),
        0 <= st.raw_start <= st.index < src.len(),
    ensures
        interp_step(src, st) matches InterpStep::Next(n) ==> raws_nonempty(n.out)
            && 0 <= n.raw_start <= n.index <= src.len(),
{
    lemma_flush_raws(src, st);
    let f = flush_raw(src, st);
    let i = st.index;
    if let InterpStep::Next(n) = interp_step(src, st) {
        if has3(src, i, 92, 37, 123) || has3(src, i, 92, 125, 37) || has2(src, i, 37, 123) {
            assert forall|j: int| 0 <= j < n.out.len() && (#[trigger] n.out[j]) is Raw
                implies n.out[j]->Raw_0.len() > 0 by {
                assert(n.out[j] == f[j]);
            }
        } else if has2(src, i, 125, 37) {
            if st.out.len() > 1 && st.out.last() is Interp {
                assert forall|j: int| 0 <= j < n.out.len() && (#[trigger] n.out[j]) is Raw
                    implies n.out[j]->Raw_0.len() > 0 by {
                    if j != st.out.len() - 1 {
                        assert(n.out[j] == st.out[j]);
                    }
                }
            } else if st.stack.len() > 0 {
                assert(n.out == f.update(st.stack.last(), NodeView::Interp((f.len() - st.stack.last()) as usize)));
                assert forall|j: int| 0 <= j < n.out.len() && (#[trigger] n.out[j]) is Raw
                    implies n.out[j]->Raw_0.len() > 0 by {
                    if j != st.stack.last() {
                        assert(n.out[j] == f[j]);
                    }
                }
            }
        }
    }
}

proof fn lemma_interp_run_raws(src: Seq<u8>, st: InterpScan)
    requires
        raws_nonempty(st.out),
        interp_inv(st),
        st.out.len() <= st.raw_start,
        0 <= st.raw_start <= st.index <= src.len() <= usize::MAX,
    ensures
        interp_run(src, st) matches InterpOutcome::Done(nodes) ==> raws_nonempty(nodes),
    decreases src.len() - st.index,
{
    if 0 <= st.index < src.len() {
        lemma_step_raws(src, st);
        lemma_interp_step_inv(src, st);
        if let InterpStep::Next(n) = interp_step(src, st) {
            if st.index < n.index {
                lemma_interp_run_raws(src, n);
            }
        }
    } else if st.stack.len() == 0 {
        lemma_flush_raws(src, st);
    }
}

/// A successful parse gives no empty raw-text node.
pub proof fn lemma_parse_interp_raws_nonempty(src: Seq<u8>)
    requires
        src.len() <= usize::MAX,
    ensures
        spec_parse_interp(src) matches InterpOutcome::Done(nodes) ==> raws_nonempty(nodes),
{
    lemma_interp_run_raws(src, interp_start());
}

} // verus!

verus! {

/// No node is an escape.
pub open spec fn no_escapes(s: Seq<NodeView>) -> bool {
    forall|i: int| 0 <= i < s.len() ==> !((#[trigger] s[i]) is EscapedOpen) && !(s[i] is EscapedClose)
}

/// `src` holds neither `\%{` nor `\}%`.
pub open spec fn no_escape_text(src: Seq<u8>) -> bool {
    forall|i: int| !(#[trigger] has3(src, i, 92, 37, 123)) && !has3(src, i, 92, 125, 37)
}

proof fn lemma_step_no_escapes(src: Seq<u8>, st: InterpScan)
    requires
        no_escapes(st.out),
        no_escape_text(src),
        interp_inv(st),
        0 <= st.raw_start <= st.index < src.len(),
    ensures
        interp_step(src, st) matches InterpStep::Next(n) ==> no_escapes(n.out),
{
    let f = flush_raw(src, st);
    let i = st.index;
    assert(!has3(src, i, 92, 37, 123) && !has3(src, i, 92, 125, 37));
    lemma_flush_raws_shape(src, st);
    if let InterpStep::Next(n) = interp_step(src, st) {
        if has2(src, i, 37, 123) {
            assert forall|j: int| 0 <= j < n.out.len() implies !((#[trigger] n.out[j]) is EscapedOpen)
                && !(n.out[j] is EscapedClose) by {
                if j < f.len() {
                    assert(n.out[j] == f[j]);
                }
            }
        } else if has2(src, i, 125, 37) {
            if st.out.len() > 1 && st.out.last() is Interp {
                assert forall|j: int| 0 <= j < n.out.len() implies !((#[trigger] n.out[j]) is EscapedOpen)
                    && !(n.out[j] is EscapedClose) by {
                    if j != st.out.len() - 1 {
                        assert(n.out[j] == st.out[j]);
                    }
                }
            } else if st.stack.len() > 0 {
                assert(n.out == f.update(st.stack.last(), NodeView::Interp((f.len() - st.stack.last()) as usize)));
                assert forall|j: int| 0 <= j < n.out.len() implies !((#[trigger] n.out[j]) is EscapedOpen)
                    && !(n.out[j] is EscapedClose) by {
                    if j != st.stack.last() {
                        assert(n.out[j] == f[j]);
                    }
                }
            }
        }
    }
}

/// Emitting the pending raw text adds at most a raw node.
proof fn lemma_flush_raws_shape(src: Seq<u8>, st: InterpScan)
    ensures
        flush_raw(src, st).len() >= st.out.len(),
        forall|j: int| 0 <= j < st.out.len() ==> flush_raw(src, st)[j] == st.out[j],
        forall|j: int| st.out.len() <= j < flush_raw(src, st).len() ==> (#[trigger] flush_raw(src, st)[j]) is Raw,
{
}

proof fn lemma_interp_run_no_escapes(src: Seq<u8>, st: InterpScan)
    requires
        no_escapes(st.out),
        no_escape_text(src),
        interp_inv(st),
        st.out.len() <= st.raw_start,
        0 <= st.raw_start <= st.index <= src.len() <= usize::MAX,
    ensures
        interp_run(src, st) matches InterpOutcome::Done(nodes) ==> no_escapes(nodes),
    decreases src.len() - st.index,
{
    if 0 <= st.index < src.len() {
        lemma_step_no_escapes(src, st);
        lemma_interp_step_inv(src, st);
        if let InterpStep::Next(n) = interp_step(src, st) {
            if st.index < n.index {
                lemma_interp_run_no_escapes(src, n);
            }
        }
    } else if st.stack.len() == 0 {
        lemma_flush_raws_shape(src, st);
    }
}

/// The interpolator that writes each key back between `%{` and `}%`.
pub open spec fn rewrap() -> spec_fn(Seq<char>) -> Seq<char> {
    |k: Seq<char>| seq!['%', '{'] + k + seq!['}', '%']
}

/// Each piece of text of the nodes is UTF-8 that decodes and encodes back to itself.
pub open spec fn pieces_valid(s: Seq<NodeView>) -> bool {
    forall|i: int| 0 <= i < s.len() ==> match #[trigger] s[i] {
        NodeView::Raw(b) => encode_utf8(decode_utf8(b)) == b,
        NodeView::RawInterp(b) => encode_utf8(decode_utf8(b)) == b,
        _ => true,
    }
}

proof fn lemma_encode_rewrap(k: Seq<char>)
    ensures
        encode_utf8(rewrap()(k)) == seq![37u8, 123u8] + encode_utf8(k) + seq![125u8, 37u8],
{
    let open = seq!['%', '{'];
    let close = seq!['}', '%'];
    assert(open[0] == '%' && open[1] == '{');
    assert(close[0] == '}' && close[1] == '%');
    assert(vstd::utf8::is_ascii_chars(open));
    assert(vstd::utf8::is_ascii_chars(close));
    lemma_encode_ascii(open);
    lemma_encode_ascii(close);
    assert(open.map_values(|c: char| c as u8) =~= seq![37u8, 123u8]);
    assert(close.map_values(|c: char| c as u8) =~= seq![125u8, 37u8]);
    lemma_encode_concat(open, k);
    lemma_encode_concat(open + k, close);
}

/// With `rewrap`, the nodes from `i` on evaluate to the text they were parsed from.
proof fn lemma_rewrap_from(s: Seq<NodeView>, i: int)
    requires
        no_escapes(s),
        pieces_valid(s),
        0 <= i <= s.len(),
        render_nodes(s.subrange(i, s.len() as int)) is Some,
    ensures
        encode_utf8(eval_from(s, i, rewrap())) == render_nodes(s.subrange(i, s.len() as int))->Some_0,
    decreases s.len(), s.len() - i,
{
    let t = s.subrange(i, s.len() as int);
    if i == s.len() {
        assert(t =~= Seq::<NodeView>::empty());
        assert(encode_utf8(Seq::<char>::empty()) =~= Seq::<u8>::empty());
    } else {
        let n = s[i];
        let e = node_unit(n);
        assert(t[0] == n);
        assert(1 <= e && e <= t.len());
        assert(t.subrange(1, e) =~= s.subrange(i + 1, i + e));
        assert(t.subrange(e, t.len() as int) =~= s.subrange(i + e, s.len() as int));
        lemma_rewrap_from(s, i + e);
        let rest = eval_from(s, i + e, rewrap());
        match n {
            NodeView::Raw(b) => {
                assert(s.subrange(i + 1, i + 1) =~= Seq::<NodeView>::empty());
                lemma_encode_concat(decode_utf8(b), rest);
                assert(b + Seq::<u8>::empty() + Seq::<u8>::empty()
                    + render_nodes(s.subrange(i + 1, s.len() as int))->Some_0
                    =~= b + render_nodes(s.subrange(i + 1, s.len() as int))->Some_0);
                assert(render_nodes(s.subrange(i + 1, i + 1)) == Some(Seq::<u8>::empty()));
                assert(eval_from(s, i, rewrap()) == decode_utf8(b) + rest);
                assert(encode_utf8(eval_from(s, i, rewrap())) == render_nodes(t)->Some_0);
            },
            NodeView::RawInterp(b) => {
                assert(s.subrange(i + 1, i + 1) =~= Seq::<NodeView>::empty());
                lemma_encode_rewrap(decode_utf8(b));
                lemma_encode_concat(rewrap()(decode_utf8(b)), rest);
                assert(node_head(n) + Seq::<u8>::empty() + Seq::<u8>::empty()
                    + render_nodes(s.subrange(i + 1, s.len() as int))->Some_0
                    =~= seq![37u8, 123u8] + b + seq![125u8, 37u8] + render_nodes(s.subrange(i + 1, s.len() as int))->Some_0);
                assert(render_nodes(s.subrange(i + 1, i + 1)) == Some(Seq::<u8>::empty()));
                assert(eval_from(s, i, rewrap()) == rewrap()(decode_utf8(b)) + rest);
                assert(encode_utf8(eval_from(s, i, rewrap())) == render_nodes(t)->Some_0);
            },
            NodeView::Interp(k) => {
                let c = s.subrange(i + 1, i + e);
                assert forall|j: int| 0 <= j < c.len() implies !((#[trigger] c[j]) is EscapedOpen)
                    && !(c[j] is EscapedClose) by {
                    assert(c[j] == s[i + 1 + j]);
                }
                assert forall|j: int| 0 <= j < c.len() implies match #[trigger] c[j] {
                    NodeView::Raw(b) => encode_utf8(decode_utf8(b)) == b,
                    NodeView::RawInterp(b) => encode_utf8(decode_utf8(b)) == b,
                    _ => true,
                } by {
                    assert(c[j] == s[i + 1 + j]);
                }
                assert(c.subrange(0, c.len() as int) =~= c);
                lemma_rewrap_from(c, 0);
                let inner = eval_from(c, 0, rewrap());
                lemma_encode_rewrap(inner);
                lemma_encode_concat(rewrap()(inner), rest);
                assert(seq![37u8, 123u8] + encode_utf8(inner) + seq![125u8, 37u8] + encode_utf8(rest)
                    =~= node_head(n) + render_nodes(c)->Some_0 + node_tail(n)
                        + render_nodes(s.subrange(i + e, s.len() as int))->Some_0);
                assert(eval_from(s, i, rewrap()) == rewrap()(inner) + rest);
                assert(encode_utf8(eval_from(s, i, rewrap())) == render_nodes(t)->Some_0);
            },
            _ => {
                assert(!(s[i] is EscapedOpen) && !(s[i] is EscapedClose));
            },
        }
    }
}

/// An interpolator that writes each key back between `%{` and `}%` rebuilds a format
/// that holds no escape: for the nodes `parsed` of such a format, the evaluation with
/// `rewrap` is the format's own text.
pub proof fn lemma_rewrap_rebuilds(src: Seq<u8>, parsed: Seq<ParseNode<'_>>)
    requires
        src.len() <= usize::MAX,
        no_escape_text(src),
        spec_parse_interp(src) == InterpOutcome::Done(nodes_view(parsed)),
    ensures
        encode_utf8(eval_from(nodes_view(parsed), 0, rewrap())) == src,
{
    let s = nodes_view(parsed);
    lemma_parse_interp_roundtrip(src);
    lemma_interp_run_no_escapes(src, interp_start());
    assert forall|j: int| 0 <= j < s.len() implies match #[trigger] s[j] {
        NodeView::Raw(b) => encode_utf8(decode_utf8(b)) == b,
        NodeView::RawInterp(b) => encode_utf8(decode_utf8(b)) == b,
        _ => true,
    } by {
        assert(s[j] == parsed[j]@);
        match parsed[j] {
            ParseNode::Raw(x) => encode_utf8_decode_utf8(x@),
            ParseNode::RawInterp(x) => encode_utf8_decode_utf8(x@),
            _ => {},
        }
    }
    assert(s.subrange(0, s.len() as int) =~= s);
    lemma_rewrap_from(s, 0);
}

} // verus!

verus! {

/// The rows in which nodes are listed, from node `i` on: each node that is not an
/// interpolation gives (indent, position, node), where the position counts from `index`;
/// an interpolation gives the rows of its nodes, one `width` deeper, whose positions count
/// from the node after it.
pub open spec fn rows_from(s: Seq<NodeView>, i: int, indent: int, width: int, index: int) -> Seq<(int, int, NodeView)>
    decreases s.len(), s.len() - i,
{
    if 0 <= i < s.len() {
        match s[i] {
            NodeView::Interp(k) => if k >= 1 && i + k <= s.len() {
                rows_from(s.subrange(i + 1, i + k), 0, indent + width, width, index + i + 1)
                    + rows_from(s, i + k, indent, width, index)
            } else {
                Seq::empty()
            },
            n => seq![(indent, index + i, n)] + rows_from(s, i + 1, indent, width, index),
        }
    } else {
        Seq::empty()
    }
}

/// Rows as plain values.
pub open spec fn rows_view(rows: Seq<(usize, usize, ParseNode<'_>)>) -> Seq<(int, int, NodeView)> {
    rows.map_values(|r: (usize, usize, ParseNode)| (r.0 as int, r.1 as int, r.2@))
}

/// Lists the nodes as rows of (indent, position, node): the nodes inside an
/// interpolation come one `indent_width` deeper, numbered from the node after it.
pub fn node_rows<'a>(nodes: &[ParseNode<'a>], indent: usize, indent_width: usize, index: usize)
    -> (r: Vec<(usize, usize, ParseNode<'a>)>)
    requires
        wf_nodes(nodes_view(nodes@)),
        indent + nodes@.len() * indent_width <= usize::MAX,
        index + nodes@.len() <= usize::MAX,
    ensures
        rows_view(r@) == rows_from(nodes_view(nodes@), 0, indent as int, indent_width as int, index as int),
    decreases nodes@.len(),
{
    let ghost s = nodes_view(nodes@);
    let ghost total = rows_from(s, 0, indent as int, indent_width as int, index as int);
    let mut rows: Vec<(usize, usize, ParseNode<'a>)> = Vec::new();
    let mut i: usize = 0;
    proof {
        assert(rows_view(rows@) =~= Seq::<(int, int, NodeView)>::empty());
        assert(Seq::<(int, int, NodeView)>::empty() + total =~= total);
    }
    while i < nodes.len()
        invariant
            s == nodes_view(nodes@),
            wf_nodes(s),
            i <= nodes@.len(),
            indent + nodes@.len() * indent_width <= usize::MAX,
            index + nodes@.len() <= usize::MAX,
            total == rows_from(s, 0, indent as int, indent_width as int, index as int),
            rows_view(rows@) + rows_from(s, i as int, indent as int, indent_width as int, index as int) == total,
        decreases nodes@.len() - i,
    {
        let node = nodes[i];
        let ghost before = rows_view(rows@);
        proof {
            assert(s[i as int] == node@);
        }
        match node {
            ParseNode::Interp(offset) => {
                proof {
                    lemma_wf_children(s, i as int);
                }
                let end = i + offset;
                let children = vstd::slice::slice_subrange(nodes, i + 1, end);
                proof {
                    assert(nodes_view(children@) =~= s.subrange(i + 1, i + offset));
                    let c = children@.len();
                    assert(c * indent_width <= (nodes@.len() - 1) * indent_width) by (nonlinear_arith)
                        requires c <= nodes@.len() - 1;
                    assert((nodes@.len() - 1) * indent_width + indent_width == nodes@.len() * indent_width)
                        by (nonlinear_arith);
                }
                let inner = node_rows(children, indent + indent_width, indent_width, index + i + 1);
                let mut inner = inner;
                let ghost irows = rows_view(inner@);
                rows.append(&mut inner);
                proof {
                    assert(rows_view(rows@) =~= before + irows);
                    assert(before + irows + rows_from(s, i + offset, indent as int, indent_width as int, index as int)
                        =~= before + rows_from(s, i as int, indent as int, indent_width as int, index as int));
                }
                i = end;
            },
            _ => {
                rows.push((indent, index + i, node));
                proof {
                    assert(rows_view(rows@) =~= before.push((indent as int, index + i, node@)));
                    assert(before.push((indent as int, index + i, node@))
                        + rows_from(s, i + 1, indent as int, indent_width as int, index as int)
                        =~= before + rows_from(s, i as int, indent as int, indent_width as int, index as int));
                }
                i = i + 1;
            },
        }
    }
    proof {
        assert(rows_view(rows@) + Seq::<(int, int, NodeView)>::empty() =~= rows_view(rows@));
    }
    rows
}

} // verus!

verus! {

/// From byte `i` on, with `depth` interpolations open: `\%{` and `\}%` are escapes wherever
/// they stand, each `%{` opens an interpolation, each `}%` closes one that is open, and at
/// the end none is open.
pub open spec fn markers_ok_from(src: Seq<u8>, i: int, depth: nat) -> bool
    decreases src.len() - i,
{
    if 0 <= i < src.len() {
        if (i + 3 <= src.len() && src[i] == 92 && src[i + 1] == 37 && src[i + 2] == 123)
            || (i + 3 <= src.len() && src[i] == 92 && src[i + 1] == 125 && src[i + 2] == 37) {
            markers_ok_from(src, i + 3, depth)
        } else if i + 2 <= src.len() && src[i] == 37 && src[i + 1] == 123 {
            markers_ok_from(src, i + 2, depth + 1)
        } else if i + 2 <= src.len() && src[i] == 125 && src[i + 1] == 37 {
            depth > 0 && markers_ok_from(src, i + 2, (depth - 1) as nat)
        } else {
            markers_ok_from(src, i + 1, depth)
        }
    } else {
        depth == 0
    }
}

/// The interpolation markers of `src` balance, escapes aside.
pub open spec fn markers_balanced(src: Seq<u8>) -> bool {
    markers_ok_from(src, 0, 0)
}

proof fn lemma_run_markers(src: Seq<u8>, st: InterpScan)
    requires
        0 <= st.index,
        !(interp_run(src, st) is Panics),
    ensures
        (interp_run(src, st) is Done) == markers_ok_from(src, st.index, st.stack.len()),
    decreases src.len() - st.index,
{
    if 0 <= st.index < src.len() {
        if let InterpStep::Next(n) = interp_step(src, st) {
            if st.index < n.index {
                lemma_run_markers(src, n);
            }
        }
    }
}

/// On every format it does not panic on, `parse_interp` succeeds exactly when the markers
/// balance: `\%{` and `\}%` are escapes wherever they stand, even inside an open
/// interpolation, and every other `}%` closes an open `%{`.
pub proof fn lemma_parse_interp_succeeds(src: Seq<u8>)
    requires
        !(spec_parse_interp(src) is Panics),
    ensures
        (spec_parse_interp(src) is Done) == markers_balanced(src),
        !markers_balanced(src) ==> spec_parse_interp(src) is Failed,
{
    lemma_run_markers(src, interp_start());
}

} // verus!

verus! {

/// An evaluation fails only with an error that the interpolator gives for some key.
pub proof fn lemma_eval_res_error_from_a_key<E>(
    s: Seq<NodeView>,
    i: int,
    h: spec_fn(Seq<char>) -> Result<Seq<char>, E>,
)
    ensures
        eval_res(s, i, h) matches Err(e) ==> exists|k: Seq<char>| #[trigger] h(k) == Err::<Seq<char>, E>(e),
    decreases s.len(), s.len() - i,
{
    if 0 <= i < s.len() {
        match s[i] {
            NodeView::RawInterp(b) => {
                if h(decode_utf8(b)) is Ok {
                    lemma_eval_res_error_from_a_key(s, i + 1, h);
                }
            },
            NodeView::Interp(k) => {
                if k >= 1 && i + k <= s.len() {
                    let c = s.subrange(i + 1, i + k);
                    lemma_eval_res_error_from_a_key(c, 0, h);
                    if let Ok(x) = eval_res(c, 0, h) {
                        if h(x) is Ok {
                            lemma_eval_res_error_from_a_key(s, i + k, h);
                        }
                    }
                }
            },
            _ => {
                lemma_eval_res_error_from_a_key(s, i + 1, h);
            },
        }
    }
}

/// With a key function that never fails, evaluation gives the text that `eval_from` gives
/// with the values.
pub proof fn lemma_eval_res_without_errors<E>(
    s: Seq<NodeView>,
    i: int,
    g: spec_fn(Seq<char>) -> Seq<char>,
    h: spec_fn(Seq<char>) -> Result<Seq<char>, E>,
)
    requires
        forall|k: Seq<char>| #[trigger] h(k) == Ok::<Seq<char>, E>(g(k)),
    ensures
        eval_res(s, i, h) == Ok::<Seq<char>, E>(eval_from(s, i, g)),
    decreases s.len(), s.len() - i,
{
    if 0 <= i < s.len() {
        match s[i] {
            NodeView::Interp(k) => {
                if k >= 1 && i + k <= s.len() {
                    lemma_eval_res_without_errors(s.subrange(i + 1, i + k), 0, g, h);
                    lemma_eval_res_without_errors(s, i + k, g, h);
                    let c = eval_from(s.subrange(i + 1, i + k), 0, g);
                    assert(h(c) == Ok::<Seq<char>, E>(g(c)));
                }
            },
            NodeView::RawInterp(b) => {
                lemma_eval_res_without_errors(s, i + 1, g, h);
                assert(h(decode_utf8(b)) == Ok::<Seq<char>, E>(g(decode_utf8(b))));
            },
            _ => {
                lemma_eval_res_without_errors(s, i + 1, g, h);
            },
        }
    }
}

} // verus!
