use vstd::prelude::*;

use crate::instruction::{
    Instruction, SpecInstruction, is_foldable_inst, lemma_stream_view_push,
    lemma_stream_view_update, payload_of, same_foldable_variant, stream_view,
};
use crate::token::{Token, is_foldable_char, is_op_char};

verus! {

/// A fault found while compiling source text.
#[derive(Debug, Copy, Clone, PartialEq, Eq, Structural)]
pub enum CompileError {
    /// The source ended with at least one `[` still unmatched.
    UnmatchedOpenBracket,
    /// A `]` appeared with no pending `[`.
    UnmatchedCloseBracket,
}

/// The comment-stripped view of source text: only the eight operator
/// characters, in their original order.
pub open spec fn filter_ops(s: Seq<char>) -> Seq<char>
    decreases s.len(),
{
    if s.len() == 0 {
        Seq::empty()
    } else if is_op_char(s.last()) {
        filter_ops(s.drop_last()).push(s.last())
    } else {
        filter_ops(s.drop_last())
    }
}

/// The counted instruction a foldable operator compiles to.
pub open spec fn fold_inst(c: char, n: nat) -> SpecInstruction {
    if c == '+' {
        SpecInstruction::Inc(n)
    } else if c == '-' {
        SpecInstruction::Dec(n)
    } else if c == '>' {
        SpecInstruction::IncMemPtr(n)
    } else if c == '<' {
        SpecInstruction::DecMemPtr(n)
    } else if c == ',' {
        SpecInstruction::GetChar(n)
    } else {
        SpecInstruction::PutChar(n)
    }
}

/// The state of the single forward compilation pass: the instructions
/// emitted so far, the indices of the `[` instructions still waiting for
/// their `]`, and whether an unmatched `]` has been seen.
pub struct ParseState {
    pub insts: Seq<SpecInstruction>,
    pub opens: Seq<nat>,
    pub failed: bool,
}

/// The state before any operator has been consumed.
pub open spec fn parse_init() -> ParseState {
    ParseState { insts: Seq::empty(), opens: Seq::empty(), failed: false }
}

/// One operator's effect on the compilation state. A foldable operator
/// either bumps the count of the last instruction (when that instruction is
/// the same variant) or is emitted with count 1; `[` is emitted with a
/// placeholder target and its index is remembered; `]` pops the innermost
/// pending `[`, is emitted pointing at it, and patches it to point back.
/// After an unmatched `]` the state is frozen. Characters outside the
/// operator alphabet change nothing.
pub open spec fn parse_token(st: ParseState, c: char) -> ParseState {
    if st.failed || !is_op_char(c) {
        st
    } else if c == '[' {
        ParseState {
            insts: st.insts.push(SpecInstruction::JmpToIfZero(0)),
            opens: st.opens.push(st.insts.len()),
            failed: false,
        }
    } else if c == ']' {
        if st.opens.len() == 0 {
            ParseState { insts: st.insts, opens: st.opens, failed: true }
        } else {
            let open = st.opens.last();
            let end = st.insts.len();
            ParseState {
                insts: st.insts.push(SpecInstruction::JmpBackIfNonZero(open)).update(
                    open as int,
                    SpecInstruction::JmpToIfZero(end),
                ),
                opens: st.opens.drop_last(),
                failed: false,
            }
        }
    } else {
        if st.insts.len() > 0 && same_foldable_variant(fold_inst(c, 1), st.insts.last()) {
            ParseState {
                insts: st.insts.update(
                    st.insts.len() - 1,
                    fold_inst(c, payload_of(st.insts.last()) + 1),
                ),
                opens: st.opens,
                failed: false,
            }
        } else {
            ParseState { insts: st.insts.push(fold_inst(c, 1)), opens: st.opens, failed: false }
        }
    }
}

/// The compilation state after consuming a whole token sequence, left to
/// right.
pub open spec fn parse_toks(toks: Seq<char>) -> ParseState
    decreases toks.len(),
{
    if toks.len() == 0 {
        parse_init()
    } else {
        parse_token(parse_toks(toks.drop_last()), toks.last())
    }
}

/// What compiling source text returns: the emitted stream, unless a `]` was
/// unmatched (reported first, as the pass stops there) or a `[` was left
/// open at the end.
pub open spec fn spec_compile(src: Seq<char>) -> Result<Seq<SpecInstruction>, CompileError> {
    let st = parse_toks(filter_ops(src));
    if st.failed {
        Err(CompileError::UnmatchedCloseBracket)
    } else if st.opens.len() > 0 {
        Err(CompileError::UnmatchedOpenBracket)
    } else {
        Ok(st.insts)
    }
}

/// Every character that filtering keeps is an operator.
pub proof fn lemma_filter_ops_all_ops(s: Seq<char>)
    ensures
        forall|i: int| 0 <= i < filter_ops(s).len() ==> is_op_char(#[trigger] filter_ops(s)[i]),
    decreases s.len(),
{
    if s.len() > 0 {
        let t = s.drop_last();
        let c = s.last();
        lemma_filter_ops_all_ops(t);
        if is_op_char(c) {
            assert forall|i: int| 0 <= i < filter_ops(s).len() implies is_op_char(
                #[trigger] filter_ops(s)[i],
            ) by {
                if i < filter_ops(t).len() {
                    assert(filter_ops(s)[i] == filter_ops(t)[i]);
                } else {
                    assert(filter_ops(s)[i] == c);
                }
            }
        }
    }
}

/// Filtering a second time changes nothing: the first pass already kept
/// operators only.
pub proof fn lemma_filter_ops_idempotent(s: Seq<char>)
    ensures
        filter_ops(filter_ops(s)) == filter_ops(s),
    decreases s.len(),
{
    if s.len() > 0 {
        let t = s.drop_last();
        let c = s.last();
        lemma_filter_ops_idempotent(t);
        if is_op_char(c) {
            assert(filter_ops(t).push(c).drop_last() =~= filter_ops(t));
        }
    }
}

/// Filtering distributes over concatenation.
pub proof fn lemma_filter_ops_concat(a: Seq<char>, b: Seq<char>)
    ensures
        filter_ops(a + b) == filter_ops(a) + filter_ops(b),
    decreases b.len(),
{
    if b.len() == 0 {
        assert(a + b =~= a);
        assert(filter_ops(a) + filter_ops(b) =~= filter_ops(a));
    } else {
        let tb = b.drop_last();
        let c = b.last();
        lemma_filter_ops_concat(a, tb);
        assert((a + b).drop_last() =~= a + tb);
        assert((a + b).last() == c);
        if is_op_char(c) {
            assert(filter_ops(a) + filter_ops(tb).push(c) =~= (filter_ops(a) + filter_ops(
                tb,
            )).push(c));
            assert(filter_ops(b) == filter_ops(tb).push(c));
        }
    }
}

/// Every `]` instruction points strictly back at a `[` instruction that
/// points at it in turn.
pub open spec fn back_jumps_ok(insts: Seq<SpecInstruction>) -> bool {
    forall|i: int|
        0 <= i < insts.len() ==> ((#[trigger] insts[i]) matches
        SpecInstruction::JmpBackIfNonZero(t) ==> t < i && insts[t as int]
            == SpecInstruction::JmpToIfZero(i as nat))
}

/// Every `[` instruction that is no longer pending points strictly forward
/// at a `]` instruction that points at it in turn.
pub open spec fn fwd_jumps_ok(insts: Seq<SpecInstruction>, opens: Seq<nat>) -> bool {
    forall|i: int|
        0 <= i < insts.len() ==> ((#[trigger] insts[i]) matches SpecInstruction::JmpToIfZero(t)
            ==> opens.contains(i as nat) || (i < t && t < insts.len() && insts[t as int]
            == SpecInstruction::JmpBackIfNonZero(i as nat)))
}

/// The pending `[` indices are strictly increasing, in range, and each
/// still holds its placeholder target.
pub open spec fn opens_ok(st: ParseState) -> bool {
    &&& forall|k: int|
        0 <= k < st.opens.len() ==> (#[trigger] st.opens[k]) < st.insts.len() && st.insts[st.opens[k] as int]
            == SpecInstruction::JmpToIfZero(0)
    &&& forall|k1: int, k2: int|
        0 <= k1 < k2 < st.opens.len() ==> #[trigger] st.opens[k1] < #[trigger] st.opens[k2]
}

/// No two adjacent instructions are the same foldable variant: the
/// compiler folds maximally.
pub open spec fn no_adjacent_foldable(insts: Seq<SpecInstruction>) -> bool {
    forall|i: int|
        0 <= i && i + 1 < insts.len() ==> !same_foldable_variant(
            #[trigger] insts[i],
            insts[i + 1],
        )
}

/// Every count and target in the stream is at most `n`.
pub open spec fn payloads_bounded(insts: Seq<SpecInstruction>, n: nat) -> bool {
    forall|i: int| 0 <= i < insts.len() ==> payload_of(#[trigger] insts[i]) <= n
}

/// How many of the tokens are brackets.
pub open spec fn bracket_count(toks: Seq<char>) -> nat
    decreases toks.len(),
{
    if toks.len() == 0 {
        0
    } else if toks.last() == '[' || toks.last() == ']' {
        bracket_count(toks.drop_last()) + 1
    } else {
        bracket_count(toks.drop_last())
    }
}

/// How many maximal runs of identical foldable operators the tokens hold;
/// brackets and a change of operator both end a run.
pub open spec fn run_count(toks: Seq<char>) -> nat
    decreases toks.len(),
{
    if toks.len() == 0 {
        0
    } else if !is_foldable_char(toks.last()) {
        run_count(toks.drop_last())
    } else if toks.len() >= 2 && toks[toks.len() - 2] == toks.last() {
        run_count(toks.drop_last())
    } else {
        run_count(toks.drop_last()) + 1
    }
}

/// The instruction the last consumed token is responsible for.
pub open spec fn last_matches(c: char, i: SpecInstruction) -> bool {
    if c == '[' {
        i is JmpToIfZero
    } else if c == ']' {
        i is JmpBackIfNonZero
    } else {
        same_foldable_variant(fold_inst(c, 1), i)
    }
}

/// Everything the forward pass maintains, stated of the state reached
/// after consuming `toks` (a sequence of operators). A failed state
/// carries no obligations: compilation is over.
#[verifier::opaque]
pub open spec fn parse_invariant(st: ParseState, toks: Seq<char>) -> bool {
    st.failed || {
        &&& opens_ok(st)
        &&& back_jumps_ok(st.insts)
        &&& fwd_jumps_ok(st.insts, st.opens)
        &&& no_adjacent_foldable(st.insts)
        &&& payloads_bounded(st.insts, toks.len())
        &&& st.insts.len() <= toks.len()
        &&& st.opens.len() <= st.insts.len()
        &&& st.insts.len() == bracket_count(toks) + run_count(toks)
        &&& (toks.len() > 0 ==> st.insts.len() > 0 && last_matches(toks.last(), st.insts.last()))
        &&& (toks.len() == 0 ==> st == parse_init())
    }
}

proof fn lemma_preserves_open(st: ParseState, toks: Seq<char>)
    requires
        forall|i: int| 0 <= i < toks.len() ==> is_op_char(#[trigger] toks[i]),
        parse_invariant(st, toks),
        !st.failed,
    ensures
        parse_invariant(parse_token(st, '['), toks.push('[')),
{
    reveal(parse_invariant);
    let st2 = parse_token(st, '[');
    let t2 = toks.push('[');
    assert(t2.drop_last() =~= toks);
    let insts = st.insts;
    let opens = st.opens;
    let n = insts.len();
    assert(st2.insts == insts.push(SpecInstruction::JmpToIfZero(0)));
    assert(st2.opens == opens.push(n));
    assert(st2.opens[opens.len() as int] == n);
    assert(st2.opens.contains(n));
    assert forall|x: nat| opens.contains(x) implies st2.opens.contains(x) by {
        let k = choose|k: int| 0 <= k < opens.len() && opens[k] == x;
        assert(st2.opens[k] == x);
    }
    assert forall|k1: int, k2: int| 0 <= k1 < k2 < st2.opens.len() implies #[trigger] st2.opens[k1]
        < #[trigger] st2.opens[k2] by {
        if k2 < opens.len() {
        } else {
            assert(st2.opens[k1] == opens[k1]);
            assert(opens[k1] < n);
        }
    }
    assert forall|i: int| 0 <= i < st2.insts.len() implies ((#[trigger] st2.insts[i]) matches
    SpecInstruction::JmpBackIfNonZero(t) ==> t < i && st2.insts[t as int]
        == SpecInstruction::JmpToIfZero(i as nat)) by {
        match st2.insts[i] {
            SpecInstruction::JmpBackIfNonZero(t) => {
                assert(i < n);
                assert(st2.insts[i] == insts[i]);
                assert(t < i && insts[t as int] == SpecInstruction::JmpToIfZero(i as nat));
                assert(st2.insts[t as int] == insts[t as int]);
            },
            _ => {},
        }
    }
    assert forall|i: int| 0 <= i < st2.insts.len() implies ((#[trigger] st2.insts[i]) matches
    SpecInstruction::JmpToIfZero(t) ==> st2.opens.contains(i as nat) || (i < t && t
        < st2.insts.len() && st2.insts[t as int] == SpecInstruction::JmpBackIfNonZero(
        i as nat,
    ))) by {
        match st2.insts[i] {
            SpecInstruction::JmpToIfZero(t) => {
                if !st2.opens.contains(i as nat) {
                    assert(i < n);
                    assert(!opens.contains(i as nat));
                    assert(st2.insts[i] == insts[i]);
                    assert(i < t && t < n && insts[t as int]
                        == SpecInstruction::JmpBackIfNonZero(i as nat));
                    assert(st2.insts[t as int] == insts[t as int]);
                }
            },
            _ => {},
        }
    }
    assert(bracket_count(t2) == bracket_count(toks) + 1);
    assert(run_count(t2) == run_count(toks));
}

proof fn lemma_preserves_close(st: ParseState, toks: Seq<char>)
    requires
        forall|i: int| 0 <= i < toks.len() ==> is_op_char(#[trigger] toks[i]),
        parse_invariant(st, toks),
        !st.failed,
        st.opens.len() > 0,
    ensures
        parse_invariant(parse_token(st, ']'), toks.push(']')),
{
    reveal(parse_invariant);
    let st2 = parse_token(st, ']');
    let t2 = toks.push(']');
    assert(t2.drop_last() =~= toks);
    let insts = st.insts;
    let opens = st.opens;
    let n = insts.len();
    let open = opens.last();
    assert(opens[opens.len() - 1] == open);
    assert(open < n && insts[open as int] == SpecInstruction::JmpToIfZero(0));
    assert(st2.insts == insts.push(SpecInstruction::JmpBackIfNonZero(open)).update(
        open as int,
        SpecInstruction::JmpToIfZero(n),
    ));
    assert(st2.opens == opens.drop_last());
    assert(st2.insts.len() == n + 1);
    assert(st2.insts[n as int] == SpecInstruction::JmpBackIfNonZero(open));
    assert(st2.insts[open as int] == SpecInstruction::JmpToIfZero(n));
    assert forall|i: int| 0 <= i < n && i != open implies st2.insts[i] == insts[i] by {}
    // No closed pair can point at the pending `[` being patched: its
    // placeholder target 0 would force the partner's index below zero.
    assert forall|i: int| 0 <= i < n implies !((#[trigger] insts[i]) matches
    SpecInstruction::JmpBackIfNonZero(t) && t == open) by {
        match insts[i] {
            SpecInstruction::JmpBackIfNonZero(t) => {
                if t == open {
                    assert(insts[t as int] == SpecInstruction::JmpToIfZero(i as nat));
                    assert(i as nat == 0);
                    assert(t < i);
                }
            },
            _ => {},
        }
    }
    assert forall|x: nat| opens.contains(x) implies st2.opens.contains(x) || x == open by {
        let k = choose|k: int| 0 <= k < opens.len() && opens[k] == x;
        if k < opens.len() - 1 {
            assert(st2.opens[k] == x);
        }
    }
    assert forall|k: int| 0 <= k < st2.opens.len() implies (#[trigger] st2.opens[k])
        < st2.insts.len() && st2.insts[st2.opens[k] as int] == SpecInstruction::JmpToIfZero(
        0,
    ) by {
        assert(st2.opens[k] == opens[k]);
        assert(opens[k] < open);
        assert(st2.insts[opens[k] as int] == insts[opens[k] as int]);
    }
    assert forall|i: int| 0 <= i < st2.insts.len() implies ((#[trigger] st2.insts[i]) matches
    SpecInstruction::JmpBackIfNonZero(t) ==> t < i && st2.insts[t as int]
        == SpecInstruction::JmpToIfZero(i as nat)) by {
        match st2.insts[i] {
            SpecInstruction::JmpBackIfNonZero(t) => {
                if i == n {
                    assert(t == open);
                } else {
                    assert(i != open);
                    assert(st2.insts[i] == insts[i]);
                    assert(t < i && insts[t as int] == SpecInstruction::JmpToIfZero(i as nat));
                    assert(t != open);
                    assert(st2.insts[t as int] == insts[t as int]);
                }
            },
            _ => {},
        }
    }
    assert forall|i: int| 0 <= i < st2.insts.len() implies ((#[trigger] st2.insts[i]) matches
    SpecInstruction::JmpToIfZero(t) ==> st2.opens.contains(i as nat) || (i < t && t
        < st2.insts.len() && st2.insts[t as int] == SpecInstruction::JmpBackIfNonZero(
        i as nat,
    ))) by {
        match st2.insts[i] {
            SpecInstruction::JmpToIfZero(t) => {
                if !st2.opens.contains(i as nat) {
                    if i == open {
                        assert(t == n);
                    } else if i < n {
                        assert(st2.insts[i] == insts[i]);
                        assert(!opens.contains(i as nat));
                        assert(i < t && t < n && insts[t as int]
                            == SpecInstruction::JmpBackIfNonZero(i as nat));
                        assert(t != open);
                        assert(st2.insts[t as int] == insts[t as int]);
                    }
                }
            },
            _ => {},
        }
    }
    assert forall|i: int| 0 <= i && i + 1 < st2.insts.len() implies !same_foldable_variant(
        #[trigger] st2.insts[i],
        st2.insts[i + 1],
    ) by {
        if i == open || i + 1 == open || i == n || i + 1 == n {
        } else {
            assert(st2.insts[i] == insts[i] && st2.insts[i + 1] == insts[i + 1]);
        }
    }
    assert forall|i: int| 0 <= i < st2.insts.len() implies payload_of(#[trigger] st2.insts[i])
        <= t2.len() by {
        if i != open && i != n {
            assert(st2.insts[i] == insts[i]);
        }
    }
    assert(bracket_count(t2) == bracket_count(toks) + 1);
    assert(run_count(t2) == run_count(toks));
}

/// Unpacks the invariant of an unfailed state into its parts.
proof fn lemma_invariant_parts(st: ParseState, toks: Seq<char>)
    requires
        parse_invariant(st, toks),
        !st.failed,
    ensures
        opens_ok(st),
        back_jumps_ok(st.insts),
        fwd_jumps_ok(st.insts, st.opens),
        no_adjacent_foldable(st.insts),
        payloads_bounded(st.insts, toks.len()),
        st.insts.len() <= toks.len(),
        st.opens.len() <= st.insts.len(),
        st.insts.len() == bracket_count(toks) + run_count(toks),
        toks.len() > 0 ==> st.insts.len() > 0 && last_matches(toks.last(), st.insts.last()),
        toks.len() == 0 ==> st == parse_init(),
{
    reveal(parse_invariant);
}

// The quantified stream properties survive replacing the last
// instruction by another of the same foldable variant. Kept separate so
// the solver sees no tokens and no unfolded pass step here.
proof fn lemma_fold_update_wf(st: ParseState, x: SpecInstruction, bound: nat)
    requires
        st.insts.len() > 0,
        opens_ok(st),
        back_jumps_ok(st.insts),
        fwd_jumps_ok(st.insts, st.opens),
        no_adjacent_foldable(st.insts),
        payloads_bounded(st.insts, bound),
        is_foldable_inst(st.insts.last()),
        is_foldable_inst(x),
        same_foldable_variant(x, st.insts.last()),
        payload_of(x) <= bound,
    ensures
        opens_ok((ParseState {
            insts: st.insts.update(st.insts.len() - 1, x),
            opens: st.opens,
            failed: false,
        })),
        back_jumps_ok(st.insts.update(st.insts.len() - 1, x)),
        fwd_jumps_ok(st.insts.update(st.insts.len() - 1, x), st.opens),
        no_adjacent_foldable(st.insts.update(st.insts.len() - 1, x)),
        payloads_bounded(st.insts.update(st.insts.len() - 1, x), bound),
{
    let insts = st.insts;
    let opens = st.opens;
    let n = insts.len();
    let last = insts.last();
    let u = insts.update(n - 1, x);
    let st2 = ParseState { insts: u, opens, failed: false };
    assert forall|k: int| 0 <= k < opens.len() implies (#[trigger] opens[k]) < u.len() && u[opens[k] as int]
        == SpecInstruction::JmpToIfZero(0) by {
        assert(insts[opens[k] as int] == SpecInstruction::JmpToIfZero(0));
        assert(opens[k] != (n - 1) as nat);
    }
    assert(opens_ok(st2));
    assert forall|i: int| 0 <= i < u.len() implies ((#[trigger] u[i]) matches
    SpecInstruction::JmpBackIfNonZero(t) ==> t < i && u[t as int] == SpecInstruction::JmpToIfZero(
        i as nat,
    )) by {
        match u[i] {
            SpecInstruction::JmpBackIfNonZero(t) => {
                assert(i != n - 1);
                assert(u[i] == insts[i]);
                assert(t < i && insts[t as int] == SpecInstruction::JmpToIfZero(i as nat));
                assert(t != (n - 1) as nat);
            },
            _ => {},
        }
    }
    assert forall|i: int| 0 <= i < u.len() implies ((#[trigger] u[i]) matches
    SpecInstruction::JmpToIfZero(t) ==> opens.contains(i as nat) || (i < t && t < u.len()
        && u[t as int] == SpecInstruction::JmpBackIfNonZero(i as nat))) by {
        match u[i] {
            SpecInstruction::JmpToIfZero(t) => {
                if !opens.contains(i as nat) {
                    assert(i != n - 1);
                    assert(u[i] == insts[i]);
                    assert(i < t && t < n && insts[t as int]
                        == SpecInstruction::JmpBackIfNonZero(i as nat));
                    assert(t != (n - 1) as nat);
                }
            },
            _ => {},
        }
    }
    assert forall|i: int| 0 <= i && i + 1 < u.len() implies !same_foldable_variant(
        #[trigger] u[i],
        u[i + 1],
    ) by {
        if i + 1 == n - 1 {
            assert(u[i] == insts[i]);
            assert(!same_foldable_variant(insts[i], last));
        } else {
            assert(u[i] == insts[i] && u[i + 1] == insts[i + 1]);
        }
    }
    assert forall|i: int| 0 <= i < u.len() implies payload_of(#[trigger] u[i]) <= bound by {
        if i != n - 1 {
            assert(u[i] == insts[i]);
        }
    }
}

// Likewise for appending a foldable instruction that starts a new run.
proof fn lemma_push_foldable_wf(st: ParseState, x: SpecInstruction, bound: nat)
    requires
        opens_ok(st),
        back_jumps_ok(st.insts),
        fwd_jumps_ok(st.insts, st.opens),
        no_adjacent_foldable(st.insts),
        payloads_bounded(st.insts, bound),
        is_foldable_inst(x),
        st.insts.len() > 0 ==> !same_foldable_variant(x, st.insts.last()),
        payload_of(x) <= bound,
    ensures
        opens_ok((ParseState { insts: st.insts.push(x), opens: st.opens, failed: false })),
        back_jumps_ok(st.insts.push(x)),
        fwd_jumps_ok(st.insts.push(x), st.opens),
        no_adjacent_foldable(st.insts.push(x)),
        payloads_bounded(st.insts.push(x), bound),
{
    let insts = st.insts;
    let opens = st.opens;
    let n = insts.len();
    let u = insts.push(x);
    let st2 = ParseState { insts: u, opens, failed: false };
    assert forall|k: int| 0 <= k < opens.len() implies (#[trigger] opens[k]) < u.len() && u[opens[k] as int]
        == SpecInstruction::JmpToIfZero(0) by {
        assert(u[opens[k] as int] == insts[opens[k] as int]);
    }
    assert(opens_ok(st2));
    assert forall|i: int| 0 <= i < u.len() implies ((#[trigger] u[i]) matches
    SpecInstruction::JmpBackIfNonZero(t) ==> t < i && u[t as int] == SpecInstruction::JmpToIfZero(
        i as nat,
    )) by {
        match u[i] {
            SpecInstruction::JmpBackIfNonZero(t) => {
                assert(i < n);
                assert(u[i] == insts[i]);
                assert(t < i && insts[t as int] == SpecInstruction::JmpToIfZero(i as nat));
                assert(u[t as int] == insts[t as int]);
            },
            _ => {},
        }
    }
    assert forall|i: int| 0 <= i < u.len() implies ((#[trigger] u[i]) matches
    SpecInstruction::JmpToIfZero(t) ==> opens.contains(i as nat) || (i < t && t < u.len()
        && u[t as int] == SpecInstruction::JmpBackIfNonZero(i as nat))) by {
        match u[i] {
            SpecInstruction::JmpToIfZero(t) => {
                if !opens.contains(i as nat) {
                    assert(i < n);
                    assert(u[i] == insts[i]);
                    assert(i < t && t < n && insts[t as int]
                        == SpecInstruction::JmpBackIfNonZero(i as nat));
                    assert(u[t as int] == insts[t as int]);
                }
            },
            _ => {},
        }
    }
    assert forall|i: int| 0 <= i && i + 1 < u.len() implies !same_foldable_variant(
        #[trigger] u[i],
        u[i + 1],
    ) by {
        if i + 1 == n {
            assert(u[i] == insts[i]);
        } else {
            assert(u[i] == insts[i] && u[i + 1] == insts[i + 1]);
        }
    }
    assert forall|i: int| 0 <= i < u.len() implies payload_of(#[trigger] u[i]) <= bound by {
        if i < n {
            assert(u[i] == insts[i]);
        }
    }
}

#[verifier::rlimit(100)]
proof fn lemma_preserves_fold_run(st: ParseState, toks: Seq<char>, c: char)
    requires
        forall|i: int| 0 <= i < toks.len() ==> is_op_char(#[trigger] toks[i]),
        parse_invariant(st, toks),
        !st.failed,
        is_foldable_char(c),
        st.insts.len() > 0 && same_foldable_variant(fold_inst(c, 1), st.insts.last()),
    ensures
        parse_invariant(parse_token(st, c), toks.push(c)),
{
    let t2 = toks.push(c);
    assert(t2.drop_last() =~= toks);
    assert(t2.last() == c);
    let insts = st.insts;
    let n = insts.len();
    let d = toks.last();
    lemma_invariant_parts(st, toks);
    assert(toks.len() > 0);
    assert(d == toks[toks.len() - 1] && is_op_char(d));
    assert(last_matches(d, insts.last()));
    // The last token must have been this same operator: only it can have
    // left an instruction of this variant last.
    assert(d == c);
    let last = insts.last();
    let folded = fold_inst(c, payload_of(last) + 1);
    let st2 = ParseState { insts: insts.update(n - 1, folded), opens: st.opens, failed: false };
    assert(parse_token(st, c) == st2);
    assert(bracket_count(t2) == bracket_count(toks));
    assert(same_foldable_variant(folded, last) && is_foldable_inst(last) && is_foldable_inst(
        folded,
    ));
    assert forall|i: int| 0 <= i < insts.len() implies payload_of(#[trigger] insts[i])
        <= t2.len() by {
        assert(payload_of(insts[i]) <= toks.len());
    }
    lemma_fold_update_wf(st, folded, t2.len());
    assert(t2[t2.len() - 2] == d);
    assert(run_count(t2) == run_count(toks));
    assert(st2.insts.last() == folded);
    assert(last_matches(c, folded));
    assert(parse_invariant(st2, t2)) by {
        reveal(parse_invariant);
    }
}

#[verifier::rlimit(100)]
proof fn lemma_preserves_new_run(st: ParseState, toks: Seq<char>, c: char)
    requires
        forall|i: int| 0 <= i < toks.len() ==> is_op_char(#[trigger] toks[i]),
        parse_invariant(st, toks),
        !st.failed,
        is_foldable_char(c),
        !(st.insts.len() > 0 && same_foldable_variant(fold_inst(c, 1), st.insts.last())),
    ensures
        parse_invariant(parse_token(st, c), toks.push(c)),
{
    let t2 = toks.push(c);
    assert(t2.drop_last() =~= toks);
    assert(t2.last() == c);
    let insts = st.insts;
    let n = insts.len();
    lemma_invariant_parts(st, toks);
    let x = fold_inst(c, 1);
    let st2 = ParseState { insts: insts.push(x), opens: st.opens, failed: false };
    assert(parse_token(st, c) == st2);
    assert(bracket_count(t2) == bracket_count(toks));
    assert(is_foldable_inst(x) && payload_of(x) == 1);
    if toks.len() == 0 {
        assert(st == parse_init());
        assert(run_count(t2) == 1);
    } else {
        let d = toks.last();
        assert(d == toks[toks.len() - 1] && is_op_char(d));
        assert(last_matches(d, insts.last()));
        // A fold would have happened if the previous token were the same
        // operator, so this token starts a new run.
        assert(d != c);
        assert(t2[t2.len() - 2] == d);
        assert(run_count(t2) == run_count(toks) + 1);
    }
    if n > 0 {
        assert(!same_foldable_variant(fold_inst(c, 1), insts.last()));
        assert(!same_foldable_variant(x, insts.last()));
    }
    assert forall|i: int| 0 <= i < insts.len() implies payload_of(#[trigger] insts[i])
        <= t2.len() by {
        assert(payload_of(insts[i]) <= toks.len());
    }
    lemma_push_foldable_wf(st, x, t2.len());
    assert(st2.insts.last() == x);
    assert(last_matches(c, x));
    assert(parse_invariant(st2, t2)) by {
        reveal(parse_invariant);
    }
}

/// One step of the pass keeps the invariant.
proof fn lemma_parse_token_preserves(st: ParseState, toks: Seq<char>, c: char)
    requires
        forall|i: int| 0 <= i < toks.len() ==> is_op_char(#[trigger] toks[i]),
        parse_invariant(st, toks),
        is_op_char(c),
    ensures
        parse_invariant(parse_token(st, c), toks.push(c)),
{
    if st.failed {
        assert(parse_token(st, c) == st);
        assert(parse_invariant(st, toks.push(c))) by {
            reveal(parse_invariant);
        }
    } else if c == '[' {
        lemma_preserves_open(st, toks);
    } else if c == ']' {
        if st.opens.len() == 0 {
            let st2 = ParseState { insts: st.insts, opens: st.opens, failed: true };
            assert(parse_token(st, c) == st2);
            assert(parse_invariant(st2, toks.push(c))) by {
                reveal(parse_invariant);
            }
        } else {
            lemma_preserves_close(st, toks);
        }
    } else {
        if st.insts.len() > 0 && same_foldable_variant(fold_inst(c, 1), st.insts.last()) {
            lemma_preserves_fold_run(st, toks, c);
        } else {
            lemma_preserves_new_run(st, toks, c);
        }
    }
}

/// The state reached from any sequence of operators satisfies the
/// invariant.
pub proof fn lemma_parse_wf(toks: Seq<char>)
    requires
        forall|i: int| 0 <= i < toks.len() ==> is_op_char(#[trigger] toks[i]),
    ensures
        parse_invariant(parse_toks(toks), toks),
    decreases toks.len(),
{
    if toks.len() == 0 {
        assert(parse_invariant(parse_toks(toks), toks)) by {
            reveal(parse_invariant);
        }
    } else {
        let tl = toks.drop_last();
        assert forall|i: int| 0 <= i < tl.len() implies is_op_char(#[trigger] tl[i]) by {
            assert(tl[i] == toks[i]);
        }
        lemma_parse_wf(tl);
        lemma_parse_token_preserves(parse_toks(tl), tl, toks.last());
        assert(tl.push(toks.last()) =~= toks);
    }
}

/// Consuming one more token applies one more step.
pub proof fn lemma_parse_toks_snoc(toks: Seq<char>, c: char)
    ensures
        parse_toks(toks.push(c)) == parse_token(parse_toks(toks), c),
{
    let t2 = toks.push(c);
    assert(t2.drop_last() =~= toks);
    assert(t2.last() == c);
}

/// Once an unmatched `]` has been seen, the rest of the tokens change
/// nothing: compilation has failed.
pub proof fn lemma_failed_sticks(toks: Seq<char>, j: int)
    requires
        0 <= j <= toks.len(),
        parse_toks(toks.take(j)).failed,
    ensures
        parse_toks(toks).failed,
    decreases toks.len() - j,
{
    if j == toks.len() {
        assert(toks.take(j) =~= toks);
    } else {
        assert(toks.take(j + 1) =~= toks.take(j).push(toks[j]));
        lemma_parse_toks_snoc(toks.take(j), toks[j]);
        lemma_failed_sticks(toks, j + 1);
    }
}

/// Law: in a compiled stream, every pair of jump instructions points
/// exactly at each other: the `[` at the `]`, the `]` at the `[`.
pub proof fn lemma_compiled_jumps_paired(src: Seq<char>, insts: Seq<SpecInstruction>)
    requires
        spec_compile(src) == Ok::<Seq<SpecInstruction>, CompileError>(insts),
    ensures
        forall|i: int|
            0 <= i < insts.len() ==> ((#[trigger] insts[i]) matches
            SpecInstruction::JmpToIfZero(t) ==> i < t && t < insts.len() && insts[t as int]
                == SpecInstruction::JmpBackIfNonZero(i as nat)),
        forall|i: int|
            0 <= i < insts.len() ==> ((#[trigger] insts[i]) matches
            SpecInstruction::JmpBackIfNonZero(t) ==> t < i && insts[t as int]
                == SpecInstruction::JmpToIfZero(i as nat)),
{
    let toks = filter_ops(src);
    let st = parse_toks(toks);
    lemma_filter_ops_all_ops(src);
    lemma_parse_wf(toks);
    lemma_invariant_parts(st, toks);
    assert(st.opens.len() == 0);
    assert forall|i: int| 0 <= i < insts.len() implies !st.opens.contains(#[trigger] (i as nat)) by {}
}

/// Law: no two adjacent instructions of a compiled stream are the same
/// foldable variant: the compiler folds maximally.
pub proof fn lemma_compiled_maximally_folded(src: Seq<char>, insts: Seq<SpecInstruction>)
    requires
        spec_compile(src) == Ok::<Seq<SpecInstruction>, CompileError>(insts),
    ensures
        no_adjacent_foldable(insts),
{
    let toks = filter_ops(src);
    lemma_filter_ops_all_ops(src);
    lemma_parse_wf(toks);
    lemma_invariant_parts(parse_toks(toks), toks);
}

/// Law: a compiled stream holds one instruction per bracket plus one per
/// maximal run of identical foldable operators.
pub proof fn lemma_compiled_stream_len(src: Seq<char>, insts: Seq<SpecInstruction>)
    requires
        spec_compile(src) == Ok::<Seq<SpecInstruction>, CompileError>(insts),
    ensures
        insts.len() == bracket_count(filter_ops(src)) + run_count(filter_ops(src)),
{
    let toks = filter_ops(src);
    lemma_filter_ops_all_ops(src);
    lemma_parse_wf(toks);
    lemma_invariant_parts(parse_toks(toks), toks);
}

/// Law: compiling the comment-stripped source gives the very same result
/// as compiling the source itself.
pub proof fn lemma_strip_then_compile(src: Seq<char>)
    ensures
        spec_compile(filter_ops(src)) == spec_compile(src),
{
    lemma_filter_ops_idempotent(src);
}

/// Law: inserting a comment character anywhere in the source leaves the
/// compiled result unchanged.
pub proof fn lemma_comments_invisible(src: Seq<char>, i: int, c: char)
    requires
        0 <= i <= src.len(),
        !is_op_char(c),
    ensures
        spec_compile(src.take(i).push(c) + src.skip(i)) == spec_compile(src),
{
    let a = src.take(i);
    let b = src.skip(i);
    let mid = a.push(c).skip(i);
    assert(a.push(c) =~= a + mid);
    assert(mid.len() == 1 && mid.last() == c);
    assert(mid.drop_last() =~= Seq::<char>::empty());
    assert(filter_ops(mid) == filter_ops(Seq::<char>::empty()));
    assert(filter_ops(Seq::<char>::empty()) =~= Seq::<char>::empty());
    lemma_filter_ops_concat(a, mid);
    lemma_filter_ops_concat(a + mid, b);
    lemma_filter_ops_concat(a, b);
    assert(filter_ops(a) + filter_ops(mid) =~= filter_ops(a));
    assert(a + b =~= src);
    assert(filter_ops(a + mid + b) == filter_ops(src));
    assert(a.push(c) + b =~= a + mid + b);
    assert(spec_compile(a.push(c) + b) == spec_compile(src));
}

// The pass state after a run of identical foldable operators: one
// counted instruction.
proof fn lemma_parse_run(s: Seq<char>, c: char)
    requires
        is_foldable_char(c),
        s.len() >= 1,
        forall|j: int| 0 <= j < s.len() ==> #[trigger] s[j] == c,
    ensures
        parse_toks(s) == (ParseState {
            insts: Seq::empty().push(fold_inst(c, s.len())),
            opens: Seq::empty(),
            failed: false,
        }),
    decreases s.len(),
{
    if s.len() == 1 {
        reveal_with_fuel(parse_toks, 2);
        assert(s.drop_last() =~= Seq::<char>::empty());
        assert(s.last() == s[0] && s[0] == c);
        assert(parse_toks(s) == parse_token(parse_init(), c));
        assert(parse_token(parse_init(), c).insts =~= Seq::empty().push(fold_inst(c, 1)));
        assert(parse_token(parse_init(), c).opens =~= Seq::<nat>::empty());
        assert(parse_toks(s) == (ParseState {
            insts: Seq::empty().push(fold_inst(c, s.len())),
            opens: Seq::empty(),
            failed: false,
        }));
    } else {
        let prev = s.drop_last();
        assert forall|j: int| 0 <= j < prev.len() implies #[trigger] prev[j] == c by {
            assert(prev[j] == s[j]);
        }
        lemma_parse_run(prev, c);
        assert(s.last() == s[s.len() - 1] && s[s.len() - 1] == c);
        let stp = parse_toks(prev);
        assert(stp.insts.last() == fold_inst(c, prev.len()));
        assert(same_foldable_variant(fold_inst(c, 1), fold_inst(c, prev.len())));
        assert(payload_of(fold_inst(c, prev.len())) == prev.len());
        assert(stp.insts.update(0, fold_inst(c, s.len())) =~= Seq::empty().push(
            fold_inst(c, s.len()),
        ));
        assert(parse_toks(s) == parse_token(stp, c));
        assert(parse_token(stp, c).insts == stp.insts.update(0, fold_inst(c, s.len())));
        assert(parse_toks(s) == (ParseState {
            insts: Seq::empty().push(fold_inst(c, s.len())),
            opens: Seq::empty(),
            failed: false,
        }));
    }
}

// A sequence of operators filters to itself.
proof fn lemma_filter_ops_noop(s: Seq<char>)
    requires
        forall|i: int| 0 <= i < s.len() ==> is_op_char(#[trigger] s[i]),
    ensures
        filter_ops(s) == s,
    decreases s.len(),
{
    if s.len() > 0 {
        let t = s.drop_last();
        assert forall|i: int| 0 <= i < t.len() implies is_op_char(#[trigger] t[i]) by {
            assert(t[i] == s[i]);
        }
        lemma_filter_ops_noop(t);
        assert(s[s.len() - 1] == s.last());
        assert(t.push(s.last()) =~= s);
    }
}

/// Law: a run of identical foldable operators compiles to exactly one
/// instruction carrying the run's length as its count.
pub proof fn lemma_run_compiles_to_counted(s: Seq<char>, c: char)
    requires
        is_foldable_char(c),
        s.len() >= 1,
        forall|j: int| 0 <= j < s.len() ==> #[trigger] s[j] == c,
    ensures
        spec_compile(s) == Ok::<Seq<SpecInstruction>, CompileError>(
            Seq::empty().push(fold_inst(c, s.len())),
        ),
{
    assert forall|j: int| 0 <= j < s.len() implies is_op_char(#[trigger] s[j]) by {
        assert(s[j] == c);
    }
    lemma_filter_ops_noop(s);
    lemma_parse_run(s, c);
}

/// The model of the bracket-position stack: each index as a natural.
pub open spec fn opens_view(s: Seq<usize>) -> Seq<nat> {
    s.map_values(|x: usize| x as nat)
}

proof fn lemma_opens_view_push(s: Seq<usize>, x: usize)
    ensures
        opens_view(s.push(x)) == opens_view(s).push(x as nat),
{
    assert(opens_view(s.push(x)) =~= opens_view(s).push(x as nat));
}

proof fn lemma_opens_view_drop(s: Seq<usize>)
    requires
        s.len() > 0,
    ensures
        opens_view(s.drop_last()) == opens_view(s).drop_last(),
{
    assert(opens_view(s.drop_last()) =~= opens_view(s).drop_last());
}

// The instruction a lone foldable operator is emitted as.
fn single_inst(c: char) -> (r: Instruction)
    requires
        is_foldable_char(c),
    ensures
        r@ == fold_inst(c, 1),
{
    if c == '+' {
        Instruction::Inc(1)
    } else if c == '-' {
        Instruction::Dec(1)
    } else if c == '>' {
        Instruction::IncMemPtr(1)
    } else if c == '<' {
        Instruction::DecMemPtr(1)
    } else if c == ',' {
        Instruction::GetChar(1)
    } else {
        Instruction::PutChar(1)
    }
}

// Bumps the count of the last emitted instruction when the next operator
// is the same foldable variant.
fn try_bump(last: Instruction, c: char) -> (r: Option<Instruction>)
    requires
        is_foldable_char(c),
        payload_of(last@) < usize::MAX as nat,
    ensures
        (match r {
            Some(x) => same_foldable_variant(fold_inst(c, 1), last@) && x@ == fold_inst(
                c,
                payload_of(last@) + 1,
            ),
            None => !same_foldable_variant(fold_inst(c, 1), last@),
        }),
{
    if c == '+' {
        if let Instruction::Inc(k) = last {
            return Some(Instruction::Inc(k + 1));
        }
    } else if c == '-' {
        if let Instruction::Dec(k) = last {
            return Some(Instruction::Dec(k + 1));
        }
    } else if c == '>' {
        if let Instruction::IncMemPtr(k) = last {
            return Some(Instruction::IncMemPtr(k + 1));
        }
    } else if c == '<' {
        if let Instruction::DecMemPtr(k) = last {
            return Some(Instruction::DecMemPtr(k + 1));
        }
    } else if c == ',' {
        if let Instruction::GetChar(k) = last {
            return Some(Instruction::GetChar(k + 1));
        }
    } else {
        if let Instruction::PutChar(k) = last {
            return Some(Instruction::PutChar(k + 1));
        }
    }
    None
}

/// Compiles source text into an instruction stream: comments are dropped,
/// runs of one foldable operator become counted instructions, and bracket
/// pairs point at each other. Fails exactly when a `]` has no pending `[`
/// (reported first) or a `[` is never closed.
#[verifier::rlimit(100)]
pub fn parse_source_code(source_code: &str) -> (r: Result<Vec<Instruction>, CompileError>)
    ensures
        (match r {
            Ok(insts) => spec_compile(source_code@) == Ok::<Seq<SpecInstruction>, CompileError>(
                stream_view(insts@),
            ),
            Err(e) => spec_compile(source_code@) == Err::<Seq<SpecInstruction>, CompileError>(e),
        }),
{
    let n = source_code.unicode_len();
    let mut toks: Vec<char> = Vec::new();
    let mut i: usize = 0;
    while i < n
        invariant
            n == source_code@.len(),
            i <= n,
            toks@ == filter_ops(source_code@.take(i as int)),
        decreases n - i,
    {
        let c = source_code.get_char(i);
        proof {
            assert(source_code@.take(i as int + 1).drop_last() =~= source_code@.take(i as int));
            assert(source_code@.take(i as int + 1).last() == c);
        }
        if let Some(tok) = Token::try_from(c) {
            toks.push(tok.0);
        }
        i += 1;
    }
    proof {
        assert(source_code@.take(n as int) =~= source_code@);
        lemma_filter_ops_all_ops(source_code@);
    }

    let mut instructions: Vec<Instruction> = Vec::new();
    let mut jump_begin_pos_stack: Vec<usize> = Vec::new();
    let mut j: usize = 0;
    while j < toks.len()
        invariant
            toks@ == filter_ops(source_code@),
            forall|k: int| 0 <= k < toks@.len() ==> is_op_char(#[trigger] toks@[k]),
            j <= toks@.len(),
            !parse_toks(toks@.take(j as int)).failed,
            stream_view(instructions@) == parse_toks(toks@.take(j as int)).insts,
            opens_view(jump_begin_pos_stack@) == parse_toks(toks@.take(j as int)).opens,
        decreases toks@.len() - j,
    {
        let ghost prefix = toks@.take(j as int);
        let ghost pre = parse_toks(prefix);
        let c = toks[j];
        proof {
            assert forall|k: int| 0 <= k < prefix.len() implies is_op_char(
                #[trigger] prefix[k],
            ) by {
                assert(prefix[k] == toks@[k]);
            }
            lemma_parse_wf(prefix);
            lemma_invariant_parts(pre, prefix);
            lemma_parse_toks_snoc(prefix, toks@[j as int]);
            assert(toks@.take(j as int + 1) =~= prefix.push(toks@[j as int]));
            assert(is_op_char(c));
        }
        if c == '[' {
            instructions.push(Instruction::JmpToIfZero(0));
            let open_pos = instructions.len() - 1;
            jump_begin_pos_stack.push(open_pos);
            proof {
                lemma_stream_view_push(instructions@.drop_last(), Instruction::JmpToIfZero(0));
                assert(instructions@.drop_last().push(Instruction::JmpToIfZero(0))
                    =~= instructions@);
                lemma_opens_view_push(jump_begin_pos_stack@.drop_last(), open_pos);
                assert(jump_begin_pos_stack@.drop_last().push(open_pos)
                    =~= jump_begin_pos_stack@);
                let st2 = parse_token(pre, c);
                assert(st2 == (ParseState {
                    insts: pre.insts.push(SpecInstruction::JmpToIfZero(0)),
                    opens: pre.opens.push(pre.insts.len()),
                    failed: false,
                }));
                assert(stream_view(instructions@) == st2.insts);
                assert(opens_view(jump_begin_pos_stack@) == st2.opens);
            }
        } else if c == ']' {
            match jump_begin_pos_stack.pop() {
                Some(open_idx) => {
                    proof {
                        assert(pre.opens.len() > 0);
                        assert(pre.opens[pre.opens.len() - 1] == pre.opens.last());
                        assert(open_idx as nat == pre.opens.last());
                        assert(pre.opens.last() < pre.insts.len());
                        lemma_opens_view_drop(jump_begin_pos_stack@.push(open_idx));
                        assert(jump_begin_pos_stack@.push(open_idx).drop_last()
                            =~= jump_begin_pos_stack@);
                    }
                    instructions.push(Instruction::JmpBackIfNonZero(open_idx));
                    let end = instructions.len() - 1;
                    proof {
                        lemma_stream_view_push(
                            instructions@.drop_last(),
                            Instruction::JmpBackIfNonZero(open_idx),
                        );
                        assert(instructions@.drop_last().push(
                            Instruction::JmpBackIfNonZero(open_idx),
                        ) =~= instructions@);
                    }
                    let ghost mid = instructions@;
                    instructions.set(open_idx, Instruction::JmpToIfZero(end));
                    proof {
                        lemma_stream_view_update(mid, open_idx as int, Instruction::JmpToIfZero(end));
                        let st2 = parse_token(pre, c);
                        assert(st2 == (ParseState {
                            insts: pre.insts.push(
                                SpecInstruction::JmpBackIfNonZero(pre.opens.last()),
                            ).update(
                                pre.opens.last() as int,
                                SpecInstruction::JmpToIfZero(pre.insts.len()),
                            ),
                            opens: pre.opens.drop_last(),
                            failed: false,
                        }));
                        assert(end as nat == pre.insts.len());
                        assert(stream_view(instructions@) =~= st2.insts);
                        assert(opens_view(jump_begin_pos_stack@) == st2.opens);
                    }
                },
                None => {
                    proof {
                        assert(pre.opens.len() == 0);
                        assert(parse_toks(toks@.take(j as int + 1)).failed);
                        lemma_failed_sticks(toks@, j as int + 1);
                    }
                    return Err(CompileError::UnmatchedCloseBracket);
                },
            }
        } else {
            let mut folded = false;
            if instructions.len() > 0 {
                let last_idx = instructions.len() - 1;
                let last = instructions[last_idx];
                proof {
                    assert(payload_of(stream_view(instructions@)[last_idx as int])
                        <= prefix.len());
                    assert(payload_of(last@) <= j);
                }
                let ghost before = instructions@;
                match try_bump(last, c) {
                    Some(x) => {
                        instructions.set(last_idx, x);
                        folded = true;
                        proof {
                            lemma_stream_view_update(before, last_idx as int, x);
                            let st2 = parse_token(pre, c);
                            assert(st2 == (ParseState {
                                insts: pre.insts.update(
                                    pre.insts.len() - 1,
                                    fold_inst(c, payload_of(pre.insts.last()) + 1),
                                ),
                                opens: pre.opens,
                                failed: false,
                            }));
                            assert(stream_view(instructions@) =~= st2.insts);
                        }
                    },
                    None => {},
                }
            }
            if !folded {
                let x = single_inst(c);
                instructions.push(x);
                proof {
                    lemma_stream_view_push(instructions@.drop_last(), x);
                    assert(instructions@.drop_last().push(x) =~= instructions@);
                    let st2 = parse_token(pre, c);
                    assert(st2 == (ParseState {
                        insts: pre.insts.push(fold_inst(c, 1)),
                        opens: pre.opens,
                        failed: false,
                    }));
                    assert(stream_view(instructions@) == st2.insts);
                }
            }
        }
        j += 1;
    }
    proof {
        assert(toks@.take(j as int) =~= toks@);
    }
    if jump_begin_pos_stack.len() > 0 {
        return Err(CompileError::UnmatchedOpenBracket);
    }
    Ok(instructions)
}

} // verus!
