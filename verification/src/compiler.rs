use vstd::prelude::*;

verus! {

use vstd::pervasive::VecAdditionalExecFns;

/// One instruction of the compiled program. Jump instructions carry an
/// absolute index into the instruction list as their target; after
/// compilation the forward jump sits at the opening bracket's slot and
/// targets the closing bracket's slot, and vice versa.
#[derive(Clone, Copy, PartialEq, Eq, Structural, Debug)]
pub enum Command {
    IncrementDataPointer,
    DecrementDataPointer,
    Increment,
    Decrement,
    WriteByte,
    ReadByte,
    JumpForwardIfZero(usize),
    JumpBackwardIfNonZero(usize),
}

/// The only way compilation can fail: a bracket with no partner. The payload
/// is the bracket's index among the recognized instruction characters
/// (inert characters are not counted).
#[derive(Clone, Copy, PartialEq, Eq, Structural, Debug)]
pub enum ParsingError {
    UnmatchedBracket(usize),
}

/// The eight characters that mean anything; every other character is inert.
pub open spec fn is_instr_char(c: char) -> bool {
    c == '>' || c == '<' || c == '+' || c == '-' || c == '.' || c == ',' || c == '[' || c == ']'
}

/// The instruction characters of a text, in order, with everything else
/// discarded.
pub open spec fn tokens_of(text: Seq<char>) -> Seq<char>
    decreases text.len(),
{
    if text.len() == 0 {
        Seq::empty()
    } else if is_instr_char(text.last()) {
        tokens_of(text.drop_last()).push(text.last())
    } else {
        tokens_of(text.drop_last())
    }
}

/// The instruction a non-bracket character compiles to.
pub open spec fn plain_command(c: char) -> Command {
    if c == '>' {
        Command::IncrementDataPointer
    } else if c == '<' {
        Command::DecrementDataPointer
    } else if c == '+' {
        Command::Increment
    } else if c == '-' {
        Command::Decrement
    } else if c == '.' {
        Command::WriteByte
    } else {
        Command::ReadByte
    }
}

/// The scanning phase's state: the provisional instruction list (each jump
/// still targeting its own slot), the stack of open brackets, and the
/// recorded matched pairs whose instructions are to be swapped afterwards.
pub struct ScanState {
    pub cmds: Seq<Command>,
    pub stack: Seq<usize>,
    pub swaps: Seq<(usize, usize)>,
}

pub open spec fn empty_scan() -> ScanState {
    ScanState { cmds: Seq::empty(), stack: Seq::empty(), swaps: Seq::empty() }
}

/// One token of the scan: `i` is the token's index in the filtered stream.
pub open spec fn scan_step(st: ScanState, c: char, i: usize) -> Result<ScanState, usize> {
    if c == '[' {
        Ok(ScanState {
            cmds: st.cmds.push(Command::JumpBackwardIfNonZero(i)),
            stack: st.stack.push(i),
            swaps: st.swaps,
        })
    } else if c == ']' {
        if st.stack.len() == 0 {
            Err(i)
        } else {
            Ok(ScanState {
                cmds: st.cmds.push(Command::JumpForwardIfZero(i)),
                stack: st.stack.drop_last(),
                swaps: st.swaps.push((st.stack.last(), i)),
            })
        }
    } else {
        Ok(ScanState { cmds: st.cmds.push(plain_command(c)), stack: st.stack, swaps: st.swaps })
    }
}

/// Scan a whole token stream. An unmatched closing bracket fails with its
/// filtered index.
pub open spec fn scan(tokens: Seq<char>) -> Result<ScanState, usize>
    decreases tokens.len(),
{
    if tokens.len() == 0 {
        Ok(empty_scan())
    } else {
        match scan(tokens.drop_last()) {
            Ok(st) => scan_step(st, tokens.last(), (tokens.len() - 1) as usize),
            Err(i) => Err(i),
        }
    }
}

/// Exchange the instructions at two positions.
pub open spec fn swap_at(cmds: Seq<Command>, a: int, b: int) -> Seq<Command> {
    cmds.update(a, cmds[b]).update(b, cmds[a])
}

/// Apply the first `k` recorded swaps, oldest first.
pub open spec fn apply_swaps(cmds: Seq<Command>, swaps: Seq<(usize, usize)>, k: int) -> Seq<
    Command,
>
    decreases k,
{
    if k <= 0 {
        cmds
    } else {
        swap_at(apply_swaps(cmds, swaps, k - 1), swaps[k - 1].0 as int, swaps[k - 1].1 as int)
    }
}

/// What compilation yields on a filtered token stream: scan, report the
/// earliest still-open bracket if any remains, then swap each matched pair's
/// instructions so that each jump carries the other endpoint's position.
pub open spec fn compile_tokens(tokens: Seq<char>) -> Result<Seq<Command>, usize> {
    match scan(tokens) {
        Ok(st) => {
            if st.stack.len() > 0 {
                Err(st.stack[0])
            } else {
                Ok(apply_swaps(st.cmds, st.swaps, st.swaps.len() as int))
            }
        },
        Err(i) => Err(i),
    }
}

/// What compilation yields on raw source text.
pub open spec fn compile_spec(text: Seq<char>) -> Result<Seq<Command>, usize> {
    compile_tokens(tokens_of(text))
}

/// A jump target that stays inside an instruction list of length `n`.
pub open spec fn command_targets_ok(c: Command, n: int) -> bool {
    match c {
        Command::JumpForwardIfZero(t) => t < n,
        Command::JumpBackwardIfNonZero(t) => t < n,
        _ => true,
    }
}

/// Every jump of the list lands inside the list.
pub open spec fn well_formed(cmds: Seq<Command>) -> bool {
    forall|p: int|
        0 <= p < cmds.len() ==> command_targets_ok(#[trigger] cmds[p], cmds.len() as int)
}

/// Before the swaps, every jump instruction targets its own slot.
pub open spec fn self_target(c: Command, p: int) -> bool {
    match c {
        Command::JumpForwardIfZero(t) => t == p,
        Command::JumpBackwardIfNonZero(t) => t == p,
        _ => true,
    }
}

/// What the scan maintains: one instruction per token, stack entries and
/// swap pairs inside the list, each pair ordered, and every provisional jump
/// targeting its own slot.
pub open spec fn scan_invariant(st: ScanState, n: int) -> bool {
    &&& st.cmds.len() == n
    &&& forall|k: int| 0 <= k < st.stack.len() ==> (#[trigger] st.stack[k]) < n
    &&& forall|k: int|
        0 <= k < st.swaps.len() ==> (#[trigger] st.swaps[k]).0 < st.swaps[k].1
            && st.swaps[k].1 < n
    &&& forall|p: int| 0 <= p < n ==> self_target(#[trigger] st.cmds[p], p)
}

pub proof fn lemma_tokens_of_len(text: Seq<char>)
    ensures
        tokens_of(text).len() <= text.len(),
    decreases text.len(),
{
    if text.len() > 0 {
        lemma_tokens_of_len(text.drop_last());
    }
}

pub proof fn lemma_scan_invariant(tokens: Seq<char>)
    requires
        tokens.len() <= usize::MAX,
    ensures
        scan(tokens) is Ok ==> scan_invariant(scan(tokens)->Ok_0, tokens.len() as int),
    decreases tokens.len(),
{
    if tokens.len() > 0 {
        lemma_scan_invariant(tokens.drop_last());
    }
}

pub proof fn lemma_tokens_of_concat(a: Seq<char>, b: Seq<char>)
    ensures
        tokens_of(a + b) == tokens_of(a) + tokens_of(b),
    decreases b.len(),
{
    if b.len() == 0 {
        assert(a + b =~= a);
        assert(tokens_of(a) + tokens_of(b) =~= tokens_of(a));
    } else {
        lemma_tokens_of_concat(a, b.drop_last());
        assert((a + b).drop_last() =~= a + b.drop_last());
        assert((a + b).last() == b.last());
        if is_instr_char(b.last()) {
            assert(tokens_of(a) + tokens_of(b) =~= (tokens_of(a) + tokens_of(b.drop_last())).push(
                b.last(),
            ));
        }
    }
}

/// Once the scan has failed, further tokens change nothing.
pub proof fn lemma_scan_err_persists(tokens: Seq<char>, more: Seq<char>)
    requires
        scan(tokens) is Err,
    ensures
        scan(tokens + more) == scan(tokens),
    decreases more.len(),
{
    if more.len() == 0 {
        assert(tokens + more =~= tokens);
    } else {
        lemma_scan_err_persists(tokens, more.drop_last());
        assert((tokens + more).drop_last() =~= tokens + more.drop_last());
    }
}

/// Swapping instructions never moves a jump target out of the list.
pub proof fn lemma_apply_swaps_well_formed(cmds: Seq<Command>, swaps: Seq<(usize, usize)>, k: int)
    requires
        0 <= k <= swaps.len(),
        forall|p: int|
            0 <= p < cmds.len() ==> command_targets_ok(#[trigger] cmds[p], cmds.len() as int),
        forall|j: int|
            0 <= j < swaps.len() ==> (#[trigger] swaps[j]).0 < cmds.len() && swaps[j].1
                < cmds.len(),
    ensures
        apply_swaps(cmds, swaps, k).len() == cmds.len(),
        forall|p: int|
            0 <= p < cmds.len() ==> command_targets_ok(
                #[trigger] apply_swaps(cmds, swaps, k)[p],
                cmds.len() as int,
            ),
    decreases k,
{
    if k > 0 {
        lemma_apply_swaps_well_formed(cmds, swaps, k - 1);
    }
}

/// How often a character occurs in a sequence.
pub open spec fn count_char(s: Seq<char>, c: char) -> int
    decreases s.len(),
{
    if s.len() == 0 {
        0
    } else {
        count_char(s.drop_last(), c) + if s.last() == c {
            1int
        } else {
            0int
        }
    }
}

/// No prefix of the token stream closes more brackets than it has opened.
pub open spec fn prefix_counts_ok(tokens: Seq<char>) -> bool {
    forall|i: int|
        0 <= i <= tokens.len() ==> count_char(#[trigger] tokens.take(i), ']') <= count_char(
            tokens.take(i),
            '[',
        )
}

/// Structural balance: every prefix is covered and the totals agree.
pub open spec fn balanced(tokens: Seq<char>) -> bool {
    prefix_counts_ok(tokens) && count_char(tokens, '[') == count_char(tokens, ']')
}

/// The scan's stack height is the surplus of open brackets, and the scan
/// gets through exactly when no prefix over-closes.
pub proof fn lemma_scan_counts(tokens: Seq<char>)
    ensures
        scan(tokens) is Ok ==> (scan(tokens)->Ok_0).stack.len() == count_char(tokens, '[')
            - count_char(tokens, ']'),
        scan(tokens) is Ok <==> prefix_counts_ok(tokens),
    decreases tokens.len(),
{
    if tokens.len() == 0 {
        assert(tokens.take(0) =~= tokens);
    } else {
        let t = tokens.drop_last();
        let c = tokens.last();
        lemma_scan_counts(t);
        assert forall|i: int| 0 <= i <= t.len() implies tokens.take(i) == t.take(i) by {
            assert(tokens.take(i) =~= t.take(i));
        }
        assert(tokens.take(tokens.len() as int) =~= tokens);
        if scan(t) is Err {
            let i = choose|i: int|
                0 <= i <= t.len() && !(count_char(t.take(i), ']') <= count_char(t.take(i), '['));
            assert(!(count_char(tokens.take(i), ']') <= count_char(tokens.take(i), '[')));
        } else {
            let st = scan(t)->Ok_0;
            if c == ']' && st.stack.len() == 0 {
                assert(!(count_char(tokens.take(tokens.len() as int), ']') <= count_char(
                    tokens.take(tokens.len() as int),
                    '[',
                )));
            } else {
                assert forall|i: int|
                    0 <= i <= tokens.len() implies count_char(#[trigger] tokens.take(i), ']')
                    <= count_char(tokens.take(i), '[') by {
                    if i <= t.len() {
                        assert(tokens.take(i) == t.take(i));
                    } else {
                        assert(tokens.take(i) =~= tokens);
                    }
                }
            }
        }
    }
}

/// Law: compilation succeeds exactly when the brackets are structurally
/// balanced — the count of unmatched opening brackets and the count of
/// unmatched closing brackets are both zero.
pub proof fn lemma_compile_succeeds_iff_balanced(text: Seq<char>)
    ensures
        compile_spec(text) is Ok <==> balanced(tokens_of(text)),
{
    let tokens = tokens_of(text);
    lemma_scan_counts(tokens);
    assert(tokens.take(tokens.len() as int) =~= tokens);
}

/// A stretch of text without a single instruction character contributes no
/// tokens.
pub proof fn lemma_tokens_of_inert(s: Seq<char>)
    requires
        forall|i: int| 0 <= i < s.len() ==> !is_instr_char(#[trigger] s[i]),
    ensures
        tokens_of(s) == Seq::<char>::empty(),
    decreases s.len(),
{
    if s.len() > 0 {
        lemma_tokens_of_inert(s.drop_last());
    }
}

/// Law: compilation reads nothing but the filtered token stream. Two texts
/// with the same instruction characters compile alike — same instruction
/// list on success and the same filtered error position on failure.
pub proof fn lemma_compile_depends_only_on_tokens(a: Seq<char>, b: Seq<char>)
    requires
        tokens_of(a) == tokens_of(b),
    ensures
        compile_spec(a) == compile_spec(b),
{
}

/// Law: inserting inert characters anywhere in a source text changes
/// neither the compiled instruction list (and hence what a run of it does)
/// nor a reported error position.
pub proof fn lemma_inert_insertion(a: Seq<char>, mid: Seq<char>, b: Seq<char>)
    requires
        forall|i: int| 0 <= i < mid.len() ==> !is_instr_char(#[trigger] mid[i]),
    ensures
        compile_spec(a + mid + b) == compile_spec(a + b),
{
    lemma_tokens_of_concat(a, mid);
    lemma_tokens_of_concat(a + mid, b);
    lemma_tokens_of_concat(a, b);
    lemma_tokens_of_inert(mid);
    assert(tokens_of(a + mid) + tokens_of(b) =~= tokens_of(a) + tokens_of(b));
    lemma_compile_depends_only_on_tokens(a + mid + b, a + b);
}

/// Where the scan's bookkeeping points into the token stream: a scan error
/// carries the index of the first closing bracket that closes more than was
/// opened, and every stack entry is the index of a still-open opening
/// bracket.
pub proof fn lemma_error_positions(tokens: Seq<char>)
    requires
        tokens.len() <= usize::MAX,
    ensures
        scan(tokens) matches Err(i) ==> i < tokens.len() && tokens[i as int] == ']'
            && prefix_counts_ok(tokens.take(i as int)) && count_char(tokens.take(i as int), '[')
            == count_char(tokens.take(i as int), ']'),
        scan(tokens) matches Ok(st) ==> forall|k: int|
            0 <= k < st.stack.len() ==> (#[trigger] st.stack[k]) < tokens.len()
                && tokens[st.stack[k] as int] == '[',
    decreases tokens.len(),
{
    if tokens.len() > 0 {
        let t = tokens.drop_last();
        lemma_error_positions(t);
        lemma_scan_counts(t);
        assert forall|i: int| 0 <= i <= t.len() implies tokens.take(i) == t.take(i) by {
            assert(tokens.take(i) =~= t.take(i));
        }
        assert(t == tokens.take(t.len() as int));
    }
}

/// Law: a reported error position is the filtered index of a bracket of the
/// source: either a closing bracket — the first one that closes more than
/// was opened — or an opening bracket left open at the end.
pub proof fn lemma_error_position_is_bracket(text: Seq<char>)
    requires
        text.len() <= usize::MAX,
    ensures
        compile_spec(text) matches Err(i) ==> i < tokens_of(text).len() && (tokens_of(text)[
            i as int
        ] == '[' || tokens_of(text)[i as int] == ']'),
        compile_spec(text) matches Err(i) ==> (tokens_of(text)[i as int] == ']'
            ==> prefix_counts_ok(tokens_of(text).take(i as int)) && count_char(
            tokens_of(text).take(i as int),
            '[',
        ) == count_char(tokens_of(text).take(i as int), ']')),
{
    lemma_tokens_of_len(text);
    lemma_error_positions(tokens_of(text));
}

/// Whether `p` is the position of a still-open bracket on the scan's stack.
pub open spec fn in_stack(st: ScanState, p: int) -> bool {
    exists|k: int| 0 <= k < st.stack.len() && st.stack[k] as int == p
}

/// Whether `p` is the opening end of a recorded pair.
pub open spec fn is_open_of_pair(swaps: Seq<(usize, usize)>, p: int) -> bool {
    exists|j: int| 0 <= j < swaps.len() && swaps[j].0 as int == p
}

/// Whether `p` is the closing end of a recorded pair.
pub open spec fn is_close_of_pair(swaps: Seq<(usize, usize)>, p: int) -> bool {
    exists|j: int| 0 <= j < swaps.len() && swaps[j].1 as int == p
}

/// Every position the scan's bookkeeping holds is the position of the right
/// kind of bracket and still carries its provisional jump.
pub open spec fn bookkeeping_typed(tokens: Seq<char>, st: ScanState) -> bool {
    &&& forall|k: int|
        0 <= k < st.stack.len() ==> (#[trigger] st.stack[k]) < tokens.len() && tokens[st.stack[k]
            as int] == '[' && st.cmds[st.stack[k] as int] == Command::JumpBackwardIfNonZero(
            st.stack[k],
        )
    &&& forall|j: int|
        0 <= j < st.swaps.len() ==> {
            let (a, b) = #[trigger] st.swaps[j];
            &&& a < b
            &&& b < tokens.len()
            &&& tokens[a as int] == '['
            &&& tokens[b as int] == ']'
            &&& st.cmds[a as int] == Command::JumpBackwardIfNonZero(a)
            &&& st.cmds[b as int] == Command::JumpForwardIfZero(b)
        }
}

/// No position occurs twice across the stack and the recorded pairs.
pub open spec fn bookkeeping_distinct(st: ScanState) -> bool {
    &&& forall|k1: int, k2: int|
        0 <= k1 < k2 < st.stack.len() ==> st.stack[k1] != st.stack[k2]
    &&& forall|j1: int, j2: int|
        0 <= j1 < st.swaps.len() && 0 <= j2 < st.swaps.len() && j1 != j2 ==> st.swaps[j1].0
            != st.swaps[j2].0 && st.swaps[j1].0 != st.swaps[j2].1 && st.swaps[j1].1
            != st.swaps[j2].0 && st.swaps[j1].1 != st.swaps[j2].1
    &&& forall|k: int, j: int|
        0 <= k < st.stack.len() && 0 <= j < st.swaps.len() ==> st.stack[k] != st.swaps[j].0
            && st.stack[k] != st.swaps[j].1
}

/// Everything the scan keeps true of its bookkeeping, in one place.
pub open spec fn scan_full_invariant(tokens: Seq<char>, st: ScanState) -> bool {
    &&& st.cmds.len() == tokens.len()
    &&& bookkeeping_typed(tokens, st)
    &&& bookkeeping_distinct(st)
    &&& forall|p: int|
        0 <= p < tokens.len() && tokens[p] != '[' && tokens[p] != ']' ==> #[trigger] st.cmds[p]
            == plain_command(tokens[p])
    &&& forall|p: int|
        0 <= p < tokens.len() && #[trigger] tokens[p] == '[' ==> in_stack(st, p)
            || is_open_of_pair(st.swaps, p)
    &&& forall|p: int|
        0 <= p < tokens.len() && #[trigger] tokens[p] == ']' ==> is_close_of_pair(st.swaps, p)
}

pub proof fn lemma_scan_full(tokens: Seq<char>)
    requires
        tokens.len() <= usize::MAX,
    ensures
        scan(tokens) matches Ok(st) ==> scan_full_invariant(tokens, st),
    decreases tokens.len(),
{
    if tokens.len() == 0 {
    } else {
        let t = tokens.drop_last();
        let c = tokens.last();
        let n = t.len() as int;
        lemma_scan_full(t);
        if scan(t) is Ok {
            let st = scan(t)->Ok_0;
            match scan_step(st, c, (tokens.len() - 1) as usize) {
                Ok(st2) => {
                    if c == ']' {
                        assert forall|p: int|
                            0 <= p < tokens.len() && #[trigger] tokens[p] == '[' implies in_stack(
                            st2,
                            p,
                        ) || is_open_of_pair(st2.swaps, p) by {
                            if p < n {
                                assert(t[p] == tokens[p]);
                                if in_stack(st, p) {
                                    let k = choose|k: int|
                                        0 <= k < st.stack.len() && st.stack[k] as int == p;
                                    if k < st.stack.len() - 1 {
                                        assert(st2.stack[k] as int == p);
                                    } else {
                                        assert(st2.swaps[st2.swaps.len() - 1].0 as int == p);
                                    }
                                } else {
                                    assert(is_open_of_pair(st.swaps, p));
                                    let j = choose|j: int|
                                        0 <= j < st.swaps.len() && st.swaps[j].0 as int == p;
                                    assert(st2.swaps[j].0 as int == p);
                                }
                            } else {
                                assert(tokens[p] == c);
                            }
                        }
                        assert forall|p: int|
                            0 <= p < tokens.len() && #[trigger] tokens[p] == ']' implies
                            is_close_of_pair(st2.swaps, p) by {
                            if p < n {
                                assert(t[p] == tokens[p]);
                                assert(is_close_of_pair(st.swaps, p));
                                let j = choose|j: int|
                                    0 <= j < st.swaps.len() && st.swaps[j].1 as int == p;
                                assert(st2.swaps[j].1 as int == p);
                            } else {
                                assert(st2.swaps[st2.swaps.len() - 1].1 as int == p);
                            }
                        }
                    } else {
                        assert forall|p: int|
                            0 <= p < tokens.len() && #[trigger] tokens[p] == '[' implies in_stack(
                            st2,
                            p,
                        ) || is_open_of_pair(st2.swaps, p) by {
                            if p < n {
                                assert(t[p] == tokens[p]);
                                if in_stack(st, p) {
                                    let k = choose|k: int|
                                        0 <= k < st.stack.len() && st.stack[k] as int == p;
                                    assert(st2.stack[k] as int == p);
                                } else {
                                    assert(is_open_of_pair(st.swaps, p));
                                }
                            } else {
                                assert(tokens[p] == c);
                                assert(c == '[');
                                assert(st2.stack[st2.stack.len() - 1] as int == p);
                            }
                        }
                        assert forall|p: int|
                            0 <= p < tokens.len() && #[trigger] tokens[p] == ']' implies
                            is_close_of_pair(st2.swaps, p) by {
                            assert(tokens[n] == c);
                            assert(p < n);
                            assert(t[p] == tokens[p]);
                            assert(is_close_of_pair(st.swaps, p));
                            let j = choose|j: int|
                                0 <= j < st.swaps.len() && st.swaps[j].1 as int == p;
                            assert(st2.swaps[j].1 as int == p);
                        }
                    }
                },
                Err(_) => {},
            }
        }
    }
}

/// Positions that none of the first `k` pairs touches.
pub open spec fn untouched_by_swaps(swaps: Seq<(usize, usize)>, k: int, p: int) -> bool {
    forall|j: int| 0 <= j < k ==> (#[trigger] swaps[j]).0 as int != p && swaps[j].1 as int != p
}

/// After the swaps, each applied pair's two slots carry each other's
/// position, and every other slot is as the scan left it.
pub proof fn lemma_apply_swaps_places(cmds: Seq<Command>, swaps: Seq<(usize, usize)>, k: int)
    requires
        0 <= k <= swaps.len(),
        forall|j: int|
            0 <= j < swaps.len() ==> (#[trigger] swaps[j]).0 < cmds.len() && swaps[j].1
                < cmds.len() && swaps[j].0 != swaps[j].1,
        forall|j1: int, j2: int|
            0 <= j1 < swaps.len() && 0 <= j2 < swaps.len() && j1 != j2 ==> swaps[j1].0
                != swaps[j2].0 && swaps[j1].0 != swaps[j2].1 && swaps[j1].1 != swaps[j2].0
                && swaps[j1].1 != swaps[j2].1,
        forall|j: int|
            0 <= j < swaps.len() ==> cmds[(#[trigger] swaps[j]).0 as int]
                == Command::JumpBackwardIfNonZero(swaps[j].0) && cmds[swaps[j].1 as int]
                == Command::JumpForwardIfZero(swaps[j].1),
    ensures
        apply_swaps(cmds, swaps, k).len() == cmds.len(),
        forall|j: int|
            0 <= j < k ==> apply_swaps(cmds, swaps, k)[(#[trigger] swaps[j]).0 as int]
                == Command::JumpForwardIfZero(swaps[j].1) && apply_swaps(cmds, swaps, k)[swaps[j].1
                as int] == Command::JumpBackwardIfNonZero(swaps[j].0),
        forall|p: int|
            0 <= p < cmds.len() && untouched_by_swaps(swaps, k, p) ==> apply_swaps(
                cmds,
                swaps,
                k,
            )[p] == cmds[p],
    decreases k,
{
    if k > 0 {
        lemma_apply_swaps_places(cmds, swaps, k - 1);
        let prev = apply_swaps(cmds, swaps, k - 1);
        let (a, b) = swaps[k - 1];
        assert(untouched_by_swaps(swaps, k - 1, a as int));
        assert(untouched_by_swaps(swaps, k - 1, b as int));
        assert forall|p: int|
            0 <= p < cmds.len() && untouched_by_swaps(swaps, k, p) implies apply_swaps(
            cmds,
            swaps,
            k,
        )[p] == cmds[p] by {
            assert(untouched_by_swaps(swaps, k - 1, p));
            assert(swaps[k - 1].0 as int != p && swaps[k - 1].1 as int != p);
        }
    }
}

/// The pairs the scan matched up in a balanced token stream.
pub open spec fn pairs_of(tokens: Seq<char>) -> Seq<(usize, usize)> {
    (scan(tokens)->Ok_0).swaps
}

/// Law: a compiled program mirrors its source token for token. Each
/// non-bracket token's instruction sits at the token's filtered position;
/// the two instructions of a matched pair point at each other — the forward
/// jump at the opening bracket carries the closing bracket's position and
/// the backward jump at the closing bracket carries the opening bracket's —
/// and every bracket belongs to exactly one such pair.
pub proof fn lemma_compiled_structure(text: Seq<char>)
    requires
        text.len() <= usize::MAX,
    ensures
        compile_spec(text) matches Ok(cmds) ==> {
            let tokens = tokens_of(text);
            let pairs = pairs_of(tokens);
            &&& cmds.len() == tokens.len()
            &&& forall|p: int|
                0 <= p < tokens.len() && tokens[p] != '[' && tokens[p] != ']' ==> #[trigger] cmds[p]
                    == plain_command(tokens[p])
            &&& forall|j: int|
                0 <= j < pairs.len() ==> {
                    let (a, b) = #[trigger] pairs[j];
                    &&& a < b
                    &&& b < tokens.len()
                    &&& tokens[a as int] == '['
                    &&& tokens[b as int] == ']'
                    &&& cmds[a as int] == Command::JumpForwardIfZero(b)
                    &&& cmds[b as int] == Command::JumpBackwardIfNonZero(a)
                }
            &&& forall|p: int|
                0 <= p < tokens.len() && #[trigger] tokens[p] == '[' ==> is_open_of_pair(pairs, p)
            &&& forall|p: int|
                0 <= p < tokens.len() && #[trigger] tokens[p] == ']' ==> is_close_of_pair(pairs, p)
        },
{
    let tokens = tokens_of(text);
    lemma_tokens_of_len(text);
    lemma_scan_full(tokens);
    if compile_spec(text) is Ok {
        let st = scan(tokens)->Ok_0;
        lemma_apply_swaps_places(st.cmds, st.swaps, st.swaps.len() as int);
        let cmds = apply_swaps(st.cmds, st.swaps, st.swaps.len() as int);
        assert forall|p: int|
            0 <= p < tokens.len() && tokens[p] != '[' && tokens[p] != ']' implies #[trigger] cmds[p]
            == plain_command(tokens[p]) by {
            assert forall|j: int| 0 <= j < st.swaps.len() implies (#[trigger] st.swaps[j]).0 as int
                != p && st.swaps[j].1 as int != p by {
                assert(tokens[st.swaps[j].0 as int] == '[');
                assert(tokens[st.swaps[j].1 as int] == ']');
            }
            assert(untouched_by_swaps(st.swaps, st.swaps.len() as int, p));
            assert(apply_swaps(st.cmds, st.swaps, st.swaps.len() as int)[p] == st.cmds[p]);
        }
        assert forall|p: int|
            0 <= p < tokens.len() && #[trigger] tokens[p] == '[' implies is_open_of_pair(
            st.swaps,
            p,
        ) by {
            assert(st.stack.len() == 0);
            assert(!in_stack(st, p));
        }
    }
}

/// Law: compilation is a function of the text alone, so compiling the same
/// source twice yields element-wise identical instruction lists.
pub proof fn lemma_compile_deterministic(text: Seq<char>, c1: Seq<Command>, c2: Seq<Command>)
    requires
        compile_spec(text) == Result::<Seq<Command>, usize>::Ok(c1),
        compile_spec(text) == Result::<Seq<Command>, usize>::Ok(c2),
    ensures
        c1.len() == c2.len(),
        forall|i: int| 0 <= i < c1.len() ==> c1[i] == c2[i],
{
}

/// Compile source text into an instruction list, or report the first
/// structurally unmatched bracket by its index in the filtered token stream.
#[verifier::loop_isolation(false)]
pub fn compile(text: &str) -> (r: Result<Vec<Command>, ParsingError>)
    ensures
        match r {
            Ok(cmds) => compile_spec(text@) == Result::<Seq<Command>, usize>::Ok(cmds@)
                && well_formed(cmds@),
            Err(e) => match e {
                ParsingError::UnmatchedBracket(i) => compile_spec(text@) == Result::<
                    Seq<Command>,
                    usize,
                >::Err(i),
            },
        },
{
    let n = text.unicode_len();
    let mut commands: Vec<Command> = Vec::new();
    let mut brackets_stack: Vec<usize> = Vec::new();
    let mut brackets_swaps: Vec<(usize, usize)> = Vec::new();

    let mut i: usize = 0;
    while i < n
        invariant
            i <= n,
            scan(tokens_of(text@.take(i as int))) is Ok,
            scan(tokens_of(text@.take(i as int)))->Ok_0 == (ScanState {
                cmds: commands@,
                stack: brackets_stack@,
                swaps: brackets_swaps@,
            }),
        decreases n - i,
    {
        let ghost toks = tokens_of(text@.take(i as int));
        proof {
            lemma_tokens_of_len(text@.take(i as int));
            lemma_scan_invariant(toks);
            assert(text@.take(i + 1).drop_last() =~= text@.take(i as int));
            assert(text@.take(i + 1).last() == text@[i as int]);
        }
        let c = text.get_char(i);
        if c == '>' || c == '<' || c == '+' || c == '-' || c == '.' || c == ',' || c == '[' || c
            == ']' {
            let ghost toks2 = tokens_of(text@.take(i + 1));
            proof {
                assert(toks2 == toks.push(c));
                assert(toks2.drop_last() =~= toks);
                assert(scan(toks2) == scan_step(
                    scan(toks)->Ok_0,
                    c,
                    (toks2.len() - 1) as usize,
                ));
            }
            let idx = commands.len();
            if c == '>' {
                commands.push(Command::IncrementDataPointer);
            } else if c == '<' {
                commands.push(Command::DecrementDataPointer);
            } else if c == '+' {
                commands.push(Command::Increment);
            } else if c == '-' {
                commands.push(Command::Decrement);
            } else if c == '.' {
                commands.push(Command::WriteByte);
            } else if c == ',' {
                commands.push(Command::ReadByte);
            } else if c == '[' {
                brackets_stack.push(idx);
                commands.push(Command::JumpBackwardIfNonZero(idx));
            } else {
                if let Some(matching_index) = brackets_stack.pop() {
                    brackets_swaps.push((matching_index, idx));
                    commands.push(Command::JumpForwardIfZero(idx));
                    proof {
                        assert(brackets_stack@ =~= (scan(toks)->Ok_0).stack.drop_last());
                    }
                } else {
                    proof {
                        assert(scan(toks2) == Result::<ScanState, usize>::Err(idx));
                        assert(text@ =~= text@.take(i + 1) + text@.skip(i + 1));
                        lemma_tokens_of_concat(text@.take(i + 1), text@.skip(i + 1));
                        lemma_scan_err_persists(toks2, tokens_of(text@.skip(i + 1)));
                        assert(tokens_of(text@) == toks2 + tokens_of(text@.skip(i + 1)));
                    }
                    return Err(ParsingError::UnmatchedBracket(idx));
                }
            }
        }
        i += 1;
    }
    proof {
        assert(text@.take(n as int) =~= text@);
    }
    if brackets_stack.len() > 0 {
        let idx = brackets_stack[0];
        return Err(ParsingError::UnmatchedBracket(idx));
    }
    let ghost st = scan(tokens_of(text@))->Ok_0;
    proof {
        lemma_tokens_of_len(text@);
        lemma_scan_invariant(tokens_of(text@));
        lemma_apply_swaps_well_formed(st.cmds, st.swaps, st.swaps.len() as int);
    }
    let swap_count = brackets_swaps.len();
    let mut j: usize = 0;
    while j < swap_count
        invariant
            j <= swap_count,
            commands@ == apply_swaps(st.cmds, st.swaps, j as int),
            commands@.len() == st.cmds.len(),
        decreases swap_count - j,
    {
        let (a, b) = brackets_swaps[j];
        let ca = commands[a];
        let cb = commands[b];
        commands.set(a, cb);
        commands.set(b, ca);
        j += 1;
    }
    Ok(commands)
}

} // verus!
