//! Compilation of source text into a program: run-length folding of
//! `+ - < >` and resolution of bracket pairs into jump targets.
use vstd::prelude::*;
use crate::op::{Op, OpKind, folded_push, can_fold};

verus! {

/// Which optional instructions the compiler recognizes.
#[derive(Clone, Copy, Debug, PartialEq, Eq, Structural)]
pub struct Config {
    /// When set, `*` compiles to an instruction that writes the current cell
    /// as decimal text; when clear, `*` is a comment character.
    pub numeric_output: bool,
    /// When set, runs of `,`, `.` and `*` fold like `+ - < >`; when clear,
    /// each of them becomes an instruction of its own with operand 1.
    pub fold_io: bool,
}

impl Config {
    /// Character output only, input and output never folded.
    pub fn char_only() -> (r: Config)
        ensures
            r == (Config { numeric_output: false, fold_io: false }),
    {
        Config { numeric_output: false, fold_io: false }
    }

    /// Character and numeric output, input and output never folded.
    pub fn with_numeric_output() -> (r: Config)
        ensures
            r == (Config { numeric_output: true, fold_io: false }),
    {
        Config { numeric_output: true, fold_io: false }
    }
}

/// Why a source text does not compile.
#[derive(Clone, Copy, Debug, PartialEq, Eq, Structural)]
pub enum CompileError {
    /// A `]` at this character index closes no open `[`.
    UnmatchedCloseBracket { source_index: usize },
    /// At the end of the text some `[` is still open.
    UnclosedOpenBracket,
}

/// The compiler's state after a prefix of the source: the program so far, the
/// indices of the still open `[` instructions, and the index of the first
/// unmatched `]`, if one was met.
pub struct ScanState {
    pub ops: Seq<Op>,
    pub stack: Seq<usize>,
    pub error: Option<usize>,
}

/// The instruction kind that a folded operator character stands for.
pub open spec fn fold_kind(c: char) -> Option<OpKind> {
    if c == '+' {
        Some(OpKind::Increment)
    } else if c == '-' {
        Some(OpKind::Decrement)
    } else if c == '<' {
        Some(OpKind::MoveLeft)
    } else if c == '>' {
        Some(OpKind::MoveRight)
    } else {
        None
    }
}

/// The instruction kind that an input or output character stands for; these
/// characters fold only when the configuration asks for it.
pub open spec fn io_kind(cfg: Config, c: char) -> Option<OpKind> {
    if c == ',' {
        Some(OpKind::ReadByte)
    } else if c == '.' {
        Some(OpKind::WriteByteAsChar)
    } else if c == '*' && cfg.numeric_output {
        Some(OpKind::WriteByteAsNumber)
    } else {
        None
    }
}

/// The effect of the character `c`, found at character index `i`, on the
/// compiler's state.
pub open spec fn scan_char(cfg: Config, st: ScanState, c: char, i: usize) -> ScanState {
    if st.error is Some {
        st
    } else if fold_kind(c) is Some {
        ScanState { ops: folded_push(st.ops, fold_kind(c)->Some_0, 1), ..st }
    } else if io_kind(cfg, c) is Some {
        if cfg.fold_io {
            ScanState { ops: folded_push(st.ops, io_kind(cfg, c)->Some_0, 1), ..st }
        } else {
            ScanState { ops: st.ops.push(Op { kind: io_kind(cfg, c)->Some_0, operand: 1 }), ..st }
        }
    } else if c == '[' {
        ScanState {
            ops: st.ops.push(Op { kind: OpKind::BranchIfZero, operand: 0 }),
            stack: st.stack.push(st.ops.len() as usize),
            error: None,
        }
    } else if c == ']' {
        if st.stack.len() == 0 {
            ScanState { error: Some(i), ..st }
        } else {
            let open = st.stack.last();
            ScanState {
                ops: st.ops.update(
                    open as int,
                    Op { kind: OpKind::BranchIfZero, operand: st.ops.len() as usize },
                ).push(Op { kind: OpKind::BranchIfNonZero, operand: open }),
                stack: st.stack.drop_last(),
                error: None,
            }
        }
    } else {
        st
    }
}

/// The compiler's state after the first `n` characters of `s`.
pub open spec fn scan(cfg: Config, s: Seq<char>, n: nat) -> ScanState
    decreases n,
{
    if n == 0 {
        ScanState { ops: Seq::empty(), stack: Seq::empty(), error: None }
    } else {
        scan_char(cfg, scan(cfg, s, (n - 1) as nat), s[n - 1], (n - 1) as usize)
    }
}

/// What compiling `s` yields.
pub open spec fn compile_result(cfg: Config, s: Seq<char>) -> Result<Seq<Op>, CompileError> {
    let st = scan(cfg, s, s.len());
    match st.error {
        Some(i) => Err(CompileError::UnmatchedCloseBracket { source_index: i }),
        None => if st.stack.len() > 0 {
            Err(CompileError::UnclosedOpenBracket)
        } else {
            Ok(st.ops)
        },
    }
}

/// Sizes that keep the scan within machine integers: no operand or open
/// index exceeds the number of characters read.
pub open spec fn scan_bounded(st: ScanState, n: nat) -> bool {
    &&& st.ops.len() <= n
    &&& forall|j: int| 0 <= j < st.ops.len() ==> st.ops[j].operand <= n
    &&& forall|j: int| 0 <= j < st.stack.len() ==> st.stack[j] < st.ops.len()
    &&& match st.error {
        Some(i) => i < n,
        None => true,
    }
}

proof fn lemma_scan_bounded(cfg: Config, s: Seq<char>, n: nat)
    requires
        n <= s.len(),
        s.len() <= usize::MAX,
    ensures
        scan_bounded(scan(cfg, s, n), n),
    decreases n,
{
    if n > 0 {
        lemma_scan_bounded(cfg, s, (n - 1) as nat);
    }
}

/// Once a `]` was unmatched, the rest of the text changes nothing.
proof fn lemma_error_stays(cfg: Config, s: Seq<char>, n: nat, m: nat)
    requires
        n <= m,
        scan(cfg, s, n).error is Some,
    ensures
        scan(cfg, s, m) == scan(cfg, s, n),
    decreases m - n,
{
    if m > n {
        lemma_error_stays(cfg, s, n, (m - 1) as nat);
    }
}

/// Compiles `source` under `config`.
///
/// Fails with `UnmatchedCloseBracket` at the first `]` that closes no `[`, and
/// with `UnclosedOpenBracket` when the text ends with a `[` still open.
pub fn compile(source: &str, config: Config) -> (r: Result<Vec<Op>, CompileError>)
    ensures
        match compile_result(config, source@) {
            Ok(p) => r is Ok && r->Ok_0@ == p,
            Err(e) => r == Err::<Vec<Op>, CompileError>(e),
        },
{
    let ghost s = source@;
    let len = source.unicode_len();
    let mut ops: Vec<Op> = Vec::new();
    let mut stack: Vec<usize> = Vec::new();
    let mut index: usize = 0;
    for c in it: source.chars()
        invariant
            it.seq() == s,
            s == source@,
            s.len() == len,
            index == it.index(),
            index <= s.len(),
            scan(config, s, index as nat) == (ScanState { ops: ops@, stack: stack@, error: None }),
    {
        proof {
            lemma_scan_bounded(config, s, index as nat);
        }
        assert(c == s[index as int]);
        let ghost st = scan(config, s, index as nat);
        assert(scan(config, s, (index + 1) as nat) == scan_char(config, st, c, index));
        if c == '+' {
            Op::push(&mut ops, OpKind::Increment);
        } else if c == '-' {
            Op::push(&mut ops, OpKind::Decrement);
        } else if c == '<' {
            Op::push(&mut ops, OpKind::MoveLeft);
        } else if c == '>' {
            Op::push(&mut ops, OpKind::MoveRight);
        } else if c == ',' || c == '.' || (c == '*' && config.numeric_output) {
            let kind = if c == ',' {
                OpKind::ReadByte
            } else if c == '.' {
                OpKind::WriteByteAsChar
            } else {
                OpKind::WriteByteAsNumber
            };
            if config.fold_io {
                Op::push(&mut ops, kind);
            } else {
                ops.push(Op::new(kind, 1));
            }
        } else if c == '[' {
            stack.push(ops.len());
            ops.push(Op::new(OpKind::BranchIfZero, 0));
        } else if c == ']' {
            match stack.pop() {
                Some(open) => {
                    let target = ops.len();
                    ops.set(open, Op::new(OpKind::BranchIfZero, target));
                    ops.push(Op::new(OpKind::BranchIfNonZero, open));
                },
                None => {
                    proof {
                        lemma_error_stays(config, s, (index + 1) as nat, s.len());
                    }
                    return Err(CompileError::UnmatchedCloseBracket { source_index: index });
                },
            }
        }
        index = index + 1;
    }
    if stack.len() > 0 {
        Err(CompileError::UnclosedOpenBracket)
    } else {
        Ok(ops)
    }
}

} // verus!

verus! {

/// Bracket depth after the first `n` characters of `s`: the number of `[`
/// minus the number of `]`.
pub open spec fn depth(s: Seq<char>, n: nat) -> int
    decreases n,
{
    if n == 0 {
        0
    } else {
        depth(s, (n - 1) as nat) + if s[n - 1] == '[' {
            1int
        } else if s[n - 1] == ']' {
            -1int
        } else {
            0int
        }
    }
}

/// No prefix of the first `n` characters closes more brackets than it opens.
pub open spec fn never_below_zero(s: Seq<char>, n: nat) -> bool {
    forall|m: nat| m <= n ==> #[trigger] depth(s, m) >= 0
}

/// The open brackets the scan holds follow the bracket depth, and a `]` is
/// reported exactly when the depth first drops below zero.
proof fn lemma_scan_depth(cfg: Config, s: Seq<char>, n: nat)
    requires
        n <= s.len(),
    ensures
        scan(cfg, s, n).error is None <==> never_below_zero(s, n),
        scan(cfg, s, n).error is None ==> scan(cfg, s, n).stack.len() == depth(s, n),
    decreases n,
{
    if n > 0 {
        let m = (n - 1) as nat;
        lemma_scan_depth(cfg, s, m);
        if scan(cfg, s, m).error is Some {
            assert(!never_below_zero(s, n)) by {
                let w = choose|w: nat| w <= m && !(depth(s, w) >= 0);
                assert(w <= n && !(depth(s, w) >= 0));
            }
        } else {
            if never_below_zero(s, n) {
                assert forall|w: nat| w <= m implies #[trigger] depth(s, w) >= 0 by {
                    assert(w <= n);
                }
            }
            assert(never_below_zero(s, n) <==> (never_below_zero(s, m) && depth(s, n) >= 0))
                by {
                if never_below_zero(s, m) && depth(s, n) >= 0 {
                    assert forall|w: nat| w <= n implies #[trigger] depth(s, w) >= 0 by {
                        if w < n {
                            assert(w <= m);
                        }
                    }
                }
            }
        }
    }
}

/// A source compiles exactly when its brackets balance: no prefix closes
/// more brackets than it opened, and the whole text closes all it opened.
pub proof fn lemma_compiles_iff_balanced(cfg: Config, s: Seq<char>)
    ensures
        compile_result(cfg, s) is Ok <==> (never_below_zero(s, s.len()) && depth(s, s.len())
            == 0),
{
    lemma_scan_depth(cfg, s, s.len());
}

proof fn lemma_depth_without_open(s: Seq<char>, n: nat)
    requires
        n <= s.len(),
        forall|j: int| 0 <= j < n ==> s[j] != '[',
    ensures
        depth(s, n) <= 0,
    decreases n,
{
    if n > 0 {
        lemma_depth_without_open(s, (n - 1) as nat);
    }
}

/// A `]` at index `k` with no `[` before it makes compilation fail with
/// `UnmatchedCloseBracket`, reported at a `]` no later than `k`.
pub proof fn lemma_unmatched_close_fails(cfg: Config, s: Seq<char>, k: nat)
    requires
        s.len() <= usize::MAX,
        k < s.len(),
        s[k as int] == ']',
        forall|j: int| 0 <= j < k ==> s[j] != '[',
    ensures
        compile_result(cfg, s) matches Err(CompileError::UnmatchedCloseBracket { source_index })
            && source_index <= k && s[source_index as int] == ']',
{
    lemma_depth_without_open(s, k);
    assert(depth(s, k + 1) < 0);
    lemma_scan_depth(cfg, s, k + 1);
    assert(!never_below_zero(s, k + 1)) by {
        assert(!(depth(s, k + 1) >= 0));
    }
    lemma_error_at_close(cfg, s, k + 1);
    lemma_error_stays(cfg, s, k + 1, s.len());
}

/// The reported index of an unmatched `]` lies within the characters read
/// and holds a `]`.
proof fn lemma_error_at_close(cfg: Config, s: Seq<char>, n: nat)
    requires
        n <= s.len(),
        s.len() <= usize::MAX,
    ensures
        scan(cfg, s, n).error matches Some(i) ==> i < n && s[i as int] == ']',
    decreases n,
{
    if n > 0 {
        lemma_error_at_close(cfg, s, (n - 1) as nat);
    }
}

/// A text whose every `]` closes an earlier `[`, but which leaves a `[`
/// open at its end, fails with `UnclosedOpenBracket`.
pub proof fn lemma_unclosed_open_fails(cfg: Config, s: Seq<char>)
    requires
        never_below_zero(s, s.len()),
        depth(s, s.len()) > 0,
    ensures
        compile_result(cfg, s) == Err::<Seq<Op>, CompileError>(CompileError::UnclosedOpenBracket),
{
    lemma_scan_depth(cfg, s, s.len());
}

} // verus!

verus! {

/// A run of `n` copies of one folded operator character compiles to a single
/// instruction of its kind whose operand is `n`.
pub proof fn lemma_run_folds(cfg: Config, c: char, n: nat)
    requires
        fold_kind(c) is Some,
        1 <= n <= usize::MAX,
    ensures
        compile_result(cfg, Seq::new(n, |i: int| c)) == Ok::<Seq<Op>, CompileError>(
            seq![Op { kind: fold_kind(c)->Some_0, operand: n as usize }],
        ),
{
    let s = Seq::new(n, |i: int| c);
    lemma_run_prefix(cfg, s, c, n);
}

proof fn lemma_run_prefix(cfg: Config, s: Seq<char>, c: char, m: nat)
    requires
        fold_kind(c) is Some,
        1 <= m <= s.len() <= usize::MAX,
        forall|j: int| 0 <= j < s.len() ==> s[j] == c,
    ensures
        scan(cfg, s, m) == (ScanState {
            ops: seq![Op { kind: fold_kind(c)->Some_0, operand: m as usize }],
            stack: Seq::empty(),
            error: None,
        }),
    decreases m,
{
    if m == 1 {
        assert(scan(cfg, s, 0).ops.push(Op { kind: fold_kind(c)->Some_0, operand: 1 })
            =~= seq![Op { kind: fold_kind(c)->Some_0, operand: 1 }]);
    } else {
        lemma_run_prefix(cfg, s, c, (m - 1) as nat);
        assert(scan(cfg, s, m).ops =~= seq![Op { kind: fold_kind(c)->Some_0, operand: m as usize }]);
    }
}

/// Every branch in `ops` is paired with its matching branch: a
/// `BranchIfZero` targets a later `BranchIfNonZero` that targets it back, a
/// `BranchIfNonZero` targets an earlier `BranchIfZero` that targets it, and
/// pairs nest: a pair that opens inside another also closes inside it.
pub open spec fn branches_matched(ops: Seq<Op>) -> bool {
    &&& forall|a: int, c: int|
        0 <= a < c < ops.len() && (#[trigger] ops[a]).kind == OpKind::BranchIfZero
            && (#[trigger] ops[c]).kind == OpKind::BranchIfZero && c < ops[a].operand
            ==> ops[c].operand < ops[a].operand
    &&& forall|j: int|
        0 <= j < ops.len() && (#[trigger] ops[j]).kind == OpKind::BranchIfZero ==> j
            < ops[j].operand < ops.len() && ops[ops[j].operand as int] == (Op {
            kind: OpKind::BranchIfNonZero,
            operand: j as usize,
        })
    &&& forall|j: int|
        0 <= j < ops.len() && (#[trigger] ops[j]).kind == OpKind::BranchIfNonZero
            ==> ops[j].operand < j && ops[ops[j].operand as int] == (Op {
            kind: OpKind::BranchIfZero,
            operand: j as usize,
        })
}

/// The instruction at index `j`; quantifiers over branches fire on this
/// term only, so that following a branch target starts no new instance.
spec fn op_at(ops: Seq<Op>, j: int) -> Op {
    ops[j]
}

spec fn is_branch(k: OpKind) -> bool {
    k == OpKind::BranchIfZero || k == OpKind::BranchIfNonZero
}

/// A `BranchIfZero` at `j` whose bracket is closed targets a later
/// `BranchIfNonZero` that targets `j`.
spec fn bz_paired(ops: Seq<Op>, j: int) -> bool {
    j < ops[j].operand < ops.len() && ops[ops[j].operand as int] == (Op {
        kind: OpKind::BranchIfNonZero,
        operand: j as usize,
    })
}

/// A `BranchIfNonZero` at `j` targets an earlier `BranchIfZero` that targets
/// `j`.
spec fn bnz_paired(ops: Seq<Op>, j: int) -> bool {
    ops[j].operand < j && ops[ops[j].operand as int] == (Op {
        kind: OpKind::BranchIfZero,
        operand: j as usize,
    })
}

/// The scan's branches are paired, except the `[` still open, which sit on
/// the stack in increasing order with a zero placeholder target.
spec fn scan_paired(st: ScanState) -> bool {
    let ops = st.ops;
    let stack = st.stack;
    &&& forall|a: int, b: int| 0 <= a < b < stack.len() ==> stack[a] < stack[b]
    &&& forall|k: int|
        0 <= k < stack.len() ==> stack[k] < ops.len() && #[trigger] op_at(ops, stack[k] as int)
            == (Op { kind: OpKind::BranchIfZero, operand: 0 })
    &&& forall|j: int|
        0 <= j < ops.len() && (#[trigger] op_at(ops, j)).kind == OpKind::BranchIfZero
            && !stack.contains(j as usize) ==> bz_paired(ops, j)
    &&& forall|j: int|
        0 <= j < ops.len() && (#[trigger] op_at(ops, j)).kind == OpKind::BranchIfNonZero
            ==> bnz_paired(ops, j)
    &&& forall|a: int, c: int|
        0 <= a < c < ops.len() && (#[trigger] op_at(ops, a)).kind == OpKind::BranchIfZero
            && (#[trigger] op_at(ops, c)).kind == OpKind::BranchIfZero
            && !stack.contains(a as usize) && !stack.contains(c as usize)
            && c < ops[a].operand ==> ops[c].operand < ops[a].operand
    &&& forall|k: int, a: int|
        0 <= k < stack.len() && 0 <= a < ops.len() && (#[trigger] op_at(ops, a)).kind
            == OpKind::BranchIfZero && !stack.contains(a as usize) ==> #[trigger] stack[k] < a
            || ops[a].operand < stack[k]
}

/// Changing or appending instructions that are not branches keeps the
/// pairing.
proof fn lemma_paired_plain(st: ScanState, nops: Seq<Op>)
    requires
        scan_paired(st),
        nops.len() >= st.ops.len(),
        forall|j: int|
            0 <= j < st.ops.len() && (is_branch(st.ops[j].kind) || is_branch(nops[j].kind))
                ==> #[trigger] nops[j] == st.ops[j],
        forall|j: int| 0 <= j < nops.len() && is_branch((#[trigger] nops[j]).kind) ==> j < st.ops.len(),
    ensures
        scan_paired(ScanState { ops: nops, ..st }),
{
    let ops = st.ops;
    assert forall|k: int| 0 <= k < st.stack.len() implies st.stack[k] < nops.len()
        && #[trigger] op_at(nops, st.stack[k] as int) == (Op { kind: OpKind::BranchIfZero, operand: 0 }) by {
        assert(op_at(ops, st.stack[k] as int) == (Op { kind: OpKind::BranchIfZero, operand: 0 }));
        assert(nops[st.stack[k] as int] == ops[st.stack[k] as int]);
    }
    assert forall|j: int|
        0 <= j < nops.len() && (#[trigger] op_at(nops, j)).kind == OpKind::BranchIfZero
            && !st.stack.contains(j as usize) implies bz_paired(nops, j) by {
        assert(is_branch(nops[j].kind));
        assert(ops[j] == nops[j]);
        assert(op_at(ops, j) == ops[j]);
        let t = ops[j].operand as int;
        assert(nops[t] == ops[t]);
    }
    assert forall|j: int|
        0 <= j < nops.len() && (#[trigger] op_at(nops, j)).kind == OpKind::BranchIfNonZero
            implies bnz_paired(nops, j) by {
        assert(is_branch(nops[j].kind));
        assert(ops[j] == nops[j]);
        assert(op_at(ops, j) == ops[j]);
        let t = ops[j].operand as int;
        assert(nops[t] == ops[t]);
    }
    assert forall|a: int, c: int|
        0 <= a < c < nops.len() && (#[trigger] op_at(nops, a)).kind == OpKind::BranchIfZero
            && (#[trigger] op_at(nops, c)).kind == OpKind::BranchIfZero
            && !st.stack.contains(a as usize) && !st.stack.contains(c as usize)
            && c < nops[a].operand implies nops[c].operand < nops[a].operand by {
        assert(is_branch(nops[a].kind) && is_branch(nops[c].kind));
        assert(op_at(ops, a) == nops[a] && op_at(ops, c) == nops[c]);
    }
    assert forall|k: int, a: int|
        0 <= k < st.stack.len() && 0 <= a < nops.len() && (#[trigger] op_at(nops, a)).kind
            == OpKind::BranchIfZero && !st.stack.contains(a as usize) implies #[trigger] st.stack[k]
        < a || nops[a].operand < st.stack[k] by {
        assert(is_branch(nops[a].kind));
        assert(op_at(ops, a) == nops[a]);
    }
}

/// Opening a bracket keeps the pairing.
proof fn lemma_paired_open(st: ScanState)
    requires
        scan_paired(st),
        st.ops.len() <= usize::MAX,
    ensures
        scan_paired(ScanState {
            ops: st.ops.push(Op { kind: OpKind::BranchIfZero, operand: 0 }),
            stack: st.stack.push(st.ops.len() as usize),
            error: st.error,
        }),
{
    let ops = st.ops;
    let len = ops.len();
    let nops = st.ops.push(Op { kind: OpKind::BranchIfZero, operand: 0 });
    let nstack = st.stack.push(st.ops.len() as usize);
    assert forall|a: int, b: int| 0 <= a < b < nstack.len() implies nstack[a] < nstack[b] by {
        assert(nstack[a] == st.stack[a]);
        assert(op_at(ops, st.stack[a] as int) == (Op { kind: OpKind::BranchIfZero, operand: 0 }));
        if b < st.stack.len() {
            assert(nstack[b] == st.stack[b]);
        }
    }
    assert forall|k: int| 0 <= k < nstack.len() implies nstack[k] < nops.len()
        && #[trigger] op_at(nops, nstack[k] as int) == (Op { kind: OpKind::BranchIfZero, operand: 0 }) by {
        if k < st.stack.len() {
            assert(nstack[k] == st.stack[k]);
            assert(op_at(ops, st.stack[k] as int) == (Op { kind: OpKind::BranchIfZero, operand: 0 }));
        }
    }
    assert forall|j: int|
        0 <= j < nops.len() && (#[trigger] op_at(nops, j)).kind == OpKind::BranchIfZero
            && !nstack.contains(j as usize) implies bz_paired(nops, j) by {
        if j < len {
            if st.stack.contains(j as usize) {
                let k = choose|k: int| 0 <= k < st.stack.len() && st.stack[k] == j as usize;
                assert(nstack[k] == j as usize);
            }
            assert(op_at(ops, j) == ops[j]);
            let t = ops[j].operand as int;
            assert(nops[t] == ops[t]);
        } else {
            assert(nstack[nstack.len() - 1] == j as usize);
        }
    }
    assert forall|j: int|
        0 <= j < nops.len() && (#[trigger] op_at(nops, j)).kind == OpKind::BranchIfNonZero
            implies bnz_paired(nops, j) by {
        assert(j < len);
        assert(op_at(ops, j) == ops[j]);
        let t = ops[j].operand as int;
        assert(nops[t] == ops[t]);
    }
    assert forall|a: int, c: int|
        0 <= a < c < nops.len() && (#[trigger] op_at(nops, a)).kind == OpKind::BranchIfZero
            && (#[trigger] op_at(nops, c)).kind == OpKind::BranchIfZero
            && !nstack.contains(a as usize) && !nstack.contains(c as usize)
            && c < nops[a].operand implies nops[c].operand < nops[a].operand by {
        assert(nstack[nstack.len() - 1] == len as usize);
        assert(a < len && c < len);
        if st.stack.contains(a as usize) {
            let k = choose|k: int| 0 <= k < st.stack.len() && st.stack[k] == a as usize;
            assert(nstack[k] == a as usize);
        }
        if st.stack.contains(c as usize) {
            let k = choose|k: int| 0 <= k < st.stack.len() && st.stack[k] == c as usize;
            assert(nstack[k] == c as usize);
        }
        assert(op_at(ops, a) == nops[a] && op_at(ops, c) == nops[c]);
    }
    assert forall|k: int, a: int|
        0 <= k < nstack.len() && 0 <= a < nops.len() && (#[trigger] op_at(nops, a)).kind
            == OpKind::BranchIfZero && !nstack.contains(a as usize) implies #[trigger] nstack[k]
        < a || nops[a].operand < nstack[k] by {
        assert(nstack[nstack.len() - 1] == len as usize);
        assert(a < len);
        if st.stack.contains(a as usize) {
            let k2 = choose|k2: int| 0 <= k2 < st.stack.len() && st.stack[k2] == a as usize;
            assert(nstack[k2] == a as usize);
        }
        assert(op_at(ops, a) == nops[a]);
        assert(bz_paired(ops, a));
        if k < st.stack.len() {
            assert(nstack[k] == st.stack[k]);
        }
    }
}

/// Closing the innermost open bracket keeps the pairing.
proof fn lemma_paired_close(st: ScanState)
    requires
        scan_paired(st),
        st.stack.len() > 0,
        st.ops.len() < usize::MAX,
    ensures
        scan_paired(ScanState {
            ops: st.ops.update(
                st.stack.last() as int,
                Op { kind: OpKind::BranchIfZero, operand: st.ops.len() as usize },
            ).push(Op { kind: OpKind::BranchIfNonZero, operand: st.stack.last() }),
            stack: st.stack.drop_last(),
            error: st.error,
        }),
{
    let ops = st.ops;
    let len = ops.len();
    let open = st.stack.last();
    let top = st.stack.len() - 1;
    let nops = st.ops.update(
        st.stack.last() as int,
        Op { kind: OpKind::BranchIfZero, operand: st.ops.len() as usize },
    ).push(Op { kind: OpKind::BranchIfNonZero, operand: st.stack.last() });
    let nstack = st.stack.drop_last();
    assert(op_at(ops, st.stack[top] as int) == Op { kind: OpKind::BranchIfZero, operand: 0 });
    assert forall|k: int| 0 <= k < nstack.len() implies nstack[k] < nops.len()
        && #[trigger] op_at(nops, nstack[k] as int) == (Op { kind: OpKind::BranchIfZero, operand: 0 }) by {
        assert(st.stack[k] < st.stack[top]);
        assert(nstack[k] == st.stack[k]);
        assert(op_at(ops, st.stack[k] as int) == (Op { kind: OpKind::BranchIfZero, operand: 0 }));
    }
    assert forall|j: int|
        0 <= j < nops.len() && (#[trigger] op_at(nops, j)).kind == OpKind::BranchIfZero
            && !nstack.contains(j as usize) implies bz_paired(nops, j) by {
        if j != open as int {
            assert(j < len);
            assert(ops[j] == nops[j]);
            assert(op_at(ops, j) == ops[j]);
            if st.stack.contains(j as usize) {
                let k = choose|k: int| 0 <= k < st.stack.len() && st.stack[k] == j as usize;
                assert(k != top);
                assert(nstack[k] == j as usize);
            }
            let t = ops[j].operand as int;
            assert(ops[t].kind == OpKind::BranchIfNonZero);
            assert(t != open as int);
            assert(nops[t] == ops[t]);
        }
    }
    assert forall|j: int|
        0 <= j < nops.len() && (#[trigger] op_at(nops, j)).kind == OpKind::BranchIfNonZero
            implies bnz_paired(nops, j) by {
        if j < len {
            assert(ops[j] == nops[j]);
            assert(op_at(ops, j) == ops[j]);
            let t = ops[j].operand as int;
            assert(ops[t].operand == j as usize);
            assert(t != open as int);
            assert(nops[t] == ops[t]);
        }
    }
    assert forall|a: int, c: int|
        0 <= a < c < nops.len() && (#[trigger] op_at(nops, a)).kind == OpKind::BranchIfZero
            && (#[trigger] op_at(nops, c)).kind == OpKind::BranchIfZero
            && !nstack.contains(a as usize) && !nstack.contains(c as usize)
            && c < nops[a].operand implies nops[c].operand < nops[a].operand by {
        assert(a < len && c < len);
        if st.stack.contains(a as usize) && a != open as int {
            let k = choose|k: int| 0 <= k < st.stack.len() && st.stack[k] == a as usize;
            assert(k != top);
            assert(nstack[k] == a as usize);
        }
        if st.stack.contains(c as usize) && c != open as int {
            let k = choose|k: int| 0 <= k < st.stack.len() && st.stack[k] == c as usize;
            assert(k != top);
            assert(nstack[k] == c as usize);
        }
        if a == open as int {
            assert(op_at(ops, c) == nops[c]);
            assert(bz_paired(ops, c));
        } else if c == open as int {
            assert(op_at(ops, a) == nops[a]);
            assert(st.stack[top] < a || ops[a].operand < st.stack[top]);
        } else {
            assert(op_at(ops, a) == nops[a] && op_at(ops, c) == nops[c]);
        }
    }
    assert forall|k: int, a: int|
        0 <= k < nstack.len() && 0 <= a < nops.len() && (#[trigger] op_at(nops, a)).kind
            == OpKind::BranchIfZero && !nstack.contains(a as usize) implies #[trigger] nstack[k]
        < a || nops[a].operand < nstack[k] by {
        assert(nstack[k] == st.stack[k]);
        assert(st.stack[k] < st.stack[top]);
        if a != open as int {
            assert(a < len);
            if st.stack.contains(a as usize) {
                let k2 = choose|k2: int| 0 <= k2 < st.stack.len() && st.stack[k2] == a as usize;
                assert(k2 != top);
                assert(nstack[k2] == a as usize);
            }
            assert(op_at(ops, a) == nops[a]);
        }
    }
}

proof fn lemma_scan_paired(cfg: Config, s: Seq<char>, n: nat)
    requires
        n <= s.len() <= usize::MAX,
    ensures
        scan(cfg, s, n).error is None ==> scan_paired(scan(cfg, s, n)),
    decreases n,
{
    if n > 0 {
        let m = (n - 1) as nat;
        lemma_scan_paired(cfg, s, m);
        lemma_scan_bounded(cfg, s, m);
        let st = scan(cfg, s, m);
        let nx = scan(cfg, s, n);
        let c = s[m as int];
        if st.error is None && nx.error is None {
            if fold_kind(c) is Some || io_kind(cfg, c) is Some {
                lemma_paired_plain(st, nx.ops);
                assert(nx == ScanState { ops: nx.ops, ..st });
            } else if c == '[' {
                lemma_paired_open(st);
            } else if c == ']' {
                lemma_paired_close(st);
            }
        }
    }
}

/// In a compiled program every branch is paired with the branch of its
/// matching bracket.
pub proof fn lemma_branches_matched(cfg: Config, s: Seq<char>)
    requires
        s.len() <= usize::MAX,
        compile_result(cfg, s) is Ok,
    ensures
        branches_matched(compile_result(cfg, s)->Ok_0),
{
    lemma_scan_paired(cfg, s, s.len());
    let ops = scan(cfg, s, s.len()).ops;
    assert forall|j: int| 0 <= j < ops.len() && (#[trigger] ops[j]).kind == OpKind::BranchIfZero
        implies bz_paired(ops, j) by {
        assert(op_at(ops, j) == ops[j]);
    }
    assert forall|j: int| 0 <= j < ops.len() && (#[trigger] ops[j]).kind == OpKind::BranchIfNonZero
        implies bnz_paired(ops, j) by {
        assert(op_at(ops, j) == ops[j]);
    }
    assert forall|a: int, c: int|
        0 <= a < c < ops.len() && (#[trigger] ops[a]).kind == OpKind::BranchIfZero
            && (#[trigger] ops[c]).kind == OpKind::BranchIfZero && c < ops[a].operand
        implies ops[c].operand < ops[a].operand by {
        assert(op_at(ops, a) == ops[a] && op_at(ops, c) == ops[c]);
    }
}

/// The index of the instruction that the character at position `k` of `s`
/// starts: the length of the program compiled from the characters before it.
pub open spec fn instr_index(cfg: Config, s: Seq<char>, k: nat) -> int {
    scan(cfg, s, k).ops.len() as int
}

/// The `[` at position `o` and the `]` at position `c` are a matching pair:
/// the depth stays above that before the `[` strictly between them, and the
/// `]` brings it back.
pub open spec fn brackets_match(s: Seq<char>, o: nat, c: nat) -> bool {
    &&& o < c < s.len()
    &&& s[o as int] == '['
    &&& s[c as int] == ']'
    &&& depth(s, c + 1) == depth(s, o)
    &&& forall|m: nat| o < m <= c ==> #[trigger] depth(s, m) > depth(s, o)
}

proof fn lemma_ok_has_no_error(cfg: Config, s: Seq<char>, m: nat)
    requires
        m <= s.len(),
        compile_result(cfg, s) is Ok,
    ensures
        scan(cfg, s, m).error is None,
{
    if scan(cfg, s, m).error is Some {
        lemma_error_stays(cfg, s, m, s.len());
    }
}

/// Between a `[` and its matching `]`, the `[`'s instruction stays on the
/// stack at the depth it was opened at.
proof fn lemma_open_kept(cfg: Config, s: Seq<char>, o: nat, c: nat, m: nat)
    requires
        s.len() <= usize::MAX,
        compile_result(cfg, s) is Ok,
        brackets_match(s, o, c),
        o < m <= c,
    ensures
        scan(cfg, s, m).stack.len() == depth(s, m),
        depth(s, o) < depth(s, m),
        scan(cfg, s, m).stack[depth(s, o)] == instr_index(cfg, s, o) as usize,
    decreases m,
{
    lemma_ok_has_no_error(cfg, s, m);
    lemma_scan_depth(cfg, s, m);
    assert(depth(s, m) > depth(s, o));
    if m == o + 1 {
        lemma_ok_has_no_error(cfg, s, o);
        lemma_scan_depth(cfg, s, o);
    } else {
        let k = (m - 1) as nat;
        lemma_open_kept(cfg, s, o, c, k);
        lemma_ok_has_no_error(cfg, s, k);
    }
}

/// Once a closed pair of branches points at each other, later characters
/// leave both instructions as they are.
proof fn lemma_pair_kept(cfg: Config, s: Seq<char>, i: int, j: int, m: nat)
    requires
        s.len() <= usize::MAX,
        compile_result(cfg, s) is Ok,
        m <= s.len(),
        0 <= i < j < scan(cfg, s, m).ops.len(),
        scan(cfg, s, m).ops[i] == (Op { kind: OpKind::BranchIfZero, operand: j as usize }),
        scan(cfg, s, m).ops[j] == (Op { kind: OpKind::BranchIfNonZero, operand: i as usize }),
    ensures
        0 <= i < j < scan(cfg, s, s.len()).ops.len(),
        scan(cfg, s, s.len()).ops[i] == (Op { kind: OpKind::BranchIfZero, operand: j as usize }),
        scan(cfg, s, s.len()).ops[j] == (Op { kind: OpKind::BranchIfNonZero, operand: i as usize }),
    decreases s.len() - m,
{
    if m < s.len() {
        let st = scan(cfg, s, m);
        let nx = scan(cfg, s, m + 1);
        lemma_ok_has_no_error(cfg, s, m);
        lemma_ok_has_no_error(cfg, s, m + 1);
        lemma_scan_paired(cfg, s, m);
        lemma_scan_bounded(cfg, s, m);
        if s[m as int] == ']' {
            let top = st.stack.len() - 1;
            assert(op_at(st.ops, st.stack[top] as int) == (Op { kind: OpKind::BranchIfZero, operand: 0 }));
            assert(st.stack.last() as int != i);
            assert(st.stack.last() as int != j);
        }
        assert(nx.ops[i] == st.ops[i]);
        assert(nx.ops[j] == st.ops[j]);
        lemma_pair_kept(cfg, s, i, j, m + 1);
    }
}

/// In a compiled program, the instruction of each `[` and that of its
/// matching `]` point at each other: the `[` becomes a `BranchIfZero` that
/// targets the `]`'s instruction, and the `]` becomes a `BranchIfNonZero`
/// that targets the `[`'s instruction.
pub proof fn lemma_source_pairs_matched(cfg: Config, s: Seq<char>, o: nat, c: nat)
    requires
        s.len() <= usize::MAX,
        compile_result(cfg, s) is Ok,
        brackets_match(s, o, c),
    ensures
        ({
            let p = compile_result(cfg, s)->Ok_0;
            let i = instr_index(cfg, s, o);
            let j = instr_index(cfg, s, c);
            &&& 0 <= i < j < p.len()
            &&& p[i] == (Op { kind: OpKind::BranchIfZero, operand: j as usize })
            &&& p[j] == (Op { kind: OpKind::BranchIfNonZero, operand: i as usize })
        }),
{
    let i = instr_index(cfg, s, o);
    let j = instr_index(cfg, s, c);
    lemma_open_kept(cfg, s, o, c, c);
    lemma_ok_has_no_error(cfg, s, c);
    lemma_ok_has_no_error(cfg, s, c + 1);
    lemma_scan_depth(cfg, s, c + 1);
    lemma_scan_paired(cfg, s, c);
    lemma_scan_bounded(cfg, s, c);
    let st = scan(cfg, s, c);
    let top = st.stack.len() - 1;
    assert(top == depth(s, o));
    assert(st.stack[top] < st.ops.len());
    lemma_scan_bounded(cfg, s, o);
    assert(st.stack.last() as int == i);
    assert(i < j);
    let nx = scan(cfg, s, c + 1);
    assert(nx.ops[i] == (Op { kind: OpKind::BranchIfZero, operand: j as usize }));
    assert(nx.ops[j] == (Op { kind: OpKind::BranchIfNonZero, operand: i as usize }));
    lemma_pair_kept(cfg, s, i, j, c + 1);
}

} // verus!
