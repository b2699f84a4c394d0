//! Compiling source bytes into a program: comments are dropped, runs of one
//! simple operator are folded into one counted instruction, and each bracket is
//! paired with its partner.
use vstd::prelude::*;
use crate::op::{
    Op, op_of, byte_of, payload, shape, is_simple_byte, is_command_byte, OPEN, CLOSE,
};

verus! {

/// Why a source does not compile.
#[derive(Clone, Copy, Debug, PartialEq, Eq, Structural)]
pub enum CompileError {
    /// A `]` without a `[` before it, or a `[` that is never closed.
    UnbalancedBrackets,
}

/// How many brackets are open after reading `s`: each `[` adds one, each `]`
/// takes one away.
pub open spec fn depth(s: Seq<u8>) -> int
    decreases s.len(),
{
    if s.len() == 0 {
        0
    } else {
        depth(s.drop_last()) + if s.last() == OPEN {
            1int
        } else if s.last() == CLOSE {
            -1int
        } else {
            0int
        }
    }
}

/// No prefix of `s` closes more brackets than it opened, and `s` closes all it opens.
pub open spec fn balanced(s: Seq<u8>) -> bool {
    &&& forall|k: int| 0 <= k <= s.len() ==> depth(#[trigger] s.take(k)) >= 0
    &&& depth(s) == 0
}

/// The instructions that `s` compiles to, with every bracket target left at zero.
///
/// A simple operator of the same kind as the instruction just before it adds one
/// to that instruction's count; otherwise it starts a new instruction with count
/// one. Each bracket is an instruction of its own, so it always ends a run.
pub open spec fn folded(s: Seq<u8>) -> Seq<Op>
    decreases s.len(),
{
    if s.len() == 0 {
        Seq::empty()
    } else {
        let prev = folded(s.drop_last());
        let c = s.last();
        if is_simple_byte(c) && prev.len() > 0 && byte_of(prev.last()) == c {
            prev.update(prev.len() - 1, op_of(c, (payload(prev.last()) + 1) as usize).unwrap())
        } else if is_simple_byte(c) {
            prev.push(op_of(c, 1).unwrap())
        } else if is_command_byte(c) {
            prev.push(op_of(c, 0).unwrap())
        } else {
            prev
        }
    }
}

/// The program with its bracket targets forgotten.
pub open spec fn shapes(p: Seq<Op>) -> Seq<Op> {
    p.map_values(|o: Op| shape(o))
}

/// Every bracket of `p` names its partner, each open comes before its close, and
/// two loops either nest or are disjoint.
pub open spec fn well_matched(p: Seq<Op>) -> bool {
    &&& forall|i: int|
        0 <= i < p.len() && (#[trigger] p[i]) is LoopOpen ==> {
            let j = payload(p[i]) as int;
            i < j < p.len() && p[j] == Op::LoopClose(i as usize)
        }
    &&& forall|i: int|
        0 <= i < p.len() && (#[trigger] p[i]) is LoopClose ==> {
            let j = payload(p[i]) as int;
            0 <= j < i && p[j] == Op::LoopOpen(i as usize)
        }
    &&& forall|i: int, k: int|
        #![trigger p[i], p[k]]
        0 <= i < k < p.len() && p[i] is LoopOpen && k < payload(p[i]) && p[k] is LoopOpen
            ==> payload(p[k]) < payload(p[i])
}

/// `p` is the program that source `s` compiles to.
pub open spec fn compiles_to(s: Seq<u8>, p: Seq<Op>) -> bool {
    &&& shapes(p) == folded(s)
    &&& well_matched(p)
}

/// The opens still waiting for a close sit in increasing order on `pending`,
/// each holding the placeholder target zero.
#[verifier::opaque]
spec fn pending_ok(p: Seq<Op>, pending: Seq<usize>) -> bool {
    &&& forall|a: int, b: int|
        0 <= a < b < pending.len() ==> #[trigger] pending[a] < #[trigger] pending[b]
    &&& forall|a: int|
        0 <= a < pending.len() ==> #[trigger] pending[a] < p.len() && p[pending[a] as int]
            == Op::LoopOpen(0)
}

/// What holds of a program under construction: closed opens and all closes are
/// paired as in a finished program, opens without a partner yet are pending, and
/// any open inside a closed loop is closed inside it.
#[verifier::opaque]
spec fn partial_ok(p: Seq<Op>, pending: Seq<usize>) -> bool {
    &&& forall|i: int|
        0 <= i < p.len() && (#[trigger] p[i]) is LoopOpen ==> if payload(p[i]) > i {
            payload(p[i]) < p.len() && p[payload(p[i]) as int] == Op::LoopClose(i as usize)
        } else {
            pending.contains(i as usize)
        }
    &&& forall|i: int|
        0 <= i < p.len() && (#[trigger] p[i]) is LoopClose ==> {
            let j = payload(p[i]) as int;
            0 <= j < i && p[j] == Op::LoopOpen(i as usize)
        }
    &&& forall|i: int, k: int|
        #![trigger p[i], p[k]]
        0 <= i < k < p.len() && p[i] is LoopOpen && i < payload(p[i]) && k < payload(p[i])
            && p[k] is LoopOpen ==> k < payload(p[k]) < payload(p[i])
}

/// No simple instruction counts more than `n` operators.
spec fn counts_within(p: Seq<Op>, n: int) -> bool {
    forall|i: int|
        0 <= i < p.len() && !((#[trigger] p[i]) is LoopOpen || p[i] is LoopClose)
            ==> payload(p[i]) <= n
}

/// The empty program with nothing pending meets the invariants.
proof fn lemma_start()
    ensures
        pending_ok(Seq::empty(), Seq::empty()),
        partial_ok(Seq::empty(), Seq::empty()),
{
    reveal(pending_ok);
    reveal(partial_ok);
}

/// With nothing pending, the invariants are those of a finished program.
proof fn lemma_finish(p: Seq<Op>, pending: Seq<usize>)
    requires
        partial_ok(p, pending),
        pending.len() == 0,
    ensures
        well_matched(p),
{
    reveal(partial_ok);
}

/// Pushing a new open onto both the program and the pending stack keeps the
/// invariants.
proof fn lemma_open_step(p: Seq<Op>, pending: Seq<usize>)
    requires
        pending_ok(p, pending),
        partial_ok(p, pending),
        p.len() < usize::MAX,
    ensures
        pending_ok(p.push(Op::LoopOpen(0)), pending.push(p.len() as usize)),
        partial_ok(p.push(Op::LoopOpen(0)), pending.push(p.len() as usize)),
{
    reveal(pending_ok);
    reveal(partial_ok);
    let q = p.push(Op::LoopOpen(0));
    let st = pending.push(p.len() as usize);
    assert(st[st.len() - 1] == p.len());
    assert forall|i: int| 0 <= i < q.len() && (#[trigger] q[i]) is LoopOpen && payload(q[i]) <= i
        implies st.contains(i as usize) by {
        if i < p.len() {
            assert(p[i] == q[i]);
            let a = choose|a: int| 0 <= a < pending.len() && pending[a] == i as usize;
            assert(st[a] == i as usize);
        } else {
            assert(st[st.len() - 1] == i as usize);
        }
    }
    assert forall|i: int, k: int|
        0 <= i < k < q.len() && (#[trigger] q[i]) is LoopOpen && i < payload(q[i]) && k < payload(q[i])
            && (#[trigger] q[k]) is LoopOpen implies k < payload(q[k]) < payload(q[i]) by {
        assert(q[i] == p[i]);
        assert(k < p.len());
        assert(q[k] == p[k]);
    }
}

/// Closing the innermost pending open at the end of the program keeps the
/// invariants, with that open taken off the pending stack.
proof fn lemma_close_step(p: Seq<Op>, pending: Seq<usize>)
    requires
        pending_ok(p, pending),
        partial_ok(p, pending),
        pending.len() > 0,
        p.len() < usize::MAX,
    ensures
        pending.last() < p.len(),
        p[pending.last() as int] == Op::LoopOpen(0),
        pending_ok(
            p.update(pending.last() as int, Op::LoopOpen(p.len() as usize)).push(
                Op::LoopClose(pending.last()),
            ),
            pending.drop_last(),
        ),
        partial_ok(
            p.update(pending.last() as int, Op::LoopOpen(p.len() as usize)).push(
                Op::LoopClose(pending.last()),
            ),
            pending.drop_last(),
        ),
{
    reveal(pending_ok);
    reveal(partial_ok);
    let t = pending.last() as int;
    let n = p.len() as int;
    let q = p.update(t, Op::LoopOpen(n as usize)).push(Op::LoopClose(t as usize));
    let st = pending.drop_last();
    assert(pending[pending.len() - 1] == t);
    assert(p[t] == Op::LoopOpen(0));
    assert(q[t] == Op::LoopOpen(n as usize));
    assert(q[n] == Op::LoopClose(t as usize));
    // every open after t is already closed
    assert forall|k: int| t < k < n && (#[trigger] p[k]) is LoopOpen implies k < payload(p[k]) < n by {
        if payload(p[k]) <= k {
            let a = choose|a: int| 0 <= a < pending.len() && pending[a] == k as usize;
            if a < pending.len() - 1 {
                assert(pending[a] < pending[pending.len() - 1]);
            }
        }
    }
    assert forall|a: int| 0 <= a < st.len() implies #[trigger] st[a] < q.len() && q[st[a] as int]
        == Op::LoopOpen(0) by {
        assert(st[a] == pending[a]);
        assert(pending[a] < pending[pending.len() - 1]);
    }
    assert forall|i: int| 0 <= i < q.len() && (#[trigger] q[i]) is LoopOpen implies if payload(q[i]) > i {
        payload(q[i]) < q.len() && q[payload(q[i]) as int] == Op::LoopClose(i as usize)
    } else {
        st.contains(i as usize)
    } by {
        if i != t {
            assert(q[i] == p[i]);
            if payload(p[i]) > i {
                assert(q[payload(p[i]) as int] == p[payload(p[i]) as int]);
            } else {
                let a = choose|a: int| 0 <= a < pending.len() && pending[a] == i as usize;
                assert(a != pending.len() - 1);
                assert(st[a] == i as usize);
            }
        }
    }
    assert forall|i: int| 0 <= i < q.len() && (#[trigger] q[i]) is LoopClose implies {
        let j = payload(q[i]) as int;
        0 <= j < i && q[j] == Op::LoopOpen(i as usize)
    } by {
        if i < n {
            assert(q[i] == p[i]);
            let j = payload(p[i]) as int;
            assert(j != t);
            assert(q[j] == p[j]);
        }
    }
    assert forall|i: int, k: int|
        0 <= i < k < q.len() && (#[trigger] q[i]) is LoopOpen && i < payload(q[i]) && k < payload(q[i])
            && (#[trigger] q[k]) is LoopOpen implies k < payload(q[k]) < payload(q[i]) by {
        if i == t {
            assert(q[k] == p[k]);
        } else {
            assert(q[i] == p[i]);
            assert(payload(p[i]) < n);
            if k == t {
                // t was pending, so it cannot lie inside a closed loop
                assert(p[k] is LoopOpen);
                assert(payload(p[k]) == 0);
            } else {
                assert(q[k] == p[k]);
            }
        }
    }
}

/// Adding or growing a simple instruction leaves every bracket where it was, and
/// so keeps the invariants.
proof fn lemma_simple_step(p: Seq<Op>, pending: Seq<usize>, q: Seq<Op>)
    requires
        pending_ok(p, pending),
        partial_ok(p, pending),
        q.len() == p.len() || q.len() == p.len() + 1,
        forall|x: int|
            0 <= x < q.len() && ((#[trigger] q[x]) is LoopOpen || q[x] is LoopClose) ==> x < p.len()
                && q[x] == p[x],
        forall|x: int|
            0 <= x < p.len() && ((#[trigger] p[x]) is LoopOpen || p[x] is LoopClose) ==> q[x]
                == p[x],
    ensures
        pending_ok(q, pending),
        partial_ok(q, pending),
{
    reveal(pending_ok);
    reveal(partial_ok);
    assert forall|i: int, k: int|
        0 <= i < k < q.len() && (#[trigger] q[i]) is LoopOpen && i < payload(q[i]) && k < payload(q[i])
            && (#[trigger] q[k]) is LoopOpen implies k < payload(q[k]) < payload(q[i]) by {
        assert(q[i] == p[i]);
        assert(q[k] == p[k]);
    }
    assert forall|i: int| 0 <= i < q.len() && (#[trigger] q[i]) is LoopClose implies {
        let j = payload(q[i]) as int;
        0 <= j < i && q[j] == Op::LoopOpen(i as usize)
    } by {
        assert(q[i] == p[i]);
        assert(q[payload(p[i]) as int] == p[payload(p[i]) as int]);
    }
    assert forall|i: int| 0 <= i < q.len() && (#[trigger] q[i]) is LoopOpen implies if payload(q[i]) > i {
        payload(q[i]) < q.len() && q[payload(q[i]) as int] == Op::LoopClose(i as usize)
    } else {
        pending.contains(i as usize)
    } by {
        assert(q[i] == p[i]);
        if payload(p[i]) > i {
            assert(q[payload(p[i]) as int] == p[payload(p[i]) as int]);
        }
    }
    assert forall|a: int| 0 <= a < pending.len() implies #[trigger] pending[a] < q.len() && q[pending[a] as int]
        == Op::LoopOpen(0) by {
        assert(p[pending[a] as int] is LoopOpen);
    }
}

/// Compiles source bytes into a program.
///
/// Succeeds exactly when the brackets of `data` balance; the program is then the
/// folded instruction list of `data` with every bracket pointing at its partner.
pub fn extract_operators(data: &[u8]) -> (r: Result<Vec<Op>, CompileError>)
    ensures
        r is Ok <==> balanced(data@),
        r matches Ok(ops) ==> compiles_to(data@, ops@),
        r matches Err(e) ==> e == CompileError::UnbalancedBrackets,
{
    let mut ops: Vec<Op> = Vec::new();
    let mut pending: Vec<usize> = Vec::new();
    let mut i: usize = 0;
    assert(data@.take(0) =~= Seq::<u8>::empty());
    assert(shapes(ops@) =~= Seq::<Op>::empty());
    proof {
        lemma_start();
    }
    while i < data.len()
        invariant
            i <= data@.len(),
            ops@.len() <= i,
            shapes(ops@) == folded(data@.take(i as int)),
            pending@.len() == depth(data@.take(i as int)),
            forall|k: int| 0 <= k <= i ==> depth(#[trigger] data@.take(k)) >= 0,
            pending_ok(ops@, pending@),
            partial_ok(ops@, pending@),
            counts_within(ops@, i as int),
        decreases data@.len() - i,
    {
        let c = data[i];
        let ghost before = ops@;
        let ghost seen = data@.take(i as int);
        let ghost next = data@.take(i + 1);
        assert(next.drop_last() =~= seen);
        assert(next.last() == c);
        if c == OPEN {
            let n = ops.len();
            proof {
                lemma_open_step(ops@, pending@);
            }
            pending.push(n);
            ops.push(Op::LoopOpen(0));
            assert(pending@[pending@.len() - 1] == n);
            assert(shapes(ops@) =~= shapes(before).push(Op::LoopOpen(0)));
        } else if c == CLOSE {
            if pending.len() == 0 {
                assert(depth(next) == -1);
                return Err(CompileError::UnbalancedBrackets);
            }
            proof {
                lemma_close_step(ops@, pending@);
            }
            let p = pending.pop().unwrap();
            let n = ops.len();
            ops.set(p, Op::LoopOpen(n));
            ops.push(Op::LoopClose(p));
            assert(shapes(ops@) =~= shapes(before).push(Op::LoopClose(0))) by {
                assert(shapes(before)[p as int] == Op::LoopOpen(0));
            }
        } else if is_simple_byte_exec(c) {
            let n = ops.len();
            if n > 0 && ops[n - 1].source_byte() == c {
                let count = ops[n - 1].value();
                ops.set(n - 1, Op::from_byte(c, count + 1).unwrap());
                proof {
                    lemma_simple_step(before, pending@, ops@);
                }
                assert(shapes(ops@) =~= shapes(before).update(n - 1, op_of(c, (count + 1) as usize).unwrap()));
            } else {
                ops.push(Op::from_byte(c, 1).unwrap());
                proof {
                    lemma_simple_step(before, pending@, ops@);
                }
                assert(shapes(ops@) =~= shapes(before).push(op_of(c, 1).unwrap()));
            }
        }
        i = i + 1;
    }
    assert(data@.take(data@.len() as int) =~= data@);
    if pending.len() > 0 {
        return Err(CompileError::UnbalancedBrackets);
    }
    proof {
        lemma_finish(ops@, pending@);
    }
    Ok(ops)
}

/// Whether `c` is the source byte of a simple instruction.
fn is_simple_byte_exec(c: u8) -> (r: bool)
    ensures
        r == is_simple_byte(c),
{
    match Op::from_byte(c, 1) {
        Some(Op::LoopOpen(_)) | Some(Op::LoopClose(_)) | None => false,
        Some(_) => true,
    }
}

} // verus!

verus! {

/// Two programs with the same shapes agree, at each index, on the kind of
/// instruction, and on the whole instruction where it is not a bracket.
proof fn lemma_shape_at(p1: Seq<Op>, p2: Seq<Op>, x: int)
    requires
        shapes(p1) == shapes(p2),
        0 <= x < p1.len(),
    ensures
        p1.len() == p2.len(),
        p1[x] is LoopOpen <==> p2[x] is LoopOpen,
        p1[x] is LoopClose <==> p2[x] is LoopClose,
        !(p1[x] is LoopOpen || p1[x] is LoopClose) ==> p1[x] == p2[x],
{
    assert(shapes(p1).len() == p1.len());
    assert(shapes(p2).len() == p2.len());
    assert(shapes(p1)[x] == shape(p1[x]));
    assert(shapes(p2)[x] == shape(p2[x]));
}

/// `well_matched`, kept folded so that its quantifiers stay out of the way
/// until one of the lemmas below unfolds them for a single index.
#[verifier::opaque]
spec fn matched(p: Seq<Op>) -> bool {
    well_matched(p)
}

/// The partner of an open in a well-matched program.
proof fn lemma_open_partner(p: Seq<Op>, i: int)
    requires
        matched(p),
        0 <= i < p.len(),
        p[i] is LoopOpen,
    ensures
        i < payload(p[i]) < p.len(),
        p[payload(p[i]) as int] == Op::LoopClose(i as usize),
{
    reveal(matched);
}

/// The partner of a close in a well-matched program.
proof fn lemma_close_partner(p: Seq<Op>, i: int)
    requires
        matched(p),
        0 <= i < p.len(),
        p[i] is LoopClose,
    ensures
        payload(p[i]) < i,
        p[payload(p[i]) as int] == Op::LoopOpen(i as usize),
{
    reveal(matched);
}

/// An open inside a loop of a well-matched program closes inside it.
proof fn lemma_nested(p: Seq<Op>, i: int, k: int)
    requires
        matched(p),
        0 <= i < k < p.len(),
        p[i] is LoopOpen,
        p[k] is LoopOpen,
        k < payload(p[i]),
    ensures
        payload(p[k]) < payload(p[i]),
{
    reveal(matched);
    assert(p[i] is LoopOpen && p[k] is LoopOpen);
}

/// In two well-matched programs of the same shapes, an open has the same
/// partner in both.
proof fn lemma_same_partner(p1: Seq<Op>, p2: Seq<Op>, i: int)
    requires
        matched(p1),
        matched(p2),
        shapes(p1) == shapes(p2),
        0 <= i < p1.len(),
        p1[i] is LoopOpen,
    ensures
        p2[i] == p1[i],
    decreases payload(p1[i]) - i,
{
    lemma_shape_at(p1, p2, i);
    lemma_open_partner(p1, i);
    lemma_open_partner(p2, i);
    let j1 = payload(p1[i]) as int;
    let j2 = payload(p2[i]) as int;
    if j2 < j1 {
        lemma_shape_at(p1, p2, j2);
        lemma_close_partner(p1, j2);
        let t = payload(p1[j2]) as int;
        if t < i {
            lemma_nested(p1, t, i);
        } else {
            lemma_open_partner(p1, t);
            lemma_same_partner(p1, p2, t);
            lemma_open_partner(p2, t);
        }
    } else if j2 > j1 {
        lemma_shape_at(p1, p2, j1);
        lemma_close_partner(p2, j1);
        let t = payload(p2[j1]) as int;
        lemma_shape_at(p1, p2, t);
        if t < i {
            lemma_nested(p2, t, i);
        } else {
            lemma_nested(p1, i, t);
            lemma_open_partner(p1, t);
            lemma_same_partner(p1, p2, t);
        }
    }
}

/// Compiling is deterministic: a source compiles to at most one program, so
/// compiling the same bytes twice gives the same instructions and targets.
pub proof fn lemma_compile_deterministic(s: Seq<u8>, p1: Seq<Op>, p2: Seq<Op>)
    requires
        compiles_to(s, p1),
        compiles_to(s, p2),
    ensures
        p1 == p2,
{
    reveal(matched);
    assert(shapes(p1).len() == p1.len());
    assert(shapes(p2).len() == p2.len());
    assert forall|x: int| 0 <= x < p1.len() implies p1[x] == p2[x] by {
        lemma_shape_at(p1, p2, x);
        if p1[x] is LoopOpen {
            lemma_same_partner(p1, p2, x);
        } else if p1[x] is LoopClose {
            let t = payload(p1[x]) as int;
            assert(p1[t] == Op::LoopOpen(x as usize));
            lemma_same_partner(p1, p2, t);
            lemma_shape_at(p1, p2, x);
            let u = payload(p2[x]) as int;
            assert(p2[u] == Op::LoopOpen(x as usize));
            lemma_shape_at(p1, p2, u);
            lemma_same_partner(p1, p2, u);
        }
    }
    assert(p1 =~= p2);
}

} // verus!
