//! The bracket matcher: finding the partner of a `[` or a `]` by counting
//! nesting depth over the flat program text.

use crate::machine::{Machine, VmError, VM};
use vstd::prelude::*;

verus! {

/// What one symbol adds to the nesting depth.
pub open spec fn bracket_weight(c: char) -> int {
    if c == '[' {
        1
    } else if c == ']' {
        -1
    } else {
        0
    }
}

/// The number of `[` minus the number of `]` among `p[from..to]`.
pub open spec fn net_depth(p: Seq<char>, from: int, to: int) -> int
    decreases to - from,
{
    if to <= from {
        0
    } else {
        net_depth(p, from, to - 1) + bracket_weight(p[to - 1])
    }
}

/// The nesting counter of a forward scan that started behind `ip` with
/// the counter at one, after it has looked at position `k`.
pub open spec fn forward_level(p: Seq<char>, ip: int, k: int) -> int {
    1 + net_depth(p, ip + 1, k + 1)
}

/// The nesting counter of a backward scan that started before `ip` with
/// the counter at one, after it has looked at position `k`.
pub open spec fn backward_level(p: Seq<char>, ip: int, k: int) -> int {
    1 - net_depth(p, k, ip)
}

/// `j` is where a forward scan from `ip` stops: the first position behind
/// `ip` at which the counter reaches zero.
pub open spec fn is_forward_match(p: Seq<char>, ip: int, j: int) -> bool {
    &&& 0 <= ip < j < p.len()
    &&& forward_level(p, ip, j) == 0
    &&& forall|k: int| ip < k < j ==> #[trigger] forward_level(p, ip, k) > 0
}

/// `j` is where a backward scan from `ip` stops: the last position before
/// `ip` at which the counter reaches zero.
pub open spec fn is_backward_match(p: Seq<char>, ip: int, j: int) -> bool {
    &&& 0 <= j < ip <= p.len()
    &&& backward_level(p, ip, j) == 0
    &&& forall|k: int| j < k < ip ==> #[trigger] backward_level(p, ip, k) > 0
}

/// Where a forward scan from `ip` stops, if it stops inside the program.
pub open spec fn forward_match(p: Seq<char>, ip: int) -> Option<int> {
    if exists|j: int| is_forward_match(p, ip, j) {
        Some(choose|j: int| is_forward_match(p, ip, j))
    } else {
        None
    }
}

/// Where a backward scan from `ip` stops, if it stops inside the program.
pub open spec fn backward_match(p: Seq<char>, ip: int) -> Option<int> {
    if exists|j: int| is_backward_match(p, ip, j) {
        Some(choose|j: int| is_backward_match(p, ip, j))
    } else {
        None
    }
}

/// What the matcher does at a loop opening: nothing when the current cell
/// is nonzero, else a jump to the partner.
pub open spec fn jump_forward(p: Seq<char>, m: Machine) -> Result<Machine, VmError> {
    match m.read() {
        Err(e) => Err(e),
        Ok(c) => if c != 0 {
            Ok(m)
        } else {
            match forward_match(p, m.instr_ptr) {
                Some(j) => Ok(m.at(j)),
                None => Err(VmError::ProgramBounds),
            }
        },
    }
}

/// What the matcher does at a loop closing: nothing when the current cell
/// is zero, else a jump to the partner.
pub open spec fn jump_backward(p: Seq<char>, m: Machine) -> Result<Machine, VmError> {
    match m.read() {
        Err(e) => Err(e),
        Ok(c) => if c == 0 {
            Ok(m)
        } else {
            match backward_match(p, m.instr_ptr) {
                Some(j) => Ok(m.at(j)),
                None => Err(VmError::ProgramBounds),
            }
        },
    }
}

/// The depth of a range is the sum of the depths of its two parts.
pub proof fn lemma_net_depth_split(p: Seq<char>, a: int, b: int, c: int)
    requires
        a <= b <= c,
    ensures
        net_depth(p, a, c) == net_depth(p, a, b) + net_depth(p, b, c),
    decreases c - b,
{
    if b < c {
        lemma_net_depth_split(p, a, b, c - 1);
    }
}

/// The depth of a range, taken from its first symbol.
pub proof fn lemma_net_depth_front(p: Seq<char>, a: int, c: int)
    requires
        a < c,
    ensures
        net_depth(p, a, c) == bracket_weight(p[a]) + net_depth(p, a + 1, c),
{
    lemma_net_depth_split(p, a, a + 1, c);
    assert(net_depth(p, a, a + 1) == net_depth(p, a, a) + bracket_weight(p[a]));
}

/// A forward scan stops at one place at most.
pub proof fn lemma_forward_match_unique(p: Seq<char>, ip: int, j: int)
    requires
        is_forward_match(p, ip, j),
    ensures
        forward_match(p, ip) == Some(j),
{
    let w = choose|w: int| is_forward_match(p, ip, w);
    if w < j {
        assert(forward_level(p, ip, w) > 0);
    } else if j < w {
        assert(forward_level(p, ip, j) > 0);
    }
}

/// A backward scan stops at one place at most.
pub proof fn lemma_backward_match_unique(p: Seq<char>, ip: int, j: int)
    requires
        is_backward_match(p, ip, j),
    ensures
        backward_match(p, ip) == Some(j),
{
    let w = choose|w: int| is_backward_match(p, ip, w);
    if w < j {
        assert(backward_level(p, ip, j) > 0);
    } else if j < w {
        assert(backward_level(p, ip, w) > 0);
    }
}

/// Where a forward scan stops, it stops inside the program and behind
/// the position it started from.
pub proof fn lemma_forward_match_found(p: Seq<char>, ip: int)
    ensures
        forward_match(p, ip) matches Some(j) ==> is_forward_match(p, ip, j),
{
}

/// Where a backward scan stops, it stops inside the program and before
/// the position it started from.
pub proof fn lemma_backward_match_found(p: Seq<char>, ip: int)
    ensures
        backward_match(p, ip) matches Some(j) ==> is_backward_match(p, ip, j),
{
}

/// The symbol at which a forward scan stops is a `]`.
pub proof fn lemma_forward_match_closes(p: Seq<char>, ip: int, j: int)
    requires
        is_forward_match(p, ip, j),
    ensures
        p[j] == ']',
{
    assert(forward_level(p, ip, j - 1) > 0);
}

/// The symbol at which a backward scan stops is a `[`.
pub proof fn lemma_backward_match_opens(p: Seq<char>, ip: int, j: int)
    requires
        is_backward_match(p, ip, j),
    ensures
        p[j] == '[',
{
    lemma_net_depth_front(p, j, ip);
    assert(backward_level(p, ip, j + 1) > 0);
}

/// The backward scan from the `]` at which the forward scan from a `[`
/// stops leads back to that `[`.
pub proof fn lemma_partner_of_opening_leads_back(p: Seq<char>, open: int, close: int)
    requires
        0 <= open < p.len(),
        p[open] == '[',
        is_forward_match(p, open, close),
    ensures
        p[close] == ']',
        is_backward_match(p, close, open),
{
    lemma_forward_match_closes(p, open, close);
    lemma_net_depth_front(p, open, close + 1);
    assert(net_depth(p, open, close) == 1);
    assert forall|k: int| open < k < close implies #[trigger] backward_level(p, close, k) > 0 by {
        lemma_net_depth_split(p, open, k, close);
        lemma_net_depth_front(p, open, k);
        if k - 1 > open {
            assert(forward_level(p, open, k - 1) > 0);
        } else {
            assert(net_depth(p, open + 1, open + 1) == 0);
        }
    }
}

/// The forward scan from the `[` at which the backward scan from a `]`
/// stops leads back to that `]`.
pub proof fn lemma_partner_of_closing_leads_back(p: Seq<char>, open: int, close: int)
    requires
        0 <= close < p.len(),
        p[close] == ']',
        is_backward_match(p, close, open),
    ensures
        p[open] == '[',
        is_forward_match(p, open, close),
{
    lemma_backward_match_opens(p, close, open);
    lemma_net_depth_front(p, open, close);
    assert forall|k: int| open < k < close implies #[trigger] forward_level(p, open, k) > 0 by {
        lemma_net_depth_split(p, open + 1, k + 1, close);
        if k + 1 < close {
            assert(backward_level(p, close, k + 1) > 0);
        }
    }
}

/// The brackets of `p` are balanced: as many `[` as `]`, and no prefix
/// with more `]` than `[`.
pub open spec fn balanced(p: Seq<char>) -> bool {
    &&& net_depth(p, 0, p.len() as int) == 0
    &&& forall|k: int| 0 <= k <= p.len() ==> #[trigger] net_depth(p, 0, k) >= 0
}

/// A forward scan whose counter is at zero or below at `hi` has stopped
/// at `hi` or before it.
proof fn lemma_forward_scan_stops(p: Seq<char>, ip: int, hi: int)
    requires
        0 <= ip < hi < p.len(),
        forward_level(p, ip, hi) <= 0,
    ensures
        exists|j: int| is_forward_match(p, ip, j),
    decreases hi - ip,
{
    if forall|k: int| ip < k < hi ==> #[trigger] forward_level(p, ip, k) > 0 {
        assert(forward_level(p, ip, hi - 1) > 0);
        assert(is_forward_match(p, ip, hi));
    } else {
        let k = choose|k: int| ip < k < hi && !(#[trigger] forward_level(p, ip, k) > 0);
        lemma_forward_scan_stops(p, ip, k);
    }
}

/// A backward scan whose counter is at zero or below at `lo` has stopped
/// at `lo` or behind it.
proof fn lemma_backward_scan_stops(p: Seq<char>, ip: int, lo: int)
    requires
        0 <= lo < ip <= p.len(),
        backward_level(p, ip, lo) <= 0,
    ensures
        exists|j: int| is_backward_match(p, ip, j),
    decreases ip - lo,
{
    if forall|k: int| lo < k < ip ==> #[trigger] backward_level(p, ip, k) > 0 {
        lemma_net_depth_front(p, lo, ip);
        assert(backward_level(p, ip, lo + 1) > 0);
        assert(is_backward_match(p, ip, lo));
    } else {
        let k = choose|k: int| lo < k < ip && !(#[trigger] backward_level(p, ip, k) > 0);
        lemma_backward_scan_stops(p, ip, k);
    }
}

/// In a balanced program the forward scan from any `[` stops inside the
/// program, at a `]`.
pub proof fn lemma_balanced_opening_has_partner(p: Seq<char>, ip: int)
    requires
        balanced(p),
        0 <= ip < p.len(),
        p[ip] == '[',
    ensures
        forward_match(p, ip) is Some,
        ip < forward_match(p, ip).unwrap() < p.len(),
        p[forward_match(p, ip).unwrap()] == ']',
{
    let len = p.len() as int;
    lemma_net_depth_split(p, 0, ip, len);
    lemma_net_depth_front(p, ip, len);
    assert(net_depth(p, 0, ip) >= 0);
    assert(forward_level(p, ip, len - 1) <= 0);
    lemma_forward_scan_stops(p, ip, len - 1);
    let j = choose|j: int| is_forward_match(p, ip, j);
    lemma_forward_match_closes(p, ip, j);
}

/// In a balanced program the backward scan from any `]` stops inside the
/// program, at a `[`.
pub proof fn lemma_balanced_closing_has_partner(p: Seq<char>, ip: int)
    requires
        balanced(p),
        0 <= ip < p.len(),
        p[ip] == ']',
    ensures
        backward_match(p, ip) is Some,
        0 <= backward_match(p, ip).unwrap() < ip,
        p[backward_match(p, ip).unwrap()] == '[',
{
    assert(net_depth(p, 0, ip + 1) >= 0);
    assert(net_depth(p, 0, ip) >= 0);
    assert(backward_level(p, ip, 0) <= 0);
    lemma_backward_scan_stops(p, ip, 0);
    let j = choose|j: int| is_backward_match(p, ip, j);
    lemma_backward_match_opens(p, ip, j);
}

/// The matcher at a loop opening.
///
/// With a nonzero current cell the machine is left alone: the loop body
/// is entered. With a zero cell the loop is skipped: the program is
/// scanned forward from behind the instruction pointer, the counter
/// starting at one, and the instruction pointer is set to the position at
/// which the counter first reaches zero. When the scan reaches the end of
/// the program first, or the data pointer is off the tape, the call fails
/// and the machine is left as it was.
pub fn loop_forwards(vm: &mut VM, instr: &str) -> (r: Result<(), VmError>)
    ensures
        match r {
            Ok(()) => jump_forward(instr@, old(vm)@) == Ok::<Machine, VmError>(final(vm)@),
            Err(e) => jump_forward(instr@, old(vm)@) == Err::<Machine, VmError>(e) && *final(vm)
                == *old(vm),
        },
{
    let cell: i8 = match vm.current() {
        Ok(c) => c,
        Err(e) => {
            return Err(e);
        },
    };
    if cell != 0 {
        return Ok(());
    }
    let len: usize = instr.unicode_len();
    let start: usize = vm.instr_ptr;
    if start >= len {
        return Err(VmError::ProgramBounds);
    }
    let mut pos: usize = start + 1;
    // One bit wider than a position, so that no program can overflow it.
    let mut match_level: u128 = 1;
    while pos < len
        invariant
            *vm == *old(vm),
            vm@.read() == Ok::<i8, VmError>(0i8),
            start == vm.instr_ptr,
            len == instr@.len(),
            start < pos <= len,
            1 <= match_level <= pos - start,
            match_level == forward_level(instr@, start as int, pos - 1),
            forall|k: int| start < k < pos ==> #[trigger] forward_level(instr@, start as int, k) > 0,
        decreases len - pos,
    {
        let c: char = instr.get_char(pos);
        if c == '[' {
            match_level = match_level + 1;
        } else if c == ']' {
            match_level = match_level - 1;
        }
        assert(match_level == forward_level(instr@, start as int, pos as int));
        if match_level == 0 {
            proof {
                lemma_forward_match_unique(instr@, start as int, pos as int);
            }
            vm.instr_ptr = pos;
            return Ok(());
        }
        pos = pos + 1;
    }
    Err(VmError::ProgramBounds)
}

/// The matcher at a loop closing.
///
/// With a zero current cell the machine is left alone: the loop is left.
/// With a nonzero cell the loop repeats: the program is scanned backward
/// from before the instruction pointer, the counter starting at one, and
/// the instruction pointer is set to the position at which the counter
/// first reaches zero. When the scan reaches the start of the program
/// first, or the data pointer is off the tape, the call fails and the
/// machine is left as it was.
pub fn loop_backwards(vm: &mut VM, instr: &str) -> (r: Result<(), VmError>)
    ensures
        match r {
            Ok(()) => jump_backward(instr@, old(vm)@) == Ok::<Machine, VmError>(final(vm)@),
            Err(e) => jump_backward(instr@, old(vm)@) == Err::<Machine, VmError>(e) && *final(vm)
                == *old(vm),
        },
{
    let cell: i8 = match vm.current() {
        Ok(c) => c,
        Err(e) => {
            return Err(e);
        },
    };
    if cell == 0 {
        return Ok(());
    }
    let len: usize = instr.unicode_len();
    let start: usize = vm.instr_ptr;
    if start > len {
        return Err(VmError::ProgramBounds);
    }
    let mut pos: usize = start;
    // One bit wider than a position, so that no program can overflow it.
    let mut match_level: u128 = 1;
    while pos > 0
        invariant
            *vm == *old(vm),
            vm@.read() == Ok::<i8, VmError>(cell),
            cell != 0,
            start == vm.instr_ptr,
            len == instr@.len(),
            pos <= start <= len,
            1 <= match_level <= start - pos + 1,
            match_level == backward_level(instr@, start as int, pos as int),
            forall|k: int| pos <= k < start ==> #[trigger] backward_level(instr@, start as int, k) > 0,
        decreases pos,
    {
        pos = pos - 1;
        let c: char = instr.get_char(pos);
        if c == '[' {
            match_level = match_level - 1;
        } else if c == ']' {
            match_level = match_level + 1;
        }
        proof {
            lemma_net_depth_front(instr@, pos as int, start as int);
        }
        if match_level == 0 {
            proof {
                lemma_backward_match_unique(instr@, start as int, pos as int);
            }
            vm.instr_ptr = pos;
            return Ok(());
        }
    }
    Err(VmError::ProgramBounds)
}

} // verus!
