use crate::bytestr::{
    all_dec_digits, ascii_bytes, dec_value, lemma_dec_value_take_le, split_into_lines,
    split_lines, split_ws_tokens, starts_with, str_bytes, ws_tokens,
};
use vstd::prelude::*;

verus! {

/// Mirror of `i32` decimal parsing: an optional sign, then one or more
/// digits, rejecting values outside the `i32` range.
pub open spec fn spec_parse_i32(s: Seq<u8>) -> Option<i32> {
    let neg = s.len() > 0 && s[0] == 0x2d;
    let t = if s.len() > 0 && (s[0] == 0x2d || s[0] == 0x2b) {
        s.skip(1)
    } else {
        s
    };
    if t.len() > 0 && all_dec_digits(t) {
        let v = dec_value(t) as int;
        let sv = if neg {
            -v
        } else {
            v
        };
        if -0x8000_0000 <= sv <= 0x7fff_ffff {
            Some(sv as i32)
        } else {
            None
        }
    } else {
        None
    }
}

/// Parse a decimal `i32`, accepting an optional leading sign.
#[verifier::loop_isolation(false)]
pub fn parse_i32(s: &[u8]) -> (r: Option<i32>)
    ensures
        r == spec_parse_i32(s@),
{
    let n = s.len();
    let neg = n > 0 && s[0] == 0x2d;
    let start: usize = if n > 0 && (s[0] == 0x2d || s[0] == 0x2b) {
        1
    } else {
        0
    };
    let ghost t = if s@.len() > 0 && (s@[0] == 0x2d || s@[0] == 0x2b) {
        s@.skip(1)
    } else {
        s@
    };
    proof {
        assert(t =~= s@.subrange(start as int, n as int));
    }
    if start == n {
        return None;
    }
    let mut acc: u64 = 0;
    let mut i: usize = start;
    while i < n
        invariant
            start <= i <= n,
            start < n,
            t == s@.subrange(start as int, n as int),
            all_dec_digits(t.take(i - start)),
            acc == dec_value(t.take(i - start)),
            acc <= 0x8000_0000u64,
        decreases n - i,
    {
        let b = s[i];
        if !(0x30 <= b && b <= 0x39) {
            proof {
                assert(t[i - start] == s@[i as int]);
                assert(!all_dec_digits(t));
            }
            return None;
        }
        let d = (b - 0x30) as u64;
        let next = acc * 10 + d;
        proof {
            assert(t.take(i - start + 1).drop_last() =~= t.take(i - start));
            assert(t.take(i - start + 1).last() == t[i - start]);
            assert(t[i - start] == s@[i as int]);
        }
        if next > 0x8000_0000u64 {
            proof {
                assert(dec_value(t.take(i - start + 1)) > 0x8000_0000);
                if all_dec_digits(t) {
                    lemma_dec_value_take_le(t, i - start + 1);
                }
            }
            return None;
        }
        acc = next;
        i += 1;
    }
    proof {
        assert(t.take(n - start) =~= t);
    }
    if neg {
        if acc == 0x8000_0000u64 {
            Some(i32::MIN)
        } else {
            Some(-(acc as i32))
        }
    } else {
        if acc <= 0x7fff_ffffu64 {
            Some(acc as i32)
        } else {
            None
        }
    }
}

/// The tracer pid reported on one status line, if the line carries one: the
/// line starts with the tracer marker and its second token is a number.
pub open spec fn spec_tracer_pid_of_line(line: Seq<u8>) -> Option<i32> {
    if ascii_bytes("TracerPid:"@).is_prefix_of(line) {
        let toks = ws_tokens(line);
        if toks.len() > 1 {
            spec_parse_i32(toks[1])
        } else {
            None
        }
    } else {
        None
    }
}

/// One line reports an attached debugger: it carries a positive tracer pid.
pub open spec fn line_reports_debugger(line: Seq<u8>) -> bool {
    match spec_tracer_pid_of_line(line) {
        Some(p) => p > 0,
        None => false,
    }
}

/// The process status report shows an attached debugger on some line.
pub open spec fn spec_debugger_detected(content: Seq<u8>) -> bool {
    exists|i: int|
        0 <= i < split_lines(content).len() && line_reports_debugger(
            #[trigger] split_lines(content)[i],
        )
}

/// Decide from the bytes of a process status report whether a debugger is
/// attached: some line starts with the tracer marker and names a positive
/// tracer pid.
#[verifier::loop_isolation(false)]
pub fn debugger_detected(content: &[u8]) -> (r: bool)
    ensures
        r == spec_debugger_detected(content@),
{
    proof {
        reveal_strlit("TracerPid:");
    }
    let needle = str_bytes("TracerPid:");
    let lines = split_into_lines(content);
    let n = lines.len();
    let mut i: usize = 0;
    while i < n
        invariant
            n == lines@.len(),
            0 <= i <= n,
            forall|j: int|
                0 <= j < i ==> !line_reports_debugger(#[trigger] split_lines(content@)[j]),
        decreases n - i,
    {
        let line = &lines[i];
        proof {
            assert(lines.deep_view()[i as int] == lines@[i as int]@);
        }
        if starts_with(line.as_slice(), needle.as_slice()) {
            let toks = split_ws_tokens(line.as_slice());
            if toks.len() > 1 {
                proof {
                    assert(toks.deep_view()[1] == toks@[1]@);
                }
                match parse_i32(toks[1].as_slice()) {
                    Some(pid) => {
                        if pid > 0 {
                            return true;
                        }
                    },
                    None => {},
                }
            }
        }
        i += 1;
    }
    false
}

} // verus!
