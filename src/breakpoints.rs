use vstd::prelude::*;

use std::collections::HashMap;

verus! {

broadcast use vstd::std_specs::hash::group_hash_axioms;

/// A breakpoint written into the inferior: its address and the byte that the trap replaced.
#[derive(Clone, Copy, Debug, PartialEq, Eq, Structural)]
pub struct Breakpoint {
    addr: usize,
    orig_byte: u8,
}

impl Breakpoint {
    pub closed spec fn addr_spec(&self) -> usize {
        self.addr
    }

    pub closed spec fn orig_byte_spec(&self) -> u8 {
        self.orig_byte
    }

    pub fn new(addr: usize, orig_byte: u8) -> (r: Breakpoint)
        ensures
            r.addr_spec() == addr,
            r.orig_byte_spec() == orig_byte,
    {
        Breakpoint { addr, orig_byte }
    }

    pub fn addr(&self) -> (r: usize)
        ensures
            r == self.addr_spec(),
    {
        self.addr
    }

    pub fn orig_byte(&self) -> (r: u8)
        ensures
            r == self.orig_byte_spec(),
    {
        self.orig_byte
    }
}

/// How a breakpoint location was written.
pub enum BreakpointArgType {
    Line(usize),
    FuncName(String),
    Addr(usize),
    Unknown,
}

/// Value of `c` as a digit in base `radix` (10 or 16; letters in either case).
pub open spec fn digit_value(c: char, radix: nat) -> Option<nat> {
    let u = c as u32;
    if 0x30 <= u <= 0x39 && u - 0x30 < radix {
        Some((u - 0x30) as nat)
    } else if radix == 16 && 0x61 <= u <= 0x66 {
        Some((u - 0x61 + 10) as nat)
    } else if radix == 16 && 0x41 <= u <= 0x46 {
        Some((u - 0x41 + 10) as nat)
    } else {
        None
    }
}

/// Value of a non-empty run of digits.
pub open spec fn digits_value(s: Seq<char>, radix: nat) -> Option<nat>
    decreases s.len(),
{
    if s.len() == 0 {
        None
    } else {
        match digit_value(s.last(), radix) {
            None => None,
            Some(d) => if s.len() == 1 {
                Some(d)
            } else {
                match digits_value(s.drop_last(), radix) {
                    Some(v) => Some(v * radix + d),
                    None => None,
                }
            },
        }
    }
}

/// What `usize::from_str_radix` accepts: an optional `+`, then digits, the value within range.
pub open spec fn parse_unsigned(s: Seq<char>, radix: nat) -> Option<usize> {
    let body = if s.len() > 0 && s[0] == '+' {
        s.drop_first()
    } else {
        s
    };
    match digits_value(body, radix) {
        Some(v) => if v <= usize::MAX {
            Some(v as usize)
        } else {
            None
        },
        None => None,
    }
}

/// The hexadecimal part of an address argument `*0x...`: without the star and the optional
/// `0x` (or `0X`).
pub open spec fn hex_body(s: Seq<char>) -> Seq<char> {
    let t = s.drop_first();
    if t.len() >= 2 && t[0] == '0' && (t[1] == 'x' || t[1] == 'X') {
        t.subrange(2, t.len() as int)
    } else {
        t
    }
}

fn digit(c: char, radix: u32) -> (r: Option<usize>)
    requires
        radix == 10 || radix == 16,
    ensures
        r matches Some(d) ==> digit_value(c, radix as nat) == Some(d as nat) && d < radix,
        r is None ==> digit_value(c, radix as nat) is None,
{
    let u = c as u32;
    if 0x30 <= u && u <= 0x39 && u - 0x30 < radix {
        Some((u - 0x30) as usize)
    } else if radix == 16 && 0x61 <= u && u <= 0x66 {
        Some((u - 0x61 + 10) as usize)
    } else if radix == 16 && 0x41 <= u && u <= 0x46 {
        Some((u - 0x41 + 10) as usize)
    } else {
        None
    }
}

proof fn lemma_digits_monotone(s: Seq<char>, radix: nat, v: nat)
    requires
        radix >= 1,
        s.len() > 1,
        digits_value(s, radix) == Some(v),
    ensures
        digits_value(s.drop_last(), radix) matches Some(w) && w <= v,
{
    let w = digits_value(s.drop_last(), radix)->0;
    let d = digit_value(s.last(), radix)->0;
    assert(w <= w * radix + d) by (nonlinear_arith)
        requires
            radix >= 1,
    ;
}

/// Parses `s[start..]` as digits in `radix`; `None` for no digits, a non-digit, or a value
/// above `usize::MAX`.
fn parse_digits_from(s: &str, start: usize, radix: u32) -> (r: Option<usize>)
    requires
        radix == 10 || radix == 16,
        start <= s@.len(),
    ensures
        r == match digits_value(s@.subrange(start as int, s@.len() as int), radix as nat) {
            Some(v) => if v <= usize::MAX {
                Some(v as usize)
            } else {
                None::<usize>
            },
            None => None::<usize>,
        },
{
    let n = s.unicode_len();
    if start >= n {
        return None;
    }
    let ghost body = s@.subrange(start as int, n as int);
    let mut value: usize = 0;
    let mut i: usize = start;
    while i < n
        invariant
            n == s@.len(),
            start < n,
            start <= i <= n,
            radix == 10 || radix == 16,
            body == s@.subrange(start as int, n as int),
            i == start || digits_value(s@.subrange(start as int, i as int), radix as nat) == Some(
                value as nat,
            ),
            i == start ==> value == 0,
        decreases n - i,
    {
        let ghost pre = s@.subrange(start as int, i as int);
        let ghost next = s@.subrange(start as int, i + 1 as int);
        assert(next.drop_last() =~= pre);
        assert(next.last() == s@[i as int]);
        let c = s.get_char(i);
        match digit(c, radix) {
            None => {
                proof {
                    lemma_prefix_fails(s@, start as int, i as int + 1, n as int, radix as nat);
                }
                return None;
            },
            Some(d) => {
                let scaled = value.checked_mul(radix as usize);
                let next_value = match scaled {
                    Some(m) => m.checked_add(d),
                    None => None,
                };
                match next_value {
                    Some(nv) => {
                        value = nv;
                    },
                    None => {
                        proof {
                            assert(i > start);
                            assert(digits_value(next, radix as nat) == Some(
                                (value * radix + d) as nat,
                            ));
                            lemma_prefix_overflows(
                                s@,
                                start as int,
                                i as int + 1,
                                n as int,
                                radix as nat,
                            );
                        }
                        return None;
                    },
                }
            },
        }
        i = i + 1;
    }
    assert(s@.subrange(start as int, i as int) =~= body);
    Some(value)
}

/// A prefix that is not all digits makes the whole run invalid.
proof fn lemma_prefix_fails(s: Seq<char>, start: int, k: int, n: int, radix: nat)
    requires
        0 <= start < k <= n == s.len(),
        digits_value(s.subrange(start, k), radix) is None,
    ensures
        digits_value(s.subrange(start, n), radix) is None,
    decreases n - k,
{
    if k < n {
        let t = s.subrange(start, k + 1);
        assert(t.drop_last() =~= s.subrange(start, k));
        lemma_prefix_fails(s, start, k + 1, n, radix);
    }
}

/// A prefix whose value is out of range makes the whole value out of range.
proof fn lemma_prefix_overflows(s: Seq<char>, start: int, k: int, n: int, radix: nat)
    requires
        0 <= start < k <= n == s.len(),
        radix >= 1,
        digits_value(s.subrange(start, k), radix) matches Some(v) && v > usize::MAX,
    ensures
        !(digits_value(s.subrange(start, n), radix) matches Some(v) && v <= usize::MAX),
    decreases n - k,
{
    if k < n {
        let t = s.subrange(start, k + 1);
        assert(t.drop_last() =~= s.subrange(start, k));
        match digits_value(t, radix) {
            Some(w) => {
                lemma_digits_monotone(t, radix, w);
                lemma_prefix_overflows(s, start, k + 1, n, radix);
            },
            None => {
                lemma_prefix_fails(s, start, k + 1, n, radix);
            },
        }
    }
}

/// `usize::from_str_radix(&s[start..], radix)`, read as a value or nothing.
pub(crate) fn parse_unsigned_from(s: &str, start: usize, radix: u32) -> (r: Option<usize>)
    requires
        radix == 10 || radix == 16,
        start <= s@.len(),
    ensures
        r == parse_unsigned(s@.subrange(start as int, s@.len() as int), radix as nat),
{
    let n = s.unicode_len();
    let ghost t = s@.subrange(start as int, n as int);
    if start < n && s.get_char(start) == '+' {
        assert(t.drop_first() =~= s@.subrange(start + 1, n as int));
        parse_digits_from(s, start + 1, radix)
    } else {
        parse_digits_from(s, start, radix)
    }
}

/// Bookkeeping of the breakpoints set so far, keyed by address. An entry without a
/// `Breakpoint` was requested before the inferior ran, so nothing has been written yet.
pub struct BreakpointManager {
    breakpoint_map: HashMap<usize, Option<Breakpoint>>,
    count: usize,
}

impl BreakpointManager {
    pub closed spec fn entries(&self) -> Map<usize, Option<Breakpoint>> {
        self.breakpoint_map@
    }

    /// Number of distinct breakpoints set so far; removals do not lower it.
    pub closed spec fn count_spec(&self) -> usize {
        self.count
    }

    pub fn new() -> (r: BreakpointManager)
        ensures
            r.entries() == Map::<usize, Option<Breakpoint>>::empty(),
            r.count_spec() == 0,
    {
        BreakpointManager { breakpoint_map: HashMap::new(), count: 0 }
    }

    /// Classifies a breakpoint argument: `*` and a hexadecimal address (optionally `0x`), a
    /// decimal line number, or else a function name.
    pub fn parse_breakpoint_arg(raw_addr: &str) -> (r: BreakpointArgType)
        ensures
            raw_addr@.len() > 0 && raw_addr@[0] == '*' ==> match r {
                BreakpointArgType::Addr(a) => parse_unsigned(hex_body(raw_addr@), 16) == Some(a),
                BreakpointArgType::Unknown => parse_unsigned(hex_body(raw_addr@), 16) is None,
                _ => false,
            },
            !(raw_addr@.len() > 0 && raw_addr@[0] == '*') ==> match r {
                BreakpointArgType::Line(l) => parse_unsigned(raw_addr@, 10) == Some(l),
                BreakpointArgType::FuncName(name) => parse_unsigned(raw_addr@, 10) is None
                    && name@ == raw_addr@,
                _ => false,
            },
    {
        let n = raw_addr.unicode_len();
        if n > 0 && raw_addr.get_char(0) == '*' {
            let ghost t = raw_addr@.drop_first();
            let start: usize = if n >= 3 && raw_addr.get_char(1) == '0' && (raw_addr.get_char(2)
                == 'x' || raw_addr.get_char(2) == 'X') {
                3
            } else {
                1
            };
            assert(raw_addr@.subrange(start as int, n as int) =~= hex_body(raw_addr@));
            return match parse_unsigned_from(raw_addr, start, 16) {
                Some(addr) => BreakpointArgType::Addr(addr),
                None => BreakpointArgType::Unknown,
            };
        }
        assert(raw_addr@.subrange(0, n as int) =~= raw_addr@);
        match parse_unsigned_from(raw_addr, 0, 10) {
            Some(line) => BreakpointArgType::Line(line),
            None => BreakpointArgType::FuncName(raw_addr.to_owned()),
        }
    }

    pub fn get_count(&self) -> (r: usize)
        ensures
            r == self.count_spec(),
    {
        self.count
    }

    /// The breakpoint written at `addr`, if one is.
    pub fn get(&mut self, addr: &usize) -> (r: Option<Breakpoint>)
        ensures
            *final(self) == *old(self),
            r == if old(self).entries().contains_key(*addr) {
                old(self).entries()[*addr]
            } else {
                None
            },
    {
        match self.breakpoint_map.get(addr) {
            Some(b) => *b,
            None => None,
        }
    }

    /// Records a breakpoint at `addr`. `orig_byte` is the byte that the trap replaced, or
    /// `None` when no inferior is running yet. Returns whether the address is new, which is
    /// when the count grows.
    pub fn set(&mut self, addr: usize, orig_byte: Option<u8>) -> (r: bool)
        requires
            old(self).count_spec() < usize::MAX,
        ensures
            final(self).entries() == old(self).entries().insert(addr, final(self).entries()[addr]),
            match final(self).entries()[addr] {
                Some(bp) => orig_byte == Some(bp.orig_byte_spec()) && bp.addr_spec() == addr,
                None => orig_byte is None,
            },
            r == !old(self).entries().contains_key(addr),
            final(self).count_spec() == if r {
                old(self).count_spec() + 1
            } else {
                old(self).count_spec() as int
            },
    {
        let breakpoint = match orig_byte {
            Some(b) => Some(Breakpoint { addr, orig_byte: b }),
            None => None,
        };
        if self.breakpoint_map.insert(addr, breakpoint).is_none() {
            self.count = self.count + 1;
            return true;
        }
        false
    }

    /// Forgets the breakpoint at `addr` and returns it, so that its byte can be restored.
    pub fn unset(&mut self, addr: &usize) -> (r: Option<Breakpoint>)
        ensures
            final(self).entries() == old(self).entries().remove(*addr),
            final(self).count_spec() == old(self).count_spec(),
            r == if old(self).entries().contains_key(*addr) {
                old(self).entries()[*addr]
            } else {
                None
            },
    {
        match self.breakpoint_map.remove(addr) {
            Some(b) => b,
            None => None,
        }
    }
}

} // verus!
