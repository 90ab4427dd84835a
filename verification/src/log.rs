use vstd::prelude::*;
use vstd::string::StringSliceAdditionalSpecFns;
use vstd::arithmetic::power2::pow2;
use vstd::bits::lemma_usize_shr_is_div;

verus! {

/// Severity of a log message, from least to most severe.
#[derive(Clone, Copy, Debug, PartialEq, Eq, Structural)]
pub enum LogLevel {
    Debug,
    Info,
    Warn,
    Error,
}

/// The rank of `l`: `Debug` 0, `Info` 1, `Warn` 2, `Error` 3.
pub open spec fn rank(l: LogLevel) -> u8 {
    match l {
        LogLevel::Debug => 0,
        LogLevel::Info => 1,
        LogLevel::Warn => 2,
        LogLevel::Error => 3,
    }
}

/// The rank of `l`, as the byte a level is stored as.
pub fn level_rank(l: LogLevel) -> (r: u8)
    ensures
        r == rank(l),
{
    match l {
        LogLevel::Debug => 0,
        LogLevel::Info => 1,
        LogLevel::Warn => 2,
        LogLevel::Error => 3,
    }
}

/// Somewhere log text goes.
pub trait Logger {
    /// Writes `s`.
    fn log(&self, s: &str);

    /// Whether messages of `level` are written; all are unless a logger
    /// says otherwise.
    fn enabled(&self, level: LogLevel) -> (r: bool)
        default_ensures
            r,
    {
        true
    }
}

/// Whether the kernel's logger was switched on, and the least severe level
/// it writes.
pub struct LogState {
    pub initialised: bool,
    pub min_level: LogLevel,
}

/// Logging before `init_logging`: off, writing `Info` and above.
pub fn new_log_state() -> (s: LogState)
    ensures
        !s.initialised,
        s.min_level == LogLevel::Info,
{
    LogState { initialised: false, min_level: LogLevel::Info }
}

/// Switches logging on.
pub fn init_logging(s: &mut LogState)
    ensures
        final(s).initialised,
        final(s).min_level == old(s).min_level,
{
    s.initialised = true;
}

/// From now on only messages of `level` or above are written.
pub fn set_min_log_level(s: &mut LogState, level: LogLevel)
    ensures
        final(s).min_level == level,
        final(s).initialised == old(s).initialised,
{
    s.min_level = level;
}

/// Whether a message of `level` is written.
pub fn log_enabled(s: &LogState, level: LogLevel) -> (r: bool)
    ensures
        r == (rank(level) >= rank(s.min_level)),
{
    level_rank(level) >= level_rank(s.min_level)
}

/// Raising the least level written never lets more messages through.
pub proof fn lemma_min_level_monotone(level: LogLevel, m1: LogLevel, m2: LogLevel)
    requires
        rank(m1) <= rank(m2),
    ensures
        rank(level) >= rank(m2) ==> rank(level) >= rank(m1),
{
}

/// The PL011 UART the kernel logs to.
pub struct UartLogger;

/// Offset of the UART's data register.
pub const UART_DR: u64 = 0x00;
/// Offset of the UART's flag register.
pub const UART_FR: u64 = 0x18;

/// What the UART sends for `s`: every `\n` preceded by `\r`.
pub open spec fn uart_text(s: Seq<u8>) -> Seq<u8>
    decreases s.len(),
{
    if s.len() == 0 {
        Seq::empty()
    } else {
        let rest = uart_text(s.drop_last());
        if s.last() == 0x0Au8 { rest + seq![0x0Du8, 0x0Au8] } else { rest.push(s.last()) }
    }
}

/// Number of `\n` bytes in `s`.
pub open spec fn newlines(s: Seq<u8>) -> int
    decreases s.len(),
{
    if s.len() == 0 { 0 } else { newlines(s.drop_last()) + if s.last() == 0x0Au8 { 1int } else { 0int } }
}

/// The UART text of `s` is `s` with one more byte per newline.
pub proof fn lemma_uart_text_len(s: Seq<u8>)
    ensures
        uart_text(s).len() == s.len() + newlines(s),
    decreases s.len(),
{
    if s.len() > 0 {
        lemma_uart_text_len(s.drop_last());
    }
}

/// Byte `j` of `s` goes out at `j` plus the number of newlines before it:
/// a newline as `\r` then `\n`, any other byte as itself.
pub proof fn lemma_uart_text_bytes(s: Seq<u8>)
    ensures
        uart_text(s).len() == s.len() + newlines(s),
        forall|j: int| 0 <= j < s.len() ==> {
            let q = j + newlines(#[trigger] s.take(j));
            if s[j] == 0x0Au8 {
                uart_text(s)[q] == 0x0Du8 && uart_text(s)[q + 1] == 0x0Au8
            } else {
                uart_text(s)[q] == s[j]
            }
        },
    decreases s.len(),
{
    lemma_uart_text_len(s);
    if s.len() > 0 {
        let t = s.drop_last();
        lemma_uart_text_bytes(t);
        lemma_uart_text_len(t);
        let n = s.len() - 1;
        assert(s.take(n) =~= t);
        assert forall|j: int| 0 <= j < s.len() implies {
            let q = j + newlines(#[trigger] s.take(j));
            if s[j] == 0x0Au8 {
                uart_text(s)[q] == 0x0Du8 && uart_text(s)[q + 1] == 0x0Au8
            } else {
                uart_text(s)[q] == s[j]
            }
        } by {
            let u = uart_text(t);
            let tail: Seq<u8> = if s.last() == 0x0Au8 { seq![0x0Du8, 0x0Au8] } else { seq![s.last()] };
            assert(uart_text(s) =~= u + tail) by {
                if s.last() != 0x0Au8 {
                    assert(u.push(s.last()) =~= u + tail);
                }
            }
            if j < n {
                assert(s.take(j) =~= t.take(j));
                lemma_newlines_take(t, j);
                assert(s[j] == t[j]);
                let q = j + newlines(t.take(j));
                lemma_newlines_nonneg(t.take(j));
                assert(q < u.len());
                assert((u + tail)[q] == u[q]);
                if t[j] == 0x0Au8 {
                    assert(q + 1 < u.len());
                    assert((u + tail)[q + 1] == u[q + 1]);
                }
            } else {
                assert(j == n);
                assert(s[j] == s.last());
                assert(u.len() == n + newlines(t));
            }
        }
    }
}

proof fn lemma_newlines_nonneg(s: Seq<u8>)
    ensures
        newlines(s) >= 0,
    decreases s.len(),
{
    if s.len() > 0 {
        lemma_newlines_nonneg(s.drop_last());
    }
}

proof fn lemma_newlines_take(s: Seq<u8>, j: int)
    requires
        0 <= j <= s.len(),
    ensures
        newlines(s.take(j)) <= newlines(s),
        j + newlines(s.take(j)) <= s.len() + newlines(s),
        j < s.len() ==> j + newlines(s.take(j)) + (if s[j] == 0x0Au8 { 2int } else { 1int }) <= s.len() + newlines(s),
    decreases s.len(),
{
    if j < s.len() {
        let t = s.drop_last();
        if j < t.len() {
            lemma_newlines_take(t, j);
            assert(s.take(j) =~= t.take(j));
            assert(s[j] == t[j]);
        } else {
            assert(s.take(j) =~= t);
        }
    } else {
        assert(s.take(j) =~= s);
    }
}

impl UartLogger {
    /// The byte to write to the data register once the flag register reads
    /// `fr`, or `None` while the transmit FIFO is full (bit 5).
    pub fn putc(fr: u32, c: u8) -> (r: Option<u32>)
        ensures
            r == if fr & 0x20 != 0 { None } else { Some(c as u32) },
    {
        assert(1u32 << 5u32 == 0x20) by (bit_vector);
        if (fr & (1u32 << 5u32)) != 0 {
            None
        } else {
            Some(c as u32)
        }
    }

    /// The byte received, from the data register `dr`, once the flag
    /// register reads `fr`, or `None` while the receive FIFO is empty
    /// (bit 4).
    pub fn getc(fr: u32, dr: u32) -> (r: Option<u8>)
        ensures
            r == if fr & 0x10 != 0 { None } else { Some((dr & 0xFF) as u8) },
    {
        assert(1u32 << 4u32 == 0x10) by (bit_vector);
        if (fr & (1u32 << 4u32)) != 0 {
            None
        } else {
            Some((dr & 0xFF) as u8)
        }
    }

    /// The bytes the UART sends for `s`, in order.
    pub fn puts(s: &str) -> (r: Vec<u8>)
        ensures
            r@ == uart_text(s.spec_bytes()),
    {
        let b = s.as_bytes();
        let mut out: Vec<u8> = Vec::new();
        let mut i: usize = 0;
        while i < b.len()
            invariant
                i <= b@.len(),
                b@ == s.spec_bytes(),
                out@ == uart_text(b@.subrange(0, i as int)),
            decreases b@.len() - i,
        {
            let c = b[i];
            proof {
                assert(b@.subrange(0, i + 1).drop_last() =~= b@.subrange(0, i as int));
            }
            if c == 0x0A {
                out.push(0x0D);
            }
            out.push(c);
            i = i + 1;
            proof {
                assert(out@ =~= uart_text(b@.subrange(0, i as int)));
            }
        }
        assert(b@.subrange(0, b@.len() as int) =~= b@);
        out
    }
}

/// A number shown in binary, most significant digit first, with `_`
/// between groups of digits.
pub struct GroupedBin {
    pub value: usize,
    pub width: usize,
    pub group: usize,
}

/// The text of `width` binary digits of `value` after `k` digits are out:
/// digit `i` (counted from the least significant) is preceded by `_` when a
/// group of `group` digits ends just above it.
pub open spec fn bin_text(value: usize, width: int, group: int, k: int) -> Seq<u8>
    decreases k,
{
    if k <= 0 {
        Seq::empty()
    } else {
        let i = width - k;
        let prev = bin_text(value, width, group, k - 1);
        let sep = if i != width - 1 && (i + 1) % group == 0 { seq![0x5Fu8] } else { Seq::empty() };
        let digit = if (value >> (i as usize)) & 1 == 1 { 0x31u8 } else { 0x30u8 };
        prev + sep + seq![digit]
    }
}

/// Number of `_` among the first `k` digits.
pub open spec fn bin_seps(width: int, group: int, k: int) -> int
    decreases k,
{
    if k <= 0 {
        0
    } else {
        let i = width - k;
        bin_seps(width, group, k - 1) + if i != width - 1 && (i + 1) % group == 0 { 1int } else { 0int }
    }
}

/// The text is one character per digit plus one per separator.
pub proof fn lemma_bin_text_len(value: usize, width: int, group: int, k: int)
    requires
        0 <= k,
    ensures
        bin_text(value, width, group, k).len() == k + bin_seps(width, group, k),
    decreases k,
{
    if k > 0 {
        lemma_bin_text_len(value, width, group, k - 1);
    }
}

/// `s` with every `_` left out.
pub open spec fn without_seps(s: Seq<u8>) -> Seq<u8>
    decreases s.len(),
{
    if s.len() == 0 {
        Seq::empty()
    } else {
        let rest = without_seps(s.drop_last());
        if s.last() == 0x5Fu8 { rest } else { rest.push(s.last()) }
    }
}

/// The binary digit (`0` or `1`) of weight `2^i` in `value`.
pub open spec fn bit_digit(value: usize, i: int) -> u8 {
    if (value as nat / pow2(i as nat)) % 2 == 1 { 0x31u8 } else { 0x30u8 }
}

proof fn lemma_without_seps_push(s: Seq<u8>, c: u8)
    ensures
        without_seps(s.push(c)) == if c == 0x5Fu8 { without_seps(s) } else { without_seps(s).push(c) },
{
    assert(s.push(c).drop_last() =~= s);
}

/// Read without its `_` separators, the text of `k` digits of a
/// `width`-digit number is the `k` most significant digits of `value`, the
/// digit of weight `2^i` standing `width - 1 - i` places from the left.
pub proof fn lemma_bin_text_digits(value: usize, width: int, group: int, k: int)
    requires
        0 <= k <= width,
        width <= usize::BITS,
    ensures
        without_seps(bin_text(value, width, group, k)) == Seq::new(k as nat, |j: int| bit_digit(value, width - 1 - j)),
    decreases k,
{
    if k > 0 {
        lemma_bin_text_digits(value, width, group, k - 1);
        let i = width - k;
        let prev = bin_text(value, width, group, k - 1);
        let sep: Seq<u8> = if i != width - 1 && (i + 1) % group == 0 { seq![0x5Fu8] } else { Seq::empty() };
        let digit = if (value >> (i as usize)) & 1 == 1 { 0x31u8 } else { 0x30u8 };
        assert(bin_text(value, width, group, k) == (prev + sep).push(digit)) by {
            assert(prev + sep + seq![digit] =~= (prev + sep).push(digit));
        }
        assert(without_seps(prev + sep) == without_seps(prev)) by {
            if sep.len() == 1 {
                assert(prev + sep =~= prev.push(0x5Fu8));
                lemma_without_seps_push(prev, 0x5Fu8);
            } else {
                assert(prev + sep =~= prev);
            }
        }
        lemma_without_seps_push(prev + sep, digit);
        let x: usize = value >> (i as usize);
        lemma_usize_shr_is_div(value, i as usize);
        assert(x & 1 == x % 2) by (bit_vector);
        assert(digit == bit_digit(value, i));
        assert(without_seps(bin_text(value, width, group, k)) =~= Seq::new(k as nat, |j: int| bit_digit(value, width - 1 - j)));
    }
}

/// How many multiples of `g` lie in `[lo, hi)`.
pub open spec fn multiples_in(lo: int, hi: int, g: int) -> int
    decreases hi - lo,
{
    if lo >= hi { 0 } else { multiples_in(lo + 1, hi, g) + if lo % g == 0 { 1int } else { 0int } }
}

proof fn lemma_multiples_mono(lo1: int, lo2: int, hi: int, g: int)
    requires
        lo1 <= lo2,
    ensures
        0 <= multiples_in(lo2, hi, g) <= multiples_in(lo1, hi, g),
        lo1 < hi && lo1 % g == 0 && lo1 < lo2 ==> multiples_in(lo2, hi, g) < multiples_in(lo1, hi, g),
    decreases hi - lo1,
{
    if lo1 < hi {
        if lo1 < lo2 {
            lemma_multiples_mono(lo1 + 1, lo2, hi, g);
        } else {
            lemma_multiples_mono(lo1 + 1, lo1 + 1, hi, g);
        }
    }
}

/// Where, in the text of a `width`-digit number grouped by `g`, the digit
/// of weight `2^i` stands: after the `width - 1 - i` digits of higher
/// weight and one `_` for each multiple of `g` in `[i + 1, width)`.
pub open spec fn digit_pos(width: int, g: int, i: int) -> int {
    (width - 1 - i) + multiples_in(i + 1, width, g)
}

/// The grouped text of a `width`-digit number: `width` digits and one `_`
/// for each multiple of `g` strictly between 0 and `width`; the digit of
/// weight `2^i` stands at `digit_pos(width, g, i)`, and a `_` stands just
/// before it exactly when `i + 1` is such a multiple, so the groups from
/// the right hold `g` digits each and the leftmost one the rest.
pub proof fn lemma_bin_text_layout(value: usize, width: int, group: int, k: int)
    requires
        0 <= k <= width,
        width <= usize::BITS,
        group > 0,
    ensures
        bin_text(value, width, group, k).len() == k + multiples_in(width - k + 1, width, group),
        forall|i: int| width - k <= i < width ==> #[trigger] bin_text(value, width, group, k)[digit_pos(width, group, i)] == bit_digit(value, i),
        forall|i: int| width - k <= i < width - 1 && (i + 1) % group == 0
            ==> #[trigger] bin_text(value, width, group, k)[digit_pos(width, group, i) - 1] == 0x5Fu8,
    decreases k,
{
    if k > 0 {
        lemma_bin_text_layout(value, width, group, k - 1);
        let i0 = width - k;
        let prev = bin_text(value, width, group, k - 1);
        let sep: Seq<u8> = if i0 != width - 1 && (i0 + 1) % group == 0 { seq![0x5Fu8] } else { Seq::empty() };
        let digit = if (value >> (i0 as usize)) & 1 == 1 { 0x31u8 } else { 0x30u8 };
        let t = bin_text(value, width, group, k);
        assert(t == prev + sep + seq![digit]);
        let x: usize = value >> (i0 as usize);
        lemma_usize_shr_is_div(value, i0 as usize);
        assert(x & 1 == x % 2) by (bit_vector);
        assert(digit == bit_digit(value, i0));
        if k == 1 {
            assert(multiples_in(width, width, group) == 0);
            assert(multiples_in(width - k + 1, width, group) == 0);
        } else {
            assert(multiples_in(width - k + 1, width, group) == multiples_in(width - k + 2, width, group) + if (width - k + 1) % group == 0 { 1int } else { 0int });
        }
        assert(digit_pos(width, group, i0) == prev.len() + sep.len());
        assert forall|i: int| width - k <= i < width implies #[trigger] t[digit_pos(width, group, i)] == bit_digit(value, i) by {
            if i > i0 {
                lemma_multiples_mono(width - k + 2, i + 1, width, group);
                assert(t[digit_pos(width, group, i)] == prev[digit_pos(width, group, i)]);
            }
        }
        assert forall|i: int| width - k <= i < width - 1 && (i + 1) % group == 0
            implies #[trigger] t[digit_pos(width, group, i) - 1] == 0x5Fu8 by {
            if i > i0 {
                lemma_multiples_mono(width - k + 2, i + 1, width, group);
                lemma_multiples_mono(i + 1, i + 2, width, group);
                assert(t[digit_pos(width, group, i) - 1] == prev[digit_pos(width, group, i) - 1]);
            } else {
                assert(sep.len() == 1);
            }
        }
    }
}

impl GroupedBin {
    /// `value` as `width` digits in groups of four.
    pub fn new(value: usize, width: usize) -> (r: Self)
        ensures
            r.value == value,
            r.width == width,
            r.group == 4,
    {
        GroupedBin { value, width, group: 4 }
    }

    /// `value` as `width` digits in groups of `group`.
    pub fn with_group(value: usize, width: usize, group: usize) -> (r: Self)
        ensures
            r.value == value,
            r.width == width,
            r.group == group,
    {
        GroupedBin { value, width, group }
    }

    /// The ASCII text of the number; empty when the width or the group is 0.
    /// Read without its `_` separators it is `value mod 2^width` in
    /// `width` binary digits, most significant first.
    pub fn to_text(&self) -> (r: Vec<u8>)
        requires
            self.width <= usize::BITS,
        ensures
            r@ == if self.width == 0 || self.group == 0 {
                Seq::empty()
            } else {
                bin_text(self.value, self.width as int, self.group as int, self.width as int)
            },
            self.group != 0 ==> without_seps(r@)
                == Seq::new(self.width as nat, |j: int| bit_digit(self.value, self.width - 1 - j)),
            self.group != 0 && self.width != 0 ==> {
                &&& r@.len() == self.width + multiples_in(1, self.width as int, self.group as int)
                &&& forall|i: int| 0 <= i < self.width ==> #[trigger] r@[digit_pos(self.width as int, self.group as int, i)] == bit_digit(self.value, i)
                &&& forall|i: int| 0 <= i < self.width - 1 && (i + 1) % (self.group as int) == 0
                        ==> #[trigger] r@[digit_pos(self.width as int, self.group as int, i) - 1] == 0x5Fu8
            },
    {
        proof {
            if self.group != 0 && self.width != 0 {
                lemma_bin_text_digits(self.value, self.width as int, self.group as int, self.width as int);
                lemma_bin_text_layout(self.value, self.width as int, self.group as int, self.width as int);
            }
            if self.width == 0 {
                assert(without_seps(Seq::<u8>::empty()) =~= Seq::new(0, |j: int| bit_digit(self.value, self.width - 1 - j)));
            }
        }
        let mut out: Vec<u8> = Vec::new();
        if self.width == 0 || self.group == 0 {
            return out;
        }
        let mut k: usize = 0;
        while k < self.width
            invariant
                k <= self.width,
                self.width <= usize::BITS,
                self.group > 0,
                out@ == bin_text(self.value, self.width as int, self.group as int, k as int),
            decreases self.width - k,
        {
            let i = self.width - 1 - k;
            if i != self.width - 1 && (i + 1) % self.group == 0 {
                out.push(0x5F);
            }
            let bit = (self.value >> i) & 1;
            if bit == 1 {
                out.push(0x31);
            } else {
                out.push(0x30);
            }
            k = k + 1;
            proof {
                assert(out@ =~= bin_text(self.value, self.width as int, self.group as int, k as int));
            }
        }
        out
    }
}

} // verus!
