//! How many frames may be in memory at once.
use crate::text;
use vstd::prelude::*;

verus! {

/// Memory assumed where it cannot be read: 4 GiB.
pub const FALLBACK_BYTES: u64 = 4294967296;

/// Most KiB whose bytes fit in 64 bits.
pub const MAX_KIB: u64 = 0x3f_ffff_ffff_ffff;

/// A text up to its first line break.
pub open spec fn first_line(s: Seq<char>) -> Seq<char>
    decreases s.len(),
{
    if s.len() == 0 || s[0] == '\n' {
        Seq::empty()
    } else {
        seq![s[0]] + first_line(s.drop_first())
    }
}

/// The leading word of a text, white space before it dropped.
pub open spec fn first_word(s: Seq<char>) -> Seq<char> {
    leading(text::trim_start(s))
}

/// A text up to its first white space.
pub open spec fn leading(s: Seq<char>) -> Seq<char>
    decreases s.len(),
{
    if s.len() == 0 || text::is_white(s[0]) {
        Seq::empty()
    } else {
        seq![s[0]] + leading(s.drop_first())
    }
}

/// A count of KiB as written, one leading plus sign allowed.
pub open spec fn kib_of(word: Seq<char>) -> Option<int> {
    if word.len() > 0 && word[0] == '+' {
        text::parse_digits(word.drop_first(), MAX_KIB as int)
    } else {
        text::parse_digits(word, MAX_KIB as int)
    }
}

/// The total memory, in bytes, that a line states, if it states one.
pub open spec fn stated_bytes(line: Seq<char>) -> Option<int> {
    let prefix = "MemTotal:"@;
    if line.len() >= prefix.len() && line.take(prefix.len() as int) == prefix {
        match kib_of(first_word(line.skip(prefix.len() as int))) {
            Some(k) => if k > 0 {
                Some(1024 * k)
            } else {
                None
            },
            None => None,
        }
    } else {
        None
    }
}

/// The total memory that a memory report states: that of the first line which
/// states one, else the fallback.
pub open spec fn reported_bytes(s: Seq<char>) -> int
    decreases s.len(),
{
    let line = first_line(s);
    match stated_bytes(line) {
        Some(b) => b,
        None => if line.len() < s.len() {
            reported_bytes(s.skip(line.len() as int + 1))
        } else {
            FALLBACK_BYTES as int
        },
    }
}

proof fn lemma_first_line(s: Seq<char>)
    ensures
        first_line(s).len() <= s.len(),
        first_line(s) == s.take(first_line(s).len() as int),
        forall|i: int| 0 <= i < first_line(s).len() ==> s[i] != '\n',
        first_line(s).len() < s.len() ==> s[first_line(s).len() as int] == '\n',
    decreases s.len(),
{
    if s.len() > 0 && s[0] != '\n' {
        let rest = s.drop_first();
        lemma_first_line(rest);
        let n = first_line(rest).len();
        assert(first_line(s) =~= s.take(n as int + 1));
        assert forall|i: int| 0 <= i < first_line(s).len() implies s[i] != '\n' by {
            if i > 0 {
                assert(rest[i - 1] == s[i]);
            }
        }
        if n < rest.len() {
            assert(rest[n as int] == s[n as int + 1]);
        }
    } else {
        assert(first_line(s) =~= s.take(0));
    }
}

proof fn lemma_leading(s: Seq<char>)
    ensures
        leading(s).len() <= s.len(),
        leading(s) == s.take(leading(s).len() as int),
        forall|i: int| 0 <= i < leading(s).len() ==> !text::is_white(s[i]),
        leading(s).len() < s.len() ==> text::is_white(s[leading(s).len() as int]),
    decreases s.len(),
{
    if s.len() > 0 && !text::is_white(s[0]) {
        let rest = s.drop_first();
        lemma_leading(rest);
        let n = leading(rest).len();
        assert(leading(s) =~= s.take(n as int + 1));
        assert forall|i: int| 0 <= i < leading(s).len() implies !text::is_white(s[i]) by {
            if i > 0 {
                assert(rest[i - 1] == s[i]);
            }
        }
        if n < rest.len() {
            assert(rest[n as int] == s[n as int + 1]);
        }
    } else {
        assert(leading(s) =~= s.take(0));
    }
}

/// The leading word of a text.
fn word_of(s: &[char]) -> (w: Vec<char>)
    ensures
        w@ == first_word(s@),
{
    let t = text::trimmed_start(s);
    let mut n: usize = 0;
    while n < t.len() && !text::white(t[n])
        invariant
            n <= t@.len(),
            forall|i: int| 0 <= i < n ==> !text::is_white(t@[i]),
        decreases t@.len() - n,
    {
        n = n + 1;
    }
    proof {
        lemma_leading(t@);
        let m = leading(t@).len() as int;
        if m < n {
            assert(text::is_white(t@[m]));
        }
        if n < m {
            assert(text::is_white(t@[n as int]));
        }
        assert(t@.subrange(0, n as int) =~= t@.take(n as int));
    }
    text::slice_of(t.as_slice(), 0, n)
}

/// What one line states.
fn line_states(line: &[char]) -> (r: Option<u64>)
    ensures
        r is Some <==> stated_bytes(line@) is Some,
        r is Some ==> stated_bytes(line@) == Some(r->0 as int),
{
    let prefix = text::chars("MemTotal:");
    let n: usize = prefix.len();
    if line.len() < n {
        return None;
    }
    let head = text::slice_of(line, 0, n);
    assert(head@ =~= line@.take(n as int));
    if !text::same(head.as_slice(), prefix.as_slice()) {
        return None;
    }
    let rest = text::slice_of(line, n, line.len());
    assert(rest@ =~= line@.skip(n as int));
    let word = word_of(rest.as_slice());
    let kib = if word.len() > 0 && word[0] == '+' {
        let tail = text::slice_of(word.as_slice(), 1, word.len());
        assert(tail@ =~= word@.drop_first());
        text::digits(tail.as_slice(), MAX_KIB)
    } else {
        text::digits(word.as_slice(), MAX_KIB)
    };
    match kib {
        Some(k) => if k > 0 {
            Some(1024 * k)
        } else {
            None
        },
        None => None,
    }
}

/// The machine's memory, in bytes, from the text of its memory report.
pub fn total_ram_bytes(report: &str) -> (b: u64)
    ensures
        b == reported_bytes(report@),
{
    let c = text::chars(report);
    let n: usize = c.len();
    let mut from: usize = 0;
    assert(c@.skip(0) =~= c@);
    loop
        invariant
            from <= n,
            n == c@.len(),
            c@ == report@,
            reported_bytes(c@) == reported_bytes(c@.skip(from as int)),
        decreases n - from,
    {
        let ghost s = c@.skip(from as int);
        let mut to: usize = from;
        while to < n && c[to] != '\n'
            invariant
                from <= to <= n,
                n == c@.len(),
                forall|i: int| from <= i < to ==> c@[i] != '\n',
            decreases n - to,
        {
            to = to + 1;
        }
        proof {
            lemma_first_line(s);
            let m = first_line(s).len() as int;
            if m < to - from {
                assert(s[m] == c@[from + m]);
            }
            if to - from < m {
                assert(s[to - from] == c@[to as int]);
            }
            assert(first_line(s) =~= c@.subrange(from as int, to as int));
        }
        let line = text::slice_of(c.as_slice(), from, to);
        if let Some(b) = line_states(line.as_slice()) {
            return b;
        }
        if to >= n {
            return FALLBACK_BYTES;
        }
        assert(s.skip(to - from + 1) =~= c@.skip(to + 1));
        from = to + 1;
    }
}

/// What the pipeline may use: workers, frames waiting between them and the
/// consumer, and the memory this rests on.
#[derive(Clone, Copy, Debug, PartialEq, Eq, Structural)]
pub struct Pipeline {
    pub workers: usize,
    pub waiting: usize,
    pub total_bytes: u64,
    pub budget_bytes: u64,
    pub frame_bytes: u64,
}

/// How many frames fit into the budget beside the accumulator.
pub open spec fn frames_that_fit(total: int, px: int) -> int {
    let budget = total * 4 / 5;
    if budget > 20 * px {
        (budget - 20 * px) / (24 * px)
    } else {
        0
    }
}

/// How many frames there are to work on, one at least.
pub open spec fn frames_left(remaining: int) -> int {
    if remaining > 1 {
        remaining
    } else {
        1
    }
}

/// How many workers there are: as many as there are processors and frames left,
/// as far as a frame each fits beside the one being consumed; one at least.
pub open spec fn workers_for(total: int, px: int, n_cpus: int, remaining: int) -> int {
    let beside = frames_that_fit(total, px) - 1;
    let most = if beside < frames_left(remaining) {
        beside
    } else {
        frames_left(remaining)
    };
    let workers = if n_cpus < most {
        n_cpus
    } else {
        most
    };
    if workers > 1 {
        workers
    } else {
        1
    }
}

/// How many frames may wait between the workers and the consumer: what fits
/// beside theirs, and no more than are left.
pub open spec fn waiting_for(total: int, px: int, n_cpus: int, remaining: int) -> int {
    let fit = frames_that_fit(total, px);
    let m = if fit < frames_left(remaining) {
        fit
    } else {
        frames_left(remaining)
    };
    let taken = workers_for(total, px, n_cpus, remaining) + 1;
    if m > taken {
        m - taken
    } else {
        0
    }
}

/// Number of workers and frames waiting that keep the memory used below 80 %
/// of the total. The accumulator takes 20 bytes per pixel, a frame in flight
/// 24: one per worker, those waiting, and the one being consumed.
pub fn compute_pipeline_params(
    total: u64,
    width: usize,
    height: usize,
    n_cpus: usize,
    remaining_frames: usize,
) -> (r: Pipeline)
    requires
        width > 0,
        height > 0,
        24 * (width * height) <= u64::MAX,
    ensures
        r.workers == workers_for(
            total as int,
            width * height,
            n_cpus as int,
            remaining_frames as int,
        ),
        r.waiting == waiting_for(
            total as int,
            width * height,
            n_cpus as int,
            remaining_frames as int,
        ),
        r.total_bytes == total,
        r.budget_bytes == total * 4 / 5,
        r.frame_bytes == 24 * (width * height),
{
    let budget: u64 = (total as u128 * 4 / 5) as u64;
    assert(width * height >= 1) by (nonlinear_arith)
        requires
            width >= 1,
            height >= 1,
    ;
    let px: u64 = width as u64 * height as u64;
    let acc_bytes: u64 = px * 20;
    let frame_bytes: u64 = px * 24;
    let fit: u64 = if budget > acc_bytes {
        (budget - acc_bytes) / frame_bytes
    } else {
        0
    };
    let left: u64 = if remaining_frames > 1 {
        remaining_frames as u64
    } else {
        1
    };
    let beside: u64 = if fit > 1 {
        fit - 1
    } else {
        1
    };
    let most: usize = if beside < left {
        beside as usize
    } else {
        left as usize
    };
    let workers: usize = if n_cpus < 1 {
        1
    } else if n_cpus < most {
        n_cpus
    } else {
        most
    };
    let m: usize = if fit < left {
        fit as usize
    } else {
        left as usize
    };
    let waiting: usize = if m > workers && m - workers > 1 {
        m - workers - 1
    } else {
        0
    };
    Pipeline { workers, waiting, total_bytes: total, budget_bytes: budget, frame_bytes }
}

/// The accumulator, the frames the workers hold, those waiting and the one
/// being consumed stay within the budget wherever it has room for two frames,
/// and there are never more workers than processors.
pub proof fn law_budget_holds(total: int, px: int, n_cpus: int, remaining: int)
    requires
        px > 0,
        n_cpus >= 1,
        20 * px + 2 * (24 * px) <= total * 4 / 5,
    ensures
        1 <= workers_for(total, px, n_cpus, remaining) <= n_cpus,
        20 * px + (workers_for(total, px, n_cpus, remaining) + waiting_for(
            total,
            px,
            n_cpus,
            remaining,
        ) + 1) * (24 * px) <= total * 4 / 5,
{
    let available = total * 4 / 5 - 20 * px;
    let f = 24 * px;
    let q = available / f;
    assert(f * q <= available && q >= 2) by (nonlinear_arith)
        requires
            q == available / f,
            f > 0,
            available >= 2 * f,
    ;
    let n = workers_for(total, px, n_cpus, remaining) + waiting_for(total, px, n_cpus, remaining) + 1;
    assert(n <= q);
    assert(n * f <= f * q) by (nonlinear_arith)
        requires
            n <= q,
            f > 0,
    ;
}

/// No memory lies idle for want of planning: there is a worker for every
/// processor unless the frames run out or another one would not fit.
pub proof fn law_workers_are_as_many_as_fit(total: int, px: int, n_cpus: int, remaining: int)
    requires
        px > 0,
        n_cpus >= 1,
        total >= 0,
    ensures
        ({
            let n = workers_for(total, px, n_cpus, remaining);
            &&& n >= 1
            &&& n <= n_cpus
            &&& n <= remaining || n == 1
            &&& n < n_cpus && n < remaining ==> 20 * px + (n + 2) * (24 * px) > total * 4 / 5
        }),
{
    let n = workers_for(total, px, n_cpus, remaining);
    let f = 24 * px;
    let available = total * 4 / 5 - 20 * px;
    let q = frames_that_fit(total, px);
    lemma_fits(available, f);
    if n < n_cpus && n < remaining {
        assert(q < n + 2);
        if available > 0 {
            assert(available < f * (q + 1));
            assert(f * (q + 1) <= f * (n + 2)) by (nonlinear_arith)
                requires
                    q + 1 <= n + 2,
                    f > 0,
            ;
            assert(f * (n + 2) == (n + 2) * f) by (nonlinear_arith);
        } else {
            assert((n + 2) * f > 0) by (nonlinear_arith)
                requires
                    n >= 1,
                    f > 0,
            ;
        }
    }
}

/// Frames wait as long as there is room for them and any are left: one more
/// would not fit, or there is none.
pub proof fn law_waiting_frames_fill_the_budget(total: int, px: int, n_cpus: int, remaining: int)
    requires
        px > 0,
        n_cpus >= 1,
        total >= 0,
    ensures
        ({
            let n = workers_for(total, px, n_cpus, remaining) + waiting_for(
                total,
                px,
                n_cpus,
                remaining,
            ) + 1;
            &&& waiting_for(total, px, n_cpus, remaining) >= 0
            &&& n < remaining ==> 20 * px + (n + 1) * (24 * px) > total * 4 / 5
            &&& waiting_for(total, px, n_cpus, remaining) > 0 ==> n <= remaining
        }),
{
    let f = 24 * px;
    let available = total * 4 / 5 - 20 * px;
    let q = frames_that_fit(total, px);
    lemma_fits(available, f);
    let n = workers_for(total, px, n_cpus, remaining) + waiting_for(total, px, n_cpus, remaining)
        + 1;
    if n < remaining {
        assert(q < n + 1);
        if available > 0 {
            assert(f * (q + 1) <= f * (n + 1)) by (nonlinear_arith)
                requires
                    q + 1 <= n + 1,
                    f > 0,
            ;
            assert(f * (n + 1) == (n + 1) * f) by (nonlinear_arith);
        } else {
            assert((n + 1) * f > 0) by (nonlinear_arith)
                requires
                    n >= 1,
                    f > 0,
            ;
        }
    }
}

proof fn lemma_fits(available: int, f: int)
    requires
        f > 0,
    ensures
        available > 0 ==> f * (available / f) <= available < f * (available / f + 1) && available / f
            >= 0,
{
    vstd::arithmetic::div_mod::lemma_fundamental_div_mod(available, f);
    vstd::arithmetic::div_mod::lemma_mod_bound(available, f);
    let q = available / f;
    assert(f * (q + 1) == f * q + f) by (nonlinear_arith);
    if available > 0 && q < 0 {
        assert(f * q <= -f) by (nonlinear_arith)
            requires
                q <= -1,
                f > 0,
        ;
    }
}

proof fn lemma_first_line_is(a: Seq<char>, b: Seq<char>)
    requires
        forall|i: int| 0 <= i < a.len() ==> a[i] != '\n',
        b.len() == 0 || b[0] == '\n',
    ensures
        first_line(a + b) == a,
    decreases a.len(),
{
    if a.len() == 0 {
        assert(a + b =~= b);
        assert(first_line(b) =~= a);
    } else {
        let t = a.drop_first();
        assert((a + b).drop_first() =~= t + b);
        assert((a + b)[0] == a[0]);
        lemma_first_line_is(t, b);
        assert(seq![a[0]] + t =~= a);
    }
}

/// A line that does not begin with the name of the figure says nothing about
/// it: the report goes on with the next one.
pub proof fn law_other_lines_are_skipped(line: Seq<char>, rest: Seq<char>)
    requires
        forall|i: int| 0 <= i < line.len() ==> line[i] != '\n',
        line.len() < 9 || line.take(9) != "MemTotal:"@,
    ensures
        reported_bytes(line + seq!['\n'] + rest) == reported_bytes(rest),
{
    reveal_strlit("MemTotal:");
    let b = seq!['\n'] + rest;
    let s = line + seq!['\n'] + rest;
    assert(s =~= line + b);
    lemma_first_line_is(line, b);
    assert(s.skip(line.len() as int + 1) =~= rest);
}

/// Without a figure four gibibytes are assumed.
pub proof fn law_no_figure_is_four_gibibytes(line: Seq<char>)
    requires
        forall|i: int| 0 <= i < line.len() ==> line[i] != '\n',
        line.len() < 9 || line.take(9) != "MemTotal:"@,
    ensures
        reported_bytes(line) == 4 * 1024 * 1024 * 1024,
{
    reveal_strlit("MemTotal:");
    let none = Seq::<char>::empty();
    lemma_first_line_is(line, none);
    assert(line + none =~= line);
}

/// The figure is in kibibytes: a line with the name, blanks, a number above
/// zero and its unit tells 1024 times the number.
pub proof fn law_figures_are_in_kibibytes(blanks: nat, n: nat, unit: Seq<char>, rest: Seq<char>)
    requires
        0 < n <= 0x3f_ffff_ffff_ffff,
        unit.len() > 0,
        unit[0] == ' ',
        forall|i: int| 0 <= i < unit.len() ==> unit[i] != '\n',
        rest.len() == 0 || rest[0] == '\n',
    ensures
        reported_bytes(
            "MemTotal:"@ + text::run_of(' ', blanks as int) + text::decimal(n) + unit + rest,
        ) == 1024 * n,
{
    reveal_strlit("MemTotal:");
    let digits = text::decimal(n);
    text::law_decimal_reads_back(n);
    let tail = text::run_of(' ', blanks as int) + digits + unit;
    let line = "MemTotal:"@ + tail;
    let s = "MemTotal:"@ + text::run_of(' ', blanks as int) + digits + unit + rest;
    assert(s =~= line + rest);
    assert forall|i: int| 0 <= i < line.len() implies line[i] != '\n' by {
        if i >= 9 + blanks && i < 9 + blanks + digits.len() {
            assert(line[i] == digits[i - 9 - blanks]);
            assert(text::is_digit(digits[i - 9 - blanks]));
        } else if i >= 9 + blanks + digits.len() {
            assert(line[i] == unit[i - 9 - blanks - digits.len()]);
        } else if i >= 9 {
            assert(line[i] == ' ');
        } else {
            assert(line[i] == "MemTotal:"@[i]);
        }
    }
    lemma_first_line_is(line, rest);
    assert(line.take(9) =~= "MemTotal:"@);
    assert(line.skip(9) =~= tail);
    lemma_blanks(blanks, digits + unit);
    assert(text::run_of(' ', blanks as int) + (digits + unit) =~= tail);
    assert((digits + unit)[0] == digits[0]);
    assert(text::is_digit(digits[0]));
    lemma_leading_is(digits, unit);
}

proof fn lemma_blanks(n: nat, s: Seq<char>)
    requires
        s.len() > 0,
        !text::is_white(s[0]),
    ensures
        text::trim_start(text::run_of(' ', n as int) + s) == s,
    decreases n,
{
    let t = text::run_of(' ', n as int) + s;
    if n == 0 {
        assert(t =~= s);
    } else {
        assert(t[0] == ' ');
        lemma_blanks((n - 1) as nat, s);
        assert(t.drop_first() =~= text::run_of(' ', n - 1) + s);
    }
}

proof fn lemma_leading_is(a: Seq<char>, b: Seq<char>)
    requires
        text::all_digits(a),
        b.len() > 0,
        b[0] == ' ',
    ensures
        leading(a + b) == a,
    decreases a.len(),
{
    if a.len() == 0 {
        assert(a + b =~= b);
        assert(leading(b) =~= a);
    } else {
        let t = a.drop_first();
        assert(text::is_digit(a[0]));
        assert((a + b)[0] == a[0]);
        assert((a + b).drop_first() =~= t + b);
        assert forall|i: int| 0 <= i < t.len() implies text::is_digit(#[trigger] t[i]) by {
            assert(t[i] == a[i + 1]);
        }
        lemma_leading_is(t, b);
        assert(seq![a[0]] + t =~= a);
    }
}

/// Where the buffers of the stack alone take up the budget, no frame fits.
pub proof fn law_no_frame_fits_beside_the_stack(total: int, px: int)
    requires
        0 <= px,
    ensures
        total * 4 / 5 <= 20 * px ==> frames_that_fit(total, px) == 0,
        px > 0 && total * 4 / 5 > 20 * px ==> frames_that_fit(total, px) * (24 * px) <= total * 4
            / 5 - 20 * px < (frames_that_fit(total, px) + 1) * (24 * px),
{
    if px > 0 && total * 4 / 5 > 20 * px {
        let (a, d) = (total * 4 / 5 - 20 * px, 24 * px);
        assert(a / d * d <= a < (a / d + 1) * d) by (nonlinear_arith)
            requires
                d > 0,
        ;
    }
}

} // verus!
