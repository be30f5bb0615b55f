//! CPU time counters and core frequencies.

use vstd::prelude::*;
use vstd::slice::slice_subrange;

use crate::numbers;
use crate::text;

verus! {

/// Whether a line of `/proc/stat` is the aggregate one, which counts all CPUs together.
pub open spec fn is_aggregate(line: Seq<char>) -> bool {
    text::starts_with(line, "cpu "@)
}

/// The first aggregate line.
pub open spec fn aggregate(lines: Seq<Seq<char>>) -> Option<Seq<char>>
    decreases lines.len(),
{
    if lines.len() == 0 {
        None
    } else if is_aggregate(lines[0]) {
        Some(lines[0])
    } else {
        aggregate(lines.skip(1))
    }
}

/// One counter; anything that is not a number counts as zero.
pub open spec fn counter(field: Seq<char>) -> int {
    match numbers::unsigned(field, 10, u64::MAX as int) {
        Some(n) => n,
        None => 0,
    }
}

/// The sum of some counters.
pub open spec fn counter_sum(fields: Seq<Seq<char>>) -> int
    decreases fields.len(),
{
    if fields.len() == 0 {
        0
    } else {
        counter_sum(fields.drop_last()) + counter(fields.last())
    }
}

/// The counters of an aggregate line: the fields after its name, no more than eight.
/// The two that may follow count guest time, which is already inside the first two.
pub open spec fn counters(line: Seq<char>) -> Seq<Seq<char>> {
    let fields = text::words(line).skip(1);
    if fields.len() > 8 {
        fields.take(8)
    } else {
        fields
    }
}

/// Busy and total jiffies that an aggregate line counts, if it has at least the five
/// counters that telling them apart takes. The fourth and fifth count idle time and time
/// spent waiting for input and output.
pub open spec fn line_times(line: Seq<char>) -> Option<(int, int)> {
    let c = counters(line);
    if c.len() < 5 {
        None
    } else {
        Some((counter_sum(c) - counter(c[3]) - counter(c[4]), counter_sum(c)))
    }
}

/// Busy and total jiffies that a `/proc/stat` text counts.
pub open spec fn cpu_times(stat: Seq<char>) -> Option<(int, int)> {
    match aggregate(text::lines(stat)) {
        Some(line) => line_times(line),
        None => None,
    }
}

/// Whether the jiffies that a `/proc/stat` text counts are few enough to add up.
pub open spec fn times_fit(stat: Seq<char>) -> bool {
    cpu_times(stat) matches Some((busy, total)) ==> total <= u64::MAX
}

proof fn lemma_aggregate_has_a_name(line: Seq<char>)
    requires
        is_aggregate(line),
    ensures
        text::words(line).len() > 0,
{
    reveal_strlit("cpu ");
    assert(line[0] == line.take(4)[0]);
    assert(line[0] == 'c');
    assert(text::trim_start(line) == line);
}

/// Busy and total jiffies of an aggregate line.
fn read_line(line: &[char]) -> (r: Option<(u128, u128)>)
    requires
        is_aggregate(line@),
    ensures
        match r {
            Some((busy, total)) => line_times(line@) == Some((busy as int, total as int)),
            None => line_times(line@) is None,
        },
{
    proof {
        lemma_aggregate_has_a_name(line@);
    }
    let ghost fields = text::words(line@).skip(1);
    assert(line@.skip(0) == line@);
    let mut from: usize = match text::word_at(line, 0) {
        Some((_, end)) => end,
        None => {
            return None;
        },
    };
    assert(fields == text::words(line@.skip(from as int)));
    let mut total: u128 = 0;
    let mut idle: u128 = 0;
    let mut n: usize = 0;
    assert(fields.skip(0) == fields);
    while n < 8
        invariant_except_break
            n <= 8,
            n <= fields.len(),
            from <= line@.len(),
            fields.skip(n as int) == text::words(line@.skip(from as int)),
        invariant
            n <= 8,
            n <= fields.len(),
            0 <= idle <= total <= n * u64::MAX,
            total == counter_sum(fields.take(n as int)),
            idle == (if n > 3 {
                counter(fields[3])
            } else {
                0
            }) + (if n > 4 {
                counter(fields[4])
            } else {
                0
            }),
        ensures
            n == 8 || n == fields.len(),
        decreases 8 - n,
    {
        let (a, b): (usize, usize) = match text::word_at(line, from) {
            Some(r) => r,
            None => {
                assert(fields.skip(n as int).len() == 0);
                break;
            },
        };
        let word = slice_subrange(line, a, b);
        assert(fields.skip(n as int)[0] == word@);
        assert(fields[n as int] == word@);
        let value: u64 = match numbers::parse_unsigned(word, 10, u64::MAX) {
            Some(v) => v,
            None => 0,
        };
        assert(value == counter(fields[n as int]));
        assert(fields.skip(n + 1) == fields.skip(n as int).skip(1));
        assert(fields.skip(n as int).skip(1) == text::words(line@.skip(b as int)));
        assert(fields.take(n + 1).drop_last() == fields.take(n as int));
        assert(fields.take(n + 1).last() == fields[n as int]);
        total = total + value as u128;
        if n == 3 || n == 4 {
            idle = idle + value as u128;
        }
        from = b;
        n = n + 1;
    }
    assert(counters(line@) == fields.take(n as int));
    if n < 5 {
        return None;
    }
    Some((total - idle, total))
}

/// Busy and total jiffies, wide enough for any text.
fn wide_times(stat: &str) -> (r: Option<(u128, u128)>)
    ensures
        match r {
            Some((busy, total)) => cpu_times(stat@) == Some((busy as int, total as int)) && busy
                <= total,
            None => cpu_times(stat@) is None,
        },
{
    let s = text::characters(stat);
    let prefix = text::characters("cpu ");
    let mut from: usize = 0;
    assert(s@.skip(0) == s@);
    while from < s.len()
        invariant
            s@ == stat@,
            prefix@ == "cpu "@,
            from <= s@.len(),
            aggregate(text::lines(s@)) == aggregate(text::lines(s@.skip(from as int))),
        decreases s@.len() - from,
    {
        let (end, next): (usize, usize) = text::line_at(s.as_slice(), from);
        let line = slice_subrange(s.as_slice(), from, end);
        let ghost all = text::lines(s@.skip(from as int));
        assert(all[0] == line@);
        assert(all.skip(1) == text::lines(s@.skip(next as int)));
        if text::has_prefix(line, prefix.as_slice()) {
            let r = read_line(line);
            proof {
                lemma_idle_is_part(counters(line@));
            }
            return r;
        }
        from = next;
    }
    assert(text::lines(s@.skip(from as int)).len() == 0);
    None
}

proof fn lemma_counter_sum(c: Seq<Seq<char>>)
    ensures
        counter_sum(c) >= 0,
    decreases c.len(),
{
    if c.len() > 0 {
        lemma_counter_sum(c.drop_last());
        lemma_counter(c.last());
    }
}

proof fn lemma_counter(field: Seq<char>)
    ensures
        counter(field) >= 0,
{
    numbers::lemma_unsigned(field, 10, u64::MAX as int);
}

proof fn lemma_sum_bounds_term(c: Seq<Seq<char>>, n: int)
    requires
        0 <= n <= c.len(),
    ensures
        counter_sum(c.take(n)) <= counter_sum(c),
    decreases c.len(),
{
    if n == c.len() {
        assert(c.take(n) == c);
    } else {
        lemma_sum_bounds_term(c.drop_last(), n);
        assert(c.drop_last().take(n) == c.take(n));
        lemma_counter(c.last());
    }
}

proof fn lemma_idle_is_part(c: Seq<Seq<char>>)
    ensures
        c.len() >= 5 ==> 0 <= counter(c[3]) + counter(c[4]) <= counter_sum(c),
{
    if c.len() >= 5 {
        lemma_sum_bounds_term(c, 5);
        lemma_counter(c[3]);
        lemma_counter(c[4]);
        lemma_counter_sum(c.take(3));
        assert(c.take(5).drop_last() == c.take(4));
        assert(c.take(4).drop_last() == c.take(3));
        assert(counter_sum(c.take(5)) == counter_sum(c.take(4)) + counter(c[4]));
        assert(counter_sum(c.take(4)) == counter_sum(c.take(3)) + counter(c[3]));
    }
}

/// Whether [`parse_cpu_times`] can add up the counters of a `/proc/stat` text.
pub fn jiffies_fit(stat: &str) -> (r: bool)
    ensures
        r == times_fit(stat@),
{
    match wide_times(stat) {
        Some((_, total)) => total <= u64::MAX as u128,
        None => true,
    }
}

/// Busy and total jiffies from the aggregate `cpu` line of `/proc/stat`.
///
/// Guest time is already counted inside user time, so only the first eight fields are
/// summed; including it would inflate the total and understate utilisation on a host
/// running virtual machines.
pub fn parse_cpu_times(stat: &str) -> (r: Option<(u64, u64)>)
    requires
        times_fit(stat@),
    ensures
        match r {
            Some((busy, total)) => cpu_times(stat@) == Some((busy as int, total as int)) && busy
                <= total,
            None => cpu_times(stat@) is None,
        },
{
    match wide_times(stat) {
        Some((busy, total)) => Some((busy as u64, total as u64)),
        None => None,
    }
}

/// How far a counter moved; not at all where it went backwards, as across a suspend.
pub open spec fn moved(prev: u64, now: u64) -> u64 {
    if now >= prev {
        (now - prev) as u64
    } else {
        0
    }
}

/// The busy and elapsed jiffies between two samples, where any time elapsed.
pub open spec fn busy_share(prev: (u64, u64), cur: (u64, u64)) -> Option<(u64, u64)> {
    if moved(prev.1, cur.1) == 0 {
        None
    } else {
        Some((moved(prev.0, cur.0), moved(prev.1, cur.1)))
    }
}

/// The busy and elapsed jiffies between two `(busy, total)` samples, whose quotient is the
/// utilisation. There is none where the total did not move or went backwards.
pub fn usage_between(prev: (u64, u64), cur: (u64, u64)) -> (r: Option<(u64, u64)>)
    ensures
        r == busy_share(prev, cur),
{
    let busy: u64 = cur.0.saturating_sub(prev.0);
    let total: u64 = cur.1.saturating_sub(prev.1);
    if total == 0 {
        None
    } else {
        Some((busy, total))
    }
}

/// Fields past the eighth counter make no difference: guest time is never summed.
pub proof fn law_guest_time_is_ignored(one: Seq<char>, other: Seq<char>)
    requires
        text::words(one).len() >= 9,
        text::words(other).len() >= 9,
        text::words(one).take(9) == text::words(other).take(9),
    ensures
        line_times(one) == line_times(other),
{
    let a = text::words(one);
    let b = text::words(other);
    assert forall|i: int| 0 <= i < 8 implies counters(one)[i] == counters(other)[i] by {
        assert(a.take(9)[i + 1] == a[i + 1]);
        assert(b.take(9)[i + 1] == b[i + 1]);
    }
    assert(counters(one) == counters(other));
}

/// Idle and waiting time are never counted busy, and busy time is part of the total.
pub proof fn law_busy_is_part_of_total(stat: Seq<char>)
    ensures
        cpu_times(stat) matches Some((busy, total)) ==> 0 <= busy <= total,
{
    if let Some(line) = aggregate(text::lines(stat)) {
        lemma_idle_is_part(counters(line));
    }
}

/// While idle time does not run backwards, no more time is busy than elapses: utilisation
/// is at most the whole.
pub proof fn law_busy_is_part_of_elapsed(prev: (u64, u64), cur: (u64, u64))
    requires
        prev.0 <= prev.1,
        cur.0 <= cur.1,
        prev.1 - prev.0 <= cur.1 - cur.0,
    ensures
        busy_share(prev, cur) matches Some((busy, total)) ==> busy <= total,
{
}

/// One entry of the directory that lists the CPUs.
#[derive(Debug)]
pub struct Core {
    /// The entry's file name, e.g. `cpu0`.
    pub name: String,
    /// What its `scaling_cur_freq` file holds, where that could be read.
    pub scaling_cur_freq: Option<String>,
}

/// Whether an entry is a core. `cpufreq` and `cpuidle` also live there; only `cpu<N>` are
/// cores.
pub open spec fn core_name(name: Seq<char>) -> bool {
    &&& text::starts_with(name, "cpu"@)
    &&& name.len() > "cpu"@.len()
    &&& forall|i: int| "cpu"@.len() <= i < name.len() ==> numbers::ascii_digit(#[trigger] name[i])
}

/// The frequency of an entry in kHz, if it is a core that tells it.
pub open spec fn core_khz(c: Core) -> Option<int> {
    match c.scaling_cur_freq {
        Some(t) => if core_name(c.name@) {
            numbers::u64_in(t@)
        } else {
            None
        },
        None => None,
    }
}

/// The sum of the frequencies of some cores, in kHz.
pub open spec fn khz_sum(cores: Seq<Core>) -> int
    decreases cores.len(),
{
    if cores.len() == 0 {
        0
    } else {
        khz_sum(cores.drop_last()) + match core_khz(cores.last()) {
            Some(khz) => khz,
            None => 0,
        }
    }
}

/// How many cores tell their frequency.
pub open spec fn core_count(cores: Seq<Core>) -> int
    decreases cores.len(),
{
    if cores.len() == 0 {
        0
    } else {
        core_count(cores.drop_last()) + if core_khz(cores.last()) is Some {
            1int
        } else {
            0
        }
    }
}

/// Whether the frequencies are small enough to add up, and the cores few enough to count.
pub open spec fn frequencies_fit(cores: Seq<Core>) -> bool {
    khz_sum(cores) <= u64::MAX && core_count(cores) <= u32::MAX
}

/// Whether an entry is a core.
pub fn is_core(name: &str) -> (r: bool)
    ensures
        r == core_name(name@),
{
    let s = text::characters(name);
    let prefix = text::characters("cpu");
    if !text::has_prefix(s.as_slice(), prefix.as_slice()) {
        return false;
    }
    if s.len() == prefix.len() {
        return false;
    }
    let mut i: usize = prefix.len();
    while i < s.len()
        invariant
            s@ == name@,
            prefix@ == "cpu"@,
            text::starts_with(name@, "cpu"@),
            s@.len() > prefix@.len(),
            prefix@.len() <= i <= s@.len(),
            forall|j: int| prefix@.len() <= j < i ==> numbers::ascii_digit(#[trigger] name@[j]),
        decreases s@.len() - i,
    {
        if !('0' <= s[i] && s[i] <= '9') {
            assert(!numbers::ascii_digit(name@[i as int]));
            return false;
        }
        i = i + 1;
    }
    true
}

/// The frequency of an entry in kHz.
fn read_khz(c: &Core) -> (r: Option<u64>)
    ensures
        match r {
            Some(khz) => core_khz(*c) == Some(khz as int),
            None => core_khz(*c) is None,
        },
{
    match &c.scaling_cur_freq {
        Some(t) => if is_core(c.name.as_str()) {
            numbers::read_u64(t.as_str())
        } else {
            None
        },
        None => None,
    }
}

/// Sum and number of the frequencies, wide enough for any entries.
fn wide_frequencies(cores: &Vec<Core>) -> (r: (u128, usize))
    ensures
        r.0 == khz_sum(cores@),
        r.1 == core_count(cores@),
{
    let mut total: u128 = 0;
    let mut count: usize = 0;
    let mut i: usize = 0;
    while i < cores.len()
        invariant
            count <= i <= cores@.len(),
            total == khz_sum(cores@.take(i as int)),
            count == core_count(cores@.take(i as int)),
            total <= i * u64::MAX,
        decreases cores@.len() - i,
    {
        let ghost upto = cores@.take(i + 1);
        assert(upto.drop_last() == cores@.take(i as int));
        assert(upto.last() == cores@[i as int]);
        assert(i * u64::MAX + u64::MAX == (i + 1) * u64::MAX) by (nonlinear_arith);
        assert((i + 1) * u64::MAX <= u128::MAX) by (nonlinear_arith)
            requires
                i + 1 <= u64::MAX,
        ;
        if let Some(khz) = read_khz(&cores[i]) {
            total = total + khz as u128;
            count = count + 1;
        }
        i = i + 1;
    }
    assert(cores@.take(i as int) == cores@);
    (total, count)
}

/// Whether [`total_frequency`] can add up these entries.
pub fn cores_fit(cores: &Vec<Core>) -> (r: bool)
    ensures
        r == frequencies_fit(cores@),
{
    let (total, count): (u128, usize) = wide_frequencies(cores);
    total <= u64::MAX as u128 && count as u64 <= u32::MAX as u64
}

/// The sum of the core frequencies in kHz, and how many cores it sums: what their mean
/// takes.
pub fn total_frequency(cores: &Vec<Core>) -> (r: (u64, u32))
    requires
        frequencies_fit(cores@),
    ensures
        r.0 == khz_sum(cores@),
        r.1 == core_count(cores@),
{
    let (total, count): (u128, usize) = wide_frequencies(cores);
    (total as u64, count as u32)
}

/// Only a `cpu` with a number after it is a core.
pub proof fn law_cores_are_numbered(name: Seq<char>)
    ensures
        core_name("cpu"@ + name) <==> name.len() > 0 && forall|i: int|
            0 <= i < name.len() ==> '0' <= #[trigger] name[i] <= '9',
{
    let all = "cpu"@ + name;
    let n = "cpu"@.len() as int;
    assert(all.take(n) == "cpu"@);
    if core_name(all) {
        assert forall|i: int| 0 <= i < name.len() implies '0' <= #[trigger] name[i] <= '9' by {
            assert(numbers::ascii_digit(all[n + i]));
        }
    }
    if forall|i: int| 0 <= i < name.len() ==> '0' <= #[trigger] name[i] <= '9' {
        assert forall|i: int| n <= i < all.len() implies numbers::ascii_digit(#[trigger] all[i]) by {
            assert('0' <= name[i - n] <= '9');
        }
    }
}

/// An entry that is not a core, or does not tell its frequency, makes no difference.
pub proof fn law_other_entries_are_not_cores(cores: Seq<Core>, other: Core)
    requires
        core_khz(other) is None,
    ensures
        khz_sum(cores.push(other)) == khz_sum(cores),
        core_count(cores.push(other)) == core_count(cores),
{
    assert(cores.push(other).drop_last() == cores);
}

/// Utilisation is what the counters gained: where `b` busy and `t` total jiffies were added
/// to any earlier times, exactly those are found again.
pub proof fn law_usage_is_what_the_counters_gained(prev: (u64, u64), b: u64, t: u64)
    requires
        prev.0 + b <= u64::MAX,
        prev.1 + t <= u64::MAX,
        t > 0,
    ensures
        busy_share(prev, ((prev.0 + b) as u64, (prev.1 + t) as u64)) == Some((b, t)),
{
}

/// Counters that went backwards gained nothing: without time there is no utilisation, and
/// without busy time it is none of the time.
pub proof fn law_backward_counters_gain_nothing(prev: (u64, u64), cur: (u64, u64))
    ensures
        cur.1 <= prev.1 ==> busy_share(prev, cur) is None,
        cur.1 > prev.1 && cur.0 <= prev.0 ==> busy_share(prev, cur) == Some(
            (0u64, (cur.1 - prev.1) as u64),
        ),
{
}

/// Fields with the same gap before each.
pub open spec fn spaced(gap: Seq<char>, fields: Seq<Seq<char>>) -> Seq<char>
    decreases fields.len(),
{
    if fields.len() == 0 {
        Seq::empty()
    } else {
        gap + fields[0] + spaced(gap, fields.skip(1))
    }
}

/// Whether a text is one field: not empty, and without white space.
pub open spec fn is_field(s: Seq<char>) -> bool {
    s.len() > 0 && forall|i: int| 0 <= i < s.len() ==> !text::white(#[trigger] s[i])
}

proof fn lemma_words_of_spaced(gap: Seq<char>, fields: Seq<Seq<char>>)
    requires
        gap.len() > 0,
        forall|i: int| 0 <= i < gap.len() ==> text::white(#[trigger] gap[i]),
        forall|i: int| 0 <= i < fields.len() ==> is_field(#[trigger] fields[i]),
    ensures
        text::words(spaced(gap, fields)) == fields,
        fields.len() > 0 ==> text::white(spaced(gap, fields)[0]),
    decreases fields.len(),
{
    if fields.len() == 0 {
        text::law_words_are_runs(Seq::empty(), seq!['x'], Seq::empty());
    } else {
        let more = fields.skip(1);
        assert forall|i: int| 0 <= i < more.len() implies is_field(#[trigger] more[i]) by {
            assert(more[i] == fields[i + 1]);
        }
        lemma_words_of_spaced(gap, more);
        assert(is_field(fields[0]));
        text::law_words_are_runs(gap, fields[0], spaced(gap, more));
        assert(seq![fields[0]] + more == fields);
    }
}

proof fn lemma_counter_sum_is_fold(fields: Seq<Seq<char>>, counts: Seq<int>)
    requires
        fields.len() == counts.len(),
        forall|i: int| 0 <= i < fields.len() ==> counter(#[trigger] fields[i]) == counts[i],
    ensures
        counter_sum(fields) == counts.fold_left(0int, |total: int, n: int| total + n),
    decreases fields.len(),
{
    if fields.len() > 0 {
        assert forall|i: int| 0 <= i < fields.len() - 1 implies counter(
            #[trigger] fields.drop_last()[i],
        ) == counts.drop_last()[i] by {
            assert(fields.drop_last()[i] == fields[i]);
        }
        lemma_counter_sum_is_fold(fields.drop_last(), counts.drop_last());
        assert(counter(fields[fields.len() - 1]) == counts.last());
    }
}

proof fn lemma_aggregate_after(others: Seq<Seq<char>>, found: Seq<Seq<char>>)
    requires
        others.len() <= found.len(),
        forall|i: int|
            0 <= i < others.len() ==> !is_aggregate(#[trigger] others[i]) && (found[i] == others[i]
                || others[i] == found[i] + seq!['\r']),
    ensures
        aggregate(found) == aggregate(found.skip(others.len() as int)),
    decreases others.len(),
{
    if others.len() == 0 {
        assert(found.skip(0) == found);
    } else {
        assert(!is_aggregate(others[0]));
        assert(!is_aggregate(found[0])) by {
            if is_aggregate(found[0]) {
                reveal_strlit("cpu ");
                assert(others[0].take(4) == found[0].take(4));
            }
        }
        let (a, b) = (others.skip(1), found.skip(1));
        assert forall|i: int| 0 <= i < a.len() implies !is_aggregate(#[trigger] a[i]) && (b[i]
            == a[i] || a[i] == b[i] + seq!['\r']) by {
            assert(a[i] == others[i + 1]);
        }
        lemma_aggregate_after(a, b);
        assert(b.skip(a.len() as int) == found.skip(others.len() as int));
    }
}

/// The first line that starts with `cpu` and a space is read, whatever other lines come
/// before and after it. Of its fields, which may stand any white space apart, the first eight
/// are added up, a field that is not a number as zero; the fourth and the fifth of them are
/// not busy. Fewer than five fields tell nothing.
#[verifier::rlimit(60)]
pub proof fn law_cpu_times_are_sums(
    others: Seq<Seq<char>>,
    gap: Seq<char>,
    fields: Seq<Seq<char>>,
    counts: Seq<int>,
    rest: Seq<char>,
)
    requires
        forall|i: int|
            0 <= i < others.len() ==> !(#[trigger] others[i]).contains('\n') && !text::starts_with(
                others[i],
                "cpu "@,
            ),
        gap.len() > 0,
        gap[0] == ' ',
        forall|i: int| 0 <= i < gap.len() ==> text::white(#[trigger] gap[i]) && gap[i] != '\n',
        0 < fields.len() == counts.len(),
        forall|i: int| 0 <= i < fields.len() ==> is_field(#[trigger] fields[i]),
        forall|i: int|
            0 <= i < fields.len() ==> #[trigger] counts[i] == match numbers::unsigned(
                fields[i],
                10,
                u64::MAX as int,
            ) {
                Some(n) => n,
                None => 0,
            },
    ensures
        ({
            let stat = text::terminated(others) + ("cpu"@ + spaced(gap, fields)) + seq!['\n'] + rest;
            let summed = if counts.len() > 8 {
                counts.take(8)
            } else {
                counts
            };
            let total = summed.fold_left(0int, |total: int, n: int| total + n);
            cpu_times(stat) == if fields.len() < 5 {
                None
            } else {
                Some((total - counts[3] - counts[4], total))
            }
        }),
{
    let line = "cpu"@ + spaced(gap, fields);
    let tail = line + seq!['\n'] + rest;
    let stat = text::terminated(others) + line + seq!['\n'] + rest;
    assert(stat == text::terminated(others) + tail);
    assert("cpu"@ =~= seq!['c', 'p', 'u'] && "cpu "@ =~= seq!['c', 'p', 'u', ' ']) by {
        reveal_strlit("cpu");
        reveal_strlit("cpu ");
    }
    // The line is one line.
    lemma_spaced_is_one_line(gap, fields);
    assert(!line.contains('\n')) by {
        if line.contains('\n') {
            let i = choose|i: int| 0 <= i < line.len() && line[i] == '\n';
            assert(i >= 3);
            assert(spaced(gap, fields)[i - 3] == '\n');
        }
    }
    text::law_lines_end_at_line_feeds(line, rest);
    assert(text::lines(tail)[0] == line);
    assert forall|i: int| 0 <= i < others.len() implies !(#[trigger] others[i]).contains('\n') by {
    }
    text::law_terminated_lines_read_back(others, tail);
    let found = text::lines(stat);
    assert forall|i: int| 0 <= i < others.len() implies !is_aggregate(#[trigger] others[i]) && (
    found[i] == others[i] || others[i] == found[i] + seq!['\r']) by {
        let l = text::lines(text::terminated(others) + tail)[i];
        assert(l == found[i]);
    }
    lemma_aggregate_after(others, found);
    assert(spaced(gap, fields)[0] == ' ');
    assert(line.take(4) =~= "cpu "@);
    assert(is_aggregate(line));
    assert(aggregate(found) == Some(line));
    // Its fields.
    assert forall|i: int| 0 <= i < gap.len() implies text::white(#[trigger] gap[i]) by {
    }
    lemma_words_of_spaced(gap, fields);
    assert(is_field("cpu"@));
    assert(Seq::<char>::empty() + "cpu"@ + spaced(gap, fields) == line);
    text::law_words_are_runs(Seq::empty(), "cpu"@, spaced(gap, fields));
    assert(text::words(line).skip(1) == fields);
    let c = counters(line);
    let summed = if counts.len() > 8 {
        counts.take(8)
    } else {
        counts
    };
    assert forall|i: int| 0 <= i < c.len() implies counter(#[trigger] c[i]) == summed[i] by {
        assert(c[i] == fields[i]);
        assert(counts[i] == counter(fields[i]));
    }
    lemma_counter_sum_is_fold(c, summed);
    if fields.len() >= 5 {
        assert(counter(c[3]) == counts[3] && counter(c[4]) == counts[4]);
    }
}

proof fn lemma_spaced_is_one_line(gap: Seq<char>, fields: Seq<Seq<char>>)
    requires
        gap.len() > 0,
        forall|i: int| 0 <= i < gap.len() ==> text::white(#[trigger] gap[i]) && gap[i] != '\n',
        forall|i: int| 0 <= i < fields.len() ==> is_field(#[trigger] fields[i]),
    ensures
        !spaced(gap, fields).contains('\n'),
        fields.len() > 0 ==> spaced(gap, fields)[0] == gap[0] && spaced(gap, fields).len() > 0
            && spaced(gap, fields).last() != '\r',
    decreases fields.len(),
{
    if fields.len() > 0 {
        let more = fields.skip(1);
        assert forall|i: int| 0 <= i < more.len() implies is_field(#[trigger] more[i]) by {
            assert(more[i] == fields[i + 1]);
        }
        lemma_spaced_is_one_line(gap, more);
        let f = fields[0];
        assert(is_field(f));
        let s = spaced(gap, fields);
        assert forall|i: int| 0 <= i < s.len() implies s[i] != '\n' by {
            if i < gap.len() {
                assert(text::white(gap[i]));
            } else if i < gap.len() + f.len() {
                assert(!text::white(f[i - gap.len()]));
            } else {
                assert(spaced(gap, more).contains(spaced(gap, more)[i - gap.len() - f.len()]));
            }
        }
        if more.len() == 0 {
            assert(s.last() == f.last());
            assert(!text::white(f[f.len() - 1]));
        } else {
            assert(s.last() == spaced(gap, more).last());
        }
    }
}

/// A text none of whose lines starts with `cpu` and a space counts no CPU times.
pub proof fn law_other_lines_count_nothing(others: Seq<Seq<char>>)
    requires
        forall|i: int|
            0 <= i < others.len() ==> !(#[trigger] others[i]).contains('\n') && !text::starts_with(
                others[i],
                "cpu "@,
            ),
    ensures
        cpu_times(text::terminated(others)) is None,
{
    let stat = text::terminated(others);
    let none = Seq::<char>::empty();
    assert(stat + none == stat);
    assert forall|i: int| 0 <= i < others.len() implies !(#[trigger] others[i]).contains('\n') by {
    }
    text::law_terminated_lines_read_back(others, none);
    let found = text::lines(stat);
    assert forall|i: int| 0 <= i < others.len() implies !is_aggregate(#[trigger] others[i]) && (
    found[i] == others[i] || others[i] == found[i] + seq!['\r']) by {
        let l = text::lines(stat + none)[i];
        assert(l == found[i]);
    }
    lemma_aggregate_after(others, found);
    assert(text::lines(none).len() == 0);
}

/// A core that tells its frequency adds it to the sum and one to the count; any other entry
/// adds nothing, and no entries add up to nothing.
pub proof fn law_cores_add_their_frequencies(cores: Seq<Core>, c: Core)
    ensures
        khz_sum(Seq::empty()) == 0,
        core_count(Seq::empty()) == 0,
        ({
            let numbered = exists|d: Seq<char>|
                {
                    &&& c.name@ == "cpu"@ + d
                    &&& d.len() > 0
                    &&& forall|i: int| 0 <= i < d.len() ==> '0' <= #[trigger] d[i] <= '9'
                };
            let khz = match c.scaling_cur_freq {
                Some(t) => numbers::u64_in(t@),
                None => None,
            };
            let counts = numbered && khz is Some;
            &&& khz_sum(cores.push(c)) == khz_sum(cores) + if counts {
                khz->0
            } else {
                0
            }
            &&& core_count(cores.push(c)) == core_count(cores) + if counts {
                1int
            } else {
                0
            }
        }),
{
    assert(cores.push(c).drop_last() == cores);
    let d = c.name@.skip("cpu"@.len() as int);
    text::law_prefixes_and_suffixes(c.name@, "cpu"@);
    if core_name(c.name@) {
        law_cores_are_numbered(d);
        assert(c.name@ == "cpu"@ + d);
    }
    assert forall|e: Seq<char>|
        c.name@ == "cpu"@ + e && e.len() > 0 && (forall|i: int|
            0 <= i < e.len() ==> '0' <= #[trigger] e[i] <= '9') implies core_name(c.name@) by {
        law_cores_are_numbered(e);
    }
}

/// Counters can be added up exactly if their sums are numbers of 64 bits and the cores are no
/// more than 32 bits count; a text without CPU times has nothing to add up.
pub proof fn law_sums_that_fit(stat: Seq<char>, cores: Seq<Core>)
    ensures
        cpu_times(stat) is None ==> times_fit(stat),
        cpu_times(stat) matches Some((busy, total)) ==> (times_fit(stat) <==> total
            <= 0xFFFF_FFFF_FFFF_FFFF),
        frequencies_fit(cores) <==> khz_sum(cores) <= 0xFFFF_FFFF_FFFF_FFFF && core_count(cores)
            <= 0xFFFF_FFFF,
{
}

} // verus!
