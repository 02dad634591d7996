//! How workers are placed on the machine: what is known of it, and what follows.

use vstd::prelude::*;
use vstd::string::*;
use vstd::utf8::*;

use crate::config;
use crate::config::Config;
use crate::header_util;
use crate::header_util::find_bytes;
use crate::http;
use crate::shared;
use crate::text;
use crate::text::{
    append_decimal, read_unsigned, split_str, split_words, str_eq, str_eq_ci, strip_prefix,
    strip_suffix, trim_str,
};

verus! {

/// A setting with three states: as the machine suggests, forced on, or forced off.
#[derive(Clone, Copy, PartialEq, Eq, Structural, Debug)]
pub enum Policy {
    Auto,
    On,
    Off,
}

/// Whether a text, trimmed, is a word up to the case of ASCII letters.
pub open spec fn is_word(raw: Seq<char>, word: &str) -> bool {
    text::eq_ci(encode_utf8(text::trim(raw)), word.spec_bytes())
}

/// The policy that a setting names. What is not recognised counts as `auto`.
pub open spec fn policy_of(raw: Option<Seq<char>>) -> Policy {
    match raw {
        Some(s) => if is_word(s, "on") || is_word(s, "true") || is_word(s, "1") || is_word(
            s,
            "yes",
        ) {
            Policy::On
        } else if is_word(s, "off") || is_word(s, "false") || is_word(s, "0") || is_word(s, "no") {
            Policy::Off
        } else {
            Policy::Auto
        },
        None => Policy::Auto,
    }
}

/// The policy that a setting names, and whether the setting is recognised.
pub fn read_policy(raw: Option<&str>) -> (r: (Policy, bool))
    ensures
        r.0 == policy_of(http::opt_view(raw)),
        r.1 == (raw matches Some(s) ==> r.0 != Policy::Auto || is_word(s@, "auto") || is_word(
            s@,
            "",
        )),
{
    match raw {
        Some(s) => {
            let t = trim_str(s);
            if str_eq_ci(t, "on") || str_eq_ci(t, "true") || str_eq_ci(t, "1") || str_eq_ci(
                t,
                "yes",
            ) {
                (Policy::On, true)
            } else if str_eq_ci(t, "off") || str_eq_ci(t, "false") || str_eq_ci(t, "0")
                || str_eq_ci(t, "no") {
                (Policy::Off, true)
            } else {
                (Policy::Auto, str_eq_ci(t, "auto") || str_eq_ci(t, ""))
            }
        },
        None => (Policy::Auto, true),
    }
}

/// The policy that a setting names.
pub fn parse_policy(_field: &str, raw: Option<&str>) -> (r: Policy)
    ensures
        r == policy_of(http::opt_view(raw)),
{
    read_policy(raw).0
}

// ---------------------------------------------------------------------------
// What is known of the machine
// ---------------------------------------------------------------------------

/// Whether an entry of an environment is `container=` with a value.
pub open spec fn marks_container(e: Seq<u8>) -> bool {
    "container=".spec_bytes().is_prefix_of(e) && e.len() > "container=".spec_bytes().len()
}

/// Whether an environment, its entries closed by zero bytes, has `container` with a value.
pub open spec fn has_container(environ: Seq<u8>) -> bool {
    exists|i: int|
        0 <= i < text::split(environ, 0u8).len() && marks_container(
            #[trigger] text::split(environ, 0u8)[i],
        )
}

proof fn lemma_split_first(s: Seq<u8>, c: u8)
    ensures
        text::split(s, c).len() > 0,
        text::split(s, c)[0] == s.take(text::find(s, c)),
        text::find(s, c) < s.len() ==> text::split(s, c).drop_first() == text::split(
            s.skip(text::find(s, c) + 1),
            c,
        ),
        text::find(s, c) >= s.len() ==> text::split(s, c).len() == 1,
{
    text::lemma_find(s, c);
    if text::find(s, c) >= s.len() {
        assert(s.take(text::find(s, c)) =~= s);
    } else {
        assert(text::split(s, c).drop_first() =~= text::split(s.skip(text::find(s, c) + 1), c));
    }
}

fn entry_marks_container(e: &[u8]) -> (r: bool)
    ensures
        r == marks_container(e@),
{
    let key = "container=".as_bytes();
    let m: usize = key.len();
    if e.len() <= m {
        return false;
    }
    let r = text::bytes_eq(&e[0..m], key);
    assert(key@.is_prefix_of(e@) == (e@.subrange(0, m as int) == key@));
    r
}

/// Whether an environment, its entries closed by zero bytes, has `container` with a value.
pub fn env_has_container(environ: &[u8]) -> (r: bool)
    ensures
        r == has_container(environ@),
{
    let n: usize = environ.len();
    let mut start: usize = 0;
    assert(environ@.skip(0) =~= environ@);
    loop
        invariant
            n == environ@.len(),
            start <= n,
            has_container(environ@) == has_container(environ@.skip(start as int)),
        decreases n - start,
    {
        let ghost rest = environ@.skip(start as int);
        let mut end: usize = start;
        while end < n && environ[end] != 0
            invariant
                n == environ@.len(),
                start <= end <= n,
                forall|j: int| start <= j < end ==> environ@[j] != 0,
            decreases n - end,
        {
            end += 1;
        }
        proof {
            assert forall|j: int| 0 <= j < end - start implies rest[j] != 0u8 by {
                assert(rest[j] == environ@[start + j]);
            }
            text::lemma_find_is(rest, 0u8, end - start);
            lemma_split_first(rest, 0u8);
            assert(rest.take(end - start) =~= environ@.subrange(start as int, end as int));
        }
        if entry_marks_container(&environ[start..end]) {
            assert(marks_container(text::split(rest, 0u8)[0]));
            return true;
        }
        proof {
            let ps = text::split(rest, 0u8);
            if end < n {
                let next = environ@.skip(end + 1);
                assert(rest.skip(end - start + 1) =~= next);
                if has_container(rest) {
                    let i = choose|i: int|
                        0 <= i < ps.len() && marks_container(#[trigger] ps[i]);
                    assert(ps.drop_first()[i - 1] == ps[i]);
                    assert(marks_container(text::split(next, 0u8)[i - 1]));
                }
                if has_container(next) {
                    let i = choose|i: int|
                        0 <= i < text::split(next, 0u8).len() && marks_container(
                            #[trigger] text::split(next, 0u8)[i],
                        );
                    assert(ps.drop_first()[i] == ps[i + 1]);
                    assert(marks_container(ps[i + 1]));
                }
            }
        }
        if end >= n {
            return false;
        }
        start = end + 1;
    }
}

/// Whether the control groups of the first process name a container runtime.
pub open spec fn names_runtime(cgroup: Seq<char>) -> bool {
    let b = encode_utf8(cgroup);
    ||| header_util::search(b, "docker".spec_bytes(), 0) is Some
    ||| header_util::search(b, "kubepods".spec_bytes(), 0) is Some
    ||| header_util::search(b, "containerd".spec_bytes(), 0) is Some
    ||| header_util::search(b, "/lxc".spec_bytes(), 0) is Some
}

/// Whether the machine looks like a container: a marker file is there, or the control groups or the
/// environment of the first process say so.
pub fn detect_container(marker_file: bool, cgroup: Option<&str>, environ: Option<&[u8]>) -> (r: bool)
    ensures
        r == (marker_file || (cgroup matches Some(s) && names_runtime(s@)) || (
        environ matches Some(e) && has_container(e@))),
{
    if marker_file {
        return true;
    }
    if let Some(s) = cgroup {
        let b = s.as_bytes();
        if find_bytes(b, "docker".as_bytes()).is_some() || find_bytes(
            b,
            "kubepods".as_bytes(),
        ).is_some() || find_bytes(b, "containerd".as_bytes()).is_some() || find_bytes(
            b,
            "/lxc".as_bytes(),
        ).is_some() {
            return true;
        }
    }
    match environ {
        Some(e) => env_has_container(e),
        None => false,
    }
}

/// A line without the carriage return at its end.
pub open spec fn line_text(line: Seq<char>) -> Seq<char> {
    if "\r"@.is_suffix_of(line) {
        line.take(line.len() - 1)
    } else {
        line
    }
}

/// The capabilities that a line of a process status gives.
pub open spec fn line_caps(line: Seq<char>) -> Option<nat> {
    if "CapEff:"@.is_prefix_of(line_text(line)) {
        text::parse_unsigned(
            encode_utf8(text::trim(line_text(line).skip("CapEff:"@.len() as int))),
            16,
            u64::MAX as nat,
        )
    } else {
        None
    }
}

/// The capabilities that the lines of a process status give, by the first that does.
pub open spec fn caps_of(lines: Seq<Seq<char>>) -> Option<nat>
    decreases lines.len(),
{
    if lines.len() == 0 {
        None
    } else if line_caps(lines[0]) is Some {
        line_caps(lines[0])
    } else {
        caps_of(lines.drop_first())
    }
}

/// Whether a process may raise its priority: bit 23 of its effective capabilities.
pub open spec fn has_sys_nice(status: Seq<char>) -> bool {
    caps_of(text::split(status, '\n')) matches Some(bits) && bits / 0x80_0000 % 2 == 1
}

/// Whether a process may raise its priority, by its status.
pub fn detect_cap_sys_nice(status: &str) -> (r: bool)
    ensures
        r == has_sys_nice(status@),
{
    let lines = split_str(status, '\n');
    let ghost ls = text::split(status@, '\n');
    assert(ls.skip(0) =~= ls);
    proof {
        reveal_strlit("\r");
    }
    for i in 0..lines.len()
        invariant
            ls == text::split(status@, '\n'),
            text::views(lines@) == ls,
            "\r"@.len() == 1,
            caps_of(ls) == caps_of(ls.skip(i as int)),
    {
        proof {
            assert(text::views(lines@)[i as int] == lines@[i as int]@);
            assert(ls.skip(i as int)[0] == ls[i as int]);
            assert(ls.skip(i as int).drop_first() =~= ls.skip(i + 1));
        }
        let line = match strip_suffix(lines[i], "\r") {
            Some(l) => l,
            None => lines[i],
        };
        assert(line@ == line_text(ls[i as int]));
        if let Some(hex) = strip_prefix(line, "CapEff:") {
            if let Some(bits) = read_unsigned(trim_str(hex).as_bytes(), 16, u64::MAX) {
                return bits / 0x80_0000 % 2 == 1;
            }
        }
    }
    false
}

// ---------------------------------------------------------------------------
// What follows
// ---------------------------------------------------------------------------

/// What is known of the machine.
pub struct HostFacts {
    /// The cores that the process may run on.
    pub allowed_cpus: Vec<usize>,
    /// The cores of the machine.
    pub host_cpus: usize,
    pub is_container: bool,
    /// Whether a quota grants less than the cores or the workers would take.
    pub oversubscribed: bool,
    pub cap_sys_nice: bool,
}

/// What is known of the machine, and how workers are placed on it.
pub struct RuntimeEnv {
    pub allowed_cpus: Vec<usize>,
    pub host_cpus: usize,
    pub is_container: bool,
    pub oversubscribed: bool,
    pub cap_sys_nice: bool,
    pub num_workers: usize,
    /// Whether worker `i` is pinned to core `allowed_cpus[i % len]`.
    pub affinity_on: bool,
    /// Milliseconds after which the kernel's polling thread sleeps, where there is one.
    pub sqpoll_idle: Option<u32>,
    pub uring_flags_on: bool,
}

/// Whether workers are pinned. Left to the machine, they are where there are more cores than
/// workers and no quota is in the way.
pub open spec fn pins(p: Policy, cpus: nat, workers: nat, oversubscribed: bool) -> bool {
    match p {
        Policy::On => true,
        Policy::Off => false,
        Policy::Auto => cpus > workers && !oversubscribed,
    }
}

fn opt_str(s: &Option<String>) -> (r: Option<&str>)
    ensures
        http::opt_view(r) == config::opt_text(*s),
{
    match s {
        Some(t) => Some(t.as_str()),
        None => None,
    }
}

/// Decides how workers are placed. Polling and the flags of the ring are on only where they are
/// forced on.
pub fn detect(cfg: &Config, num_workers: usize, facts: HostFacts) -> (r: RuntimeEnv)
    ensures
        r.allowed_cpus@ == facts.allowed_cpus@,
        r.host_cpus == facts.host_cpus,
        r.is_container == facts.is_container,
        r.oversubscribed == facts.oversubscribed,
        r.cap_sys_nice == facts.cap_sys_nice,
        r.num_workers == num_workers,
        r.affinity_on == pins(
            policy_of(config::opt_text(cfg.cpu_affinity)),
            facts.allowed_cpus@.len(),
            num_workers as nat,
            facts.oversubscribed,
        ),
        r.sqpoll_idle == if policy_of(config::opt_text(cfg.sqpoll)) == Policy::On {
            Some(config::or(cfg.sqpoll_idle_ms, 1000))
        } else {
            None
        },
        r.uring_flags_on == (policy_of(config::opt_text(cfg.uring_flags)) == Policy::On),
{
    let affinity_on = match parse_policy("cpu_affinity", opt_str(&cfg.cpu_affinity)) {
        Policy::On => true,
        Policy::Off => false,
        Policy::Auto => facts.allowed_cpus.len() > num_workers && !facts.oversubscribed,
    };
    let sqpoll_idle: Option<u32> = match parse_policy("sqpoll", opt_str(&cfg.sqpoll)) {
        Policy::On => match cfg.sqpoll_idle_ms {
            Some(ms) => Some(ms),
            None => Some(1000),
        },
        _ => None,
    };
    let uring_flags_on = match parse_policy("uring_flags", opt_str(&cfg.uring_flags)) {
        Policy::On => true,
        _ => false,
    };
    RuntimeEnv {
        allowed_cpus: facts.allowed_cpus,
        host_cpus: facts.host_cpus,
        is_container: facts.is_container,
        oversubscribed: facts.oversubscribed,
        cap_sys_nice: facts.cap_sys_nice,
        num_workers,
        affinity_on,
        sqpoll_idle,
        uring_flags_on,
    }
}

/// The core that a worker is pinned to, where it is: the workers go round the cores.
pub fn worker_cpu(env: &RuntimeEnv, worker_id: usize) -> (r: Option<usize>)
    ensures
        r == if env.affinity_on && env.allowed_cpus@.len() > 0 {
            Some(env.allowed_cpus@[worker_id as int % env.allowed_cpus@.len() as int])
        } else {
            None
        },
{
    if !env.affinity_on || env.allowed_cpus.len() == 0 {
        return None;
    }
    Some(env.allowed_cpus[worker_id % env.allowed_cpus.len()])
}

/// Some numbers with commas between.
pub open spec fn number_list(v: Seq<usize>) -> Seq<char>
    decreases v.len(),
{
    if v.len() == 0 {
        ""@
    } else if v.len() == 1 {
        text::decimal(v[0] as nat)
    } else {
        number_list(v.drop_last()) + ", "@ + text::decimal(v.last() as nat)
    }
}

/// `true` or `false`.
pub open spec fn bool_text(b: bool) -> Seq<char> {
    if b {
        "true"@
    } else {
        "false"@
    }
}

/// `on` or `off`.
pub open spec fn switch_text(b: bool) -> Seq<char> {
    if b {
        "on"@
    } else {
        "off"@
    }
}

/// The state of the kernel's polling thread.
pub open spec fn sqpoll_text(idle: Option<u32>) -> Seq<char> {
    match idle {
        Some(ms) => "on(idle="@ + text::decimal(ms as nat) + "ms)"@,
        None => "off"@,
    }
}

/// What is known of the machine, and how workers are placed on it, in one line.
pub open spec fn summary_text(env: RuntimeEnv) -> Seq<char> {
    "runtime env: cpus_allowed=["@ + number_list(env.allowed_cpus@) + "] (n="@ + text::decimal(
        env.allowed_cpus@.len(),
    ) + "), host_cpus="@ + text::decimal(env.host_cpus as nat) + ", container="@ + bool_text(
        env.is_container,
    ) + ", oversubscribed="@ + bool_text(env.oversubscribed) + ", cap_sys_nice="@ + bool_text(
        env.cap_sys_nice,
    ) + ", workers="@ + text::decimal(env.num_workers as nat) + ", shm_layout="@
        + shared::SHM_LAYOUT_VERSION@ + " => affinity="@ + switch_text(env.affinity_on)
        + ", sqpoll="@ + sqpoll_text(env.sqpoll_idle) + ", uring_flags="@ + switch_text(
        env.uring_flags_on,
    )
}

fn append_bool(out: &mut String, b: bool)
    ensures
        final(out)@ == old(out)@ + bool_text(b),
{
    if b {
        out.append("true");
    } else {
        out.append("false");
    }
}

fn append_switch(out: &mut String, b: bool)
    ensures
        final(out)@ == old(out)@ + switch_text(b),
{
    if b {
        out.append("on");
    } else {
        out.append("off");
    }
}

fn append_numbers(out: &mut String, v: &Vec<usize>)
    ensures
        final(out)@ == old(out)@ + number_list(v@),
{
    proof {
        reveal_strlit("");
    }
    assert(out@ =~= old(out)@ + number_list(v@.take(0)));
    for i in 0..v.len()
        invariant
            out@ == old(out)@ + number_list(v@.take(i as int)),
            ""@ == Seq::<char>::empty(),
    {
        let ghost before = out@;
        if i > 0 {
            out.append(", ");
        }
        append_decimal(out, v[i] as u64);
        assert(v@.take(i + 1).drop_last() =~= v@.take(i as int));
        assert(out@ =~= old(out)@ + number_list(v@.take(i + 1)));
    }
    assert(v@.take(v@.len() as int) =~= v@);
}

/// The state of the kernel's polling thread.
pub fn sqpoll_state(idle: Option<u32>) -> (r: String)
    ensures
        r@ == sqpoll_text(idle),
{
    match idle {
        Some(ms) => {
            let mut s = "on(idle=".to_owned();
            append_decimal(&mut s, ms as u64);
            s.append("ms)");
            s
        },
        None => "off".to_owned(),
    }
}

/// What is known of the machine, and how workers are placed on it, in one line.
pub fn log_summary(env: &RuntimeEnv) -> (r: String)
    ensures
        r@ == summary_text(*env),
{
    let mut s = "runtime env: cpus_allowed=[".to_owned();
    append_numbers(&mut s, &env.allowed_cpus);
    s.append("] (n=");
    append_decimal(&mut s, env.allowed_cpus.len() as u64);
    s.append("), host_cpus=");
    append_decimal(&mut s, env.host_cpus as u64);
    s.append(", container=");
    append_bool(&mut s, env.is_container);
    s.append(", oversubscribed=");
    append_bool(&mut s, env.oversubscribed);
    s.append(", cap_sys_nice=");
    append_bool(&mut s, env.cap_sys_nice);
    s.append(", workers=");
    append_decimal(&mut s, env.num_workers as u64);
    s.append(", shm_layout=");
    s.append(shared::SHM_LAYOUT_VERSION);
    s.append(" => affinity=");
    append_switch(&mut s, env.affinity_on);
    s.append(", sqpoll=");
    s.append(sqpoll_state(env.sqpoll_idle).as_str());
    s.append(", uring_flags=");
    append_switch(&mut s, env.uring_flags_on);
    assert(s@ =~= summary_text(*env));
    s
}

// ---------------------------------------------------------------------------
// Load of the machine
// ---------------------------------------------------------------------------

/// Time, in ticks, that the cores spent since the machine started: idle, and in all.
#[derive(Clone, Copy, PartialEq, Eq, Structural, Debug)]
pub struct CpuTimes {
    pub idle: u128,
    pub total: u128,
}

/// The number at a place of a list of words; 0 where it is no number or not there.
pub open spec fn number_at(ws: Seq<Seq<char>>, i: int) -> nat {
    if i < ws.len() {
        match text::parse_unsigned(encode_utf8(ws[i]), 10, u64::MAX as nat) {
            Some(n) => n,
            None => 0,
        }
    } else {
        0
    }
}

/// Whether the first line of the kernel's statistics gives times.
pub open spec fn gives_times(ws: Seq<Seq<char>>) -> bool {
    ws.len() > 7 && ws[0] == "cpu"@
}

/// The first line of a text.
pub open spec fn first_line(s: Seq<char>) -> Seq<char> {
    line_text(s.take(text::find(s, '\n')))
}

fn word_number(ws: &Vec<&str>, i: usize) -> (r: u64)
    ensures
        r == number_at(text::views(ws@), i as int),
{
    if i < ws.len() {
        assert(text::views(ws@)[i as int] == ws@[i as int]@);
        match read_unsigned(ws[i].as_bytes(), 10, u64::MAX) {
            Some(n) => n,
            None => 0,
        }
    } else {
        0
    }
}

/// The times that the kernel's statistics give in their first line: of user, nice, system, idle,
/// iowait, irq, softirq and, where it is there, steal.
pub fn read_cpu_times(stat: &str) -> (r: Option<CpuTimes>)
    ensures
        ({
            let ws = text::words(first_line(stat@));
            match r {
                Some(t) => {
                    &&& gives_times(ws)
                    &&& t.idle == number_at(ws, 4) + number_at(ws, 5)
                    &&& t.total == number_at(ws, 1) + number_at(ws, 2) + number_at(ws, 3)
                        + number_at(ws, 4) + number_at(ws, 5) + number_at(ws, 6) + number_at(ws, 7)
                        + number_at(ws, 8)
                },
                None => !gives_times(ws),
            }
        }),
        r matches Some(t) ==> t.total <= 8 * u64::MAX,
{
    proof {
        text::lemma_find(stat@, '\n');
        reveal_strlit("\r");
    }
    let raw = match text::split_once(stat, '\n') {
        Some((a, _)) => a,
        None => stat,
    };
    assert(raw@ =~= stat@.take(text::find(stat@, '\n')));
    let line = match strip_suffix(raw, "\r") {
        Some(l) => l,
        None => raw,
    };
    let ws = split_words(line);
    if ws.len() <= 7 {
        return None;
    }
    assert(text::views(ws@)[0] == ws@[0]@);
    if !str_eq(ws[0], "cpu") {
        return None;
    }
    let idle: u128 = word_number(&ws, 4) as u128 + word_number(&ws, 5) as u128;
    let busy: u128 = word_number(&ws, 1) as u128 + word_number(&ws, 2) as u128 + word_number(
        &ws,
        3,
    ) as u128 + word_number(&ws, 6) as u128 + word_number(&ws, 7) as u128 + word_number(&ws, 8)
        as u128;
    Some(CpuTimes { idle, total: idle + busy })
}

/// What has passed between two readings of a time, none where the later one is less.
pub open spec fn passed(before: u128, after: u128) -> int {
    if after >= before {
        after - before
    } else {
        0
    }
}

/// The load of the machine between two readings, in whole percent; `None` where no time has passed.
pub fn cpu_load(before: &CpuTimes, after: &CpuTimes) -> (r: Option<u8>)
    requires
        after.total <= 8 * u64::MAX,
    ensures
        ({
            let total = passed(before.total, after.total);
            let idle = passed(before.idle, after.idle);
            r == if total == 0 {
                None
            } else if idle >= total {
                Some(0u8)
            } else {
                Some((100 * (total - idle) / total) as u8)
            }
        }),
        r is None <==> after.total <= before.total,
        before.idle <= after.idle && after.idle - before.idle <= after.total - before.total ==> (
        r matches Some(p) ==> {
            let total = after.total - before.total;
            let busy = total - (after.idle - before.idle);
            p <= 100 && p * total <= 100 * busy < (p + 1) * total
        }),
{
    let total: u128 = if after.total >= before.total {
        after.total - before.total
    } else {
        0
    };
    let idle: u128 = if after.idle >= before.idle {
        after.idle - before.idle
    } else {
        0
    };
    if total == 0 {
        return None;
    }
    if idle >= total {
        return Some(0);
    }
    let busy: u128 = total - idle;
    assert(100 * busy / total as int <= 100) by (nonlinear_arith)
        requires
            0 < busy <= total,
    ;
    assert(({
        let p = 100 * busy / total as int;
        p * total <= 100 * busy < (p + 1) * total
    })) by (nonlinear_arith)
        requires
            0 < busy <= total,
    ;
    Some((100 * busy / total) as u8)
}

// ---------------------------------------------------------------------------
// Laws
// ---------------------------------------------------------------------------

/// Pinning goes round the allowed cores: workers that are as many apart as there are cores share
/// one, and a worker is only pinned to an allowed core.
pub proof fn law_workers_go_round_the_cores(cpus: Seq<usize>, worker: int)
    requires
        cpus.len() > 0,
        worker >= 0,
    ensures
        cpus.contains(cpus[worker % cpus.len() as int]),
        cpus[worker % cpus.len() as int] == cpus[(worker + cpus.len()) % cpus.len() as int],
{
    let n = cpus.len() as int;
    assert(0 <= worker % n < n) by (nonlinear_arith)
        requires
            n > 0,
    ;
    vstd::arithmetic::div_mod::lemma_mod_add_multiples_vanish(worker, n);
    assert((worker + n) % n == worker % n);
}

/// A forced setting decides, whatever is known of the machine.
pub proof fn law_forced_policy_decides(cpus: nat, workers: nat, oversubscribed: bool)
    ensures
        pins(Policy::On, cpus, workers, oversubscribed),
        !pins(Policy::Off, cpus, workers, oversubscribed),
        pins(Policy::Auto, cpus, workers, oversubscribed) ==> cpus > workers,
{
}

} // verus!
