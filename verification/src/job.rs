//! Admission of ART1 programs and JOB1 compiler jobs over the schema reader.
use vstd::prelude::*;
use vstd::utf8::encode_utf8;
use crate::noun::{Noun, P};
use crate::reader::{Reader, Step, sp_record, sp_field, sp_digest, sp_string, sp_list, sp_bytes, derefs, Clock, on_time};
use crate::limits::{JobLimits, RunLimits, all_admitted, first_refused, job_limit_message};
use crate::schema::{ART1, JOB1, LIM1, OPT1, PKG1, MOD1, SEQ1, BYT1, spec_wrap, spec_words, spec_record, write_bytes, write_seq, write_record, write_atom};
use crate::digest::{digest_of, noun_digest, particle, spec_particle, hash_data, spec_hash_data};
use crate::names::{identifier, is_module_path, label, spec_identifier, spec_module_path, spec_label};
use crate::ordering::{str_lt, str_eq, lex_lt};
use crate::manifest::{Options, Manifest, ModuleFile};
use crate::text::text;

verus! {

pub open spec fn msg_profiles() -> Seq<char> {
    "ART1 requires machine0 and matching supported profiles"@
}

/// Reads an ART1 program `[ART1 [machine [input [output [formula 0]]]]]`:
/// its formula and its profile.
pub open spec fn sp_program(n: Noun, rem: u32) -> Step<(Noun, u64)> {
    let (f, m) = sp_record(n, ART1, 4, rem);
    match f {
        Err(e) => (Err(e), m),
        Ok(fs) => {
            let (a, m1) = sp_field(fs[0], m);
            match a {
                Err(e) => (Err(e), m1),
                Ok(machine) => {
                    let (b, m2) = sp_field(fs[1], m1);
                    match b {
                        Err(e) => (Err(e), m2),
                        Ok(input) => {
                            let (c, m3) = sp_field(fs[2], m2);
                            match c {
                                Err(e) => (Err(e), m3),
                                Ok(output) => if machine != 0 || input > 1 || input != output {
                                    (Err(msg_profiles()), m3)
                                } else {
                                    (Ok((fs[3], input)), m3)
                                },
                            }
                        },
                    }
                },
            }
        },
    }
}

/// Reads an ART1 program: its formula and its profile (0 or 1).
pub fn program<'a>(r: &mut Reader, n: &'a Noun) -> (res: Result<(&'a Noun, u64), String>)
    ensures
        final(r).sequence_limit == old(r).sequence_limit,
        final(r).remaining <= old(r).remaining,
        final(r).clock == old(r).clock,
        on_time(old(r).clock, res) ==> ({
            &&& final(r).remaining == sp_program(*n, old(r).remaining).1
            &&& match sp_program(*n, old(r).remaining).0 {
                Ok((formula, profile)) => res is Ok && *res->Ok_0.0 == formula && res->Ok_0.1 == profile,
                Err(e) => res is Err && res->Err_0@ == e,
            }
        }),
{
    let fields = r.record(n, ART1, 4)?;
    let machine = r.field(fields[0])?;
    let input = r.field(fields[1])?;
    let output = r.field(fields[2])?;
    if machine != 0 || input > 1 || input != output {
        return Err(text("ART1 requires machine0 and matching supported profiles"));
    }
    Ok((fields[3], input))
}

/// Reads the field values of `nodes[i..]` after `acc`.
pub open spec fn sp_field_values(nodes: Seq<Noun>, i: nat, acc: Seq<u64>, rem: u32) -> Step<Seq<u64>>
    decreases nodes.len() - i,
{
    if i >= nodes.len() {
        (Ok(acc), rem)
    } else {
        let (f, m) = sp_field(nodes[i as int], rem);
        match f {
            Err(e) => (Err(e), m),
            Ok(v) => sp_field_values(nodes, i + 1, acc.push(v), m),
        }
    }
}

/// What the head of a job admission establishes: the six JOB1 fields, the
/// admitted limits, and the reader state it hands on.
pub open spec fn sp_admit_head(root: Noun, compiler: Noun, host: RunLimits, program_visits: u32)
    -> Result<(Seq<Noun>, JobLimits, u32, u32), Seq<char>>
{
    let total = host.compiler.validation_visits;
    if program_visits > total {
        Err("program validation visits"@)
    } else {
        let (f, m) = sp_record(root, JOB1, 6, (total - program_visits) as u32);
        match f {
            Err(e) => Err(e),
            Ok(fields) => {
                let (d, m2) = sp_digest(fields[0], m);
                match d {
                    Err(e) => Err(e),
                    Ok(expected) => if noun_digest(compiler) != expected {
                        Err("compiler identity mismatch"@)
                    } else {
                        let (l, m3) = sp_record(fields[5], LIM1, 11, m2);
                        match l {
                            Err(e) => Err(e),
                            Ok(nodes) => {
                                let (vs, m4) = sp_field_values(nodes, 0, Seq::empty(), m3);
                                match vs {
                                    Err(e) => Err(e),
                                    Ok(values) => if !all_admitted(values, host.caps()) {
                                        Err(job_limit_message(first_refused(values, host.caps()) as nat))
                                    } else {
                                        let limits = JobLimits::from_values(values);
                                        let spent = total - m4;
                                        if spent > limits.validation_visits {
                                            Err("job validation visits exhausted"@)
                                        } else {
                                            Ok((fields, limits, (limits.validation_visits - spent) as u32, limits.sequence_length))
                                        }
                                    },
                                }
                            },
                        }
                    },
                }
            },
        }
    }
}

/// The head of an admitted job: its fields, limits, and the reader that the
/// rest of the admission continues with.
pub struct JobHead<'a> {
    pub fields: Vec<&'a Noun>,
    pub limits: JobLimits,
    pub reader: Reader,
}

/// First part of job admission: the JOB1 record, the compiler identity and
/// the requested limits. The encoded sizes of the compiler and of the job
/// under those limits are checked next, by whoever holds their encodings,
/// before [`admit_body`].
#[verifier::rlimit(40)]
#[verifier::loop_isolation(false)]
pub fn admit_head<'a>(root: &'a Noun, compiler: &Noun, host: RunLimits, program_visits: u32, clock: Option<Clock>)
    -> (r: Result<JobHead<'a>, String>)
    ensures
        r is Ok ==> r->Ok_0.fields@.len() == 6 && r->Ok_0.reader.remaining <= r->Ok_0.limits.validation_visits
            && r->Ok_0.reader.sequence_limit == r->Ok_0.limits.sequence_length
            && r->Ok_0.reader.clock == clock,
        on_time(clock, r) ==> match sp_admit_head(*root, *compiler, host, program_visits) {
            Ok((fields, limits, rem, seq)) => r is Ok && derefs(r->Ok_0.fields@) == fields
                && r->Ok_0.limits == limits && r->Ok_0.reader.remaining == rem
                && r->Ok_0.reader.sequence_limit == seq,
            Err(e) => r is Err && r->Err_0@ == e,
        },
{
    let total = host.compiler.validation_visits;
    if program_visits > total {
        return Err(text("program validation visits"));
    }
    let mut r = Reader { remaining: total - program_visits, sequence_limit: host.compiler.sequence_length, clock };
    let fields = r.record(root, JOB1, 6)?;
    let expected = r.digest(fields[0])?;
    let actual = digest_of(compiler);
    if actual[0] != expected[0] || actual[1] != expected[1] || actual[2] != expected[2] || actual[3] != expected[3] {
        assert(actual@ != expected@);
        return Err(text("compiler identity mismatch"));
    }
    assert(actual@ =~= expected@);
    let nodes = r.record(fields[5], LIM1, 11)?;
    let ghost all = derefs(nodes@);
    let ghost m3 = r.remaining;
    let mut values: [u64; 11] = [0; 11];
    let mut i: usize = 0;
    assert(values@.take(0) =~= Seq::<u64>::empty());
    while i < 11
        invariant
            i <= 11,
            nodes@.len() == 11,
            all == derefs(nodes@),
            sp_field_values(all, 0, Seq::empty(), m3) == sp_field_values(all, i as nat, values@.take(i as int), r.remaining),
            r.remaining <= m3,
            r.clock == clock,
        decreases 11 - i,
    {
        let v = r.field(nodes[i])?;
        proof {
            assert(all[i as int] == *nodes@[i as int]);
        }
        let ghost prev = values@;
        values[i] = v;
        proof {
            assert(values@.take(i as int + 1) =~= prev.take(i as int).push(v));
        }
        i = i + 1;
    }
    assert(values@.take(11) =~= values@);
    let limits = JobLimits::admit_limits(values, host)?;
    proof {
        JobLimits::lemma_from_values(limits);
    }
    let spent = total - r.remaining;
    if spent > limits.validation_visits {
        return Err(text("job validation visits exhausted"));
    }
    r.remaining = limits.validation_visits - spent;
    r.sequence_limit = limits.sequence_length;
    Ok(JobHead { fields, limits, reader: r })
}

/// The string views of `s`.
pub open spec fn views(s: Seq<String>) -> Seq<Seq<char>> {
    s.map_values(|x: String| x@)
}

/// `a` sorts strictly before `b` by UTF-8 bytes.
pub open spec fn text_lt(a: Seq<char>, b: Seq<char>) -> bool {
    lex_lt(encode_utf8(a), encode_utf8(b))
}

/// Reads the cfg flags `nodes[i..]` after `acc`: identifiers in strictly increasing order.
pub open spec fn sp_flags(nodes: Seq<Noun>, i: nat, acc: Seq<Seq<char>>, rem: u32) -> Step<Seq<Seq<char>>>
    decreases nodes.len() - i,
{
    if i >= nodes.len() {
        (Ok(acc), rem)
    } else {
        let (f, m) = sp_string(nodes[i as int], 255, rem);
        match f {
            Err(e) => (Err(e), m),
            Ok(flag) => if !spec_identifier(flag) || (acc.len() > 0 && !text_lt(acc.last(), flag)) {
                (Err("cfg order/name"@), m)
            } else {
                sp_flags(nodes, i + 1, acc.push(flag), m)
            },
        }
    }
}

/// Compile options as read: target, input and output profile, optimization, cfg flags.
pub type OptionsView = (u64, u64, u64, u64, Seq<Seq<char>>);

/// Reads an OPT1 record whose flags are at most `max_flags` long.
pub open spec fn sp_options(n: Noun, max_flags: u32, seq: u32, rem: u32) -> Step<OptionsView> {
    let (o, m) = sp_record(n, OPT1, 5, rem);
    match o {
        Err(e) => (Err(e), m),
        Ok(fs) => {
            let (a, m1) = sp_field(fs[0], m);
            match a {
                Err(e) => (Err(e), m1),
                Ok(target) => {
                    let (b, m2) = sp_field(fs[1], m1);
                    match b {
                        Err(e) => (Err(e), m2),
                        Ok(input) => {
                            let (c, m3) = sp_field(fs[2], m2);
                            match c {
                                Err(e) => (Err(e), m3),
                                Ok(output) => {
                                    let (d, m4) = sp_field(fs[3], m3);
                                    match d {
                                        Err(e) => (Err(e), m4),
                                        Ok(opt) => if target != 0 || input > 1 || input != output || opt != 0 {
                                            (Err("unsupported compile option"@), m4)
                                        } else {
                                            let (l, m5) = sp_list(fs[4], max_flags, seq, m4);
                                            match l {
                                                Err(e) => (Err(e), m5),
                                                Ok(nodes) => {
                                                    let (fl, m6) = sp_flags(nodes, 0, Seq::empty(), m5);
                                                    match fl {
                                                        Err(e) => (Err(e), m6),
                                                        Ok(flags) => (Ok((target, input, output, opt, flags)), m6),
                                                    }
                                                },
                                            }
                                        },
                                    }
                                },
                            }
                        },
                    }
                },
            }
        },
    }
}

/// A module as read: path, origin name, origin version, source length,
/// the MOD1 node and its source node.
pub type ModuleView = (Seq<char>, Seq<char>, Seq<char>, u32, Noun, Noun);

/// Reads one MOD1 record that must sort after the path `prev`, with `source`
/// bytes of source still allowed.
pub open spec fn sp_module(n: Noun, prev: Option<Seq<char>>, source: u32, rem: u32) -> Step<ModuleView> {
    let (rec, r1) = sp_record(n, MOD1, 4, rem);
    match rec {
        Err(e) => (Err(e), r1),
        Ok(m) => {
            let (p, r2) = sp_string(m[0], 255, r1);
            match p {
                Err(e) => (Err(e), r2),
                Ok(path) => if !spec_module_path(path) || (prev matches Some(q) && !text_lt(q, path)) {
                    (Err("module order/name"@), r2)
                } else {
                    let (o, r3) = sp_string(m[1], 255, r2);
                    match o {
                        Err(e) => (Err(e), r3),
                        Ok(origin) => {
                            let (v, r4) = sp_string(m[2], 255, r3);
                            match v {
                                Err(e) => (Err(e), r4),
                                Ok(version) => if !spec_label(origin) || !spec_label(version) {
                                    (Err("origin label"@), r4)
                                } else {
                                    let (b, r5) = sp_bytes(m[3], source, r4);
                                    match b {
                                        Err(e) => (Err(e), r5),
                                        Ok(bytes) => (Ok((path, origin, version, bytes.len() as u32, n, m[3])), r5),
                                    }
                                },
                            }
                        },
                    }
                },
            }
        },
    }
}

/// Reads the MOD1 records `nodes[i..]` after `acc`, with `source` bytes of
/// source still allowed.
pub open spec fn sp_modules(nodes: Seq<Noun>, i: nat, acc: Seq<ModuleView>, source: u32, rem: u32) -> Step<Seq<ModuleView>>
    decreases nodes.len() - i,
{
    if i >= nodes.len() {
        (Ok(acc), rem)
    } else {
        let prev = if acc.len() > 0 { Some(acc.last().0) } else { None };
        let (x, m) = sp_module(nodes[i as int], prev, source, rem);
        match x {
            Err(e) => (Err(e), m),
            Ok(v) => sp_modules(nodes, i + 1, acc.push(v), (source - v.3) as u32, m),
        }
    }
}

/// Index of the first module at or after `i` whose path is `name`.
pub open spec fn find_module(mods: Seq<ModuleView>, name: Seq<char>, i: nat) -> Option<nat>
    decreases mods.len() - i,
{
    if i >= mods.len() {
        None
    } else if mods[i as int].0 == name {
        Some(i)
    } else {
        find_module(mods, name, i + 1)
    }
}

/// What the rest of a job admission reads, after the head: entry module and
/// function, options, modules, the entry module's index, and the allowance left.
pub type BodyView = (Seq<char>, Seq<char>, OptionsView, Seq<ModuleView>, nat, u32);

pub open spec fn sp_admit_body(fields: Seq<Noun>, limits: JobLimits, rem: u32, seq: u32) -> Result<BodyView, Seq<char>> {
    let (a, m1) = sp_string(fields[2], 255, rem);
    match a {
        Err(e) => Err(e),
        Ok(entry_module) => {
            let (b, m2) = sp_string(fields[3], 255, m1);
            match b {
                Err(e) => Err(e),
                Ok(entry_function) => if !spec_identifier(entry_module) || !spec_identifier(entry_function) {
                    Err("entry identifier"@)
                } else {
                    let (o, m3) = sp_options(fields[4], limits.sequence_length, seq, m2);
                    match o {
                        Err(e) => Err(e),
                        Ok(options) => {
                            let (p, m4) = sp_record(fields[1], PKG1, 1, m3);
                            match p {
                                Err(e) => Err(e),
                                Ok(package) => {
                                    let (l, m5) = sp_list(package[0], limits.modules, seq, m4);
                                    match l {
                                        Err(e) => Err(e),
                                        Ok(nodes) => {
                                            let (ms, m6) = sp_modules(nodes, 0, Seq::empty(), limits.source_bytes, m5);
                                            match ms {
                                                Err(e) => Err(e),
                                                Ok(mods) => match find_module(mods, entry_module, 0) {
                                                    None => Err("entry module absent"@),
                                                    Some(index) => Ok((entry_module, entry_function, options, mods, index, m6)),
                                                },
                                            }
                                        },
                                    }
                                },
                            }
                        },
                    }
                },
            }
        },
    }
}

/// What the admission reports of one module.
#[derive(Debug)]
pub struct ModuleReport {
    pub logical_path: String,
    pub origin_name: String,
    pub origin_version: String,
    pub particle: String,
    pub source_particle: String,
    pub source_bytes: u32,
}

/// The report matches a module as read.
pub open spec fn report_matches(r: ModuleReport, m: ModuleView) -> bool {
    &&& r.logical_path@ == m.0
    &&& r.origin_name@ == m.1
    &&& r.origin_version@ == m.2
    &&& r.source_bytes == m.3
    &&& r.particle@ == spec_particle(m.4)
    &&& r.source_particle@ == spec_particle(m.5)
}

/// An admitted compiler job.
pub struct Job {
    pub identity: [u64; 4],
    pub package_particle: String,
    pub modules: Vec<ModuleReport>,
    pub entry_index: u32,
    pub entry_module: String,
    pub entry_function: String,
    pub options: Options,
    pub limits: JobLimits,
    pub input_visits: u32,
}

/// The job is the one that `body` describes for the JOB1 `root` with `fields`.
pub open spec fn job_matches(j: Job, body: BodyView, root: Noun, fields: Seq<Noun>, limits: JobLimits) -> bool {
    let (em, ef, o, mods, index, rem) = body;
    &&& j.identity@ == noun_digest(root)
    &&& j.package_particle@ == spec_particle(fields[1])
    &&& j.modules@.len() == mods.len()
    &&& forall|i: int| 0 <= i < mods.len() ==> report_matches(#[trigger] j.modules@[i], mods[i])
    &&& j.entry_index == index
    &&& j.entry_module@ == em
    &&& j.entry_function@ == ef
    &&& j.options.target == o.0
    &&& j.options.input_profile == o.1
    &&& j.options.output_profile == o.2
    &&& j.options.optimization == o.3
    &&& views(j.options.cfg_flags@) == o.4
    &&& j.limits == limits
    &&& j.input_visits == limits.validation_visits - rem
}

#[verifier::rlimit(40)]
fn read_flags(r: &mut Reader, nodes: Vec<&Noun>) -> (res: Result<Vec<String>, String>)
    ensures
        final(r).sequence_limit == old(r).sequence_limit,
        final(r).remaining <= old(r).remaining,
        final(r).clock == old(r).clock,
        on_time(old(r).clock, res) ==> ({
            &&& final(r).remaining == sp_flags(derefs(nodes@), 0, Seq::empty(), old(r).remaining).1
            &&& match sp_flags(derefs(nodes@), 0, Seq::empty(), old(r).remaining).0 {
                Ok(flags) => res is Ok && views(res->Ok_0@) == flags,
                Err(e) => res is Err && res->Err_0@ == e,
            }
        }),
{
    let ghost all = derefs(nodes@);
    let ghost m0 = r.remaining;
    let mut flags: Vec<String> = Vec::new();
    let mut i: usize = 0;
    assert(views(flags@) =~= Seq::<Seq<char>>::empty());
    while i < nodes.len()
        invariant
            i <= nodes@.len(),
            all == derefs(nodes@),
            sp_flags(all, 0, Seq::empty(), m0) == sp_flags(all, i as nat, views(flags@), r.remaining),
            r.sequence_limit == old(r).sequence_limit,
            r.clock == old(r).clock,
            r.remaining <= m0,
            m0 == old(r).remaining,
        decreases nodes@.len() - i,
    {
        assert(all[i as int] == *nodes@[i as int]);
        let flag = r.string(nodes[i], 255)?;
        let bad_order = if flags.len() > 0 {
            let last = flags.len() - 1;
            !str_lt(flags[last].as_str(), flag.as_str())
        } else {
            false
        };
        proof {
            if flags@.len() > 0 {
                assert(views(flags@).last() == flags@[flags@.len() - 1]@);
            }
        }
        if !identifier(flag.as_str()) || bad_order {
            return Err(text("cfg order/name"));
        }
        let ghost before = views(flags@);
        let ghost fv = flag@;
        flags.push(flag);
        assert(views(flags@) =~= before.push(fv));
        i = i + 1;
    }
    Ok(flags)
}

/// Reads an OPT1 record.
fn read_options(r: &mut Reader, n: &Noun, max_flags: u32) -> (res: Result<Options, String>)
    ensures
        final(r).sequence_limit == old(r).sequence_limit,
        final(r).remaining <= old(r).remaining,
        final(r).clock == old(r).clock,
        on_time(old(r).clock, res) ==> ({
            &&& final(r).remaining == sp_options(*n, max_flags, old(r).sequence_limit, old(r).remaining).1
            &&& match sp_options(*n, max_flags, old(r).sequence_limit, old(r).remaining).0 {
                Ok(o) => res is Ok && res->Ok_0.target == o.0 && res->Ok_0.input_profile == o.1
                    && res->Ok_0.output_profile == o.2 && res->Ok_0.optimization == o.3
                    && views(res->Ok_0.cfg_flags@) == o.4,
                Err(e) => res is Err && res->Err_0@ == e,
            }
        }),
{
    let opts = r.record(n, OPT1, 5)?;
    let target = r.field(opts[0])?;
    let input_profile = r.field(opts[1])?;
    let output_profile = r.field(opts[2])?;
    let optimization = r.field(opts[3])?;
    if target != 0 || input_profile > 1 || input_profile != output_profile || optimization != 0 {
        return Err(text("unsupported compile option"));
    }
    let nodes = r.list(opts[4], max_flags)?;
    let cfg_flags = read_flags(r, nodes)?;
    Ok(Options { target, input_profile, output_profile, optimization, cfg_flags })
}

/// The module views of reports.
pub open spec fn reports_match(rs: Seq<ModuleReport>, ms: Seq<ModuleView>) -> bool {
    rs.len() == ms.len() && forall|i: int| 0 <= i < ms.len() ==> report_matches(#[trigger] rs[i], ms[i])
}

/// Reads one MOD1 record that must sort after `prev`.
#[verifier::rlimit(40)]
fn read_module(r: &mut Reader, node: &Noun, prev: Option<&str>, source: u32) -> (res: Result<ModuleReport, String>)
    ensures
        final(r).sequence_limit == old(r).sequence_limit,
        final(r).remaining <= old(r).remaining,
        final(r).clock == old(r).clock,
        on_time(old(r).clock, res) ==> ({
            &&& final(r).remaining == sp_module(*node, match prev { Some(p) => Some(p@), None => None }, source, old(r).remaining).1
            &&& match sp_module(*node, match prev { Some(p) => Some(p@), None => None }, source, old(r).remaining).0 {
                Ok(v) => res is Ok && report_matches(res->Ok_0, v) && v.3 <= source,
                Err(e) => res is Err && res->Err_0@ == e,
            }
        }),
{
    let m = r.record(node, MOD1, 4)?;
    let logical_path = r.string(m[0], 255)?;
    let bad_order = match prev {
        Some(p) => !str_lt(p, logical_path.as_str()),
        None => false,
    };
    if !is_module_path(logical_path.as_str()) || bad_order {
        return Err(text("module order/name"));
    }
    let origin_name = r.string(m[1], 255)?;
    let origin_version = r.string(m[2], 255)?;
    if !label(origin_name.as_str()) || !label(origin_version.as_str()) {
        return Err(text("origin label"));
    }
    let source_bytes = r.bytes(m[3], source)?;
    let len = source_bytes.len() as u32;
    Ok(ModuleReport {
        logical_path,
        origin_name,
        origin_version,
        particle: particle(node),
        source_particle: particle(m[3]),
        source_bytes: len,
    })
}

/// Reads the MOD1 records of a package.
#[verifier::rlimit(30)]
fn read_modules(r: &mut Reader, nodes: Vec<&Noun>, source: u32) -> (res: Result<Vec<ModuleReport>, String>)
    ensures
        final(r).sequence_limit == old(r).sequence_limit,
        final(r).remaining <= old(r).remaining,
        res is Ok ==> res->Ok_0@.len() == nodes@.len(),
        final(r).clock == old(r).clock,
        on_time(old(r).clock, res) ==> ({
            &&& final(r).remaining == sp_modules(derefs(nodes@), 0, Seq::empty(), source, old(r).remaining).1
            &&& match sp_modules(derefs(nodes@), 0, Seq::empty(), source, old(r).remaining).0 {
                Ok(mods) => res is Ok && reports_match(res->Ok_0@, mods),
                Err(e) => res is Err && res->Err_0@ == e,
            }
        }),
{
    let ghost all = derefs(nodes@);
    let ghost m0 = r.remaining;
    let mut modules: Vec<ModuleReport> = Vec::new();
    let ghost mut views_so_far: Seq<ModuleView> = Seq::empty();
    let mut source_remaining = source;
    let mut i: usize = 0;
    while i < nodes.len()
        invariant
            i <= nodes@.len(),
            all == derefs(nodes@),
            sp_modules(all, 0, Seq::empty(), source, m0) == sp_modules(all, i as nat, views_so_far, source_remaining, r.remaining),
            reports_match(modules@, views_so_far),
            modules@.len() == i,
            r.sequence_limit == old(r).sequence_limit,
            r.clock == old(r).clock,
            r.remaining <= m0,
            m0 == old(r).remaining,
        decreases nodes@.len() - i,
    {
        let node = nodes[i];
        assert(all[i as int] == *node);
        let prev: Option<&str> = if modules.len() > 0 {
            Some(modules[modules.len() - 1].logical_path.as_str())
        } else {
            None
        };
        proof {
            if modules@.len() > 0 {
                assert(report_matches(modules@[modules@.len() - 1], views_so_far[views_so_far.len() - 1]));
            }
        }
        let ghost prev_view: Option<Seq<char>> = match prev { Some(p) => Some(p@), None => None };
        assert(prev_view == if views_so_far.len() > 0 { Some(views_so_far.last().0) } else { None::<Seq<char>> });
        let ghost rem_before = r.remaining;
        let report = read_module(r, node, prev, source_remaining)?;
        let ghost view = match sp_module(*node, prev_view, source_remaining, rem_before).0 {
            Ok(v) => v,
            Err(_) => views_so_far[0],
        };
        assert(report_matches(report, view));
        source_remaining = source_remaining - report.source_bytes;
        let ghost old_mods = modules@;
        let ghost old_views = views_so_far;
        proof {
            views_so_far = views_so_far.push(view);
        }
        modules.push(report);
        proof {
            assert forall|j: int| 0 <= j < views_so_far.len() implies report_matches(#[trigger] modules@[j], views_so_far[j]) by {
                if j < old_views.len() {
                    assert(modules@[j] == old_mods[j]);
                    assert(report_matches(old_mods[j], old_views[j]));
                }
            }
        }
        i = i + 1;
    }
    Ok(modules)
}

proof fn lemma_find_module_bound(mods: Seq<ModuleView>, name: Seq<char>, i: nat)
    ensures
        find_module(mods, name, i) matches Some(k) ==> i <= k < mods.len(),
    decreases mods.len() - i,
{
    if i < mods.len() && mods[i as int].0 != name {
        lemma_find_module_bound(mods, name, i + 1);
    }
}

/// Index of the first report whose path is `name`.
fn find_entry(modules: &Vec<ModuleReport>, name: &String, Ghost(mods): Ghost<Seq<ModuleView>>) -> (r: Option<u32>)
    requires
        reports_match(modules@, mods),
        modules@.len() <= u32::MAX,
    ensures
        match find_module(mods, name@, 0) {
            Some(i) => r == Some(i as u32),
            None => r is None,
        },
{
    let mut i: usize = 0;
    while i < modules.len()
        invariant
            i <= modules@.len(),
            reports_match(modules@, mods),
            modules@.len() <= u32::MAX,
            find_module(mods, name@, 0) == find_module(mods, name@, i as nat),
        decreases modules@.len() - i,
    {
        assert(report_matches(modules@[i as int], mods[i as int]));
        if str_eq(modules[i].logical_path.as_str(), name.as_str()) {
            proof {
                vstd::utf8::encode_utf8_decode_utf8(modules@[i as int].logical_path@);
                vstd::utf8::encode_utf8_decode_utf8(name@);
            }
            return Some(i as u32);
        }
        proof {
            if mods[i as int].0 == name@ {
                assert(modules@[i as int].logical_path@ == name@);
            }
        }
        i = i + 1;
    }
    None
}

/// Rest of job admission, after [`admit_head`] and the container checks:
/// entry names, options, package modules, the entry module's index.
#[verifier::rlimit(40)]
#[verifier::loop_isolation(false)]
pub fn admit_body(root: &Noun, head: JobHead) -> (res: Result<Job, String>)
    requires
        head.fields@.len() == 6,
        head.reader.remaining <= head.limits.validation_visits,
    ensures
        on_time(head.reader.clock, res) ==> match sp_admit_body(derefs(head.fields@), head.limits, head.reader.remaining, head.reader.sequence_limit) {
            Ok(body) => res is Ok && job_matches(res->Ok_0, body, *root, derefs(head.fields@), head.limits),
            Err(e) => res is Err && res->Err_0@ == e,
        },
{
    let ghost fs = derefs(head.fields@);
    let JobHead { fields, limits, reader } = head;
    let mut r = reader;
    assert(fs[2] == *fields@[2] && fs[3] == *fields@[3] && fs[4] == *fields@[4] && fs[1] == *fields@[1]);
    let entry_module = r.string(fields[2], 255)?;
    let entry_function = r.string(fields[3], 255)?;
    if !identifier(entry_module.as_str()) || !identifier(entry_function.as_str()) {
        return Err(text("entry identifier"));
    }
    let options = read_options(&mut r, fields[4], limits.sequence_length)?;
    let package = r.record(fields[1], PKG1, 1)?;
    let nodes = r.list(package[0], limits.modules)?;
    let ghost mod_nodes = derefs(nodes@);
    let ghost m5 = r.remaining;
    let modules = read_modules(&mut r, nodes, limits.source_bytes)?;
    let ghost mods = match sp_modules(mod_nodes, 0, Seq::empty(), limits.source_bytes, m5).0 {
        Ok(ms) => ms,
        Err(_) => Seq::empty(),
    };
    let entry_index = match find_entry(&modules, &entry_module, Ghost(mods)) {
        Some(i) => i,
        None => {
            return Err(text("entry module absent"));
        },
    };
    let input_visits = limits.validation_visits - r.remaining;
    let job = Job {
        identity: digest_of(root),
        package_particle: particle(fields[1]),
        modules,
        entry_index,
        entry_module,
        entry_function,
        options,
        limits,
        input_visits,
    };
    proof {
        lemma_find_module_bound(mods, entry_module@, 0);
    }
    Ok(job)
}

} // verus!

verus! {

/// The byte-string noun of a text: its UTF-8 bytes.
pub open spec fn text_noun(s: Seq<char>) -> Noun {
    spec_wrap(BYT1, encode_utf8(s).len() as u64, spec_words(encode_utf8(s)))
}

/// The byte-string noun of raw bytes.
pub open spec fn bytes_noun(b: Seq<u8>) -> Noun {
    spec_wrap(BYT1, b.len() as u64, spec_words(b))
}

/// The MOD1 record of a module with its source bytes.
pub open spec fn module_noun(m: ModuleFile, source: Seq<u8>) -> Noun {
    spec_record(MOD1, seq![text_noun(m.logical_path@), text_noun(m.origin_name@), text_noun(m.origin_version@), bytes_noun(source)])
}

/// The atoms of `values`.
pub open spec fn atoms(values: Seq<u64>) -> Seq<Noun> {
    values.map_values(|v: u64| Noun::Atom(v))
}

/// The PKG1 record of the manifest's modules with the given sources.
pub open spec fn spec_package(m: Manifest, sources: Seq<Seq<u8>>) -> Noun {
    let mods = Seq::new(m.modules@.len(), |i: int| module_noun(m.modules@[i], sources[i]));
    spec_record(PKG1, seq![spec_wrap(SEQ1, mods.len() as u64, mods)])
}

/// The OPT1 record of compile options.
pub open spec fn spec_options_noun(o: Options) -> Noun {
    let flags = Seq::new(o.cfg_flags@.len(), |i: int| text_noun(o.cfg_flags@[i]@));
    spec_record(OPT1, seq![
        Noun::Atom(o.target), Noun::Atom(o.input_profile), Noun::Atom(o.output_profile), Noun::Atom(o.optimization),
        spec_wrap(SEQ1, flags.len() as u64, flags),
    ])
}

/// The JOB1 record of a manifest whose modules have the given sources,
/// for a compiler with digest `compiler`.
pub open spec fn spec_job_noun(compiler: Seq<u64>, m: Manifest, sources: Seq<Seq<u8>>) -> Noun {
    spec_record(JOB1, seq![
        spec_hash_data(compiler),
        spec_package(m, sources),
        text_noun(m.entry_module@),
        text_noun(m.entry_function@),
        spec_options_noun(m.options),
        spec_record(LIM1, atoms(m.limits.spec_values())),
    ])
}

/// A text whose UTF-8 encoding is longer than a U32 length.
pub open spec fn too_long(s: Seq<char>) -> bool {
    encode_utf8(s).len() > u32::MAX
}

/// Why the modules cannot be encoded, if they cannot.
pub open spec fn modules_refusal(m: Manifest, sources: Seq<Seq<u8>>) -> Option<Seq<char>> {
    if exists|i: int| 0 <= i < m.modules@.len() && module_too_long(#[trigger] m.modules@[i], sources[i]) {
        Some("package byte length"@)
    } else if m.modules@.len() > u32::MAX {
        Some("package sequence length"@)
    } else {
        None
    }
}

/// Why compile options cannot be encoded, if they cannot.
pub open spec fn options_refusal(o: Options) -> Option<Seq<char>> {
    if o.target >= P || o.input_profile >= P || o.output_profile >= P || o.optimization >= P {
        Some("noncanonical package field"@)
    } else if exists|i: int| 0 <= i < o.cfg_flags@.len() && too_long(#[trigger] o.cfg_flags@[i]@) {
        Some("package byte length"@)
    } else if o.cfg_flags@.len() > u32::MAX {
        Some("package sequence length"@)
    } else {
        None
    }
}

/// Why a manifest cannot be encoded, the first reason in encoding order.
pub open spec fn encode_refusal(m: Manifest, sources: Seq<Seq<u8>>) -> Option<Seq<char>> {
    if modules_refusal(m, sources) is Some {
        modules_refusal(m, sources)
    } else if too_long(m.entry_module@) || too_long(m.entry_function@) {
        Some("package byte length"@)
    } else if options_refusal(m.options) is Some {
        options_refusal(m.options)
    } else if exists|i: int| 0 <= i < 11 && #[trigger] m.limits.spec_values()[i] >= P {
        Some("noncanonical package field"@)
    } else {
        None
    }
}

/// A text as a byte-string noun.
fn write_text(s: &String) -> (r: Result<Noun, String>)
    ensures
        !too_long(s@) ==> r == Ok::<Noun, String>(text_noun(s@)),
        too_long(s@) ==> r is Err && r->Err_0@ == "package byte length"@,
{
    write_bytes(s.as_str().as_bytes())
}

/// A module whose texts or source are longer than a U32 length.
pub open spec fn module_too_long(m: ModuleFile, source: Seq<u8>) -> bool {
    too_long(m.logical_path@) || too_long(m.origin_name@) || too_long(m.origin_version@) || source.len() > u32::MAX
}

/// The MOD1 record of a module with its source.
fn encode_module(module: &ModuleFile, source: &Vec<u8>) -> (r: Result<Noun, String>)
    ensures
        !module_too_long(*module, source@) ==> r == Ok::<Noun, String>(module_noun(*module, source@)),
        module_too_long(*module, source@) ==> r is Err && r->Err_0@ == "package byte length"@,
{
    let path = write_text(&module.logical_path)?;
    let origin = write_text(&module.origin_name)?;
    let version = write_text(&module.origin_version)?;
    let src = write_bytes(source.as_slice())?;
    write_record(MOD1, vec![path, origin, version, src])
}

/// The PKG1 record of the manifest's modules with their sources.
#[verifier::rlimit(30)]
fn encode_package(manifest: &Manifest, sources: &Vec<Vec<u8>>) -> (r: Result<Noun, String>)
    requires
        sources@.len() == manifest.modules@.len(),
    ensures
        match modules_refusal(*manifest, sources@.map_values(|v: Vec<u8>| v@)) {
            None => r == Ok::<Noun, String>(spec_package(*manifest, sources@.map_values(|v: Vec<u8>| v@))),
            Some(e) => r is Err && r->Err_0@ == e,
        },
{
    let ghost srcs = sources@.map_values(|v: Vec<u8>| v@);
    let ghost mods_spec = Seq::new(manifest.modules@.len(), |i: int| module_noun(manifest.modules@[i], srcs[i]));
    let mut modules: Vec<Noun> = Vec::new();
    let mut i: usize = 0;
    while i < manifest.modules.len()
        invariant
            i <= manifest.modules@.len(),
            sources@.len() == manifest.modules@.len(),
            srcs == sources@.map_values(|v: Vec<u8>| v@),
            mods_spec == Seq::new(manifest.modules@.len(), |i: int| module_noun(manifest.modules@[i], srcs[i])),
            modules@ == mods_spec.take(i as int),
            forall|k: int| 0 <= k < i ==> !module_too_long(#[trigger] manifest.modules@[k], srcs[k]),
        decreases manifest.modules@.len() - i,
    {
        assert(srcs[i as int] == sources@[i as int]@);
        let record = encode_module(&manifest.modules[i], &sources[i]);
        match record {
            Ok(r) => {
                modules.push(r);
                assert(modules@ =~= mods_spec.take(i as int + 1));
            },
            Err(e) => {
                proof {
                    assert(module_too_long(manifest.modules@[i as int], srcs[i as int]));
                }
                return Err(e);
            },
        }
        i = i + 1;
    }
    assert(modules@ =~= mods_spec);
    let seq_node = write_seq(modules)?;
    let package_fields = vec![seq_node];
    assert(package_fields@ =~= seq![spec_wrap(SEQ1, mods_spec.len() as u64, mods_spec)]);
    write_record(PKG1, package_fields)
}

/// The OPT1 record of compile options.
fn encode_options(opts: &Options) -> (r: Result<Noun, String>)
    ensures
        match options_refusal(*opts) {
            None => r == Ok::<Noun, String>(spec_options_noun(*opts)),
            Some(e) => r is Err && r->Err_0@ == e,
        },
{
    let target = write_atom(opts.target)?;
    let input_profile = write_atom(opts.input_profile)?;
    let output_profile = write_atom(opts.output_profile)?;
    let optimization = write_atom(opts.optimization)?;
    let ghost flags_spec = Seq::new(opts.cfg_flags@.len(), |i: int| text_noun(opts.cfg_flags@[i]@));
    let mut flags: Vec<Noun> = Vec::new();
    let mut j: usize = 0;
    while j < opts.cfg_flags.len()
        invariant
            j <= opts.cfg_flags@.len(),
            flags_spec == Seq::new(opts.cfg_flags@.len(), |i: int| text_noun(opts.cfg_flags@[i]@)),
            flags@ == flags_spec.take(j as int),
            forall|k: int| 0 <= k < j ==> !too_long(#[trigger] opts.cfg_flags@[k]@),
            opts.target < P && opts.input_profile < P && opts.output_profile < P && opts.optimization < P,
        decreases opts.cfg_flags@.len() - j,
    {
        let f = write_text(&opts.cfg_flags[j])?;
        flags.push(f);
        assert(flags@ =~= flags_spec.take(j as int + 1));
        j = j + 1;
    }
    assert(flags@ =~= flags_spec);
    let flags = write_seq(flags)?;
    write_record(OPT1, vec![target, input_profile, output_profile, optimization, flags])
}

/// The LIM1 record of job limits.
fn encode_limits(limits: JobLimits) -> (r: Result<Noun, String>)
    ensures
        (exists|i: int| 0 <= i < 11 && #[trigger] limits.spec_values()[i] >= P) ==> r is Err && r->Err_0@ == "noncanonical package field"@,
        !(exists|i: int| 0 <= i < 11 && #[trigger] limits.spec_values()[i] >= P) ==> r == Ok::<Noun, String>(spec_record(LIM1, atoms(limits.spec_values()))),
{
    let values = limits.values();
    let mut fields: Vec<Noun> = Vec::new();
    let mut k: usize = 0;
    while k < 11
        invariant
            k <= 11,
            values@ == limits.spec_values(),
            fields@ == atoms(values@).take(k as int),
            forall|q: int| 0 <= q < k ==> #[trigger] values@[q] < P,
        decreases 11 - k,
    {
        let a = write_atom(values[k])?;
        fields.push(a);
        assert(fields@ =~= atoms(values@).take(k as int + 1));
        k = k + 1;
    }
    assert(fields@ =~= atoms(values@));
    write_record(LIM1, fields)
}

/// Encodes a normalized package manifest, with the sources of its modules in
/// module order, as a JOB1 record for the compiler with digest `compiler`.
pub fn encode_job(compiler: [u64; 4], manifest: &Manifest, sources: &Vec<Vec<u8>>) -> (r: Result<Noun, String>)
    requires
        sources@.len() == manifest.modules@.len(),
    ensures
        match encode_refusal(*manifest, sources@.map_values(|v: Vec<u8>| v@)) {
            None => r == Ok::<Noun, String>(spec_job_noun(compiler@, *manifest, sources@.map_values(|v: Vec<u8>| v@))),
            Some(e) => r is Err && r->Err_0@ == e,
        },
{
    let package = encode_package(manifest, sources)?;
    let compiler_node = hash_data(compiler);
    let entry = write_text(&manifest.entry_module)?;
    let function = write_text(&manifest.entry_function)?;
    let options = encode_options(&manifest.options)?;
    let limits = encode_limits(manifest.limits)?;
    let parts = vec![compiler_node, package, entry, function, options, limits];
    write_record(JOB1, parts)
}


/// The source allowance of a package after one more module's source: what is
/// left of `remaining` once `read` bytes are taken, none when they do not fit.
pub fn source_left(remaining: usize, read: usize) -> (r: Option<usize>)
    ensures
        read <= remaining ==> r == Some((remaining - read) as usize),
        read > remaining ==> r is None,
{
    if read > remaining {
        return None;
    }
    Some(remaining - read)
}

} // verus!
